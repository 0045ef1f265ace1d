//! Builtin names.
use vstd::prelude::*;

use crate::models::Builtins;
use crate::text::str_eq;

verus! {

/// The builtin that a command name names, if any.
pub open spec fn spec_builtin(name: Seq<char>) -> Option<Builtins> {
    if name == "echo"@ {
        Some(Builtins::Echo)
    } else if name == "exit"@ {
        Some(Builtins::Exit)
    } else if name == "type"@ {
        Some(Builtins::Type)
    } else if name == "jobs"@ {
        Some(Builtins::Jobs)
    } else if name == "slua"@ {
        Some(Builtins::Lua)
    } else if name == "pwd"@ {
        Some(Builtins::Pwd)
    } else if name == "cd"@ {
        Some(Builtins::Cd)
    } else if name == "fg"@ {
        Some(Builtins::Fg)
    } else if name == "exec"@ {
        Some(Builtins::Exec)
    } else {
        None
    }
}

/// The builtin named `path`, if any.
pub fn is_builtin(path: &str) -> (b: Option<Builtins>)
    ensures
        b == spec_builtin(path@),
{
    if str_eq(path, "echo") {
        Some(Builtins::Echo)
    } else if str_eq(path, "exit") {
        Some(Builtins::Exit)
    } else if str_eq(path, "type") {
        Some(Builtins::Type)
    } else if str_eq(path, "jobs") {
        Some(Builtins::Jobs)
    } else if str_eq(path, "slua") {
        Some(Builtins::Lua)
    } else if str_eq(path, "pwd") {
        Some(Builtins::Pwd)
    } else if str_eq(path, "cd") {
        Some(Builtins::Cd)
    } else if str_eq(path, "fg") {
        Some(Builtins::Fg)
    } else if str_eq(path, "exec") {
        Some(Builtins::Exec)
    } else {
        None
    }
}

/// Each builtin's name names it, and no other name names a builtin.
pub proof fn law_builtin_names(name: Seq<char>)
    ensures
        spec_builtin("echo"@) == Some(Builtins::Echo),
        spec_builtin("exit"@) == Some(Builtins::Exit),
        spec_builtin("type"@) == Some(Builtins::Type),
        spec_builtin("jobs"@) == Some(Builtins::Jobs),
        spec_builtin("slua"@) == Some(Builtins::Lua),
        spec_builtin("pwd"@) == Some(Builtins::Pwd),
        spec_builtin("cd"@) == Some(Builtins::Cd),
        spec_builtin("fg"@) == Some(Builtins::Fg),
        spec_builtin("exec"@) == Some(Builtins::Exec),
        spec_builtin(name) is Some ==> name == "echo"@ || name == "exit"@ || name == "type"@ || name
            == "jobs"@ || name == "slua"@ || name == "pwd"@ || name == "cd"@ || name == "fg"@ || name
            == "exec"@,
{
    reveal_strlit("echo");
    reveal_strlit("exit");
    reveal_strlit("type");
    reveal_strlit("jobs");
    reveal_strlit("slua");
    reveal_strlit("pwd");
    reveal_strlit("cd");
    reveal_strlit("fg");
    reveal_strlit("exec");
    assert("echo"@.len() == 4 && "exit"@.len() == 4 && "type"@.len() == 4 && "jobs"@.len() == 4);
    assert("slua"@.len() == 4 && "exec"@.len() == 4 && "pwd"@.len() == 3);
    assert("cd"@.len() == 2 && "fg"@.len() == 2);
    assert("fg"@[0] != "cd"@[0]);
    assert("exit"@[1] != "echo"@[1]);
    assert("type"@[0] != "echo"@[0] && "type"@[0] != "exit"@[0]);
    assert("jobs"@[0] != "echo"@[0] && "jobs"@[0] != "exit"@[0] && "jobs"@[0] != "type"@[0]);
    assert("exec"@[1] != "echo"@[1] && "exec"@[2] != "exit"@[2]);
}

} // verus!
