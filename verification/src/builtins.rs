//! What the builtins print and how they read their arguments.
use vstd::prelude::*;

use crate::models::strings_view;
use crate::text::{chars_of, extend_chars, join, join_from, string_of};
use crate::utils::{is_builtin, spec_builtin};

verus! {

/// What `echo` prints: its arguments after the command name, joined by
/// spaces, and a newline.
pub open spec fn spec_echo(args: Seq<Seq<char>>) -> Seq<char> {
    join(if args.len() > 0 {
        args.drop_first()
    } else {
        args
    }, " "@) + "\n"@
}

/// The text that `echo` writes for its arguments (the command name first).
pub fn echo_output(args: &Vec<String>) -> (r: String)
    ensures
        r@ == spec_echo(strings_view(args@)),
{
    let from: usize = if args.len() > 0 {
        1
    } else {
        0
    };
    let joined = join_from(args, from, " ");
    let mut out = chars_of(joined.as_str());
    extend_chars(&mut out, &chars_of("\n"));
    proof {
        let v = strings_view(args@);
        if args.len() > 0 {
            assert(v.skip(1) =~= v.drop_first());
        } else {
            assert(v.skip(0) =~= v);
        }
    }
    string_of(&out)
}

/// What `type` prints for `name`: that it is a builtin, where it was
/// found on the search path, or that it was not found.
pub open spec fn spec_type_message(name: Seq<char>, found: Option<Seq<char>>) -> Seq<char> {
    if spec_builtin(name) is Some {
        name + " is a shell builtin\n"@
    } else {
        match found {
            Some(p) => name + " is "@ + p + "\n"@,
            None => name + ": not found\n"@,
        }
    }
}

/// The line that `type` writes for `name`; `found` is the path where the
/// search path has it, if anywhere (asked only for names that are not
/// builtins).
pub fn type_message(name: &str, found: Option<String>) -> (r: String)
    ensures
        r@ == spec_type_message(name@, match found {
            Some(p) => Some(p@),
            None => None,
        }),
{
    let mut out = chars_of(name);
    if is_builtin(name).is_some() {
        extend_chars(&mut out, &chars_of(" is a shell builtin\n"));
        return string_of(&out);
    }
    match found {
        Some(p) => {
            extend_chars(&mut out, &chars_of(" is "));
            extend_chars(&mut out, &chars_of(p.as_str()));
            extend_chars(&mut out, &chars_of("\n"));
        },
        None => {
            extend_chars(&mut out, &chars_of(": not found\n"));
        },
    }
    string_of(&out)
}

/// The directory that `cd` changes to: its argument, or with none the home
/// directory, or `/` when that is unknown.
pub open spec fn spec_cd_target(args: Seq<Seq<char>>, home: Option<Seq<char>>) -> Seq<char> {
    if args.len() == 1 {
        match home {
            Some(h) => h,
            None => "/"@,
        }
    } else {
        args[1]
    }
}

/// The directory that `cd` changes to (see [`spec_cd_target`]).
pub fn cd_target(args: &Vec<String>, home: Option<String>) -> (r: String)
    requires
        args.len() >= 1,
    ensures
        r@ == spec_cd_target(strings_view(args@), match home {
            Some(h) => Some(h@),
            None => None,
        }),
{
    if args.len() == 1 {
        match home {
            Some(h) => h,
            None => string_of(&chars_of("/")),
        }
    } else {
        string_of(&chars_of(args[1].as_str()))
    }
}

/// The message of `cd` when it cannot change to its argument.
pub fn cd_error_message(args: &Vec<String>) -> (r: String)
    requires
        args.len() >= 2,
    ensures
        r@ == "cd: "@ + args@[1]@ + ": No such file or directory"@,
{
    let mut out = chars_of("cd: ");
    extend_chars(&mut out, &chars_of(args[1].as_str()));
    extend_chars(&mut out, &chars_of(": No such file or directory"));
    string_of(&out)
}

/// The Lua script of `slua`: its arguments after the command name, joined
/// by spaces.
pub fn lua_script(args: &Vec<String>) -> (r: String)
    requires
        args.len() >= 1,
    ensures
        r@ == join(strings_view(args@).skip(1), " "@),
{
    join_from(args, 1, " ")
}

} // verus!
