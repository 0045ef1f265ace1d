use seal::builtins::{cd_error_message, cd_target, echo_output, lua_script, type_message};
use seal::models::{Builtins, Command, CommandKind, CommandLookup};
use seal::utils::is_builtin;

fn strings(v: &[&str]) -> Vec<String> {
    v.iter().map(|s| s.to_string()).collect()
}

#[test]
fn echo_joins_its_arguments() {
    assert_eq!(echo_output(&strings(&["echo", "Hello,", "Seal!"])), "Hello, Seal!\n");
    assert_eq!(echo_output(&strings(&["echo"])), "\n");
    assert_eq!(echo_output(&vec![]), "\n");
}

#[test]
fn type_reports_where_a_program_is() {
    assert_eq!(type_message("ls", Some("/bin/ls".to_string())), "ls is /bin/ls\n");
    assert_eq!(type_message("nope", None), "nope: not found\n");
    assert_eq!(type_message("cd", None), "cd is a shell builtin\n");
}

#[test]
fn cd_targets() {
    assert_eq!(cd_target(&strings(&["cd"]), Some("/home/me".to_string())), "/home/me");
    assert_eq!(cd_target(&strings(&["cd"]), None), "/");
    assert_eq!(cd_target(&strings(&["cd", "src", "x"]), None), "src");
    assert_eq!(cd_error_message(&strings(&["cd", "nowhere"])), "cd: nowhere: No such file or directory");
}

#[test]
fn lua_script_joins_the_rest() {
    assert_eq!(lua_script(&strings(&["slua", "print(1)", "print(2)"])), "print(1) print(2)");
    assert_eq!(lua_script(&strings(&["slua"])), "");
}

#[test]
fn builtin_names() {
    assert_eq!(is_builtin("echo"), Some(Builtins::Echo));
    assert_eq!(is_builtin("slua"), Some(Builtins::Lua));
    assert_eq!(is_builtin("fg"), Some(Builtins::Fg));
    assert_eq!(is_builtin("jobs"), Some(Builtins::Jobs));
    assert_eq!(is_builtin("exec"), Some(Builtins::Exec));
    assert_eq!(is_builtin("ls"), None);
}

#[test]
fn command_kinds_and_lookup() {
    let mut c = Command { program: "./run.sh".to_string(), args: strings(&["./run.sh"]), redirects: vec![] };
    assert_eq!(c.kind(), CommandKind::External);
    match c.lookup() {
        CommandLookup::Relative(n) => assert_eq!(n, "run.sh"),
        CommandLookup::Search(_) => panic!("expected a relative lookup"),
    }
    assert!(c.find_binary_from_path(Some("/work/run.sh".to_string())));
    assert_eq!(c.program, "/work/run.sh");
    assert!(!c.find_binary_from_path(None));
    assert_eq!(c.program, "/work/run.sh");
    let p = Command { program: "pwd".to_string(), args: strings(&["pwd"]), redirects: vec![] };
    assert_eq!(p.kind(), CommandKind::Builtin(Builtins::Pwd));
    match p.lookup() {
        CommandLookup::Search(n) => assert_eq!(n, "pwd"),
        CommandLookup::Relative(_) => panic!("expected a search"),
    }
    let q = Command { program: "./a/./b".to_string(), args: vec![], redirects: vec![] };
    match q.lookup() {
        CommandLookup::Relative(n) => assert_eq!(n, "a/b"),
        CommandLookup::Search(_) => panic!("expected a relative lookup"),
    }
}
