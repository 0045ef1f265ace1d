use seal::traits::{
    env_var_name, expand_env, expand_glob, expand_path, plan_glob, DirEntry, EscapeTrait, GlobPlan,
};

fn entry(name: &str, path: &str) -> DirEntry {
    DirEntry { name: name.to_string(), path: path.to_string() }
}

#[test]
fn tilde_becomes_home_once() {
    assert_eq!(expand_path("~/src", "/home/seal"), "/home/seal/src");
    assert_eq!(expand_path("a~b~", "/h"), "a/hb~");
    assert_eq!(expand_path("plain", "/h"), "plain");
}

#[test]
fn words_without_star_are_plain() {
    assert!(matches!(plan_glob("file.txt"), Some(GlobPlan::Plain)));
    assert_eq!(expand_glob("file.txt", None), vec!["file.txt"]);
}

#[test]
fn relative_patterns_search_the_current_directory() {
    match plan_glob("./*.rs") {
        Some(GlobPlan::Search { dir, pattern }) => {
            assert_eq!(dir, "./");
            assert_eq!(pattern, "*.rs");
        }
        _ => panic!("expected a search"),
    }
    match plan_glob("src/*.rs") {
        Some(GlobPlan::Search { dir, pattern }) => {
            assert_eq!(dir, "./");
            assert_eq!(pattern, "src/*.rs");
        }
        _ => panic!("expected a search"),
    }
}

#[test]
fn absolute_patterns_search_their_directory() {
    match plan_glob("/usr/lib/*.so") {
        Some(GlobPlan::Search { dir, pattern }) => {
            assert_eq!(dir, "/usr/lib/");
            assert_eq!(pattern, "*.so");
        }
        _ => panic!("expected a search"),
    }
}

#[test]
fn pattern_without_file_name_has_no_plan() {
    assert!(plan_glob("*/..").is_none());
}

#[test]
fn glob_keeps_matching_visible_entries_in_order() {
    let listing = vec![
        entry("b.rs", "./b.rs"),
        entry(".hidden.rs", "./.hidden.rs"),
        entry("a.txt", "./a.txt"),
        entry("a.rs", "./a.rs"),
    ];
    assert_eq!(expand_glob("*.rs", Some(listing)), vec!["./b.rs", "./a.rs"]);
    assert!(expand_glob("*.rs", None).is_empty());
}

#[test]
fn escaping_spaces() {
    assert_eq!("my file name".escape_spaces(), "my\\ file\\ name");
    assert_eq!("none".escape_spaces(), "none");
}

#[test]
fn environment_references() {
    assert_eq!(env_var_name("$HOME"), Some("HOME".to_string()));
    assert_eq!(env_var_name("HOME"), None);
    assert_eq!(expand_env("$HOME", Some("/root".to_string())), "/root");
    assert_eq!(expand_env("$NOPE", None), "$NOPE");
    assert_eq!(expand_env("word", Some("x".to_string())), "word");
}
