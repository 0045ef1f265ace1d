use seal::completion::{
    highlight_words, produce_replacement, sort_entries, CompletionEntry, FileCompletion,
};
use seal::text::split_whitespace;

fn entry(name: &str, key: usize, is_file: bool) -> CompletionEntry {
    CompletionEntry { name: name.to_string(), key, is_file }
}

#[test]
fn query_splits_the_last_word() {
    let fc = FileCompletion {};
    let q = fc.query("cat src/ma");
    assert_eq!(q.prefix, "src/ma");
    assert_eq!(q.child, "ma");
    assert_eq!(q.parent, "src/");
    assert_eq!(q.start, 4);
}

#[test]
fn query_of_empty_line() {
    let fc = FileCompletion {};
    let q = fc.query("");
    assert_eq!(q.prefix, "");
    assert_eq!(q.child, "");
    assert_eq!(q.parent, "");
    assert_eq!(q.start, 0);
}

#[test]
fn query_counts_bytes() {
    let fc = FileCompletion {};
    let q = fc.query("ä b");
    assert_eq!(q.prefix, "b");
    assert_eq!(q.start, 3);
}

#[test]
fn candidates_are_sorted_filtered_and_case_insensitive() {
    let fc = FileCompletion {};
    let q = fc.query("vim Da");
    let entries = vec![
        entry("data.txt", 10, true),
        entry("other", 7, false),
        entry("DATA dir", 10, false),
        entry("db", 4, true),
    ];
    let cands = fc.candidates(&q, entries);
    let shown: Vec<(String, String)> =
        cands.into_iter().map(|c| (c.display, c.replacement)).collect();
    assert_eq!(
        shown,
        vec![
            ("data.txt".to_string(), "data.txt".to_string()),
            ("DATA\\ dir".to_string(), "DATA\\ dir/".to_string()),
        ]
    );
}

#[test]
fn empty_prefix_offers_everything() {
    let fc = FileCompletion {};
    let q = fc.query("   ");
    let cands = fc.candidates(&q, vec![entry("b b", 5, true), entry("a", 3, false)]);
    let shown: Vec<(String, String)> =
        cands.into_iter().map(|c| (c.display, c.replacement)).collect();
    assert_eq!(
        shown,
        vec![("a".to_string(), "a".to_string()), ("b\\ b".to_string(), "b\\ b".to_string())]
    );
}

#[test]
fn sorting_is_stable() {
    let sorted = sort_entries(vec![entry("c", 2, true), entry("a", 1, true), entry("b", 2, true)]);
    let names: Vec<String> = sorted.into_iter().map(|e| e.name).collect();
    assert_eq!(names, vec!["a", "c", "b"]);
}

#[test]
fn replacement_marks_directories() {
    assert_eq!(produce_replacement("src/", "main.rs", true), "src/main.rs");
    assert_eq!(produce_replacement("", "src", false), "src/");
}

#[test]
fn words_are_highlighted() {
    let words = split_whitespace("  ls   echo foo ");
    assert_eq!(words, vec!["ls", "echo", "foo"]);
    let line = highlight_words(&words, &vec![true, false, false]);
    assert_eq!(line, "\x1b[1;97mls\x1b[0m \x1b[1;93mecho\x1b[0m foo ");
}

#[test]
fn regular_file_with_a_space_gets_no_slash() {
    let fc = FileCompletion {};
    let q = fc.query("cat my");
    let entries = vec![entry("my file.txt", 11, true), entry("my dir", 6, false)];
    let shown: Vec<(String, String)> =
        fc.candidates(&q, entries).into_iter().map(|c| (c.display, c.replacement)).collect();
    assert_eq!(
        shown,
        vec![
            ("my\\ dir".to_string(), "my\\ dir/".to_string()),
            ("my\\ file.txt".to_string(), "my\\ file.txt".to_string()),
        ]
    );
}
