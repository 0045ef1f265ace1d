use seal::traits::match_pattern;

#[test]
fn match_pattern_test_empty() {
    let match_stat = match_pattern("", "");
    assert_eq!(match_stat, true);
}

#[test]
fn match_end_star() {
    let match_stat = match_pattern("data.txt", "data.*");
    assert_eq!(match_stat, true);
}

#[test]
fn match_start_dot() {
    let match_stat = match_pattern(".data.txt", ".*");
    assert_eq!(match_stat, true);
}

#[test]
fn match_start_star() {
    let match_stat = match_pattern("Data.txt", "D*");
    assert_eq!(match_stat, true);
    let match_stat = match_pattern("data.js", "*.txt");
    assert_eq!(match_stat, false);
}

#[test]
fn match_needs_backtracking() {
    assert!(match_pattern("abcbcd", "a*bcd"));
    assert!(match_pattern("aaab", "*a*b"));
    assert!(!match_pattern("abc", "a*d"));
    assert!(match_pattern("anything", "*"));
    assert!(match_pattern("", "**"));
    assert!(!match_pattern("a", ""));
}

#[test]
fn star_in_data_is_taken_literally_first() {
    // A `*` in the data meets the pattern's `*` as an equal character.
    assert!(!match_pattern("*a", "*"));
    assert!(match_pattern("*", "*"));
}
