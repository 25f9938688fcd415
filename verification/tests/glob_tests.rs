use ununlink::glob::{glob_match_ci, is_literal_pattern};

#[test]
fn star_matches_everything() {
    for name in ["", "a", "abc", "*", "a*b", "?.txt", "Ärger"] {
        assert!(glob_match_ci(name, "*"));
    }
}

#[test]
fn empty_pattern_matches_only_the_empty_name() {
    assert!(glob_match_ci("", ""));
    assert!(!glob_match_ci("a", ""));
}

#[test]
fn question_mark_stands_for_one_character() {
    assert!(glob_match_ci("abc", "a?c"));
    assert!(!glob_match_ci("abc", "a?"));
    assert!(!glob_match_ci("ac", "a?c"));
    assert!(glob_match_ci("aéc", "a?c"));
}

#[test]
fn ascii_case_is_ignored() {
    assert!(glob_match_ci("Report.TXT", "report.txt"));
    assert!(glob_match_ci("report.txt", "REPORT.*"));
    assert!(glob_match_ci("A_2.TXT", "a_?.t?t"));
    assert!(!glob_match_ci("Ä", "ä"));
}

#[test]
fn stars_backtrack() {
    assert!(glob_match_ci("abcabcabd", "*abd"));
    assert!(glob_match_ci("mississippi", "m*iss*ppi"));
    assert!(!glob_match_ci("mississippi", "m*iss*ppx"));
    assert!(glob_match_ci("a.b.c", "*.*.c"));
    assert!(glob_match_ci("abc", "a**c"));
    assert!(glob_match_ci("abc", "abc***"));
    assert!(!glob_match_ci("abc", "*d*"));
}

#[test]
fn literal_patterns_hold_no_wildcard() {
    assert!(is_literal_pattern("report.txt"));
    assert!(is_literal_pattern(""));
    assert!(!is_literal_pattern("*.txt"));
    assert!(!is_literal_pattern("a?c"));
}
