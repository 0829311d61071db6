use rcat::glob::GlobMatcher;

#[test]
fn test_glob_matching() {
    assert!(GlobMatcher::matches("test.txt", "*.txt"));
    assert!(GlobMatcher::matches("test.txt", "test.*"));
    assert!(GlobMatcher::matches("test.txt", "*.*"));
    assert!(GlobMatcher::matches("test.txt", "test.txt"));
    assert!(!GlobMatcher::matches("test.txt", "*.rs"));
    assert!(GlobMatcher::matches("a", "?"));
    assert!(!GlobMatcher::matches("ab", "?"));
    assert!(GlobMatcher::matches("test_file", "test_*"));
    assert!(GlobMatcher::matches("anything", "*"));
}

#[test]
fn test_glob_match() {
    assert!(GlobMatcher::matches("test.txt", "*.txt"));
    assert!(GlobMatcher::matches("test.txt", "test.*"));
    assert!(GlobMatcher::matches("test.txt", "*.*"));
    assert!(GlobMatcher::matches("test.txt", "test.txt"));
    assert!(!GlobMatcher::matches("test.txt", "*.rs"));
    assert!(GlobMatcher::matches("a", "?"));
    assert!(!GlobMatcher::matches("ab", "?"));
}

#[test]
fn star_matches_every_text() {
    for text in ["", "a", "abc", "a/b", "*", "?", "\u{e9}t\u{e9}", "  "] {
        assert!(GlobMatcher::matches(text, "*"), "{:?}", text);
    }
}

#[test]
fn empty_pattern_matches_only_empty_text() {
    assert!(GlobMatcher::matches("", ""));
    assert!(!GlobMatcher::matches("a", ""));
    assert!(!GlobMatcher::matches("", "a"));
    assert!(!GlobMatcher::matches("", "?"));
    assert!(GlobMatcher::matches("", "**"));
}

#[test]
fn literal_pattern_needs_equal_text() {
    assert!(GlobMatcher::matches("Makefile", "Makefile"));
    assert!(!GlobMatcher::matches("Makefile", "makefile"));
    assert!(!GlobMatcher::matches("Makefile2", "Makefile"));
    assert!(!GlobMatcher::matches("Makefil", "Makefile"));
}

#[test]
fn star_goes_back_after_a_mismatch() {
    assert!(GlobMatcher::matches("aaab", "*ab"));
    assert!(GlobMatcher::matches("abcabcabd", "*abd"));
    assert!(GlobMatcher::matches("abxabyabz", "a*y*z"));
    assert!(!GlobMatcher::matches("abxabyab", "a*y*z"));
    assert!(GlobMatcher::matches("mississippi", "m*iss*ppi"));
    assert!(!GlobMatcher::matches("mississippi", "m*iss*ppx"));
    assert!(GlobMatcher::matches("abc", "a*b*c*"));
    assert!(GlobMatcher::matches("abc", "***abc***"));
}

#[test]
fn question_mark_takes_one_character() {
    assert!(GlobMatcher::matches("abc", "a?c"));
    assert!(!GlobMatcher::matches("ac", "a?c"));
    assert!(GlobMatcher::matches("abc", "???"));
    assert!(!GlobMatcher::matches("abcd", "???"));
    assert!(GlobMatcher::matches("abcd", "?*"));
    assert!(!GlobMatcher::matches("", "?*"));
    assert!(GlobMatcher::matches("\u{e9}", "?"));
}

#[test]
fn matches_chars_agrees_with_matches() {
    let text: Vec<char> = "notes.txt".chars().collect();
    let pattern: Vec<char> = "n*.t?t".chars().collect();
    assert!(GlobMatcher::matches_chars(&text, &pattern));
    let other: Vec<char> = "n*.rs".chars().collect();
    assert!(!GlobMatcher::matches_chars(&text, &other));
    assert!(GlobMatcher::contains_wildcard(&pattern));
    assert!(!GlobMatcher::contains_wildcard(&text));
}
