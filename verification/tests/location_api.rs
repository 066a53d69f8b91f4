//! Tests for the best-effort source-location selection.

use event_emitter::location::{contains_str, find_marked};

#[test]
fn finds_the_first_marked_path() {
    let files = vec![
        String::from("/deps/backtrace/lib.rs"),
        String::from("/home/me/proj/src/main.rs"),
        String::from("/home/me/proj/src/main.rs"),
    ];
    assert_eq!(find_marked(&files, "src/main.rs"), Some(1));
}

#[test]
fn reports_none_without_a_marked_path() {
    let files = vec![String::from("/deps/std/panic.rs"), String::from("lib.rs")];
    assert_eq!(find_marked(&files, "src/main.rs"), None);
    assert_eq!(find_marked(&Vec::new(), "src/main.rs"), None);
}

#[test]
fn substring_search_matches_exactly() {
    assert!(contains_str("a/src/main.rs:12", "src/main.rs"));
    assert!(contains_str("abc", ""));
    assert!(!contains_str("src/main.r", "src/main.rs"));
    assert!(!contains_str("", "x"));
    assert!(contains_str("xx", "xx"));
}
