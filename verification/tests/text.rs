use http_headers::text::{contains_str, find_first, split_at_first, split_str, str_eq, trim_leading};

#[test]
fn substring_search() {
    assert!(contains_str("text/html", "html"));
    assert!(contains_str("text/html", ""));
    assert!(!contains_str("text/html", "json"));
    assert!(!contains_str("", "a"));
    assert!(contains_str("", ""));
}

#[test]
fn split_on_separator() {
    let parts = split_str("a;;b", ";");
    assert_eq!(parts, vec!["a", "", "b"]);
    let parts = split_str("no-separator", ";");
    assert_eq!(parts, vec!["no-separator"]);
    let parts = split_str("a\r\nb\r\n", "\r\n");
    assert_eq!(parts, vec!["a", "b", ""]);
}

#[test]
fn split_at_first_occurrence() {
    assert_eq!(split_at_first("key: a: b", ": "), Some(("key", "a: b")));
    assert_eq!(split_at_first("nothing", ": "), None);
}

#[test]
fn leftmost_match_index() {
    assert_eq!(find_first("abcbc", "bc"), 1);
    assert_eq!(find_first("abc", "zz"), 3);
}

#[test]
fn string_equality_and_trimming() {
    assert!(str_eq("Accept", "Accept"));
    assert!(!str_eq("Accept", "accept"));
    assert_eq!(trim_leading("\n\nX", '\n'), "X");
    assert_eq!(trim_leading("X\n", '\n'), "X\n");
}
