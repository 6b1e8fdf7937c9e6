use image_text_search::text::{contains_str, str_eq};

#[test]
fn containment_is_contiguous() {
    assert!(contains_str("hello world", "lo wo"));
    assert!(contains_str("hello world", ""));
    assert!(contains_str("hello world", "hello world"));
    assert!(!contains_str("hello world", "hello  world"));
    assert!(!contains_str("abc", "abcd"));
    assert!(!contains_str("", "a"));
    assert!(contains_str("", ""));
}

#[test]
fn equality_is_exact() {
    assert!(str_eq("käse", "käse"));
    assert!(!str_eq("Käse", "käse"));
    assert!(!str_eq("a", "ab"));
    assert!(str_eq("", ""));
}
