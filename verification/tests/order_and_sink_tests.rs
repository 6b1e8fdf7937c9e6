use image_text_search::model::{ImageEntry, Index};
use image_text_search::natural::{nat_cmp_chars, natural_le, sort_natural};
use image_text_search::sink::{first_entries, join_lines};

#[test]
fn numeric_runs_compare_by_value() {
    assert!(natural_le("50", "100"));
    assert!(!natural_le("100", "50"));
    assert!(natural_le("img2.png", "img10.png"));
    assert!(!natural_le("img10.png", "img2.png"));
}

#[test]
fn equal_strings_compare_equal() {
    let a: Vec<char> = "file7.png".chars().collect();
    let b: Vec<char> = "file7.png".chars().collect();
    assert_eq!(nat_cmp_chars(&a, &b), 0);
    assert!(natural_le("file7.png", "file7.png"));
}

#[test]
fn leading_zeros_break_ties_by_plain_order() {
    // Equal numeric value: the plain code-point comparison decides.
    assert!(natural_le("a01", "a1"));
    assert!(!natural_le("a1", "a01"));
    let a: Vec<char> = "a01".chars().collect();
    let b: Vec<char> = "a1".chars().collect();
    assert_eq!(nat_cmp_chars(&a, &b), -1);
}

#[test]
fn letters_compare_case_insensitively() {
    assert!(natural_le("a.png", "B.png"));
    assert!(!natural_le("B.png", "a.png"));
    // Same letters up to case: the plain code-point comparison decides.
    assert!(natural_le("A.png", "a.png"));
    assert!(!natural_le("a.png", "A.png"));
}

#[test]
fn punctuation_before_digits_before_letters() {
    assert!(natural_le("a-b", "a1b"));
    assert!(!natural_le("a1b", "a-b"));
    assert!(natural_le("a1b", "aab"));
    assert!(!natural_le("aab", "a1b"));
}

#[test]
fn sort_orders_names_naturally() {
    let mut v = vec![
        String::from("img10.png"),
        String::from("img2.png"),
        String::from("img1.png"),
    ];
    sort_natural(&mut v);
    assert_eq!(
        v,
        vec![
            String::from("img1.png"),
            String::from("img2.png"),
            String::from("img10.png"),
        ]
    );
}

#[test]
fn sort_keeps_all_elements() {
    let mut v = vec![
        String::from("b"),
        String::from("a"),
        String::from("b"),
        String::from("10"),
        String::from("9"),
    ];
    sort_natural(&mut v);
    assert_eq!(
        v,
        vec![
            String::from("9"),
            String::from("10"),
            String::from("a"),
            String::from("b"),
            String::from("b"),
        ]
    );
}

#[test]
fn join_is_newline_separated_without_trailing_content() {
    let v = vec![String::from("a.png"), String::from("b.png")];
    assert_eq!(join_lines(&v), "a.png\nb.png");
    assert_eq!(join_lines(&Vec::new()), "");
    assert_eq!(join_lines(&vec![String::from("only.png")]), "only.png");
}

fn entry(text: &str) -> ImageEntry {
    ImageEntry { lines: Vec::new(), text: String::from(text) }
}

#[test]
fn first_entries_caps_at_requested_count() {
    let mut ix = Index::new();
    ix.insert(String::from("one.png"), entry("first"));
    ix.insert(String::from("two.png"), entry("second"));
    ix.insert(String::from("three.png"), entry("third"));
    let few = first_entries(&ix, 2);
    assert_eq!(few.len(), 2);
    assert_eq!(few[0], (String::from("one.png"), String::from("first")));
    assert_eq!(few[1], (String::from("two.png"), String::from("second")));
    let all = first_entries(&ix, 10);
    assert_eq!(all.len(), 3);
}

#[test]
fn insert_replaces_existing_key() {
    let mut ix = Index::new();
    ix.insert(String::from("a.png"), entry("old"));
    ix.insert(String::from("a.png"), entry("new"));
    assert_eq!(ix.len(), 1);
    assert_eq!(ix.get("a.png").unwrap().text, "new");
}
