use image_text_search::engine::search;
use image_text_search::model::{ImageEntry, Index};

fn entry(text: &str) -> ImageEntry {
    ImageEntry { lines: Vec::new(), text: String::from(text) }
}

fn index_of(pairs: &[(&str, &str)]) -> Index {
    let mut ix = Index::new();
    for (key, text) in pairs {
        ix.insert(String::from(*key), entry(text));
    }
    ix
}

#[test]
fn lowercase_term_matches_uppercase_text() {
    let ix = index_of(&[("shout.png", "SAY HELLO WORLD"), ("quiet.png", "nothing here")]);
    let r = search(&ix, "hello");
    assert_eq!(r, vec![String::from("shout.png")]);
}

#[test]
fn uppercase_term_does_not_match_folded_text() {
    let ix = index_of(&[("shout.png", "SAY HELLO WORLD")]);
    let r = search(&ix, "HELLO");
    assert!(r.is_empty());
}

#[test]
fn matching_is_substring_containment() {
    let ix = index_of(&[
        ("a.png", "an invoice from 2021"),
        ("b.png", "invoices are boring"),
        ("c.png", "a receipt"),
    ]);
    let r = search(&ix, "invoice");
    assert_eq!(r, vec![String::from("a.png"), String::from("b.png")]);
}

#[test]
fn results_in_natural_order() {
    let ix = index_of(&[
        ("img10.png", "screenshot text"),
        ("img2.png", "screenshot text"),
        ("img1.png", "screenshot text"),
    ]);
    let r = search(&ix, "screenshot");
    assert_eq!(
        r,
        vec![
            String::from("img1.png"),
            String::from("img2.png"),
            String::from("img10.png"),
        ]
    );
}

#[test]
fn empty_term_returns_every_key_in_natural_order() {
    let ix = index_of(&[
        ("b12.png", "beta"),
        ("a.png", "alpha"),
        ("b2.png", "gamma"),
    ]);
    let r = search(&ix, "");
    assert_eq!(
        r,
        vec![String::from("a.png"), String::from("b2.png"), String::from("b12.png")]
    );
}

#[test]
fn no_match_returns_empty_not_error() {
    let ix = index_of(&[("a.png", "alpha"), ("b.png", "beta")]);
    let r = search(&ix, "missing-term");
    assert!(r.is_empty());
}

#[test]
fn repeated_searches_are_identical() {
    let ix = index_of(&[
        ("scan3.png", "report draft 3"),
        ("scan1.png", "report draft 1"),
        ("other.png", "unrelated"),
    ]);
    let first = search(&ix, "report");
    let second = search(&ix, "report");
    assert_eq!(first, second);
    assert_eq!(first, vec![String::from("scan1.png"), String::from("scan3.png")]);
}

#[test]
fn term_with_digits_matches_exactly() {
    let ix = index_of(&[("a.png", "version 10 notes"), ("b.png", "version 1 notes")]);
    let r = search(&ix, "version 1");
    assert_eq!(r, vec![String::from("a.png"), String::from("b.png")]);
    let r10 = search(&ix, "version 10");
    assert_eq!(r10, vec![String::from("a.png")]);
}

#[test]
fn result_order_folds_case() {
    let ix = index_of(&[("B.png", "match me"), ("a.png", "match me")]);
    let r = search(&ix, "match");
    assert_eq!(r, vec![String::from("a.png"), String::from("B.png")]);
}

#[test]
fn non_ascii_text_is_folded_too() {
    let ix = index_of(&[("u.png", "GRÜSSE AUS BERLIN")]);
    let r = search(&ix, "grüsse");
    assert_eq!(r, vec![String::from("u.png")]);
}
