use image_text_search::loader::{load_from_str, LoadError};

const WELL_FORMED: &str = r#"{
  "shot1.png": {
    "lines": [
      {
        "text": "hello world",
        "words": [
          {
            "bounding_rect": { "height": 12.5, "width": 40.0, "x": 3.25, "y": 7.0 },
            "text": "hello"
          },
          {
            "bounding_rect": { "height": 12.5, "width": 38.0, "x": 45.5, "y": 7.0 },
            "text": "world"
          }
        ]
      }
    ],
    "text": "hello world"
  },
  "shot2.png": {
    "lines": [],
    "text": "Second Image Text"
  }
}"#;

#[test]
fn round_trip_preserves_count_and_text() {
    let ix = load_from_str(WELL_FORMED).unwrap();
    assert_eq!(ix.len(), 2);
    let e1 = ix.get("shot1.png").unwrap();
    assert_eq!(e1.text, "hello world");
    assert_eq!(e1.lines.len(), 1);
    assert_eq!(e1.lines[0].text, "hello world");
    assert_eq!(e1.lines[0].words.len(), 2);
    assert_eq!(e1.lines[0].words[0].text, "hello");
    assert_eq!(e1.lines[0].words[1].bounding_rect.x, "45.5");
    let e2 = ix.get("shot2.png").unwrap();
    assert_eq!(e2.text, "Second Image Text");
    assert!(e2.lines.is_empty());
    assert!(ix.get("absent.png").is_none());
}

#[test]
fn unknown_extra_fields_are_ignored() {
    let ix = load_from_str(
        r#"{ "a.png": { "lines": [], "text": "t", "confidence": 0.9, "extra": null } }"#,
    )
    .unwrap();
    assert_eq!(ix.len(), 1);
    assert_eq!(ix.get("a.png").unwrap().text, "t");
}

#[test]
fn invalid_json_is_malformed() {
    assert_eq!(load_from_str("not json at all").unwrap_err(), LoadError::Malformed);
    assert_eq!(load_from_str("").unwrap_err(), LoadError::Malformed);
}

#[test]
fn non_object_top_level_is_malformed() {
    assert_eq!(load_from_str("[1, 2, 3]").unwrap_err(), LoadError::Malformed);
    assert_eq!(load_from_str("\"just a string\"").unwrap_err(), LoadError::Malformed);
}

#[test]
fn missing_required_field_is_malformed() {
    let no_text = r#"{ "a.png": { "lines": [] } }"#;
    assert_eq!(load_from_str(no_text).unwrap_err(), LoadError::Malformed);
    let no_lines = r#"{ "a.png": { "text": "t" } }"#;
    assert_eq!(load_from_str(no_lines).unwrap_err(), LoadError::Malformed);
    let word_without_rect = r#"{ "a.png": {
        "lines": [ { "text": "w", "words": [ { "text": "w" } ] } ],
        "text": "w"
    } }"#;
    assert_eq!(load_from_str(word_without_rect).unwrap_err(), LoadError::Malformed);
}

#[test]
fn wrong_field_type_is_malformed() {
    let text_not_string = r#"{ "a.png": { "lines": [], "text": 7 } }"#;
    assert_eq!(load_from_str(text_not_string).unwrap_err(), LoadError::Malformed);
    let lines_not_array = r#"{ "a.png": { "lines": {}, "text": "t" } }"#;
    assert_eq!(load_from_str(lines_not_array).unwrap_err(), LoadError::Malformed);
    let rect_field_not_number = r#"{ "a.png": {
        "lines": [ { "text": "w", "words": [
            { "bounding_rect": { "height": "tall", "width": 1, "x": 1, "y": 1 }, "text": "w" }
        ] } ],
        "text": "w"
    } }"#;
    assert_eq!(load_from_str(rect_field_not_number).unwrap_err(), LoadError::Malformed);
}

#[test]
fn load_is_all_or_nothing() {
    let one_bad_entry = r#"{
        "good.png": { "lines": [], "text": "fine" },
        "bad.png": { "lines": [] }
    }"#;
    assert_eq!(load_from_str(one_bad_entry).unwrap_err(), LoadError::Malformed);
}
