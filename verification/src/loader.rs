//! The index loader: strict parsing of the serialized index into the
//! in-memory model.
//!
//! The on-disk format is JSON: one top-level object mapping each image
//! filename to a record `{ "lines": [...], "text": "..." }`, where each
//! line holds `{ "text": "...", "words": [...] }` and each word holds
//! `{ "bounding_rect": { "height", "width", "x", "y" }, "text": "..." }`.
//! Unknown extra fields are ignored; a missing required field or a field of
//! the wrong type is a load error, and no partial index is returned.
//!
//! JSON parsing is delegated to `serde_json` behind one trusted wrapper
//! whose result is handed over as [`JsonValue`], the library's own tree of
//! plain values, named `json_of` of the file text. Everything from there —
//! shape validation, field selection, assembly, key bookkeeping — is
//! verified: loading succeeds exactly when `json_of` of the text has the
//! index shape, and then the index corresponds entry by entry, text for
//! text, to that tree.

use vstd::prelude::*;
use crate::model::{ImageEntry, Index, TextLine, TextWord, WordBox};
use crate::text::str_eq;

verus! {

/// Why a load failed.
#[derive(Clone, Copy, Debug, PartialEq, Eq, Structural)]
pub enum LoadError {
    /// The index file could not be read.
    Unreadable,
    /// The contents are not a well-formed index: not JSON, or not the
    /// expected mapping shape.
    Malformed,
}

/// A JSON tree of plain values. Numbers are carried as their decimal
/// text; object fields come in map order with pairwise distinct keys.
pub enum JsonValue {
    Null,
    Bool(bool),
    Num(String),
    Str(String),
    Arr(Vec<JsonValue>),
    Obj(Vec<(String, JsonValue)>),
}

#[verifier::external_type_specification]
#[verifier::external_body]
pub struct ExJsonValue(serde_json::Value);

/// The JSON tree that the index file text parses to — a value for valid
/// JSON within serde_json's nesting limit, nothing otherwise. The result
/// depends on the text alone.
pub uninterp spec fn json_of(s: Seq<char>) -> Option<JsonValue>;

/// The keys of an object's field list are pairwise distinct.
pub open spec fn fields_distinct(fs: Seq<(String, JsonValue)>) -> bool {
    forall|p: int, q: int|
        0 <= p < q < fs.len() ==> (#[trigger] fs[p].0@) != (#[trigger] fs[q].0@)
}

/// Relies on `serde_json::from_str`: parses the file text into a JSON
/// tree, handed over as the library's own value. An object's fields come
/// out of serde_json's map, so the top-level keys are pairwise distinct.
#[verifier::external_body]
fn parse_json(s: &str) -> (r: Option<JsonValue>)
    ensures
        r == json_of(s@),
        match r {
            Some(JsonValue::Obj(fs)) => fields_distinct(fs@),
            _ => true,
        },
{
    serde_json::from_str::<serde_json::Value>(s).ok().map(convert_value)
}

/// Relies on the variants of `serde_json::Value`: rebuilds the parsed tree
/// as the library's own, variant by variant; a number keeps its decimal
/// text.
#[verifier::external_body]
fn convert_value(v: serde_json::Value) -> JsonValue {
    match v {
        serde_json::Value::Null => JsonValue::Null,
        serde_json::Value::Bool(b) => JsonValue::Bool(b),
        serde_json::Value::Number(n) => JsonValue::Num(format!("{}", n)),
        serde_json::Value::String(s) => JsonValue::Str(s),
        serde_json::Value::Array(a) => JsonValue::Arr(a.into_iter().map(convert_value).collect()),
        serde_json::Value::Object(m) => JsonValue::Obj(
            m.into_iter().map(|f| (f.0, convert_value(f.1))).collect(),
        ),
    }
}

/// The first field named `name` in an object's field list.
pub open spec fn field_of(fs: Seq<(String, JsonValue)>, name: Seq<char>) -> Option<JsonValue>
    decreases fs.len(),
{
    if fs.len() == 0 {
        None
    } else if fs[0].0@ == name {
        Some(fs[0].1)
    } else {
        field_of(fs.drop_first(), name)
    }
}

/// The field `name` is present and a number with text `t`.
pub open spec fn num_field_text(
    fs: Seq<(String, JsonValue)>,
    name: Seq<char>,
    t: Seq<char>,
) -> bool {
    match field_of(fs, name) {
        Some(JsonValue::Num(n)) => n@ == t,
        _ => false,
    }
}

/// The field `name` is present and a number.
pub open spec fn num_field(fs: Seq<(String, JsonValue)>, name: Seq<char>) -> bool {
    match field_of(fs, name) {
        Some(JsonValue::Num(_)) => true,
        _ => false,
    }
}

/// The field `name` is present and a string with content `t`.
pub open spec fn str_field_text(
    fs: Seq<(String, JsonValue)>,
    name: Seq<char>,
    t: Seq<char>,
) -> bool {
    match field_of(fs, name) {
        Some(JsonValue::Str(s)) => s@ == t,
        _ => false,
    }
}

/// The field `name` is present and a string.
pub open spec fn str_field(fs: Seq<(String, JsonValue)>, name: Seq<char>) -> bool {
    match field_of(fs, name) {
        Some(JsonValue::Str(_)) => true,
        _ => false,
    }
}

/// A `bounding_rect` object: the four coordinate fields, all numbers.
pub open spec fn rect_shaped(v: JsonValue) -> bool {
    match v {
        JsonValue::Obj(fs) => num_field(fs@, "height"@) && num_field(fs@, "width"@) && num_field(
            fs@,
            "x"@,
        ) && num_field(fs@, "y"@),
        _ => false,
    }
}

/// The box holds exactly the decimal texts of the four coordinate fields.
pub open spec fn rect_corr(b: WordBox, v: JsonValue) -> bool {
    match v {
        JsonValue::Obj(fs) => num_field_text(fs@, "height"@, b.height@) && num_field_text(
            fs@,
            "width"@,
            b.width@,
        ) && num_field_text(fs@, "x"@, b.x@) && num_field_text(fs@, "y"@, b.y@),
        _ => false,
    }
}

/// A word record: a well-shaped `bounding_rect` and a string `text`.
pub open spec fn word_shaped(v: JsonValue) -> bool {
    match v {
        JsonValue::Obj(fs) => {
            &&& match field_of(fs@, "bounding_rect"@) {
                Some(rv) => rect_shaped(rv),
                None => false,
            }
            &&& str_field(fs@, "text"@)
        },
        _ => false,
    }
}

/// The word holds exactly the record's text and bounding box.
pub open spec fn word_corr(w: TextWord, v: JsonValue) -> bool {
    match v {
        JsonValue::Obj(fs) => {
            &&& match field_of(fs@, "bounding_rect"@) {
                Some(rv) => rect_corr(w.bounding_rect, rv),
                None => false,
            }
            &&& str_field_text(fs@, "text"@, w.text@)
        },
        _ => false,
    }
}

/// A line record: a string `text` and an array of well-shaped words.
pub open spec fn line_shaped(v: JsonValue) -> bool {
    match v {
        JsonValue::Obj(fs) => {
            &&& str_field(fs@, "text"@)
            &&& match field_of(fs@, "words"@) {
                Some(JsonValue::Arr(ws)) => forall|i: int|
                    0 <= i < ws@.len() ==> word_shaped(#[trigger] ws@[i]),
                _ => false,
            }
        },
        _ => false,
    }
}

/// The line holds exactly the record's text and its words, in order.
pub open spec fn line_corr(l: TextLine, v: JsonValue) -> bool {
    match v {
        JsonValue::Obj(fs) => {
            &&& str_field_text(fs@, "text"@, l.text@)
            &&& match field_of(fs@, "words"@) {
                Some(JsonValue::Arr(ws)) => l.words@.len() == ws@.len() && forall|i: int|
                    0 <= i < ws@.len() ==> word_corr(#[trigger] l.words@[i], ws@[i]),
                _ => false,
            }
        },
        _ => false,
    }
}

/// An entry record: an array of well-shaped lines and a string `text`.
pub open spec fn entry_shaped(v: JsonValue) -> bool {
    match v {
        JsonValue::Obj(fs) => {
            &&& match field_of(fs@, "lines"@) {
                Some(JsonValue::Arr(ls)) => forall|i: int|
                    0 <= i < ls@.len() ==> line_shaped(#[trigger] ls@[i]),
                _ => false,
            }
            &&& str_field(fs@, "text"@)
        },
        _ => false,
    }
}

/// The entry holds exactly the record's aggregate text and its lines.
pub open spec fn entry_corr(e: ImageEntry, v: JsonValue) -> bool {
    match v {
        JsonValue::Obj(fs) => {
            &&& match field_of(fs@, "lines"@) {
                Some(JsonValue::Arr(ls)) => e.lines@.len() == ls@.len() && forall|i: int|
                    0 <= i < ls@.len() ==> line_corr(#[trigger] e.lines@[i], ls@[i]),
                _ => false,
            }
            &&& str_field_text(fs@, "text"@, e.text@)
        },
        _ => false,
    }
}

/// The top-level pairs of an object value; empty for any other value.
pub open spec fn obj_fields(v: JsonValue) -> Seq<(String, JsonValue)> {
    match v {
        JsonValue::Obj(fs) => fs@,
        _ => Seq::empty(),
    }
}

/// A whole index: a top-level object whose every value is a well-shaped
/// entry record.
pub open spec fn index_json_shaped(v: JsonValue) -> bool {
    &&& v matches JsonValue::Obj(_)
    &&& forall|i: int|
        0 <= i < obj_fields(v).len() ==> entry_shaped((#[trigger] obj_fields(v)[i]).1)
}

/// The index holds one entry per top-level pair, same key, corresponding
/// record, in order.
pub open spec fn index_corr(ixv: Seq<(String, ImageEntry)>, v: JsonValue) -> bool {
    &&& v matches JsonValue::Obj(_)
    &&& ixv.len() == obj_fields(v).len()
    &&& forall|i: int|
        0 <= i < obj_fields(v).len() ==> (#[trigger] ixv[i]).0@ == obj_fields(v)[i].0@
            && entry_corr(ixv[i].1, obj_fields(v)[i].1)
}

/// The parse result is an index-shaped tree.
pub open spec fn index_shaped(j: Option<JsonValue>) -> bool {
    match j {
        Some(v) => index_json_shaped(v),
        None => false,
    }
}

/// The index corresponds to the parse result.
pub open spec fn index_matches(ixv: Seq<(String, ImageEntry)>, j: Option<JsonValue>) -> bool {
    match j {
        Some(v) => index_corr(ixv, v),
        None => false,
    }
}

/// If an object has distinct keys at the top level, the distinctness is
/// visible to `index_from_json`'s callers.
pub open spec fn top_keys_distinct(v: JsonValue) -> bool {
    match v {
        JsonValue::Obj(fs) => fields_distinct(fs@),
        _ => true,
    }
}

proof fn lemma_field_of_skip(fs: Seq<(String, JsonValue)>, name: Seq<char>, i: int)
    requires
        0 <= i <= fs.len(),
        forall|m: int| 0 <= m < i ==> (#[trigger] fs[m].0@) != name,
    ensures
        field_of(fs, name) == field_of(fs.skip(i), name),
    decreases i,
{
    if i > 0 {
        assert(fs[0].0@ != name);
        assert(fs.drop_first().skip(i - 1) =~= fs.skip(i));
        assert(forall|m: int|
            0 <= m < i - 1 ==> (#[trigger] fs.drop_first()[m].0@) == fs[m + 1].0@);
        lemma_field_of_skip(fs.drop_first(), name, i - 1);
    } else {
        assert(fs.skip(0) =~= fs);
    }
}

/// A reference to the first field named `name`, exactly as `field_of`
/// finds it.
fn get_field<'a>(fields: &'a Vec<(String, JsonValue)>, name: &str) -> (r: Option<&'a JsonValue>)
    ensures
        match r {
            Some(v) => field_of(fields@, name@) == Some(*v),
            None => field_of(fields@, name@) is None,
        },
{
    let n = fields.len();
    for i in 0..n
        invariant
            n == fields@.len(),
            forall|m: int| 0 <= m < i ==> (#[trigger] fields@[m].0@) != name@,
    {
        if str_eq(fields[i].0.as_str(), name) {
            proof {
                lemma_field_of_skip(fields@, name@, i as int);
                assert(fields@.skip(i as int)[0] == fields@[i as int]);
            }
            return Some(&fields[i].1);
        }
    }
    proof {
        lemma_field_of_skip(fields@, name@, n as int);
        assert(fields@.skip(n as int) =~= Seq::<(String, JsonValue)>::empty());
    }
    None
}

/// The decimal text of the number field `name`, if present and a number.
fn num_text_field(fields: &Vec<(String, JsonValue)>, name: &str) -> (r: Option<String>)
    ensures
        (r is Some) == num_field(fields@, name@),
        r matches Some(t) ==> num_field_text(fields@, name@, t@),
{
    match get_field(fields, name) {
        Some(fv) => match fv {
            JsonValue::Num(t) => Some(t.clone()),
            _ => None,
        },
        None => None,
    }
}

/// The content of the string field `name`, if present and a string.
fn str_text_field(fields: &Vec<(String, JsonValue)>, name: &str) -> (r: Option<String>)
    ensures
        (r is Some) == str_field(fields@, name@),
        r matches Some(t) ==> str_field_text(fields@, name@, t@),
{
    match get_field(fields, name) {
        Some(fv) => match fv {
            JsonValue::Str(t) => Some(t.clone()),
            _ => None,
        },
        None => None,
    }
}

/// Builds a bounding box from a `bounding_rect` value: exactly when it has
/// the rectangle shape.
fn rect_from_json(v: &JsonValue) -> (r: Result<WordBox, LoadError>)
    ensures
        (r is Ok) == rect_shaped(*v),
        r matches Ok(b) ==> rect_corr(b, *v),
        r matches Err(e) ==> e == LoadError::Malformed,
{
    let fs = match v {
        JsonValue::Obj(fs) => fs,
        _ => {
            return Err(LoadError::Malformed);
        },
    };
    let height = match num_text_field(fs, "height") {
        Some(t) => t,
        None => {
            return Err(LoadError::Malformed);
        },
    };
    let width = match num_text_field(fs, "width") {
        Some(t) => t,
        None => {
            return Err(LoadError::Malformed);
        },
    };
    let x = match num_text_field(fs, "x") {
        Some(t) => t,
        None => {
            return Err(LoadError::Malformed);
        },
    };
    let y = match num_text_field(fs, "y") {
        Some(t) => t,
        None => {
            return Err(LoadError::Malformed);
        },
    };
    Ok(WordBox { height, width, x, y })
}

/// Builds one recognized word: exactly when the value has the word shape.
fn word_from_json(v: &JsonValue) -> (r: Result<TextWord, LoadError>)
    ensures
        (r is Ok) == word_shaped(*v),
        r matches Ok(w) ==> word_corr(w, *v),
        r matches Err(e) ==> e == LoadError::Malformed,
{
    let fs = match v {
        JsonValue::Obj(fs) => fs,
        _ => {
            return Err(LoadError::Malformed);
        },
    };
    let rv = match get_field(fs, "bounding_rect") {
        Some(rv) => rv,
        None => {
            return Err(LoadError::Malformed);
        },
    };
    let bounding_rect = match rect_from_json(rv) {
        Ok(b) => b,
        Err(e) => {
            return Err(e);
        },
    };
    let text = match str_text_field(fs, "text") {
        Some(t) => t,
        None => {
            return Err(LoadError::Malformed);
        },
    };
    Ok(TextWord { bounding_rect, text })
}

/// Builds one recognized line: exactly when the value has the line shape.
fn line_from_json(v: &JsonValue) -> (r: Result<TextLine, LoadError>)
    ensures
        (r is Ok) == line_shaped(*v),
        r matches Ok(l) ==> line_corr(l, *v),
        r matches Err(e) ==> e == LoadError::Malformed,
{
    let fs = match v {
        JsonValue::Obj(fs) => fs,
        _ => {
            return Err(LoadError::Malformed);
        },
    };
    let text = match str_text_field(fs, "text") {
        Some(t) => t,
        None => {
            return Err(LoadError::Malformed);
        },
    };
    let ws = match get_field(fs, "words") {
        Some(wv) => match wv {
            JsonValue::Arr(ws) => ws,
            _ => {
                return Err(LoadError::Malformed);
            },
        },
        None => {
            return Err(LoadError::Malformed);
        },
    };
    let mut words: Vec<TextWord> = Vec::new();
    let n = ws.len();
    for i in 0..n
        invariant
            *v == JsonValue::Obj(*fs),
            field_of(fs@, "words"@) == Some(JsonValue::Arr(*ws)),
            n == ws@.len(),
            words@.len() == i,
            forall|m: int| 0 <= m < i ==> word_shaped(#[trigger] ws@[m]),
            forall|m: int| 0 <= m < i ==> word_corr(#[trigger] words@[m], ws@[m]),
    {
        match word_from_json(&ws[i]) {
            Ok(w) => words.push(w),
            Err(e) => {
                proof {
                    assert(!word_shaped(ws@[i as int]));
                    assert(!line_shaped(*v)) by {
                        if line_shaped(*v) {
                            assert(*v == JsonValue::Obj(*fs));
                            assert(match field_of(fs@, "words"@) {
                                Some(JsonValue::Arr(ws2)) => forall|k: int|
                                    0 <= k < ws2@.len() ==> word_shaped(#[trigger] ws2@[k]),
                                _ => false,
                            });
                            assert(field_of(fs@, "words"@) == Some(JsonValue::Arr(*ws)));
                            assert(word_shaped(ws@[i as int]));
                        }
                    }
                }
                return Err(e);
            },
        }
    }
    Ok(TextLine { text, words })
}

/// Builds one image entry: exactly when the value has the entry shape. The
/// aggregate text is stored exactly as the file gives it.
fn entry_from_json(v: &JsonValue) -> (r: Result<ImageEntry, LoadError>)
    ensures
        (r is Ok) == entry_shaped(*v),
        r matches Ok(e) ==> entry_corr(e, *v),
        r matches Err(e) ==> e == LoadError::Malformed,
{
    let fs = match v {
        JsonValue::Obj(fs) => fs,
        _ => {
            return Err(LoadError::Malformed);
        },
    };
    let ls = match get_field(fs, "lines") {
        Some(lv) => match lv {
            JsonValue::Arr(ls) => ls,
            _ => {
                return Err(LoadError::Malformed);
            },
        },
        None => {
            return Err(LoadError::Malformed);
        },
    };
    let text = match str_text_field(fs, "text") {
        Some(t) => t,
        None => {
            return Err(LoadError::Malformed);
        },
    };
    let mut lines: Vec<TextLine> = Vec::new();
    let n = ls.len();
    for i in 0..n
        invariant
            *v == JsonValue::Obj(*fs),
            field_of(fs@, "lines"@) == Some(JsonValue::Arr(*ls)),
            n == ls@.len(),
            lines@.len() == i,
            forall|m: int| 0 <= m < i ==> line_shaped(#[trigger] ls@[m]),
            forall|m: int| 0 <= m < i ==> line_corr(#[trigger] lines@[m], ls@[m]),
    {
        match line_from_json(&ls[i]) {
            Ok(l) => lines.push(l),
            Err(e) => {
                proof {
                    assert(!line_shaped(ls@[i as int]));
                    assert(!entry_shaped(*v)) by {
                        if entry_shaped(*v) {
                            assert(*v == JsonValue::Obj(*fs));
                            assert(match field_of(fs@, "lines"@) {
                                Some(JsonValue::Arr(ls2)) => forall|k: int|
                                    0 <= k < ls2@.len() ==> line_shaped(#[trigger] ls2@[k]),
                                _ => false,
                            });
                            assert(field_of(fs@, "lines"@) == Some(JsonValue::Arr(*ls)));
                            assert(line_shaped(ls@[i as int]));
                        }
                    }
                }
                return Err(e);
            },
        }
    }
    Ok(ImageEntry { lines, text })
}

/// Builds the index from a parsed tree: succeeds exactly when the tree has
/// the index shape, and then holds one entry per top-level pair, under the
/// same key, in the same order, with every text preserved.
pub fn index_from_json(v: &JsonValue) -> (r: Result<Index, LoadError>)
    requires
        top_keys_distinct(*v),
    ensures
        (r is Ok) == index_json_shaped(*v),
        r matches Ok(ix) ==> ix.wf() && index_corr(ix@, *v),
        r matches Err(e) ==> e == LoadError::Malformed,
{
    let pairs = match v {
        JsonValue::Obj(ps) => ps,
        _ => {
            return Err(LoadError::Malformed);
        },
    };
    let mut ix = Index::new();
    let n = pairs.len();
    for i in 0..n
        invariant
            *v == JsonValue::Obj(*pairs),
            n == pairs@.len(),
            fields_distinct(pairs@),
            ix.wf(),
            ix@.len() == i,
            forall|m: int|
                0 <= m < i ==> (#[trigger] ix@[m]).0@ == pairs@[m].0@ && entry_corr(
                    ix@[m].1,
                    pairs@[m].1,
                ),
            forall|m: int| 0 <= m < i ==> entry_shaped((#[trigger] pairs@[m]).1),
    {
        let entry = match entry_from_json(&pairs[i].1) {
            Ok(e) => e,
            Err(e) => {
                proof {
                    assert(!entry_shaped(pairs@[i as int].1));
                    assert(!index_json_shaped(*v)) by {
                        if index_json_shaped(*v) {
                            assert(obj_fields(*v) == pairs@);
                            assert(entry_shaped((obj_fields(*v)[i as int]).1));
                        }
                    }
                }
                return Err(e);
            },
        };
        let key = pairs[i].0.clone();
        proof {
            assert(!ix.has_key(key@)) by {
                if ix.has_key(key@) {
                    let m = choose|m: int|
                        0 <= m < ix@.len() && (#[trigger] ix@[m].0@) == key@;
                    assert(pairs@[m].0@ != pairs@[i as int].0@);
                }
            }
        }
        ix.insert(key, entry);
    }
    Ok(ix)
}

/// Parses the serialized index from its full text: the whole mapping, or a
/// `Malformed` error — never a partial index. Succeeds exactly when the
/// text parses to an index-shaped JSON tree, and the result then
/// corresponds to that tree, key for key and text for text.
pub fn load_from_str(s: &str) -> (r: Result<Index, LoadError>)
    ensures
        (r is Ok) == index_shaped(json_of(s@)),
        r matches Ok(ix) ==> ix.wf() && index_matches(ix@, json_of(s@)),
        r matches Err(e) ==> e == LoadError::Malformed,
{
    match parse_json(s) {
        Some(v) => index_from_json(&v),
        None => Err(LoadError::Malformed),
    }
}

} // verus!
