//! A verified text-index search library.
//!
//! The library models an index of recognized text extracted from a collection
//! of images: a mapping from image filename to the text found in that image.
//! It provides a strict loader for the serialized index format, a
//! case-insensitive substring search over the indexed text, and a natural
//! (human) ordering of the matching filenames, so that `img2.png` sorts
//! before `img10.png`.
//!
//! The search engine lowercases each entry's aggregated text before testing
//! containment; the search term itself is used as-is, so a caller that wants
//! case-insensitive matching on both sides must lowercase the term before
//! calling.

pub mod text;
pub mod natural;
pub mod model;
pub mod engine;
pub mod loader;
pub mod sink;
pub mod session;






