//! The index data model: bounding boxes, words, lines, image entries, and
//! the loaded index itself.
//!
//! All entities are immutable once loaded; the index is built once by the
//! loader and then only read. The index maps image filenames (unique keys)
//! to the recognition result for that image.

use vstd::prelude::*;
use crate::text::str_eq;

verus! {

/// Bounding rectangle of one recognized word. The index file stores the
/// coordinates as JSON numbers; nothing in the engine interprets them, so
/// they are carried opaquely as their decimal text.
#[derive(Debug)]
pub struct WordBox {
    pub height: String,
    pub width: String,
    pub x: String,
    pub y: String,
}

/// One recognized word with its bounding rectangle.
#[derive(Debug)]
pub struct TextWord {
    pub bounding_rect: WordBox,
    pub text: String,
}

/// One recognized line; `text` summarizes `words`, but that relation is
/// advisory and not validated.
#[derive(Debug)]
pub struct TextLine {
    pub text: String,
    pub words: Vec<TextWord>,
}

/// The full recognition result for one image; `text` aggregates all lines
/// and is the field the search engine scans.
#[derive(Debug)]
pub struct ImageEntry {
    pub lines: Vec<TextLine>,
    pub text: String,
}

/// The loaded index: a mapping from image filename to its entry, with
/// pairwise distinct keys, kept in load order.
#[derive(Debug)]
pub struct Index {
    entries: Vec<(String, ImageEntry)>,
}

impl View for Index {
    type V = Seq<(String, ImageEntry)>;

    closed spec fn view(&self) -> Seq<(String, ImageEntry)> {
        self.entries@
    }
}

impl Index {
    /// Keys are pairwise distinct.
    pub open spec fn wf(&self) -> bool {
        forall|p: int, q: int|
            0 <= p < q < self@.len() ==> (#[trigger] self@[p].0@) != (#[trigger] self@[q].0@)
    }

    /// Some entry has key `k`.
    pub open spec fn has_key(&self, k: Seq<char>) -> bool {
        exists|i: int| 0 <= i < self@.len() && (#[trigger] self@[i].0@) == k
    }

    /// An empty index.
    pub fn new() -> (r: Index)
        ensures
            r@.len() == 0,
            r.wf(),
    {
        Index { entries: Vec::new() }
    }

    /// Number of entries.
    pub fn len(&self) -> (r: usize)
        ensures
            r == self@.len(),
    {
        self.entries.len()
    }

    /// The key of the entry at position `i`.
    pub fn key_at(&self, i: usize) -> (r: &String)
        requires
            i < self@.len(),
        ensures
            *r == self@[i as int].0,
    {
        &self.entries[i].0
    }

    /// The entry at position `i`.
    pub fn entry_at(&self, i: usize) -> (r: &ImageEntry)
        requires
            i < self@.len(),
        ensures
            *r == self@[i as int].1,
    {
        &self.entries[i].1
    }

    /// Inserts an entry under `key`: replaces the entry of an existing key
    /// in place, otherwise appends. Keys stay distinct.
    pub fn insert(&mut self, key: String, entry: ImageEntry)
        requires
            old(self).wf(),
        ensures
            final(self).wf(),
            old(self).has_key(key@) ==> final(self)@.len() == old(self)@.len(),
            !old(self).has_key(key@) ==> final(self)@ == old(self)@.push((key, entry)),
            forall|i: int|
                0 <= i < old(self)@.len() && (#[trigger] old(self)@[i].0@) == key@
                    ==> final(self)@ == old(self)@.update(i, (key, entry)),
    {
        let n = self.entries.len();
        for i in 0..n
            invariant
                n == self@.len(),
                self.wf(),
                self@ == old(self)@,
                forall|m: int| 0 <= m < i ==> (#[trigger] self@[m].0@) != key@,
        {
            if str_eq(self.entries[i].0.as_str(), key.as_str()) {
                self.entries.set(i, (key, entry));
                proof {
                    assert(self@ =~= old(self)@.update(i as int, self@[i as int]));
                    assert forall|p: int, q: int|
                        0 <= p < q < self@.len() implies (#[trigger] self@[p].0@) != (
                    #[trigger] self@[q].0@) by {
                        assert(old(self)@[p].0@ != old(self)@[q].0@);
                    }
                }
                return;
            }
        }
        self.entries.push((key, entry));
        proof {
            assert(!old(self).has_key(self@[self@.len() - 1].0@));
        }
    }

    /// Looks up the entry of `key`, if any.
    pub fn get(&self, key: &str) -> (r: Option<&ImageEntry>)
        ensures
            match r {
                Some(e) => exists|i: int|
                    0 <= i < self@.len() && (#[trigger] self@[i].0@) == key@ && *e == self@[i].1,
                None => !self.has_key(key@),
            },
    {
        let n = self.entries.len();
        for i in 0..n
            invariant
                n == self@.len(),
                forall|m: int| 0 <= m < i ==> (#[trigger] self@[m].0@) != key@,
        {
            if str_eq(self.entries[i].0.as_str(), key) {
                return Some(&self.entries[i].1);
            }
        }
        None
    }
}

} // verus!
