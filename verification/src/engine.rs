//! The search engine: case-insensitive substring search over the index,
//! with results in strictly increasing natural order.
//!
//! The engine lowercases each entry's aggregated text before testing
//! containment; the search term itself is used as-is. A caller that wants
//! case-insensitive matching on both sides must lowercase the term before
//! calling: an uppercase term only matches text that still contains it
//! after folding.

use vstd::prelude::*;
use crate::model::{ImageEntry, Index};
use crate::text::{
    ascii_lower, ascii_seq, chars_of, contains_chars, contains_sub, lemma_empty_contained,
};
use crate::natural::{nat_le, nat_lt, nat_sorted, sort_natural};

verus! {

/// What `str::to_lowercase` returns for a given character sequence; the
/// result depends on the characters alone.
pub uninterp spec fn lower_of(s: Seq<char>) -> Seq<char>;

/// Relies on `str::to_lowercase`: the Unicode lowercase mapping of the
/// string. On an ASCII-only string it is exactly the character-wise ASCII
/// case folding; and an ASCII substring anywhere in the input folds
/// character-wise to single characters, so its folded form occurs
/// contiguously in the result.
#[verifier::external_body]
fn to_lowercase(s: &str) -> (r: String)
    ensures
        r@ == lower_of(s@),
        ascii_seq(s@) ==> r@ == ascii_lower(s@),
        forall|u: Seq<char>|
            ascii_seq(u) && contains_sub(s@, u) ==> contains_sub(r@, #[trigger] ascii_lower(u)),
{
    s.to_lowercase()
}

/// The entry with aggregate text `text` matches `term`: the lowercased text
/// contains the term as a contiguous substring.
pub open spec fn entry_matches(text: Seq<char>, term: Seq<char>) -> bool {
    contains_sub(lower_of(text), term)
}

/// The keys of `ixv` are pairwise distinct.
pub open spec fn keys_distinct(ixv: Seq<(String, ImageEntry)>) -> bool {
    forall|p: int, q: int|
        0 <= p < q < ixv.len() ==> (#[trigger] ixv[p].0@) != (#[trigger] ixv[q].0@)
}

/// `s` is the key of a matching entry among the first `upto` entries.
pub open spec fn match_key_upto(
    ixv: Seq<(String, ImageEntry)>,
    upto: int,
    term: Seq<char>,
    s: String,
) -> bool {
    exists|i: int|
        0 <= i < upto && s == (#[trigger] ixv[i]).0 && entry_matches(ixv[i].1.text@, term)
}

/// Some position of `s` holds a string whose view is `k`.
pub open spec fn has_view(s: Seq<String>, k: Seq<char>) -> bool {
    exists|m: int| 0 <= m < s.len() && (#[trigger] s[m]@) == k
}

/// Every matching entry among the first `upto` has its key in `r`.
pub open spec fn covered_upto(
    ixv: Seq<(String, ImageEntry)>,
    upto: int,
    term: Seq<char>,
    r: Seq<String>,
) -> bool {
    forall|i: int|
        0 <= i < upto && entry_matches((#[trigger] ixv[i]).1.text@, term) ==> has_view(
            r,
            ixv[i].0@,
        )
}

/// Everything `search` promises of a result `r`: its elements are exactly
/// the keys of the matching entries, each exactly once, in strictly
/// increasing natural order.
pub open spec fn search_post(
    ixv: Seq<(String, ImageEntry)>,
    term: Seq<char>,
    r: Seq<String>,
) -> bool {
    &&& forall|m: int|
        0 <= m < r.len() ==> match_key_upto(ixv, ixv.len() as int, term, #[trigger] r[m])
    &&& covered_upto(ixv, ixv.len() as int, term, r)
    &&& forall|m: int, m2: int| 0 <= m < m2 < r.len() ==> nat_lt(#[trigger] r[m]@, #[trigger] r[m2]@)
    &&& forall|i: int, u: Seq<char>|
        0 <= i < ixv.len() && ascii_seq(u) && contains_sub((#[trigger] ixv[i]).1.text@, u)
            ==> contains_sub(lower_of(ixv[i].1.text@), #[trigger] ascii_lower(u))
}

proof fn lemma_match_upto_mono(
    ixv: Seq<(String, ImageEntry)>,
    u1: int,
    u2: int,
    term: Seq<char>,
    s: String,
)
    requires
        match_key_upto(ixv, u1, term, s),
        u1 <= u2,
    ensures
        match_key_upto(ixv, u2, term, s),
{
    let i = choose|i: int|
        0 <= i < u1 && s == (#[trigger] ixv[i]).0 && entry_matches(ixv[i].1.text@, term);
    assert(0 <= i < u2 && s == ixv[i].0 && entry_matches(ixv[i].1.text@, term));
}

/// Searches the index for `term`: returns the filenames of all entries
/// whose lowercased aggregate text contains `term`, in natural order.
///
/// The final conclusion records that on ASCII-only entry text the folding
/// the engine applies is the character-wise ASCII case folding.
pub fn search(ix: &Index, term: &str) -> (r: Vec<String>)
    requires
        ix.wf(),
    ensures
        search_post(ix@, term@, r@),
        forall|i: int|
            0 <= i < ix@.len() && ascii_seq((#[trigger] ix@[i]).1.text@) ==> lower_of(
                ix@[i].1.text@,
            ) == ascii_lower(ix@[i].1.text@),
{
    let n = ix.len();
    let term_chars = chars_of(term);
    let mut found: Vec<String> = Vec::new();
    for i in 0..n
        invariant
            n == ix@.len(),
            ix.wf(),
            term_chars@ == term@,
            forall|m: int|
                0 <= m < found@.len() ==> match_key_upto(ix@, i as int, term@, #[trigger] found@[m]),
            covered_upto(ix@, i as int, term@, found@),
            forall|m: int, m2: int|
                0 <= m < m2 < found@.len() ==> (#[trigger] found@[m]@) != (#[trigger] found@[m2]@),
            forall|k: int|
                0 <= k < i && ascii_seq((#[trigger] ix@[k]).1.text@) ==> lower_of(ix@[k].1.text@)
                    == ascii_lower(ix@[k].1.text@),
            forall|k: int, u: Seq<char>|
                0 <= k < i && ascii_seq(u) && contains_sub((#[trigger] ix@[k]).1.text@, u)
                    ==> contains_sub(lower_of(ix@[k].1.text@), #[trigger] ascii_lower(u)),
    {
        let e = ix.entry_at(i);
        let lowered = to_lowercase(e.text.as_str());
        proof {
            assert(lowered@ == lower_of(ix@[i as int].1.text@));
        }
        let low_chars = chars_of(lowered.as_str());
        let matched = contains_chars(&low_chars, &term_chars);
        proof {
            assert(matched == entry_matches(ix@[i as int].1.text@, term@));
        }
        if matched {
            let ghost pre = found@;
            found.push(ix.key_at(i).clone());
            proof {
                let last = pre.len() as int;
                assert(found@ == pre.push(ix@[i as int].0));
                assert(found@[last] == ix@[i as int].0);
                assert(forall|m: int| 0 <= m < pre.len() ==> #[trigger] found@[m] == pre[m]);
                assert forall|m: int|
                    0 <= m < found@.len() implies match_key_upto(
                    ix@,
                    i + 1,
                    term@,
                    #[trigger] found@[m],
                ) by {
                    if m < last {
                        lemma_match_upto_mono(ix@, i as int, i + 1, term@, pre[m]);
                    } else {
                        assert(0 <= i < i + 1 && found@[m] == ix@[i as int].0 && entry_matches(
                            ix@[i as int].1.text@,
                            term@,
                        ));
                    }
                }
                assert forall|k: int|
                    0 <= k < i + 1 && entry_matches(
                        (#[trigger] ix@[k]).1.text@,
                        term@,
                    ) implies has_view(found@, ix@[k].0@) by {
                    if k < i {
                        let m = choose|m: int|
                            0 <= m < pre.len() && (#[trigger] pre[m]@) == ix@[k].0@;
                        assert(0 <= m < found@.len() && found@[m]@ == ix@[k].0@);
                    } else {
                        assert(0 <= last < found@.len() && found@[last]@ == ix@[k].0@);
                    }
                }
                assert forall|m: int, m2: int|
                    0 <= m < m2 < found@.len() implies (#[trigger] found@[m]@) != (
                #[trigger] found@[m2]@) by {
                    if m2 == last {
                        let k = choose|k: int|
                            0 <= k < i && pre[m] == (#[trigger] ix@[k]).0 && entry_matches(
                                ix@[k].1.text@,
                                term@,
                            );
                        assert(ix@[k].0@ != ix@[i as int].0@);
                    } else {
                        assert(pre[m]@ != pre[m2]@);
                    }
                }
            }
        } else {
            proof {
                assert forall|m: int|
                    0 <= m < found@.len() implies match_key_upto(
                    ix@,
                    i + 1,
                    term@,
                    #[trigger] found@[m],
                ) by {
                    lemma_match_upto_mono(ix@, i as int, i + 1, term@, found@[m]);
                }
                assert forall|k: int|
                    0 <= k < i + 1 && entry_matches(
                        (#[trigger] ix@[k]).1.text@,
                        term@,
                    ) implies has_view(found@, ix@[k].0@) by {
                    assert(k < i);
                }
            }
        }
    }
    let ghost collected = found@;
    sort_natural(&mut found);
    proof {
        assert forall|m: int|
            0 <= m < found@.len() implies match_key_upto(
            ix@,
            ix@.len() as int,
            term@,
            #[trigger] found@[m],
        ) by {
            lemma_elem_of_multiset(found@, collected, m);
            let m0 = choose|m0: int| 0 <= m0 < collected.len() && #[trigger] collected[m0] == found@[m];
            assert(match_key_upto(ix@, n as int, term@, collected[m0]));
        }
        assert forall|i: int|
            0 <= i < ix@.len() && entry_matches((#[trigger] ix@[i]).1.text@, term@) implies has_view(
            found@,
            ix@[i].0@,
        ) by {
            let m0 = choose|m0: int|
                0 <= m0 < collected.len() && (#[trigger] collected[m0]@) == ix@[i].0@;
            lemma_elem_of_multiset(collected, found@, m0);
            let m = choose|m: int| 0 <= m < found@.len() && #[trigger] found@[m] == collected[m0];
            assert(0 <= m < found@.len() && found@[m]@ == ix@[i].0@);
        }
        assert forall|m: int, m2: int|
            0 <= m < m2 < found@.len() implies nat_lt(#[trigger] found@[m]@, #[trigger] found@[m2]@)
            by {
            lemma_sorted_distinct_strict(found@, collected, m, m2);
        }
    }
    found
}

/// The empty term matches every entry: by `search_post`, a search with the
/// empty term therefore returns every key of the index, in natural order.
pub proof fn lemma_empty_term_matches(text: Seq<char>)
    ensures
        entry_matches(text, Seq::<char>::empty()),
{
    lemma_empty_contained(lower_of(text));
}

/// Case insensitivity: an entry whose text contains an ASCII occurrence
/// `u` of the term — say `HELLO` for the term `hello` — is included in
/// the result of searching for the folded form of `u`, whatever the rest
/// of the entry's text holds. Only the indexed text is folded, never the
/// term: a term with uppercase letters is not its own folding, so this
/// gives it no matches beyond literal containment.
pub proof fn lemma_case_insensitive_included(
    ixv: Seq<(String, ImageEntry)>,
    term: Seq<char>,
    r: Seq<String>,
    i: int,
    u: Seq<char>,
)
    requires
        search_post(ixv, term, r),
        0 <= i < ixv.len(),
        ascii_seq(u),
        contains_sub(ixv[i].1.text@, u),
        ascii_lower(u) == term,
    ensures
        has_view(r, ixv[i].0@),
{
    assert(contains_sub(lower_of(ixv[i].1.text@), ascii_lower(u)));
    assert(entry_matches(ixv[i].1.text@, term));
}

/// A term that matches no entry yields the empty result sequence — not an
/// error, simply nothing.
pub proof fn lemma_no_match_empty(ixv: Seq<(String, ImageEntry)>, term: Seq<char>, r: Seq<String>)
    requires
        search_post(ixv, term, r),
        forall|i: int| 0 <= i < ixv.len() ==> !entry_matches((#[trigger] ixv[i]).1.text@, term),
    ensures
        r.len() == 0,
{
    if r.len() > 0 {
        assert(match_key_upto(ixv, ixv.len() as int, term, r[0]));
        let i = choose|i: int|
            0 <= i < ixv.len() && r[0] == (#[trigger] ixv[i]).0 && entry_matches(
                ixv[i].1.text@,
                term,
            );
        assert(false);
    }
}

proof fn lemma_strict_unique(a: Seq<String>, b: Seq<String>)
    requires
        forall|m: int, m2: int| 0 <= m < m2 < a.len() ==> nat_lt(#[trigger] a[m]@, #[trigger] a[m2]@),
        forall|m: int, m2: int| 0 <= m < m2 < b.len() ==> nat_lt(#[trigger] b[m]@, #[trigger] b[m2]@),
        forall|k: Seq<char>| has_view(a, k) == has_view(b, k),
    ensures
        a.len() == b.len(),
        forall|m: int| 0 <= m < a.len() ==> (#[trigger] a[m]@) == b[m]@,
    decreases a.len(),
{
    if a.len() == 0 {
        if b.len() > 0 {
            assert(has_view(b, b[0]@));
            let m = choose|m: int| 0 <= m < a.len() && (#[trigger] a[m]@) == b[0]@;
            assert(false);
        }
    } else {
        assert(has_view(a, a[0]@));
        if b.len() == 0 {
            let m = choose|m: int| 0 <= m < b.len() && (#[trigger] b[m]@) == a[0]@;
            assert(false);
        }
        assert(has_view(b, a[0]@));
        let mb = choose|m: int| 0 <= m < b.len() && (#[trigger] b[m]@) == a[0]@;
        assert(has_view(b, b[0]@));
        assert(has_view(a, b[0]@));
        let ma = choose|m: int| 0 <= m < a.len() && (#[trigger] a[m]@) == b[0]@;
        if mb > 0 && ma > 0 {
            assert(nat_lt(b[0]@, b[mb]@));
            assert(nat_lt(a[0]@, a[ma]@));
            crate::natural::lemma_nat_lt_asym(a[0]@, b[0]@);
            assert(false);
        }
        assert(a[0]@ == b[0]@);
        let at = a.drop_first();
        let bt = b.drop_first();
        assert(forall|m: int| 0 <= m < at.len() ==> (#[trigger] at[m]@) == a[m + 1]@);
        assert(forall|m: int| 0 <= m < bt.len() ==> (#[trigger] bt[m]@) == b[m + 1]@);
        assert forall|k: Seq<char>| has_view(at, k) == has_view(bt, k) by {
            lemma_tail_view(a, k);
            lemma_tail_view(b, k);
        }
        lemma_strict_unique(at, bt);
        assert forall|m: int| 0 <= m < a.len() implies (#[trigger] a[m]@) == b[m]@ by {
            if m > 0 {
                assert(at[m - 1]@ == bt[m - 1]@);
            }
        }
    }
}

proof fn lemma_tail_view(a: Seq<String>, k: Seq<char>)
    requires
        a.len() > 0,
        forall|m: int, m2: int| 0 <= m < m2 < a.len() ==> nat_lt(#[trigger] a[m]@, #[trigger] a[m2]@),
    ensures
        has_view(a.drop_first(), k) == (has_view(a, k) && k != a[0]@),
{
    let at = a.drop_first();
    assert(forall|m: int| 0 <= m < at.len() ==> (#[trigger] at[m]@) == a[m + 1]@);
    if has_view(at, k) {
        let m = choose|m: int| 0 <= m < at.len() && (#[trigger] at[m]@) == k;
        assert(a[m + 1]@ == k);
        assert(nat_lt(a[0]@, a[m + 1]@));
        crate::natural::lemma_nat_lt_asym(a[0]@, a[m + 1]@);
        assert(has_view(a, k) && k != a[0]@);
    }
    if has_view(a, k) && k != a[0]@ {
        let m = choose|m: int| 0 <= m < a.len() && (#[trigger] a[m]@) == k;
        assert(m > 0);
        assert(at[m - 1]@ == k);
        assert(has_view(at, k));
    }
}

/// Determinism: two result sequences that both satisfy `search_post` for
/// the same index and term are the same sequence. Searching an unchanged
/// index with the same term always produces identical results.
pub proof fn lemma_search_deterministic(
    ixv: Seq<(String, ImageEntry)>,
    term: Seq<char>,
    r1: Seq<String>,
    r2: Seq<String>,
)
    requires
        keys_distinct(ixv),
        search_post(ixv, term, r1),
        search_post(ixv, term, r2),
    ensures
        r1 == r2,
{
    assert forall|k: Seq<char>| has_view(r1, k) == has_view(r2, k) by {
        lemma_post_view(ixv, term, r1, r2, k);
        lemma_post_view(ixv, term, r2, r1, k);
    }
    lemma_strict_unique(r1, r2);
    assert forall|m: int| 0 <= m < r1.len() implies #[trigger] r1[m] == r2[m] by {
        assert(match_key_upto(ixv, ixv.len() as int, term, r1[m]));
        assert(match_key_upto(ixv, ixv.len() as int, term, r2[m]));
        let i1 = choose|i: int|
            0 <= i < ixv.len() && r1[m] == (#[trigger] ixv[i]).0 && entry_matches(
                ixv[i].1.text@,
                term,
            );
        let i2 = choose|i: int|
            0 <= i < ixv.len() && r2[m] == (#[trigger] ixv[i]).0 && entry_matches(
                ixv[i].1.text@,
                term,
            );
        assert(ixv[i1].0@ == ixv[i2].0@);
        if i1 != i2 {
            if i1 < i2 {
                assert(ixv[i1].0@ != ixv[i2].0@);
            } else {
                assert(ixv[i2].0@ != ixv[i1].0@);
            }
        }
    }
    assert(r1 =~= r2);
}

proof fn lemma_post_view(
    ixv: Seq<(String, ImageEntry)>,
    term: Seq<char>,
    r1: Seq<String>,
    r2: Seq<String>,
    k: Seq<char>,
)
    requires
        search_post(ixv, term, r1),
        search_post(ixv, term, r2),
    ensures
        has_view(r1, k) ==> has_view(r2, k),
{
    if has_view(r1, k) {
        let m = choose|m: int| 0 <= m < r1.len() && (#[trigger] r1[m]@) == k;
        assert(match_key_upto(ixv, ixv.len() as int, term, r1[m]));
        let i = choose|i: int|
            0 <= i < ixv.len() && r1[m] == (#[trigger] ixv[i]).0 && entry_matches(
                ixv[i].1.text@,
                term,
            );
        assert(has_view(r2, ixv[i].0@));
    }
}

/// An element at a position of `a` also stands at some position of `b`
/// whenever the two sequences hold the same multiset of strings.
proof fn lemma_elem_of_multiset(a: Seq<String>, b: Seq<String>, m: int)
    requires
        0 <= m < a.len(),
        a.to_multiset() == b.to_multiset(),
    ensures
        exists|m2: int| 0 <= m2 < b.len() && #[trigger] b[m2] == a[m],
{
    vstd::seq_lib::to_multiset_contains(a, a[m]);
    vstd::seq_lib::to_multiset_contains(b, a[m]);
    assert(a.contains(a[m]));
    let m2 = choose|m2: int| 0 <= m2 < b.len() && #[trigger] b[m2] == a[m];
    assert(0 <= m2 < b.len() && b[m2] == a[m]);
}

/// A sorted rearrangement of keys with pairwise distinct views is strictly
/// increasing.
proof fn lemma_sorted_distinct_strict(r: Seq<String>, pre: Seq<String>, m: int, m2: int)
    requires
        0 <= m < m2 < r.len(),
        nat_sorted(r),
        r.to_multiset() == pre.to_multiset(),
        forall|p: int, q: int|
            0 <= p < q < pre.len() ==> (#[trigger] pre[p]@) != (#[trigger] pre[q]@),
    ensures
        nat_lt(r[m]@, r[m2]@),
{
    assert(nat_le(r[m]@, r[m2]@));
    if r[m]@ == r[m2]@ {
        assert forall|p: int, q: int|
            0 <= p < pre.len() && 0 <= q < pre.len() && p != q implies pre[p] != pre[q] by {
            if p < q {
                assert(pre[p]@ != pre[q]@);
            } else {
                assert(pre[q]@ != pre[p]@);
            }
        }
        assert(pre.no_duplicates());
        pre.lemma_multiset_has_no_duplicates();
        r.lemma_multiset_has_no_duplicates_conv();
        lemma_elem_of_multiset(r, pre, m);
        lemma_elem_of_multiset(r, pre, m2);
        let p = choose|p: int| 0 <= p < pre.len() && #[trigger] pre[p] == r[m];
        let q = choose|q: int| 0 <= q < pre.len() && #[trigger] pre[q] == r[m2];
        assert(pre[p]@ == pre[q]@);
        if p != q {
            if p < q {
                assert(pre[p]@ != pre[q]@);
            } else {
                assert(pre[q]@ != pre[p]@);
            }
        }
        assert(r[m] == r[m2]);
        assert(false);
    }
}

} // verus!
