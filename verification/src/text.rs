//! Character-level utilities: exact string equality, substring containment,
//! and ASCII case folding, all specified over `Seq<char>` views.

use vstd::prelude::*;

verus! {

/// `nee` occurs in `hay` as a contiguous subsequence.
pub open spec fn contains_sub(hay: Seq<char>, nee: Seq<char>) -> bool {
    exists|k: int|
        0 <= k && k + nee.len() <= hay.len() && #[trigger] hay.subrange(k, k + nee.len()) == nee
}

/// The empty sequence occurs in every sequence.
pub proof fn lemma_empty_contained(hay: Seq<char>)
    ensures
        contains_sub(hay, Seq::<char>::empty()),
{
    let e = Seq::<char>::empty();
    assert(hay.subrange(0, 0 + e.len() as int) =~= e);
}

/// Every character of `s` is in the ASCII range.
pub open spec fn ascii_seq(s: Seq<char>) -> bool {
    forall|i: int| 0 <= i < s.len() ==> #[trigger] (s[i] as u32) < 128
}

/// ASCII-only case folding of one character: `A`..`Z` map to `a`..`z`,
/// everything else is unchanged.
pub open spec fn ascii_lower_char(c: char) -> char {
    match c {
        'A' => 'a',
        'B' => 'b',
        'C' => 'c',
        'D' => 'd',
        'E' => 'e',
        'F' => 'f',
        'G' => 'g',
        'H' => 'h',
        'I' => 'i',
        'J' => 'j',
        'K' => 'k',
        'L' => 'l',
        'M' => 'm',
        'N' => 'n',
        'O' => 'o',
        'P' => 'p',
        'Q' => 'q',
        'R' => 'r',
        'S' => 's',
        'T' => 't',
        'U' => 'u',
        'V' => 'v',
        'W' => 'w',
        'X' => 'x',
        'Y' => 'y',
        'Z' => 'z',
        _ => c,
    }
}

/// Character-wise ASCII case folding of a sequence.
pub open spec fn ascii_lower(s: Seq<char>) -> Seq<char> {
    s.map_values(|c: char| ascii_lower_char(c))
}

/// Folds one character, exactly as `ascii_lower_char` says.
pub fn lower_char(c: char) -> (r: char)
    ensures
        r == ascii_lower_char(c),
{
    match c {
        'A' => 'a',
        'B' => 'b',
        'C' => 'c',
        'D' => 'd',
        'E' => 'e',
        'F' => 'f',
        'G' => 'g',
        'H' => 'h',
        'I' => 'i',
        'J' => 'j',
        'K' => 'k',
        'L' => 'l',
        'M' => 'm',
        'N' => 'n',
        'O' => 'o',
        'P' => 'p',
        'Q' => 'q',
        'R' => 'r',
        'S' => 's',
        'T' => 't',
        'U' => 'u',
        'V' => 'v',
        'W' => 'w',
        'X' => 'x',
        'Y' => 'y',
        'Z' => 'z',
        _ => c,
    }
}

/// Case folding preserves containment: if `nee` occurs in `hay`, then the
/// folded `nee` occurs in the folded `hay`.
pub proof fn lemma_lower_preserves_contains(hay: Seq<char>, nee: Seq<char>)
    requires
        contains_sub(hay, nee),
    ensures
        contains_sub(ascii_lower(hay), ascii_lower(nee)),
{
    let k = choose|k: int|
        0 <= k && k + nee.len() <= hay.len() && #[trigger] hay.subrange(k, k + nee.len()) == nee;
    assert(ascii_lower(hay).subrange(k, k + nee.len()) =~= ascii_lower(nee)) by {
        assert forall|i: int| 0 <= i < nee.len() implies ascii_lower(hay).subrange(
            k,
            k + nee.len(),
        )[i] == ascii_lower(nee)[i] by {
            assert(hay.subrange(k, k + nee.len())[i] == nee[i]);
            assert(hay[k + i] == nee[i]);
        }
    }
    assert(ascii_lower(hay).subrange(k, k + ascii_lower(nee).len()) == ascii_lower(nee));
}

/// Collects the characters of a string slice into a vector.
pub fn chars_of(s: &str) -> (r: Vec<char>)
    ensures
        r@ == s@,
{
    let n = s.unicode_len();
    let mut r: Vec<char> = Vec::new();
    for i in 0..n
        invariant
            n == s@.len(),
            r@ == s@.take(i as int),
    {
        r.push(s.get_char(i));
        assert(r@ =~= s@.take(i + 1));
    }
    assert(r@ =~= s@);
    r
}

/// Exact equality of two string slices, decided character by character.
pub fn str_eq(a: &str, b: &str) -> (r: bool)
    ensures
        r == (a@ == b@),
{
    let na = a.unicode_len();
    let nb = b.unicode_len();
    if na != nb {
        return false;
    }
    for i in 0..na
        invariant
            na == a@.len(),
            na == b@.len(),
            forall|j: int| 0 <= j < i ==> a@[j] == b@[j],
    {
        if a.get_char(i) != b.get_char(i) {
            return false;
        }
    }
    proof {
        assert(a@ =~= b@);
    }
    true
}

/// Substring containment test: does `nee` occur contiguously in `hay`?
pub fn contains_str(hay: &str, nee: &str) -> (r: bool)
    ensures
        r == contains_sub(hay@, nee@),
{
    let h = chars_of(hay);
    let n = chars_of(nee);
    contains_chars(&h, &n)
}

/// Substring containment over character vectors.
pub fn contains_chars(hay: &Vec<char>, nee: &Vec<char>) -> (r: bool)
    ensures
        r == contains_sub(hay@, nee@),
{
    let hn = hay.len();
    let nn = nee.len();
    if nn > hn {
        assert(!contains_sub(hay@, nee@));
        return false;
    }
    if nn == 0 {
        proof {
            lemma_empty_contained(hay@);
            assert(nee@ =~= Seq::<char>::empty());
        }
        return true;
    }
    let last = hn - nn;
    let mut k: usize = 0;
    while k <= last
        invariant
            1 <= nn <= hn,
            last == hn - nn,
            hn == hay@.len(),
            nn == nee@.len(),
            forall|q: int|
                0 <= q < k ==> #[trigger] hay@.subrange(q, q + nee@.len()) != nee@,
        decreases last - k + 1,
    {
        if match_at(hay, nee, k) {
            return true;
        }
        k += 1;
    }
    proof {
        assert forall|q: int| 0 <= q && q + nee@.len() <= hay@.len() implies #[trigger] hay@.subrange(
            q,
            q + nee@.len(),
        ) != nee@ by {
            assert(q < k);
        }
    }
    false
}

/// Does `nee` occur in `hay` starting exactly at position `k`?
fn match_at(hay: &Vec<char>, nee: &Vec<char>, k: usize) -> (r: bool)
    requires
        k + nee@.len() <= hay@.len(),
    ensures
        r == (hay@.subrange(k as int, k + nee@.len()) == nee@),
{
    let nn = nee.len();
    let hn = hay.len();
    for i in 0..nn
        invariant
            nn == nee@.len(),
            hn == hay@.len(),
            k + nn <= hn,
            forall|j: int| 0 <= j < i ==> hay@[k + j] == nee@[j],
    {
        if hay[k + i] != nee[i] {
            assert(hay@.subrange(k as int, k + nee@.len())[i as int] != nee@[i as int]);
            return false;
        }
    }
    proof {
        assert(hay@.subrange(k as int, k + nee@.len()) =~= nee@);
    }
    true
}

} // verus!
