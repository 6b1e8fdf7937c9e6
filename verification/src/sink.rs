//! The result sink's pure part: rendering an ordered result list as the
//! newline-joined text that is persisted to the side-channel file, and the
//! browse listing of the first entries of the index.
//!
//! Writing the side-channel file and printing are I/O and live with the
//! caller; what the file must contain is fixed here, exactly.

use vstd::prelude::*;
use vstd::string::StringExecFns;
use crate::model::Index;

verus! {

/// The views of a sequence of strings.
pub open spec fn views_of(s: Seq<String>) -> Seq<Seq<char>> {
    s.map_values(|x: String| x@)
}

/// The newline-joined form of a sequence of strings: the strings in order,
/// one line feed between neighbours, nothing before the first or after the
/// last.
pub open spec fn joined(s: Seq<Seq<char>>) -> Seq<char>
    decreases s.len(),
{
    if s.len() == 0 {
        Seq::empty()
    } else if s.len() == 1 {
        s[0]
    } else {
        s[0] + seq!['\n'] + joined(s.drop_first())
    }
}

proof fn lemma_joined_push(s: Seq<Seq<char>>, x: Seq<char>)
    ensures
        s.len() == 0 ==> joined(s.push(x)) == x,
        s.len() > 0 ==> joined(s.push(x)) == joined(s) + seq!['\n'] + x,
    decreases s.len(),
{
    let t = s.push(x);
    if s.len() == 0 {
        assert(t.len() == 1 && t[0] == x);
    } else if s.len() == 1 {
        assert(t.len() == 2);
        assert(t.drop_first() =~= seq![x]);
        assert(joined(seq![x]) == x);
        assert(joined(t) == t[0] + seq!['\n'] + x);
        assert(t[0] == s[0] && joined(s) == s[0]);
    } else {
        assert(t.drop_first() =~= s.drop_first().push(x));
        lemma_joined_push(s.drop_first(), x);
        assert(joined(t) == t[0] + seq!['\n'] + (joined(s.drop_first()) + seq!['\n'] + x));
        assert(t[0] == s[0]);
        assert(s[0] + seq!['\n'] + (joined(s.drop_first()) + seq!['\n'] + x) =~= (s[0] + seq!['\n']
            + joined(s.drop_first())) + seq!['\n'] + x);
    }
}

/// Joins the result filenames with single line feeds: exactly the content
/// of the side-channel file after a search.
pub fn join_lines(v: &Vec<String>) -> (r: String)
    ensures
        r@ == joined(views_of(v@)),
{
    let mut out = String::new();
    let n = v.len();
    proof {
        reveal_strlit("\n");
    }
    for i in 0..n
        invariant
            n == v@.len(),
            out@ == joined(views_of(v@).take(i as int)),
    {
        if i > 0 {
            out.append("\n");
        }
        out.append(v[i].as_str());
        proof {
            reveal_strlit("\n");
            let t = views_of(v@).take(i as int);
            lemma_joined_push(t, v@[i as int]@);
            assert(t.push(v@[i as int]@) =~= views_of(v@).take(i + 1));
            assert("\n"@ =~= seq!['\n']);
            if i == 0 {
                assert(out@ =~= joined(views_of(v@).take(i + 1)));
            } else {
                assert(out@ =~= joined(t) + seq!['\n'] + v@[i as int]@);
            }
        }
    }
    proof {
        assert(views_of(v@).take(n as int) =~= views_of(v@));
    }
    out
}

/// The first `max` entries of the index (or all of them, if it has fewer),
/// each as its key and aggregate text, for the browse listing shown on an
/// empty query.
pub fn first_entries(ix: &Index, max: usize) -> (r: Vec<(String, String)>)
    ensures
        r@.len() == if max <= ix@.len() {
            max as int
        } else {
            ix@.len() as int
        },
        forall|i: int|
            0 <= i < r@.len() ==> (#[trigger] r@[i]).0 == ix@[i].0 && r@[i].1 == ix@[i].1.text,
{
    let n = ix.len();
    let count = if max <= n {
        max
    } else {
        n
    };
    let mut r: Vec<(String, String)> = Vec::new();
    for i in 0..count
        invariant
            count <= n,
            n == ix@.len(),
            r@.len() == i,
            forall|m: int|
                0 <= m < i ==> (#[trigger] r@[m]).0 == ix@[m].0 && r@[m].1 == ix@[m].1.text,
    {
        let key = ix.key_at(i).clone();
        let text = ix.entry_at(i).text.clone();
        r.push((key, text));
    }
    r
}

} // verus!
