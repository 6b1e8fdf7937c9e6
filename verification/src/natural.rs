//! Natural (human) ordering of strings.
//!
//! A string is read as a sequence of tokens: each maximal run of ASCII
//! digits forms one numeric token, compared by numeric value (so `img2`
//! comes before `img10`); every other character forms a character token,
//! compared case-insensitively (ASCII letters are folded to lowercase)
//! with ASCII punctuation, whitespace and control characters ordering
//! before digit runs, and digit runs before letters and all remaining
//! characters. Token sequences are compared lexicographically; strings
//! whose token sequences are equal — the same letters up to ASCII case,
//! the same numbers up to leading zeros — fall back to plain code-point
//! comparison, so `a01` comes before `a1` and `A.png` before `a.png`.
//!
//! The fallback makes this a total order in which no two distinct strings
//! compare equal. Non-ASCII characters compare by code point.

use vstd::prelude::*;
use vstd::arithmetic::power::*;
use crate::text::chars_of;

verus! {

/// One token of the natural decomposition, as a triple ordered
/// lexicographically: `(0, folded code point, 0)` for a character of the
/// first class (ASCII punctuation, whitespace, control), `(1, value, 0)`
/// for a digit run, `(2, folded code point, 0)` for a letter or any other
/// character.
pub type NatTok = (int, int, int);

/// ASCII decimal digit.
pub open spec fn is_digit(c: char) -> bool {
    48 <= c as u32 <= 57
}

/// Numeric value of one digit character.
pub open spec fn digit_val(c: char) -> int {
    c as u32 - 48
}

/// Length of the maximal digit run at the start of `s`.
pub open spec fn digit_run(s: Seq<char>) -> nat
    decreases s.len(),
{
    if s.len() > 0 && is_digit(s[0]) {
        (1 + digit_run(s.drop_first())) as nat
    } else {
        0
    }
}

/// Numeric value of a sequence of digit characters, most significant first.
pub open spec fn digits_val(d: Seq<char>) -> int
    decreases d.len(),
{
    if d.len() == 0 {
        0
    } else {
        digits_val(d.drop_last()) * 10 + digit_val(d.last())
    }
}

/// Every character of `d` is a digit.
pub open spec fn all_digits(d: Seq<char>) -> bool {
    forall|i: int| 0 <= i < d.len() ==> is_digit(#[trigger] d[i])
}

pub proof fn lemma_digit_run_props(s: Seq<char>)
    ensures
        digit_run(s) <= s.len(),
        s.len() > 0 && is_digit(s[0]) ==> digit_run(s) >= 1,
        all_digits(s.take(digit_run(s) as int)),
        digit_run(s) < s.len() ==> !is_digit(s[digit_run(s) as int]),
    decreases s.len(),
{
    if s.len() > 0 && is_digit(s[0]) {
        lemma_digit_run_props(s.drop_first());
        let n = digit_run(s) as int;
        let t = s.drop_first();
        assert forall|i: int| 0 <= i < n implies is_digit(#[trigger] s.take(n)[i]) by {
            if i > 0 {
                assert(is_digit(t.take(n - 1)[i - 1]));
            }
        }
        if n < s.len() {
            assert(!is_digit(t[n - 1]));
        }
    }
}

/// The folded code point of a character: ASCII uppercase letters fold to
/// their lowercase, everything else keeps its code point.
pub open spec fn fold_code(c: char) -> int {
    crate::text::ascii_lower_char(c) as int
}

/// Characters of the last class: ASCII letters, and every character
/// outside the ASCII range. The rest of the non-digit ASCII characters —
/// punctuation, whitespace, control — form the first class and order
/// before digit runs.
pub open spec fn is_letterish(c: char) -> bool {
    (97 <= fold_code(c) <= 122) || c as u32 >= 128
}

/// The token of one non-digit character.
pub open spec fn char_tok(c: char) -> NatTok {
    if is_letterish(c) {
        (2int, fold_code(c), 0int)
    } else {
        (0int, fold_code(c), 0int)
    }
}

/// The token sequence of a string.
pub open spec fn nat_tokens(s: Seq<char>) -> Seq<NatTok>
    decreases s.len(),
    via nat_tokens_decreases
{
    if s.len() == 0 {
        Seq::empty()
    } else if is_digit(s[0]) {
        let n = digit_run(s) as int;
        seq![(1int, digits_val(s.take(n)), 0int)] + nat_tokens(s.skip(n))
    } else {
        seq![char_tok(s[0])] + nat_tokens(s.drop_first())
    }
}

#[via_fn]
proof fn nat_tokens_decreases(s: Seq<char>) {
    lemma_digit_run_props(s);
}

/// Strict order on tokens: lexicographic on the triple.
pub open spec fn tok_lt(a: NatTok, b: NatTok) -> bool {
    a.0 < b.0 || (a.0 == b.0 && (a.1 < b.1 || (a.1 == b.1 && a.2 < b.2)))
}

/// Strict lexicographic order on token sequences.
pub open spec fn lex_lt(a: Seq<NatTok>, b: Seq<NatTok>) -> bool
    decreases a.len(),
{
    if b.len() == 0 {
        false
    } else if a.len() == 0 {
        true
    } else if tok_lt(a[0], b[0]) {
        true
    } else if a[0] == b[0] {
        lex_lt(a.drop_first(), b.drop_first())
    } else {
        false
    }
}

/// Plain code-point lexicographic order on character sequences, the final
/// tie-break between strings whose tokens compare equal.
pub open spec fn str_lt(a: Seq<char>, b: Seq<char>) -> bool
    decreases a.len(),
{
    if b.len() == 0 {
        false
    } else if a.len() == 0 {
        true
    } else if (a[0] as u32) < (b[0] as u32) {
        true
    } else if a[0] == b[0] {
        str_lt(a.drop_first(), b.drop_first())
    } else {
        false
    }
}

/// Natural order on strings: strict comparison of their token sequences,
/// with plain code-point comparison breaking the tie between distinct
/// strings whose tokens are equal.
pub open spec fn nat_lt(a: Seq<char>, b: Seq<char>) -> bool {
    lex_lt(nat_tokens(a), nat_tokens(b)) || (nat_tokens(a) == nat_tokens(b) && str_lt(a, b))
}

/// Reflexive closure of the natural order.
pub open spec fn nat_le(a: Seq<char>, b: Seq<char>) -> bool {
    nat_lt(a, b) || a == b
}

proof fn lemma_char_code(c: char)
    ensures
        c as int == (c as u32) as int,
{
}

proof fn lemma_char_inj(c1: char, c2: char)
    requires
        c1 as u32 == c2 as u32,
    ensures
        c1 == c2,
{
}

proof fn lemma_lex_irrefl(a: Seq<NatTok>)
    ensures
        !lex_lt(a, a),
    decreases a.len(),
{
    if a.len() > 0 {
        lemma_lex_irrefl(a.drop_first());
    }
}

proof fn lemma_lex_trans(a: Seq<NatTok>, b: Seq<NatTok>, c: Seq<NatTok>)
    requires
        lex_lt(a, b),
        lex_lt(b, c),
    ensures
        lex_lt(a, c),
    decreases a.len(),
{
    if a.len() > 0 && b.len() > 0 && c.len() > 0 {
        if a[0] == b[0] && b[0] == c[0] {
            lemma_lex_trans(a.drop_first(), b.drop_first(), c.drop_first());
        }
    }
}

proof fn lemma_lex_connected(a: Seq<NatTok>, b: Seq<NatTok>)
    requires
        !lex_lt(a, b),
        !lex_lt(b, a),
    ensures
        a == b,
    decreases a.len(),
{
    if a.len() == 0 || b.len() == 0 {
        assert(a =~= b);
    } else {
        assert(a[0] == b[0]);
        lemma_lex_connected(a.drop_first(), b.drop_first());
        assert(a =~= seq![a[0]] + a.drop_first());
        assert(b =~= seq![b[0]] + b.drop_first());
    }
}

proof fn lemma_tokens_empty(s: Seq<char>)
    ensures
        (nat_tokens(s).len() == 0) <==> (s.len() == 0),
{
}

proof fn lemma_str_lt_irrefl(a: Seq<char>)
    ensures
        !str_lt(a, a),
    decreases a.len(),
{
    if a.len() > 0 {
        lemma_str_lt_irrefl(a.drop_first());
    }
}

proof fn lemma_str_lt_trans(a: Seq<char>, b: Seq<char>, c: Seq<char>)
    requires
        str_lt(a, b),
        str_lt(b, c),
    ensures
        str_lt(a, c),
    decreases a.len(),
{
    if a.len() > 0 && b.len() > 0 && c.len() > 0 {
        if a[0] == b[0] && b[0] == c[0] {
            lemma_str_lt_trans(a.drop_first(), b.drop_first(), c.drop_first());
        }
    }
}

proof fn lemma_str_lt_connected(a: Seq<char>, b: Seq<char>)
    requires
        !str_lt(a, b),
        !str_lt(b, a),
    ensures
        a == b,
    decreases a.len(),
{
    if a.len() == 0 || b.len() == 0 {
        assert(a =~= b);
    } else {
        if a[0] != b[0] {
            if a[0] as u32 == b[0] as u32 {
                lemma_char_inj(a[0], b[0]);
            }
            assert(false);
        }
        lemma_str_lt_connected(a.drop_first(), b.drop_first());
        assert(a =~= seq![a[0]] + a.drop_first());
        assert(b =~= seq![b[0]] + b.drop_first());
    }
}

proof fn lemma_str_lt_asym(a: Seq<char>, b: Seq<char>)
    requires
        str_lt(a, b),
    ensures
        !str_lt(b, a),
        a != b,
{
    if str_lt(b, a) {
        lemma_str_lt_trans(a, b, a);
        lemma_str_lt_irrefl(a);
    }
    if a == b {
        lemma_str_lt_irrefl(a);
    }
}

/// A shared prefix of equal characters does not decide the code-point
/// comparison.
proof fn lemma_str_lt_skip(a: Seq<char>, b: Seq<char>, k: int)
    requires
        0 <= k <= a.len(),
        k <= b.len(),
        forall|m: int| 0 <= m < k ==> #[trigger] a[m] == b[m],
    ensures
        str_lt(a, b) == str_lt(a.skip(k), b.skip(k)),
    decreases k,
{
    if k > 0 {
        assert(a[0] == b[0]);
        assert(!((a[0] as u32) < (b[0] as u32)));
        assert(a.drop_first().skip(k - 1) =~= a.skip(k));
        assert(b.drop_first().skip(k - 1) =~= b.skip(k));
        assert(forall|m: int| 0 <= m < k - 1 ==> #[trigger] a.drop_first()[m] == b.drop_first()[m]);
        lemma_str_lt_skip(a.drop_first(), b.drop_first(), k - 1);
    } else {
        assert(a.skip(0) =~= a);
        assert(b.skip(0) =~= b);
    }
}
pub open spec fn pow10(n: nat) -> int {
    pow(10, n)
}

proof fn lemma_pow10_pos(n: nat)
    ensures
        pow10(n) >= 1,
{
    lemma_pow_positive(10, n);
}

proof fn lemma_pow10_step(n: nat)
    requires
        n >= 1,
    ensures
        pow10(n) == 10 * pow10((n - 1) as nat),
{
    lemma_pow1(10);
    lemma_pow_adds(10, (n - 1) as nat, 1);
}

proof fn lemma_digits_val_single(c: char)
    ensures
        digits_val(seq![c]) == digit_val(c),
{
    let s = seq![c];
    assert(s.len() == 1);
    assert(s.drop_last() =~= Seq::<char>::empty());
    assert(digits_val(Seq::<char>::empty()) == 0);
    assert(s.last() == c);
    assert(digits_val(s) == digits_val(s.drop_last()) * 10 + digit_val(s.last()));
}

proof fn lemma_all_digits_sub(d: Seq<char>, i: int, j: int)
    requires
        all_digits(d),
        0 <= i <= j <= d.len(),
    ensures
        all_digits(d.subrange(i, j)),
{
    assert forall|k: int| 0 <= k < j - i implies is_digit(#[trigger] d.subrange(i, j)[k]) by {
        assert(d.subrange(i, j)[k] == d[i + k]);
    }
}

/// The value of a digit sequence is a natural number below ten to its length.
proof fn lemma_digits_val_bounds(d: Seq<char>)
    requires
        all_digits(d),
    ensures
        0 <= digits_val(d) < pow10(d.len()),
    decreases d.len(),
{
    if d.len() == 0 {
        lemma_pow0(10);
    } else {
        let l = d.len() as int;
        assert(d.drop_last() =~= d.subrange(0, l - 1));
        lemma_all_digits_sub(d, 0, l - 1);
        lemma_digits_val_bounds(d.drop_last());
        assert(is_digit(d[l - 1]));
        assert(0 <= digit_val(d.last()) <= 9);
        lemma_pow10_step(d.len());
        assert(pow10(d.len()) == 10 * pow10((l - 1) as nat));
    }
}

/// A digit sequence with a nonzero leading digit reaches ten to one less
/// than its length.
proof fn lemma_digits_val_lower(d: Seq<char>)
    requires
        all_digits(d),
        d.len() >= 1,
        digit_val(d[0]) >= 1,
    ensures
        digits_val(d) >= pow10((d.len() - 1) as nat),
    decreases d.len(),
{
    let l = d.len() as int;
    assert(is_digit(d[l - 1]));
    if d.len() == 1 {
        lemma_pow0(10);
        assert(digits_val(d.drop_last()) == 0);
    } else {
        assert(d.drop_last() =~= d.subrange(0, l - 1));
        lemma_all_digits_sub(d, 0, l - 1);
        assert(d.drop_last()[0] == d[0]);
        lemma_digits_val_lower(d.drop_last());
        lemma_pow10_step((l - 1) as nat);
        assert(pow10((l - 1) as nat) == 10 * pow10((l - 2) as nat));
        assert(0 <= digit_val(d.last()));
    }
}

/// Positional split: the value of a digit sequence is the value of a prefix,
/// shifted by the length of the suffix, plus the value of the suffix.
proof fn lemma_digits_val_split(d: Seq<char>, k: int)
    requires
        all_digits(d),
        0 <= k <= d.len(),
    ensures
        digits_val(d) == digits_val(d.take(k)) * pow10((d.len() - k) as nat) + digits_val(
            d.skip(k),
        ),
    decreases d.len(),
{
    let l = d.len() as int;
    if k == l {
        lemma_pow0(10);
        assert(d.take(k) =~= d);
        assert(d.skip(k) =~= Seq::<char>::empty());
    } else {
        let dl = d.drop_last();
        assert(dl =~= d.subrange(0, l - 1));
        lemma_all_digits_sub(d, 0, l - 1);
        lemma_digits_val_split(dl, k);
        assert(dl.take(k) =~= d.take(k));
        assert(dl.skip(k) =~= d.skip(k).drop_last());
        let a = digits_val(d.take(k));
        let p = pow10((l - 1 - k) as nat);
        let b = digits_val(d.skip(k).drop_last());
        let x = digit_val(d.last());
        assert(digits_val(dl) == a * p + b);
        assert(d.skip(k).last() == d.last());
        assert(d.skip(k).len() == l - k >= 1);
        assert(digits_val(d.skip(k)) == b * 10 + x);
        assert(digits_val(d) == digits_val(dl) * 10 + x);
        lemma_pow10_step((l - k) as nat);
        assert(pow10((l - k) as nat) == 10 * pow10((l - 1 - k) as nat));
        assert((a * p + b) * 10 + x == a * (p * 10) + (b * 10 + x)) by (nonlinear_arith);
        assert(digits_val(d) == (a * p + b) * 10 + x);
        assert(p * 10 == pow10((l - k) as nat));
        assert(a * (p * 10) == a * pow10((l - k) as nat));
        assert(digits_val(d) == a * pow10((l - k) as nat) + digits_val(d.skip(k)));
    }
}

proof fn lemma_zeros_val(d: Seq<char>)
    requires
        forall|i: int| 0 <= i < d.len() ==> #[trigger] d[i] == '0',
    ensures
        digits_val(d) == 0,
    decreases d.len(),
{
    if d.len() > 0 {
        let l = d.len() as int;
        assert(forall|i: int| 0 <= i < l - 1 ==> #[trigger] d.drop_last()[i] == '0');
        lemma_zeros_val(d.drop_last());
        assert(d.last() == '0');
        assert(digit_val('0') == 0);
    }
}

/// Leading zeros do not change the numeric value.
proof fn lemma_strip_zeros(d: Seq<char>, z: int)
    requires
        all_digits(d),
        0 <= z <= d.len(),
        forall|i: int| 0 <= i < z ==> #[trigger] d[i] == '0',
    ensures
        digits_val(d) == digits_val(d.skip(z)),
{
    lemma_digits_val_split(d, z);
    assert(forall|i: int| 0 <= i < z ==> #[trigger] d.take(z)[i] == '0');
    lemma_zeros_val(d.take(z));
}

/// After stripping maximal leading zeros, a strictly shorter run has a
/// strictly smaller value.
proof fn lemma_val_lt_shorter(d1: Seq<char>, d2: Seq<char>, z1: int, z2: int)
    requires
        all_digits(d1),
        all_digits(d2),
        0 <= z1 <= d1.len(),
        0 <= z2 < d2.len(),
        forall|i: int| 0 <= i < z1 ==> #[trigger] d1[i] == '0',
        forall|i: int| 0 <= i < z2 ==> #[trigger] d2[i] == '0',
        d2[z2] != '0',
        d1.len() - z1 < d2.len() - z2,
    ensures
        digits_val(d1) < digits_val(d2),
{
    let s1 = d1.skip(z1);
    let s2 = d2.skip(z2);
    let e1 = (d1.len() - z1) as nat;
    let e2 = (d2.len() - z2) as nat;
    lemma_strip_zeros(d1, z1);
    lemma_strip_zeros(d2, z2);
    lemma_all_digits_sub(d1, z1, d1.len() as int);
    lemma_all_digits_sub(d2, z2, d2.len() as int);
    assert(s1 =~= d1.subrange(z1, d1.len() as int));
    assert(s2 =~= d2.subrange(z2, d2.len() as int));
    lemma_digits_val_bounds(s1);
    assert(s2[0] == d2[z2]);
    assert(digit_val(s2[0]) >= 1) by {
        assert(is_digit(s2[0]));
        if s2[0] as u32 == 48 {
            lemma_char_inj(s2[0], '0');
        }
    }
    lemma_digits_val_lower(s2);
    lemma_pow_increases(10, e1, (e2 - 1) as nat);
}

/// Two digit runs of equal effective length: the first differing digit
/// decides the value comparison.
proof fn lemma_val_lt_firstdiff(s1: Seq<char>, s2: Seq<char>, k: int)
    requires
        all_digits(s1),
        all_digits(s2),
        s1.len() == s2.len(),
        0 <= k < s1.len(),
        s1.take(k) == s2.take(k),
        (s1[k] as u32) < (s2[k] as u32),
    ensures
        digits_val(s1) < digits_val(s2),
{
    let l = s1.len() as int;
    let m = (l - k - 1) as nat;
    lemma_digits_val_split(s1, k);
    lemma_digits_val_split(s2, k);
    let x1 = s1.skip(k);
    let x2 = s2.skip(k);
    lemma_all_digits_sub(s1, k, l);
    lemma_all_digits_sub(s2, k, l);
    assert(x1 =~= s1.subrange(k, l));
    assert(x2 =~= s2.subrange(k, l));
    lemma_digits_val_split(x1, 1);
    lemma_digits_val_split(x2, 1);
    assert(x1.take(1) =~= seq![s1[k]]);
    assert(x2.take(1) =~= seq![s2[k]]);
    lemma_digits_val_single(s1[k]);
    lemma_digits_val_single(s2[k]);
    lemma_all_digits_sub(x1, 1, x1.len() as int);
    lemma_all_digits_sub(x2, 1, x2.len() as int);
    assert(x1.skip(1) =~= x1.subrange(1, x1.len() as int));
    assert(x2.skip(1) =~= x2.subrange(1, x2.len() as int));
    lemma_digits_val_bounds(x1.skip(1));
    lemma_digits_val_bounds(x2.skip(1));
    let dv1 = digit_val(s1[k]);
    let dv2 = digit_val(s2[k]);
    let p = pow10(m);
    lemma_pow10_pos(m);
    assert(digits_val(x1) < digits_val(x2)) by {
        assert(dv1 * p + (p - 1) < (dv1 + 1) * p) by (nonlinear_arith);
        assert((dv1 + 1) * p <= dv2 * p) by (nonlinear_arith)
            requires
                dv1 + 1 <= dv2,
                p >= 1,
        ;
    }
    let q = pow10((l - k) as nat);
    assert(digits_val(s1.take(k)) * q + digits_val(x1) < digits_val(s2.take(k)) * q + digits_val(
        x2,
    ));
}

/// Comparing token sequences is unchanged by a common prefix.
proof fn lemma_lex_prefix(p: Seq<NatTok>, x: Seq<NatTok>, y: Seq<NatTok>)
    ensures
        lex_lt(p + x, p + y) == lex_lt(x, y),
        ((p + x) =~= (p + y)) == (x =~= y),
    decreases p.len(),
{
    if p.len() == 0 {
        assert(p + x =~= x);
        assert(p + y =~= y);
    } else {
        assert((p + x).len() > 0 && (p + y).len() > 0);
        assert((p + x)[0] == p[0] && (p + y)[0] == p[0]);
        assert(!tok_lt(p[0], p[0]));
        assert((p + x).drop_first() =~= p.drop_first() + x);
        assert((p + y).drop_first() =~= p.drop_first() + y);
        lemma_lex_prefix(p.drop_first(), x, y);
        if x =~= y {
            assert(p + x =~= p + y);
        }
        if (p + x) =~= (p + y) {
            assert(x =~= (p + x).skip(p.len() as int));
            assert(y =~= (p + y).skip(p.len() as int));
        }
    }
}

/// Head token of a string that starts with a digit run.
proof fn lemma_tokens_digit_head(s: Seq<char>)
    requires
        s.len() > 0,
        is_digit(s[0]),
    ensures
        nat_tokens(s) == seq![
            (1int, digits_val(s.take(digit_run(s) as int)), 0int),
        ] + nat_tokens(s.skip(digit_run(s) as int)),
{
}

/// Head token of a string that starts with a non-digit character.
proof fn lemma_tokens_char_head(s: Seq<char>)
    requires
        s.len() > 0,
        !is_digit(s[0]),
    ensures
        nat_tokens(s) == seq![char_tok(s[0])] + nat_tokens(s.drop_first()),
{
}

/// A run of digits followed by a non-digit (or the end) is the maximal
/// digit run.
proof fn lemma_digit_run_char(s: Seq<char>, n: int)
    requires
        0 <= n <= s.len(),
        forall|m: int| 0 <= m < n ==> is_digit(#[trigger] s[m]),
        n < s.len() ==> !is_digit(s[n]),
    ensures
        digit_run(s) == n,
    decreases s.len(),
{
    if n == 0 {
    } else {
        let t = s.drop_first();
        assert(forall|m: int| 0 <= m < n - 1 ==> #[trigger] t[m] == s[m + 1]);
        assert(n - 1 < t.len() ==> t[n - 1] == s[n]);
        lemma_digit_run_char(t, n - 1);
    }
}

/// Deciding the order from the first unequal token.
proof fn lemma_lex_heads(t1: NatTok, t2: NatTok, u: Seq<NatTok>, v: Seq<NatTok>)
    ensures
        tok_lt(t1, t2) ==> lex_lt(seq![t1] + u, seq![t2] + v),
        t1 == t2 ==> lex_lt(seq![t1] + u, seq![t2] + v) == lex_lt(u, v),
{
    let a = seq![t1] + u;
    let b = seq![t2] + v;
    assert(a[0] == t1 && b[0] == t2);
    assert(a.len() > 0 && b.len() > 0);
    assert(a.drop_first() =~= u);
    assert(b.drop_first() =~= v);
}

/// The natural order never relates a string below itself.
pub proof fn lemma_nat_lt_irrefl(a: Seq<char>)
    ensures
        !nat_lt(a, a),
{
    lemma_lex_irrefl(nat_tokens(a));
    lemma_str_lt_irrefl(a);
}

/// The natural order is transitive.
pub proof fn lemma_nat_lt_trans(a: Seq<char>, b: Seq<char>, c: Seq<char>)
    requires
        nat_lt(a, b),
        nat_lt(b, c),
    ensures
        nat_lt(a, c),
{
    let ta = nat_tokens(a);
    let tb = nat_tokens(b);
    let tc = nat_tokens(c);
    if lex_lt(ta, tb) && lex_lt(tb, tc) {
        lemma_lex_trans(ta, tb, tc);
    } else if ta == tb && tb == tc {
        lemma_str_lt_trans(a, b, c);
    }
}

/// The natural order is total: two strings that neither compares below the
/// other are the same string. Together with irreflexivity and transitivity
/// this makes `nat_lt` a strict total order on strings, as the result
/// ordering requires: it is deterministic, and no two distinct keys compare
/// equal.
pub proof fn lemma_nat_lt_connected(a: Seq<char>, b: Seq<char>)
    requires
        !nat_lt(a, b),
        !nat_lt(b, a),
    ensures
        a == b,
{
    lemma_lex_connected(nat_tokens(a), nat_tokens(b));
    lemma_str_lt_connected(a, b);
}

/// The natural order is asymmetric.
pub proof fn lemma_nat_lt_asym(a: Seq<char>, b: Seq<char>)
    requires
        nat_lt(a, b),
    ensures
        !nat_lt(b, a),
        a != b,
{
    if nat_lt(b, a) {
        lemma_nat_lt_trans(a, b, a);
        lemma_nat_lt_irrefl(a);
    }
    if a == b {
        lemma_nat_lt_irrefl(a);
    }
}

fn digit_ch(c: char) -> (r: bool)
    ensures
        r == is_digit(c),
{
    let u = c as u32;
    48 <= u && u <= 57
}

/// Index just past the maximal digit run beginning at `start`.
fn run_end(v: &Vec<char>, start: usize) -> (end: usize)
    requires
        start <= v@.len(),
    ensures
        start <= end <= v@.len(),
        digit_run(v@.skip(start as int)) == end - start,
        all_digits(v@.subrange(start as int, end as int)),
{
    let len = v.len();
    let mut end = start;
    while end < len && digit_ch(v[end])
        invariant
            start <= end <= len,
            len == v@.len(),
            forall|m: int| start <= m < end ==> is_digit(#[trigger] v@[m]),
        decreases len - end,
    {
        end += 1;
    }
    proof {
        let s = v@.skip(start as int);
        assert forall|m: int| 0 <= m < end - start implies is_digit(#[trigger] s[m]) by {
            assert(s[m] == v@[start + m]);
        }
        if end - start < s.len() {
            assert(s[end - start] == v@[end as int]);
        }
        lemma_digit_run_char(s, end - start);
        assert forall|m: int|
            0 <= m < end - start implies is_digit(#[trigger] v@.subrange(
            start as int,
            end as int,
        )[m]) by {
            assert(v@.subrange(start as int, end as int)[m] == v@[start + m]);
        }
    }
    end
}

/// Compares two digit runs by numeric value.
fn cmp_digit_runs(a: &Vec<char>, i: usize, la: usize, b: &Vec<char>, j: usize, lb: usize) -> (r:
    i8)
    requires
        i + la <= a@.len(),
        j + lb <= b@.len(),
        all_digits(a@.subrange(i as int, i + la)),
        all_digits(b@.subrange(j as int, j + lb)),
    ensures
        -1 <= r <= 1,
        (r == -1) == (digits_val(a@.subrange(i as int, i + la)) < digits_val(
            b@.subrange(j as int, j + lb),
        )),
        (r == 0) == (digits_val(a@.subrange(i as int, i + la)) == digits_val(
            b@.subrange(j as int, j + lb),
        )),
    {
    let ghost d1 = a@.subrange(i as int, i + la);
    let ghost d2 = b@.subrange(j as int, j + lb);
    let alen = a.len();
    let blen = b.len();
    let mut za: usize = 0;
    while za < la && a[i + za] == '0'
        invariant
            za <= la,
            i + la <= alen,
            alen == a@.len(),
            d1 == a@.subrange(i as int, i + la),
            forall|m: int| 0 <= m < za ==> #[trigger] d1[m] == '0',
        decreases la - za,
    {
        proof {
            assert(d1[za as int] == a@[i + za]);
        }
        za += 1;
    }
    proof {
        if za < la {
            assert(d1[za as int] == a@[i + za]);
        }
    }
    let mut zb: usize = 0;
    while zb < lb && b[j + zb] == '0'
        invariant
            zb <= lb,
            j + lb <= blen,
            blen == b@.len(),
            d2 == b@.subrange(j as int, j + lb),
            forall|m: int| 0 <= m < zb ==> #[trigger] d2[m] == '0',
        decreases lb - zb,
    {
        proof {
            assert(d2[zb as int] == b@[j + zb]);
        }
        zb += 1;
    }
    proof {
        if zb < lb {
            assert(d2[zb as int] == b@[j + zb]);
        }
    }
    let ea = la - za;
    let eb = lb - zb;
    if ea < eb {
        proof {
            lemma_val_lt_shorter(d1, d2, za as int, zb as int);
        }
        return -1;
    }
    if eb < ea {
        proof {
            lemma_val_lt_shorter(d2, d1, zb as int, za as int);
        }
        return 1;
    }
    let ghost s1 = d1.skip(za as int);
    let ghost s2 = d2.skip(zb as int);
    proof {
        lemma_all_digits_sub(d1, za as int, d1.len() as int);
        lemma_all_digits_sub(d2, zb as int, d2.len() as int);
        assert(s1 =~= d1.subrange(za as int, d1.len() as int));
        assert(s2 =~= d2.subrange(zb as int, d2.len() as int));
        lemma_strip_zeros(d1, za as int);
        lemma_strip_zeros(d2, zb as int);
    }
    let mut k: usize = 0;
    while k < ea
        invariant
            k <= ea,
            ea == la - za,
            eb == lb - zb,
            ea == eb,
            za <= la,
            zb <= lb,
            i + la <= alen,
            j + lb <= blen,
            alen == a@.len(),
            blen == b@.len(),
            d1 == a@.subrange(i as int, i + la),
            d2 == b@.subrange(j as int, j + lb),
            s1 == d1.skip(za as int),
            s2 == d2.skip(zb as int),
            all_digits(s1),
            all_digits(s2),
            digits_val(d1) == digits_val(s1),
            digits_val(d2) == digits_val(s2),
            forall|m: int| 0 <= m < k ==> #[trigger] s1[m] == s2[m],
        decreases ea - k,
    {
        let c1 = a[i + za + k];
        let c2 = b[j + zb + k];
        proof {
            assert(s1[k as int] == d1[za + k]);
            assert(d1[za + k] == a@[i + za + k]);
            assert(s2[k as int] == d2[zb + k]);
            assert(d2[zb + k] == b@[j + zb + k]);
        }
        if (c1 as u32) < (c2 as u32) {
            proof {
                assert(s1.take(k as int) =~= s2.take(k as int));
                lemma_val_lt_firstdiff(s1, s2, k as int);
            }
            return -1;
        }
        if (c2 as u32) < (c1 as u32) {
            proof {
                assert(s2.take(k as int) =~= s1.take(k as int));
                lemma_val_lt_firstdiff(s2, s1, k as int);
            }
            return 1;
        }
        proof {
            lemma_char_inj(c1, c2);
        }
        k += 1;
    }
    proof {
        assert(s1 =~= s2);
    }
    0
}

/// Plain code-point comparison of two character sequences, the tie-break
/// of the natural order.
fn str_cmp_chars(a: &Vec<char>, b: &Vec<char>) -> (r: i8)
    ensures
        -1 <= r <= 1,
        (r == -1) == str_lt(a@, b@),
        (r == 0) == (a@ == b@),
        (r == 1) == str_lt(b@, a@),
{
    let alen = a.len();
    let blen = b.len();
    let shorter = if alen < blen {
        alen
    } else {
        blen
    };
    for k in 0..shorter
        invariant
            alen == a@.len(),
            blen == b@.len(),
            shorter <= alen,
            shorter <= blen,
            forall|m: int| 0 <= m < k ==> #[trigger] a@[m] == b@[m],
    {
        let c1 = a[k];
        let c2 = b[k];
        if (c1 as u32) < (c2 as u32) {
            proof {
                lemma_str_lt_skip(a@, b@, k as int);
                assert(a@.skip(k as int)[0] == c1);
                assert(b@.skip(k as int)[0] == c2);
                assert(str_lt(a@, b@));
                lemma_str_lt_asym(a@, b@);
            }
            return -1;
        }
        if (c2 as u32) < (c1 as u32) {
            proof {
                lemma_str_lt_skip(b@, a@, k as int);
                assert(b@.skip(k as int)[0] == c2);
                assert(a@.skip(k as int)[0] == c1);
                assert(str_lt(b@, a@));
                lemma_str_lt_asym(b@, a@);
            }
            return 1;
        }
        proof {
            lemma_char_inj(c1, c2);
        }
    }
    if alen < blen {
        proof {
            lemma_str_lt_skip(a@, b@, alen as int);
            assert(a@.skip(alen as int) =~= Seq::<char>::empty());
            assert(b@.skip(alen as int).len() > 0);
            assert(str_lt(a@, b@));
            lemma_str_lt_asym(a@, b@);
        }
        -1
    } else if blen < alen {
        proof {
            lemma_str_lt_skip(b@, a@, blen as int);
            assert(b@.skip(blen as int) =~= Seq::<char>::empty());
            assert(a@.skip(blen as int).len() > 0);
            assert(str_lt(b@, a@));
            lemma_str_lt_asym(b@, a@);
        }
        1
    } else {
        proof {
            assert(a@ =~= b@);
            lemma_str_lt_irrefl(a@);
        }
        0
    }
}

/// Whether `c` belongs to the last character class, decided as
/// `is_letterish` says.
fn letterish_ch(c: char) -> (r: bool)
    ensures
        r == is_letterish(c),
{
    let f = crate::text::lower_char(c);
    let fu = f as u32;
    proof {
        lemma_char_code(f);
    }
    (97 <= fu && fu <= 122) || (c as u32) >= 128
}

/// Three-way natural comparison of two character sequences.
pub fn nat_cmp_chars(a: &Vec<char>, b: &Vec<char>) -> (r: i8)
    ensures
        -1 <= r <= 1,
        (r == -1) == nat_lt(a@, b@),
        (r == 0) == (a@ == b@),
        (r == 1) == nat_lt(b@, a@),
{
    let alen = a.len();
    let blen = b.len();
    let mut i: usize = 0;
    let mut j: usize = 0;
    let ghost mut tp: Seq<NatTok> = Seq::empty();
    proof {
        assert(a@.skip(0) =~= a@);
        assert(b@.skip(0) =~= b@);
        assert(nat_tokens(a@) =~= tp + nat_tokens(a@.skip(0)));
        assert(nat_tokens(b@) =~= tp + nat_tokens(b@.skip(0)));
    }
    loop
        invariant
            i <= alen,
            j <= blen,
            alen == a@.len(),
            blen == b@.len(),
            nat_tokens(a@) == tp + nat_tokens(a@.skip(i as int)),
            nat_tokens(b@) == tp + nat_tokens(b@.skip(j as int)),
        decreases alen - i + blen - j,
    {
        let ghost sa = a@.skip(i as int);
        let ghost sb = b@.skip(j as int);
        if i == alen && j == blen {
            proof {
                assert(sa =~= Seq::<char>::empty());
                assert(sb =~= Seq::<char>::empty());
                assert(nat_tokens(a@) =~= nat_tokens(b@));
                lemma_lex_irrefl(nat_tokens(a@));
            }
            let rc = str_cmp_chars(a, b);
            return rc;
        }
        if i == alen {
            proof {
                assert(sa.len() == 0 && sb.len() > 0);
                lemma_tokens_empty(sb);
                assert(lex_lt(nat_tokens(sa), nat_tokens(sb)));
                lemma_lex_prefix(tp, nat_tokens(sa), nat_tokens(sb));
                lemma_nat_lt_asym(a@, b@);
            }
            return -1;
        }
        if j == blen {
            proof {
                assert(sb.len() == 0 && sa.len() > 0);
                lemma_tokens_empty(sa);
                assert(lex_lt(nat_tokens(sb), nat_tokens(sa)));
                lemma_lex_prefix(tp, nat_tokens(sb), nat_tokens(sa));
                lemma_lex_prefix(tp, nat_tokens(sa), nat_tokens(sb));
                lemma_nat_lt_asym(b@, a@);
            }
            return 1;
        }
        let ca = a[i];
        let cb = b[j];
        proof {
            assert(sa[0] == a@[i as int]);
            assert(sb[0] == b@[j as int]);
        }
        let da = digit_ch(ca);
        let db = digit_ch(cb);
        if da && db {
            let end_a = run_end(a, i);
            let end_b = run_end(b, j);
            let la = end_a - i;
            let lb = end_b - j;
            proof {
                lemma_digit_run_props(sa);
                lemma_digit_run_props(sb);
                lemma_tokens_digit_head(sa);
                lemma_tokens_digit_head(sb);
                assert(sa.take(la as int) =~= a@.subrange(i as int, i + la));
                assert(sb.take(lb as int) =~= b@.subrange(j as int, j + lb));
            }
            let ghost t1 = (1int, digits_val(a@.subrange(i as int, i + la)), 0int);
            let ghost t2 = (1int, digits_val(b@.subrange(j as int, j + lb)), 0int);
            proof {
                assert(nat_tokens(sa) == seq![t1] + nat_tokens(sa.skip(la as int)));
                assert(nat_tokens(sb) == seq![t2] + nat_tokens(sb.skip(lb as int)));
            }
            let c = cmp_digit_runs(a, i, la, b, j, lb);
            if c == -1 {
                proof {
                    assert(tok_lt(t1, t2));
                    lemma_lex_heads(t1, t2, nat_tokens(sa.skip(la as int)), nat_tokens(sb.skip(lb as int)));
                    lemma_lex_prefix(tp, nat_tokens(sa), nat_tokens(sb));
                    lemma_nat_lt_asym(a@, b@);
                }
                return -1;
            }
            if c == 1 {
                proof {
                    assert(tok_lt(t2, t1));
                    lemma_lex_heads(t2, t1, nat_tokens(sb.skip(lb as int)), nat_tokens(sa.skip(la as int)));
                    lemma_lex_prefix(tp, nat_tokens(sb), nat_tokens(sa));
                    lemma_lex_prefix(tp, nat_tokens(sa), nat_tokens(sb));
                    lemma_nat_lt_asym(b@, a@);
                }
                return 1;
            }
            proof {
                assert(t1 == t2);
                assert(sa.skip(la as int) =~= a@.skip(i + la));
                assert(sb.skip(lb as int) =~= b@.skip(j + lb));
                tp = tp + seq![t1];
                assert(nat_tokens(a@) =~= tp + nat_tokens(a@.skip(i + la)));
                assert(nat_tokens(b@) =~= tp + nat_tokens(b@.skip(j + lb)));
            }
            i = i + la;
            j = j + lb;
        } else if da {
            let letter_b = letterish_ch(cb);
            proof {
                lemma_digit_run_props(sa);
                lemma_tokens_digit_head(sa);
                lemma_tokens_char_head(sb);
                let n = digit_run(sa) as int;
                let t1 = (1int, digits_val(sa.take(n)), 0int);
                let t2 = char_tok(sb[0]);
            }
            if letter_b {
                proof {
                    let n = digit_run(sa) as int;
                    let t1 = (1int, digits_val(sa.take(n)), 0int);
                    let t2 = char_tok(sb[0]);
                    assert(t2.0 == 2);
                    assert(tok_lt(t1, t2));
                    lemma_lex_heads(t1, t2, nat_tokens(sa.skip(n)), nat_tokens(sb.drop_first()));
                    lemma_lex_prefix(tp, nat_tokens(sa), nat_tokens(sb));
                    lemma_nat_lt_asym(a@, b@);
                }
                return -1;
            } else {
                proof {
                    let n = digit_run(sa) as int;
                    let t1 = (1int, digits_val(sa.take(n)), 0int);
                    let t2 = char_tok(sb[0]);
                    assert(t2.0 == 0);
                    assert(tok_lt(t2, t1));
                    lemma_lex_heads(t2, t1, nat_tokens(sb.drop_first()), nat_tokens(sa.skip(n)));
                    lemma_lex_prefix(tp, nat_tokens(sb), nat_tokens(sa));
                    lemma_lex_prefix(tp, nat_tokens(sa), nat_tokens(sb));
                    lemma_nat_lt_asym(b@, a@);
                }
                return 1;
            }
        } else if db {
            let letter_a = letterish_ch(ca);
            proof {
                lemma_digit_run_props(sb);
                lemma_tokens_digit_head(sb);
                lemma_tokens_char_head(sa);
            }
            if letter_a {
                proof {
                    let n = digit_run(sb) as int;
                    let t2 = (1int, digits_val(sb.take(n)), 0int);
                    let t1 = char_tok(sa[0]);
                    assert(t1.0 == 2);
                    assert(tok_lt(t2, t1));
                    lemma_lex_heads(t2, t1, nat_tokens(sb.skip(n)), nat_tokens(sa.drop_first()));
                    lemma_lex_prefix(tp, nat_tokens(sb), nat_tokens(sa));
                    lemma_lex_prefix(tp, nat_tokens(sa), nat_tokens(sb));
                    lemma_nat_lt_asym(b@, a@);
                }
                return 1;
            } else {
                proof {
                    let n = digit_run(sb) as int;
                    let t2 = (1int, digits_val(sb.take(n)), 0int);
                    let t1 = char_tok(sa[0]);
                    assert(t1.0 == 0);
                    assert(tok_lt(t1, t2));
                    lemma_lex_heads(t1, t2, nat_tokens(sa.drop_first()), nat_tokens(sb.skip(n)));
                    lemma_lex_prefix(tp, nat_tokens(sa), nat_tokens(sb));
                    lemma_nat_lt_asym(a@, b@);
                }
                return -1;
            }
        } else {
            let letter_a = letterish_ch(ca);
            let letter_b = letterish_ch(cb);
            let fa = crate::text::lower_char(ca);
            let fb = crate::text::lower_char(cb);
            let cls_a: u32 = if letter_a {
                2
            } else {
                0
            };
            let cls_b: u32 = if letter_b {
                2
            } else {
                0
            };
            proof {
                lemma_tokens_char_head(sa);
                lemma_tokens_char_head(sb);
                lemma_char_code(fa);
                lemma_char_code(fb);
                assert(char_tok(sa[0]).0 == cls_a as int);
                assert(char_tok(sb[0]).0 == cls_b as int);
                assert(char_tok(sa[0]).1 == (fa as u32) as int);
                assert(char_tok(sb[0]).1 == (fb as u32) as int);
            }
            let decided: i8 = if cls_a < cls_b {
                -1
            } else if cls_b < cls_a {
                1
            } else if (fa as u32) < (fb as u32) {
                -1
            } else if (fb as u32) < (fa as u32) {
                1
            } else {
                0
            };
            if decided == -1 {
                proof {
                    let t1 = char_tok(sa[0]);
                    let t2 = char_tok(sb[0]);
                    assert(tok_lt(t1, t2));
                    lemma_lex_heads(t1, t2, nat_tokens(sa.drop_first()), nat_tokens(sb.drop_first()));
                    lemma_lex_prefix(tp, nat_tokens(sa), nat_tokens(sb));
                    lemma_nat_lt_asym(a@, b@);
                }
                return -1;
            }
            if decided == 1 {
                proof {
                    let t1 = char_tok(sa[0]);
                    let t2 = char_tok(sb[0]);
                    assert(tok_lt(t2, t1));
                    lemma_lex_heads(t2, t1, nat_tokens(sb.drop_first()), nat_tokens(sa.drop_first()));
                    lemma_lex_prefix(tp, nat_tokens(sb), nat_tokens(sa));
                    lemma_lex_prefix(tp, nat_tokens(sa), nat_tokens(sb));
                    lemma_nat_lt_asym(b@, a@);
                }
                return 1;
            }
            proof {
                let t1 = char_tok(sa[0]);
                assert(char_tok(sa[0]) == char_tok(sb[0]));
                assert(sa.drop_first() =~= a@.skip(i + 1));
                assert(sb.drop_first() =~= b@.skip(j + 1));
                tp = tp + seq![t1];
                assert(nat_tokens(a@) =~= tp + nat_tokens(a@.skip(i + 1)));
                assert(nat_tokens(b@) =~= tp + nat_tokens(b@.skip(j + 1)));
            }
            i = i + 1;
            j = j + 1;
        }
    }
}

/// Natural comparison of two string slices: is `a` less than or equal to
/// `b` in the natural order?
pub fn natural_le(a: &str, b: &str) -> (r: bool)
    ensures
        r == nat_le(a@, b@),
{
    let av = chars_of(a);
    let bv = chars_of(b);
    let c = nat_cmp_chars(&av, &bv);
    c <= 0
}

/// `nat_le` is transitive.
pub proof fn lemma_nat_le_trans(a: Seq<char>, b: Seq<char>, c: Seq<char>)
    requires
        nat_le(a, b),
        nat_le(b, c),
    ensures
        nat_le(a, c),
{
    if nat_lt(a, b) && nat_lt(b, c) {
        lemma_nat_lt_trans(a, b, c);
    }
}

/// The strings of `s` stand in nondecreasing natural order.
pub open spec fn nat_sorted(s: Seq<String>) -> bool {
    forall|p: int, q: int| 0 <= p < q < s.len() ==> nat_le(#[trigger] s[p]@, #[trigger] s[q]@)
}

/// Sorts a vector of strings into natural order. The result holds exactly
/// the strings of the input, as a multiset.
pub fn sort_natural(v: &mut Vec<String>)
    ensures
        nat_sorted(final(v)@),
        final(v)@.to_multiset() == old(v)@.to_multiset(),
{
    let n = v.len();
    let mut i: usize = 1;
    while i < n
        invariant
            1 <= i,
            n == v@.len(),
            forall|p: int, q: int| 0 <= p < q < i ==> nat_le(#[trigger] v@[p]@, #[trigger] v@[q]@),
            v@.to_multiset() == old(v)@.to_multiset(),
        decreases n - i,
    {
        let ghost s0 = v@;
        proof {
            assert(s0.contains(s0[i as int]));
        }
        let x = v.remove(i);
        let ghost s1 = v@;
        let mut j = i;
        while j > 0 && !natural_le(v[j - 1].as_str(), x.as_str())
            invariant
                j <= i,
                i < n,
                n - 1 == v@.len(),
                v@ == s1,
                forall|m: int| j <= m < i ==> nat_lt(x@, #[trigger] s1[m]@),
            decreases j,
        {
            proof {
                let p = s1[j - 1]@;
                assert(!nat_le(p, x@));
                if !nat_lt(x@, p) {
                    lemma_nat_lt_connected(p, x@);
                    assert(false);
                }
            }
            j -= 1;
        }
        v.insert(j, x);
        proof {
            let t = v@;
            assert(t == s1.insert(j as int, x));
            assert forall|p: int, q: int|
                0 <= p < q < i + 1 implies nat_le(#[trigger] t[p]@, #[trigger] t[q]@) by {
                assert(forall|m: int| 0 <= m < i ==> #[trigger] s1[m] == s0[m]);
                if q < j {
                    assert(t[p] == s1[p] && t[q] == s1[q]);
                } else if q == j {
                    assert(t[q] == x);
                    assert(t[p] == s1[p]);
                    if p < j - 1 {
                        assert(nat_le(s1[p]@, s1[j - 1]@));
                        assert(nat_le(s1[j - 1]@, x@));
                        lemma_nat_le_trans(s1[p]@, s1[j - 1]@, x@);
                    } else {
                        assert(p == j - 1);
                        assert(nat_le(s1[p]@, x@));
                    }
                } else {
                    assert(t[q] == s1[q - 1]);
                    if p < j {
                        assert(t[p] == s1[p]);
                        if j <= q - 1 < i {
                            if q - 1 == j {
                                if p == j - 1 {
                                    lemma_nat_le_trans(s1[p]@, x@, s1[q - 1]@);
                                } else {
                                }
                            }
                        }
                        assert(nat_le(s1[p]@, s1[q - 1]@));
                    } else if p == j {
                        assert(t[p] == x);
                        assert(nat_lt(x@, s1[q - 1]@));
                    } else {
                        assert(t[p] == s1[p - 1]);
                        assert(nat_le(s1[p - 1]@, s1[q - 1]@));
                    }
                }
            }
            vstd::seq_lib::to_multiset_remove(s0, i as int);
            assert(s1.to_multiset() == s0.to_multiset().remove(x));
            vstd::seq_lib::to_multiset_insert(s1, j as int, x);
            assert(t.to_multiset() == s1.to_multiset().insert(x));
            vstd::seq_lib::to_multiset_contains(s0, x);
            assert(s0.to_multiset().count(x) > 0);
            assert(t.to_multiset() =~= s0.to_multiset());
        }
        i += 1;
    }
    proof {
        if n == 0 {
            assert(nat_sorted(v@));
        }
    }
}

} // verus!
