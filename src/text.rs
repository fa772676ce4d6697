//! Character-level helpers over a text held as a `Vec<char>`: whitespace,
//! trimming, searching and comparing a range of it.
use vstd::prelude::*;

verus! {

/// Whitespace as Unicode's `White_Space` property defines it.
pub open spec fn is_space(c: char) -> bool {
    ||| ('\u{9}' <= c && c <= '\u{d}')
    ||| c == ' '
    ||| c == '\u{85}'
    ||| c == '\u{a0}'
    ||| c == '\u{1680}'
    ||| ('\u{2000}' <= c && c <= '\u{200a}')
    ||| c == '\u{2028}'
    ||| c == '\u{2029}'
    ||| c == '\u{202f}'
    ||| c == '\u{205f}'
    ||| c == '\u{3000}'
}

/// The index of the first non-space character at or after `i`, or `s.len()`.
pub open spec fn lead(s: Seq<char>, i: int) -> int
    decreases s.len() - i,
{
    if i >= s.len() {
        s.len() as int
    } else if is_space(s[i]) {
        lead(s, i + 1)
    } else {
        i
    }
}

/// The end of `s.subrange(0, j)` once trailing spaces are dropped.
pub open spec fn trail(s: Seq<char>, j: int) -> int
    decreases j,
{
    if j <= 0 {
        0
    } else if is_space(s[j - 1]) {
        trail(s, j - 1)
    } else {
        j
    }
}

pub proof fn lemma_trail_bounds(s: Seq<char>, j: int)
    requires
        0 <= j <= s.len(),
    ensures
        0 <= trail(s, j) <= j,
    decreases j,
{
    if j > 0 && is_space(s[j - 1]) {
        lemma_trail_bounds(s, j - 1);
    }
}

/// `s` without leading and trailing whitespace.
pub open spec fn trim(s: Seq<char>) -> Seq<char> {
    let a = lead(s, 0);
    let b = trail(s, s.len() as int);
    if a < b {
        s.subrange(a, b)
    } else {
        Seq::empty()
    }
}

/// The index of the first `c` at or after `i`, or `s.len()` when there is none.
pub open spec fn next_of(s: Seq<char>, c: char, i: int) -> int
    decreases s.len() - i,
{
    if i >= s.len() {
        s.len() as int
    } else if s[i] == c {
        i
    } else {
        next_of(s, c, i + 1)
    }
}

pub proof fn lemma_next_of_bounds(s: Seq<char>, c: char, i: int)
    requires
        0 <= i <= s.len(),
    ensures
        i <= next_of(s, c, i) <= s.len(),
        next_of(s, c, i) < s.len() ==> s[next_of(s, c, i)] == c,
        forall|k: int| i <= k < next_of(s, c, i) ==> s[k] != c,
    decreases s.len() - i,
{
    if i < s.len() && s[i] != c {
        lemma_next_of_bounds(s, c, i + 1);
    }
}

pub fn is_space_char(c: char) -> (r: bool)
    ensures
        r == is_space(c),
{
    ('\u{9}' <= c && c <= '\u{d}') || c == ' ' || c == '\u{85}' || c == '\u{a0}' || c
        == '\u{1680}' || ('\u{2000}' <= c && c <= '\u{200a}') || c == '\u{2028}' || c
        == '\u{2029}' || c == '\u{202f}' || c == '\u{205f}' || c == '\u{3000}'
}

/// The characters of `s`, in order.
pub fn chars_of(s: &str) -> (r: Vec<char>)
    ensures
        r@ == s@,
{
    let n = s.unicode_len();
    let mut r: Vec<char> = Vec::new();
    let mut i: usize = 0;
    while i < n
        invariant
            n == s@.len(),
            i <= n,
            r@ == s@.subrange(0, i as int),
        decreases n - i,
    {
        r.push(s.get_char(i));
        i += 1;
    }
    r
}

/// The bounds, within `a..b`, of that range of `v` once trimmed.
pub fn trim_range(v: &Vec<char>, a: usize, b: usize) -> (r: (usize, usize))
    requires
        a <= b <= v@.len(),
    ensures
        a <= r.0 <= r.1 <= b,
        v@.subrange(r.0 as int, r.1 as int) == trim(v@.subrange(a as int, b as int)),
{
    let ghost s = v@.subrange(a as int, b as int);
    let mut i: usize = a;
    while i < b && is_space_char(v[i])
        invariant
            a <= i <= b <= v@.len(),
            s == v@.subrange(a as int, b as int),
            lead(s, (i - a) as int) == lead(s, 0),
        decreases b - i,
    {
        i += 1;
    }
    assert(lead(s, (i - a) as int) == (i - a) as int);
    let mut j: usize = b;
    while j > i && is_space_char(v[j - 1])
        invariant
            a <= i <= j <= b <= v@.len(),
            s == v@.subrange(a as int, b as int),
            trail(s, (j - a) as int) == trail(s, s.len() as int),
            i < b ==> !is_space(v@[i as int]),
            i < b ==> i < j,
        decreases j,
    {
        j -= 1;
    }
    if i < j {
        assert(trail(s, (j - a) as int) == (j - a) as int);
        assert(v@.subrange(i as int, j as int) =~= s.subrange((i - a) as int, (j - a) as int));
    } else {
        proof {
            lemma_trail_bounds(s, s.len() as int);
        }
        assert(trim(s) =~= Seq::<char>::empty());
        assert(v@.subrange(i as int, i as int) =~= Seq::<char>::empty());
        j = i;
    }
    (i, j)
}

/// The position of the first `c` in `a..b`, or `b` when there is none.
pub fn find_char(v: &Vec<char>, a: usize, b: usize, c: char) -> (r: usize)
    requires
        a <= b <= v@.len(),
    ensures
        a <= r <= b,
        r == a + next_of(v@.subrange(a as int, b as int), c, 0),
{
    let ghost s = v@.subrange(a as int, b as int);
    let mut i: usize = a;
    while i < b && v[i] != c
        invariant
            a <= i <= b <= v@.len(),
            s == v@.subrange(a as int, b as int),
            next_of(s, c, (i - a) as int) == next_of(s, c, 0),
        decreases b - i,
    {
        i += 1;
    }
    i
}

/// Whether the range `a..b` of `v` reads exactly `lit`.
pub fn range_is(v: &Vec<char>, a: usize, b: usize, lit: &str) -> (r: bool)
    requires
        a <= b <= v@.len(),
    ensures
        r == (v@.subrange(a as int, b as int) == lit@),
{
    let n = lit.unicode_len();
    if b - a != n {
        return false;
    }
    let mut k: usize = 0;
    while k < n
        invariant
            a <= b <= v@.len(),
            b - a == n,
            n == lit@.len(),
            k <= n,
            forall|t: int| 0 <= t < k ==> v@[a + t] == lit@[t],
        decreases n - k,
    {
        if v[a + k] != lit.get_char(k) {
            assert(v@.subrange(a as int, b as int)[k as int] != lit@[k as int]);
            return false;
        }
        k += 1;
    }
    assert(v@.subrange(a as int, b as int) =~= lit@);
    true
}

} // verus!
