//! Numeric literals as std's `f32` parser accepts them:
//! `[+-]? (inf | infinity | nan | Number)`, letters in any case, where
//! `Number ::= (Digit+ | Digit+ '.' Digit* | Digit* '.' Digit+) ([eE] [+-]? Digit+)?`.
use vstd::prelude::*;
use crate::text::{next_of, find_char};

verus! {

pub open spec fn is_digit(c: char) -> bool {
    '0' <= c && c <= '9'
}

pub open spec fn all_digits(s: Seq<char>) -> bool {
    forall|k: int| 0 <= k < s.len() ==> is_digit(#[trigger] s[k])
}

pub open spec fn is_sign(c: char) -> bool {
    c == '+' || c == '-'
}

/// `s` without one leading sign, if it has one.
pub open spec fn unsigned(s: Seq<char>) -> Seq<char> {
    if s.len() > 0 && is_sign(s[0]) {
        s.subrange(1, s.len() as int)
    } else {
        s
    }
}

/// Whether `s` spells the word written `lower` in lower case and `upper` in
/// upper case, each letter in either case.
pub open spec fn spells(s: Seq<char>, lower: Seq<char>, upper: Seq<char>) -> bool {
    &&& s.len() == lower.len()
    &&& forall|k: int| 0 <= k < s.len() ==> (#[trigger] s[k] == lower[k] || s[k] == upper[k])
}

/// The mantissa: digits with at most one point, and at least one digit.
pub open spec fn is_mantissa(m: Seq<char>) -> bool {
    let d = next_of(m, '.', 0);
    if d < m.len() {
        &&& m.len() >= 2
        &&& all_digits(m.subrange(0, d))
        &&& all_digits(m.subrange(d + 1, m.len() as int))
    } else {
        m.len() >= 1 && all_digits(m)
    }
}

/// The position of the exponent mark, or `s.len()`.
pub open spec fn exp_mark(s: Seq<char>) -> int {
    let lo = next_of(s, 'e', 0);
    let up = next_of(s, 'E', 0);
    if lo <= up {
        lo
    } else {
        up
    }
}

pub open spec fn is_decimal(s: Seq<char>) -> bool {
    let e = exp_mark(s);
    &&& is_mantissa(s.subrange(0, e))
    &&& e < s.len() ==> {
        let x = unsigned(s.subrange(e + 1, s.len() as int));
        x.len() >= 1 && all_digits(x)
    }
}

/// Whether std's `f32` parser accepts `s`.
pub open spec fn is_float_literal(s: Seq<char>) -> bool {
    let b = unsigned(s);
    ||| spells(b, "inf"@, "INF"@)
    ||| spells(b, "infinity"@, "INFINITY"@)
    ||| spells(b, "nan"@, "NAN"@)
    ||| is_decimal(b)
}

fn all_digits_in(v: &Vec<char>, a: usize, b: usize) -> (r: bool)
    requires
        a <= b <= v@.len(),
    ensures
        r == all_digits(v@.subrange(a as int, b as int)),
{
    let mut i: usize = a;
    while i < b
        invariant
            a <= i <= b <= v@.len(),
            forall|k: int| a <= k < i ==> is_digit(v@[k]),
        decreases b - i,
    {
        if !('0' <= v[i] && v[i] <= '9') {
            assert(!is_digit(v@.subrange(a as int, b as int)[i - a]));
            return false;
        }
        i += 1;
    }
    assert forall|k: int| 0 <= k < b - a implies is_digit(
        #[trigger] v@.subrange(a as int, b as int)[k],
    ) by {
        assert(v@.subrange(a as int, b as int)[k] == v@[a + k]);
    }
    true
}

fn spells_in(v: &Vec<char>, a: usize, b: usize, lower: &str, upper: &str) -> (r: bool)
    requires
        a <= b <= v@.len(),
        lower@.len() == upper@.len(),
    ensures
        r == spells(v@.subrange(a as int, b as int), lower@, upper@),
{
    let n = lower.unicode_len();
    if b - a != n {
        return false;
    }
    let ghost s = v@.subrange(a as int, b as int);
    let mut k: usize = 0;
    while k < n
        invariant
            a <= b <= v@.len(),
            b - a == n,
            n == lower@.len(),
            n == upper@.len(),
            k <= n,
            s == v@.subrange(a as int, b as int),
            forall|t: int| 0 <= t < k ==> (#[trigger] s[t] == lower@[t] || s[t] == upper@[t]),
        decreases n - k,
    {
        let c = v[a + k];
        assert(s[k as int] == c);
        if !(c == lower.get_char(k) || c == upper.get_char(k)) {
            return false;
        }
        k += 1;
    }
    true
}

/// Whether the range `a..b` of `v` holds no more than an optional sign and digits,
/// with at least one digit.
fn signed_digits_in(v: &Vec<char>, a: usize, b: usize) -> (r: bool)
    requires
        a <= b <= v@.len(),
    ensures
        r == ({
            let x = unsigned(v@.subrange(a as int, b as int));
            x.len() >= 1 && all_digits(x)
        }),
{
    let mut s: usize = a;
    if a < b && (v[a] == '+' || v[a] == '-') {
        s = a + 1;
    }
    assert(unsigned(v@.subrange(a as int, b as int)) =~= v@.subrange(s as int, b as int));
    s < b && all_digits_in(v, s, b)
}

fn mantissa_in(v: &Vec<char>, a: usize, b: usize) -> (r: bool)
    requires
        a <= b <= v@.len(),
    ensures
        r == is_mantissa(v@.subrange(a as int, b as int)),
{
    let ghost m = v@.subrange(a as int, b as int);
    let d = find_char(v, a, b, '.');
    if d < b {
        assert(m.subrange(0, d - a) =~= v@.subrange(a as int, d as int));
        assert(m.subrange(d - a + 1, m.len() as int) =~= v@.subrange(d + 1, b as int));
        b - a >= 2 && all_digits_in(v, a, d) && all_digits_in(v, d + 1, b)
    } else {
        b - a >= 1 && all_digits_in(v, a, b)
    }
}

/// Whether the range `a..b` of `v` is a literal that std's `f32` parser accepts.
pub fn is_number(v: &Vec<char>, a: usize, b: usize) -> (r: bool)
    requires
        a <= b <= v@.len(),
    ensures
        r == is_float_literal(v@.subrange(a as int, b as int)),
{
    let ghost s = v@.subrange(a as int, b as int);
    let mut s0: usize = a;
    if a < b && (v[a] == '+' || v[a] == '-') {
        s0 = a + 1;
    }
    let ghost u = v@.subrange(s0 as int, b as int);
    assert(unsigned(s) =~= u);
    proof {
        reveal_strlit("inf");
        reveal_strlit("INF");
        reveal_strlit("infinity");
        reveal_strlit("INFINITY");
        reveal_strlit("nan");
        reveal_strlit("NAN");
    }
    if spells_in(v, s0, b, "inf", "INF") || spells_in(v, s0, b, "infinity", "INFINITY")
        || spells_in(v, s0, b, "nan", "NAN") {
        return true;
    }
    let lo = find_char(v, s0, b, 'e');
    let up = find_char(v, s0, b, 'E');
    let e = if lo <= up {
        lo
    } else {
        up
    };
    assert(exp_mark(u) == e - s0);
    assert(u.subrange(0, e - s0) =~= v@.subrange(s0 as int, e as int));
    if !mantissa_in(v, s0, e) {
        return false;
    }
    if e < b {
        assert(u.subrange(e - s0 + 1, u.len() as int) =~= v@.subrange(e + 1, b as int));
        signed_digits_in(v, e + 1, b)
    } else {
        true
    }
}

} // verus!
