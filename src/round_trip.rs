//! Writing a parsed style back as text and parsing that text again.
use vstd::prelude::*;
use crate::number::{is_digit, is_sign, unsigned, exp_mark, is_decimal, is_float_literal};
use crate::style::{
    FlexDirection, FlexWrap, DimensionView, StyleView, default_view, direction_of, wrap_of, dimension_of,
    with_property, with_pair, with_pairs, style_of, direction_text, wrap_text, dimension_text, style_text,
};
use crate::text::{is_space, lead, trail, trim, next_of, lemma_next_of_bounds};

verus! {

/// A character that a numeric literal may hold.
pub open spec fn literal_char(c: char) -> bool {
    ||| is_digit(c)
    ||| c == '.' || c == '+' || c == '-'
    ||| c == 'e' || c == 'E' || c == 'i' || c == 'I' || c == 'n' || c == 'N' || c == 'f' || c == 'F'
    ||| c == 'a' || c == 'A' || c == 't' || c == 'T' || c == 'y' || c == 'Y'
}

/// A text that holds no `;`, does not start or end with a space, and is not empty.
pub open spec fn plain(s: Seq<char>) -> bool {
    &&& s.len() >= 1
    &&& !is_space(s[0])
    &&& !is_space(s[s.len() - 1])
    &&& forall|i: int| 0 <= i < s.len() ==> #[trigger] s[i] != ';'
}

/// Each dimension holds a valid literal, and the four margins are equal.
pub open spec fn consistent(v: StyleView) -> bool {
    &&& dimension_ok(v.width)
    &&& dimension_ok(v.height)
    &&& dimension_ok(v.margin_left)
    &&& v.margin_top == v.margin_left
    &&& v.margin_right == v.margin_left
    &&& v.margin_bottom == v.margin_left
}

pub open spec fn dimension_ok(d: DimensionView) -> bool {
    match d {
        DimensionView::Auto => true,
        DimensionView::Points(n) => is_float_literal(n),
        DimensionView::Percent(n) => is_float_literal(n),
    }
}

proof fn lemma_next_of_at(s: Seq<char>, c: char, i: int, j: int)
    requires
        0 <= i <= j <= s.len(),
        forall|k: int| i <= k < j ==> s[k] != c,
        j == s.len() || s[j] == c,
    ensures
        next_of(s, c, i) == j,
    decreases j - i,
{
    if i < j {
        lemma_next_of_at(s, c, i + 1, j);
    }
}

proof fn lemma_trim_plain(x: Seq<char>)
    requires
        x.len() >= 1,
        !is_space(x[0]),
        !is_space(x[x.len() - 1]),
    ensures
        trim(x) == x,
        trim(seq![' '] + x) == x,
{
    assert(lead(x, 0) == 0);
    assert(trail(x, x.len() as int) == x.len());
    assert(x.subrange(0, x.len() as int) =~= x);
    let y = seq![' '] + x;
    assert(lead(y, 1) == 1);
    assert(lead(y, 0) == 1);
    assert(trail(y, y.len() as int) == y.len());
    assert(y.subrange(1, y.len() as int) =~= x);
}

proof fn lemma_literal_chars(n: Seq<char>)
    requires
        is_float_literal(n),
    ensures
        n.len() >= 1,
        forall|i: int| 0 <= i < n.len() ==> literal_char(#[trigger] n[i]),
{
    reveal_strlit("inf");
    reveal_strlit("INF");
    reveal_strlit("infinity");
    reveal_strlit("INFINITY");
    reveal_strlit("nan");
    reveal_strlit("NAN");
    let b = unsigned(n);
    let off: int = if n.len() > 0 && is_sign(n[0]) { 1 } else { 0 };
    assert(b =~= n.subrange(off, n.len() as int));
    if !is_decimal(b) {
        assert(b.len() >= 1);
        assert forall|i: int| 0 <= i < b.len() implies literal_char(#[trigger] b[i]) by {}
    } else {
        let e = exp_mark(b);
        lemma_next_of_bounds(b, 'e', 0);
        lemma_next_of_bounds(b, 'E', 0);
        let m = b.subrange(0, e);
        let d = next_of(m, '.', 0);
        lemma_next_of_bounds(m, '.', 0);
        assert(m.len() >= 1);
        assert forall|i: int| 0 <= i < b.len() implies literal_char(#[trigger] b[i]) by {
            if i < e {
                assert(b[i] == m[i]);
                if d < m.len() {
                    if i < d {
                        assert(m.subrange(0, d)[i] == m[i]);
                    } else if i > d {
                        assert(m.subrange(d + 1, m.len() as int)[i - d - 1] == m[i]);
                    }
                } else {
                    assert(is_digit(m[i]));
                }
            } else if i > e {
                let r = b.subrange(e + 1, b.len() as int);
                let x = unsigned(r);
                let o: int = if r.len() > 0 && is_sign(r[0]) { 1 } else { 0 };
                assert(x =~= r.subrange(o, r.len() as int));
                if i - e - 1 >= o {
                    assert(x[i - e - 1 - o] == b[i]);
                }
            }
        }
    }
    assert forall|i: int| 0 <= i < n.len() implies literal_char(#[trigger] n[i]) by {
        if i >= off {
            assert(b[i - off] == n[i]);
        }
    }
}

proof fn lemma_literal_plain(n: Seq<char>, unit: Seq<char>)
    requires
        is_float_literal(n),
        unit == "px"@ || unit == "%"@,
    ensures
        plain(n + unit),
{
    reveal_strlit("px");
    reveal_strlit("%");
    lemma_literal_chars(n);
    let s = n + unit;
    assert(literal_char(n[0]));
    assert forall|i: int| 0 <= i < s.len() implies #[trigger] s[i] != ';' by {
        if i < n.len() {
            assert(literal_char(n[i]));
        }
    }
}

proof fn lemma_dimension(d: DimensionView)
    requires
        dimension_ok(d),
    ensures
        plain(dimension_text(d)),
        dimension_of(dimension_text(d)) == Some(d),
{
    reveal_strlit("auto");
    reveal_strlit("px");
    reveal_strlit("%");
    match d {
        DimensionView::Auto => {},
        DimensionView::Points(n) => {
            lemma_literal_plain(n, "px"@);
            let v = n + "px"@;
            assert(v.subrange(0, v.len() - 2) =~= n);
            assert(v != "auto"@) by {
                if v == "auto"@ {
                    assert(v[v.len() - 1] == 'x');
                }
            }
        },
        DimensionView::Percent(n) => {
            lemma_literal_plain(n, "%"@);
            let v = n + "%"@;
            assert(v.subrange(0, v.len() - 1) =~= n);
            assert(v != "auto"@) by {
                if v == "auto"@ {
                    assert(v[v.len() - 1] == '%');
                }
            }
        },
    }
}

/// A pair `name: value` with a plain name free of `:` and a plain value sets
/// the property `name` to `value`.
proof fn lemma_pair(acc: StyleView, name: Seq<char>, value: Seq<char>)
    requires
        plain(name),
        plain(value),
        forall|i: int| 0 <= i < name.len() ==> #[trigger] name[i] != ':',
    ensures
        plain(name + seq![':', ' '] + value),
        with_pair(acc, name + seq![':', ' '] + value) == with_property(acc, name, value),
{
    let p = name + seq![':', ' '] + value;
    assert forall|i: int| 0 <= i < p.len() implies #[trigger] p[i] != ';' by {
        if i < name.len() {
            assert(p[i] == name[i]);
        } else if i >= name.len() + 2 {
            assert(p[i] == value[i - name.len() - 2]);
        }
    }
    assert(p[p.len() - 1] == value[value.len() - 1]);
    lemma_trim_plain(p);
    lemma_next_of_at(p, ':', 0, name.len() as int);
    assert(p.subrange(0, name.len() as int) =~= name);
    assert(p.subrange(name.len() as int + 1, p.len() as int) =~= seq![' '] + value);
    lemma_trim_plain(name);
    lemma_trim_plain(value);
}

/// Text made of a plain pair, `;` and more text parses the pair and then the rest.
proof fn lemma_split(acc: StyleView, a: Seq<char>, rest: Seq<char>)
    requires
        plain(a),
    ensures
        with_pairs(acc, a + seq![';'] + rest) == (match with_pair(acc, a) {
            Some(x) => with_pairs(x, rest),
            None => None,
        }),
        with_pairs(acc, a) == with_pair(acc, a),
{
    let s = a + seq![';'] + rest;
    lemma_next_of_at(s, ';', 0, a.len() as int);
    assert(s.subrange(0, a.len() as int) =~= a);
    assert(s.subrange(a.len() as int + 1, s.len() as int) =~= rest);
    lemma_next_of_at(a, ';', 0, a.len() as int);
    assert(a.subrange(0, a.len() as int) =~= a);
}

proof fn lemma_direction(acc: StyleView, d: FlexDirection)
    ensures
        plain(direction_text(d)),
        with_property(acc, "flex-direction"@, direction_text(d)) == Some(StyleView { direction: d, ..acc }),
{
    reveal_strlit("row");
    reveal_strlit("column");
    reveal_strlit("row-reverse");
    reveal_strlit("column-reverse");
    let t = direction_text(d);
    assert("row"@.len() == 3 && "column"@.len() == 6);
    assert("row-reverse"@.len() == 11 && "column-reverse"@.len() == 14);
    assert(forall|i: int| 0 <= i < t.len() ==> #[trigger] t[i] != ';');
    assert(direction_of(t) == Some(d));
}

proof fn lemma_wrap(acc: StyleView, w: FlexWrap)
    ensures
        plain(wrap_text(w)),
        with_property(acc, "flex-wrap"@, wrap_text(w)) == Some(StyleView { wrap: w, ..acc }),
{
    reveal_strlit("nowrap");
    reveal_strlit("wrap");
    reveal_strlit("wrap-reverse");
    reveal_strlit("flex-direction");
    reveal_strlit("flex-wrap");
    let t = wrap_text(w);
    assert("nowrap"@.len() == 6 && "wrap"@.len() == 4 && "wrap-reverse"@.len() == 12);
    assert("flex-wrap"@.len() == 9 && "flex-direction"@.len() == 14);
    assert(forall|i: int| 0 <= i < t.len() ==> #[trigger] t[i] != ';');
    assert(wrap_of(t) == Some(w));
    assert("flex-wrap"@ != "flex-direction"@);
}

proof fn lemma_lengths(acc: StyleView, d: DimensionView)
    requires
        dimension_ok(d),
    ensures
        plain(dimension_text(d)),
        with_property(acc, "width"@, dimension_text(d)) == Some(StyleView { width: d, ..acc }),
        with_property(acc, "height"@, dimension_text(d)) == Some(StyleView { height: d, ..acc }),
        with_property(acc, "margin"@, dimension_text(d)) == Some(
            StyleView { margin_left: d, margin_top: d, margin_right: d, margin_bottom: d, ..acc },
        ),
{
    reveal_strlit("flex-direction");
    reveal_strlit("flex-wrap");
    reveal_strlit("width");
    reveal_strlit("height");
    reveal_strlit("margin");
    lemma_dimension(d);
    assert("flex-wrap"@.len() == 9 && "flex-direction"@.len() == 14 && "width"@.len() == 5);
    assert("height"@.len() == 6 && "margin"@.len() == 6);
    assert("height"@[0] == 'h' && "margin"@[0] == 'm');
    assert("width"@ != "flex-direction"@ && "width"@ != "flex-wrap"@);
    assert("height"@ != "flex-direction"@ && "height"@ != "flex-wrap"@ && "height"@ != "width"@);
    assert("margin"@ != "flex-direction"@ && "margin"@ != "flex-wrap"@ && "margin"@ != "width"@ && "margin"@
        != "height"@);
}

proof fn lemma_names()
    ensures
        plain("flex-direction"@) && forall|i: int| 0 <= i < "flex-direction"@.len() ==> #[trigger] "flex-direction"@[i] != ':',
        plain("flex-wrap"@) && forall|i: int| 0 <= i < "flex-wrap"@.len() ==> #[trigger] "flex-wrap"@[i] != ':',
        plain("width"@) && forall|i: int| 0 <= i < "width"@.len() ==> #[trigger] "width"@[i] != ':',
        plain("height"@) && forall|i: int| 0 <= i < "height"@.len() ==> #[trigger] "height"@[i] != ':',
        plain("margin"@) && forall|i: int| 0 <= i < "margin"@.len() ==> #[trigger] "margin"@[i] != ':',
{
    reveal_strlit("flex-direction");
    reveal_strlit("flex-wrap");
    reveal_strlit("width");
    reveal_strlit("height");
    reveal_strlit("margin");
}

proof fn lemma_text_shape(v: StyleView)
    ensures
        style_text(v) =~= ("flex-direction"@ + seq![':', ' '] + direction_text(v.direction)) + seq![';'] + (
        ("flex-wrap"@ + seq![':', ' '] + wrap_text(v.wrap)) + seq![';'] + (("width"@ + seq![':', ' ']
            + dimension_text(v.width)) + seq![';'] + (("height"@ + seq![':', ' '] + dimension_text(v.height))
            + seq![';'] + ("margin"@ + seq![':', ' '] + dimension_text(v.margin_left))))),
{
    reveal_strlit("flex-direction: ");
    reveal_strlit(";flex-wrap: ");
    reveal_strlit(";width: ");
    reveal_strlit(";height: ");
    reveal_strlit(";margin: ");
    reveal_strlit("flex-direction");
    reveal_strlit("flex-wrap");
    reveal_strlit("width");
    reveal_strlit("height");
    reveal_strlit("margin");
}

/// The text `name: value` of one pair.
pub open spec fn pair_text(pair: (Seq<char>, Seq<char>)) -> Seq<char> {
    pair.0 + seq![':', ' '] + pair.1
}

/// The pairs' texts joined by `;`.
pub open spec fn joined(pairs: Seq<(Seq<char>, Seq<char>)>) -> Seq<char>
    decreases pairs.len(),
{
    if pairs.len() <= 1 {
        if pairs.len() == 1 {
            pair_text(pairs[0])
        } else {
            Seq::empty()
        }
    } else {
        pair_text(pairs[0]) + seq![';'] + joined(pairs.drop_first())
    }
}

/// Whether `value` is a valid value of the recognized property `name`.
pub open spec fn valid_pair(pair: (Seq<char>, Seq<char>)) -> bool {
    with_property(default_view(), pair.0, pair.1) is Some
}

/// A valid pair names one of the five properties, and its value is plain.
proof fn lemma_valid_plain(acc: StyleView, pair: (Seq<char>, Seq<char>))
    requires
        valid_pair(pair),
    ensures
        plain(pair.0),
        forall|i: int| 0 <= i < pair.0.len() ==> #[trigger] pair.0[i] != ':',
        plain(pair.1),
        with_property(acc, pair.0, pair.1) is Some,
{
    lemma_names();
    let (name, value) = pair;
    reveal_strlit("row");
    reveal_strlit("column");
    reveal_strlit("row-reverse");
    reveal_strlit("column-reverse");
    reveal_strlit("nowrap");
    reveal_strlit("wrap");
    reveal_strlit("wrap-reverse");
    reveal_strlit("auto");
    reveal_strlit("px");
    reveal_strlit("%");
    if direction_of(value) is Some {
        assert(forall|i: int| 0 <= i < value.len() ==> #[trigger] value[i] != ';');
    } else if wrap_of(value) is Some {
        assert(forall|i: int| 0 <= i < value.len() ==> #[trigger] value[i] != ';');
    }
    if dimension_of(value) is Some {
        if value == "auto"@ {
            assert(forall|i: int| 0 <= i < value.len() ==> #[trigger] value[i] != ';');
        } else if value.len() >= 1 && value[value.len() - 1] == '%' {
            let n = value.subrange(0, value.len() - 1);
            assert(value =~= n + "%"@);
            lemma_literal_plain(n, "%"@);
        } else {
            let n = value.subrange(0, value.len() - 2);
            assert(value =~= n + "px"@);
            lemma_literal_plain(n, "px"@);
        }
    }
}

/// Text made of one or more valid pairs joined by `;` parses, from any style.
proof fn lemma_pairs_parse(acc: StyleView, pairs: Seq<(Seq<char>, Seq<char>)>)
    requires
        pairs.len() >= 1,
        forall|i: int| 0 <= i < pairs.len() ==> valid_pair(#[trigger] pairs[i]),
    ensures
        with_pairs(acc, joined(pairs)) is Some,
    decreases pairs.len(),
{
    assert(valid_pair(pairs[0]));
    lemma_valid_plain(acc, pairs[0]);
    lemma_pair(acc, pairs[0].0, pairs[0].1);
    let first = pair_text(pairs[0]);
    if pairs.len() == 1 {
        lemma_split(acc, first, Seq::empty());
    } else {
        let rest = pairs.drop_first();
        let a = with_pair(acc, first)->Some_0;
        assert forall|i: int| 0 <= i < rest.len() implies valid_pair(#[trigger] rest[i]) by {
            assert(valid_pair(pairs[i + 1]));
        }
        lemma_pairs_parse(a, rest);
        lemma_split(acc, first, joined(rest));
    }
}

/// Every text of one or more recognized properties with valid values, each
/// written `name: value` and joined by `;`, parses.
pub proof fn lemma_valid_text_parses(pairs: Seq<(Seq<char>, Seq<char>)>)
    requires
        pairs.len() >= 1,
        forall|i: int| 0 <= i < pairs.len() ==> valid_pair(#[trigger] pairs[i]),
    ensures
        style_of(joined(pairs)) is Some,
{
    lemma_pairs_parse(default_view(), pairs);
}

/// Every style that parsing gives is consistent.
proof fn lemma_parsed_consistent(acc: StyleView, s: Seq<char>)
    requires
        consistent(acc),
        with_pairs(acc, s) is Some,
    ensures
        consistent(with_pairs(acc, s)->Some_0),
    decreases s.len(),
{
    let j = next_of(s, ';', 0);
    lemma_next_of_bounds(s, ';', 0);
    let a = with_pair(acc, s.subrange(0, j))->Some_0;
    assert(consistent(a));
    if 0 <= j < s.len() {
        lemma_parsed_consistent(a, s.subrange(j + 1, s.len() as int));
    }
}

/// A style that parsing gives, written back as text, parses to itself.
pub proof fn lemma_round_trip(s: Seq<char>)
    requires
        style_of(s) is Some,
    ensures
        style_of(style_text(style_of(s)->Some_0)) == style_of(s),
{
    let v = style_of(s)->Some_0;
    lemma_parsed_consistent(default_view(), s);
    lemma_names();
    let sep = seq![':', ' '];
    let direction_pair = "flex-direction"@ + sep + direction_text(v.direction);
    let wrap_pair = "flex-wrap"@ + sep + wrap_text(v.wrap);
    let width_pair = "width"@ + sep + dimension_text(v.width);
    let height_pair = "height"@ + sep + dimension_text(v.height);
    let margin_pair = "margin"@ + sep + dimension_text(v.margin_left);
    let from_height = height_pair + seq![';'] + margin_pair;
    let from_width = width_pair + seq![';'] + from_height;
    let from_wrap = wrap_pair + seq![';'] + from_width;
    lemma_text_shape(v);
    let a0 = default_view();
    lemma_direction(a0, v.direction);
    lemma_pair(a0, "flex-direction"@, direction_text(v.direction));
    let a1 = StyleView { direction: v.direction, ..a0 };
    lemma_wrap(a1, v.wrap);
    lemma_pair(a1, "flex-wrap"@, wrap_text(v.wrap));
    let a2 = StyleView { wrap: v.wrap, ..a1 };
    lemma_lengths(a2, v.width);
    lemma_pair(a2, "width"@, dimension_text(v.width));
    let a3 = StyleView { width: v.width, ..a2 };
    lemma_lengths(a3, v.height);
    lemma_pair(a3, "height"@, dimension_text(v.height));
    let a4 = StyleView { height: v.height, ..a3 };
    lemma_lengths(a4, v.margin_left);
    lemma_pair(a4, "margin"@, dimension_text(v.margin_left));
    lemma_split(a4, margin_pair, Seq::empty());
    lemma_split(a3, height_pair, margin_pair);
    lemma_split(a2, width_pair, from_height);
    lemma_split(a1, wrap_pair, from_width);
    lemma_split(a0, direction_pair, from_wrap);
}

} // verus!
