//! Style records and the parser of style text: a `;`-separated list of
//! `name: value` pairs over `flex-direction`, `flex-wrap`, `width`, `height`
//! and `margin`.
use vstd::prelude::*;
use crate::failure::Failure;
use crate::number::{is_float_literal, is_number};
use crate::text::{trim, next_of, lemma_next_of_bounds, chars_of, trim_range, find_char, range_is};

verus! {

#[derive(Clone, Copy, Debug, PartialEq, Eq, Structural)]
pub enum FlexDirection {
    Row,
    Column,
    RowReverse,
    ColumnReverse,
}

#[derive(Clone, Copy, Debug, PartialEq, Eq, Structural)]
pub enum FlexWrap {
    NoWrap,
    Wrap,
    WrapReverse,
}

/// A numeric literal that std's `f32` parser accepts, kept as written.
#[derive(Debug, PartialEq, Eq)]
pub struct Number {
    text: String,
}

impl View for Number {
    type V = Seq<char>;

    closed spec fn view(&self) -> Seq<char> {
        self.text@
    }
}

impl Number {
    #[verifier::type_invariant]
    spec fn literal(self) -> bool {
        is_float_literal(self.text@)
    }

    /// The literal, which std's `f32` parser accepts.
    pub fn as_str(&self) -> (r: &str)
        ensures
            r@ == self@,
            is_float_literal(r@),
    {
        proof {
            use_type_invariant(self);
        }
        self.text.as_str()
    }
}

impl Clone for Number {
    fn clone(&self) -> (r: Number)
        ensures
            r@ == self@,
    {
        proof {
            use_type_invariant(self);
        }
        Number { text: self.text.clone() }
    }
}

/// A length: automatic, in points, or a percentage of the parent.
#[derive(Debug, PartialEq, Eq)]
pub enum Dimension {
    Auto,
    Points(Number),
    Percent(Number),
}

impl Clone for Dimension {
    fn clone(&self) -> (r: Dimension)
        ensures
            r@ == self@,
    {
        match self {
            Dimension::Auto => Dimension::Auto,
            Dimension::Points(n) => Dimension::Points(n.clone()),
            Dimension::Percent(n) => Dimension::Percent(n.clone()),
        }
    }
}

/// What a `Dimension` stands for: its kind and the literal of its value.
pub enum DimensionView {
    Auto,
    Points(Seq<char>),
    Percent(Seq<char>),
}

impl View for Dimension {
    type V = DimensionView;

    open spec fn view(&self) -> DimensionView {
        match self {
            Dimension::Auto => DimensionView::Auto,
            Dimension::Points(n) => DimensionView::Points(n@),
            Dimension::Percent(n) => DimensionView::Percent(n@),
        }
    }
}

/// The four margins of a node.
#[derive(Debug, PartialEq, Eq)]
pub struct Edges {
    pub left: Dimension,
    pub top: Dimension,
    pub right: Dimension,
    pub bottom: Dimension,
}

/// The style of one node. Unset properties keep their defaults: a row that
/// does not wrap, automatic width and height, automatic margins.
#[derive(Debug, PartialEq, Eq)]
pub struct StyleRecord {
    flex_direction: FlexDirection,
    flex_wrap: FlexWrap,
    width: Dimension,
    height: Dimension,
    margin: Edges,
}

/// What a `StyleRecord` holds.
pub struct StyleView {
    pub direction: FlexDirection,
    pub wrap: FlexWrap,
    pub width: DimensionView,
    pub height: DimensionView,
    pub margin_left: DimensionView,
    pub margin_top: DimensionView,
    pub margin_right: DimensionView,
    pub margin_bottom: DimensionView,
}

impl View for StyleRecord {
    type V = StyleView;

    closed spec fn view(&self) -> StyleView {
        StyleView {
            direction: self.flex_direction,
            wrap: self.flex_wrap,
            width: self.width@,
            height: self.height@,
            margin_left: self.margin.left@,
            margin_top: self.margin.top@,
            margin_right: self.margin.right@,
            margin_bottom: self.margin.bottom@,
        }
    }
}

/// The style with every property at its default.
pub open spec fn default_view() -> StyleView {
    StyleView {
        direction: FlexDirection::Row,
        wrap: FlexWrap::NoWrap,
        width: DimensionView::Auto,
        height: DimensionView::Auto,
        margin_left: DimensionView::Auto,
        margin_top: DimensionView::Auto,
        margin_right: DimensionView::Auto,
        margin_bottom: DimensionView::Auto,
    }
}

pub open spec fn direction_of(v: Seq<char>) -> Option<FlexDirection> {
    if v == "row"@ {
        Some(FlexDirection::Row)
    } else if v == "column"@ {
        Some(FlexDirection::Column)
    } else if v == "row-reverse"@ {
        Some(FlexDirection::RowReverse)
    } else if v == "column-reverse"@ {
        Some(FlexDirection::ColumnReverse)
    } else {
        None
    }
}

pub open spec fn wrap_of(v: Seq<char>) -> Option<FlexWrap> {
    if v == "nowrap"@ {
        Some(FlexWrap::NoWrap)
    } else if v == "wrap"@ {
        Some(FlexWrap::Wrap)
    } else if v == "wrap-reverse"@ {
        Some(FlexWrap::WrapReverse)
    } else {
        None
    }
}

/// `auto`, a number followed by `%`, or a number followed by `px`.
pub open spec fn dimension_of(v: Seq<char>) -> Option<DimensionView> {
    if v == "auto"@ {
        Some(DimensionView::Auto)
    } else if v.len() >= 1 && v[v.len() - 1] == '%' {
        let n = v.subrange(0, v.len() - 1);
        if is_float_literal(n) {
            Some(DimensionView::Percent(n))
        } else {
            None
        }
    } else if v.len() >= 2 && v[v.len() - 2] == 'p' && v[v.len() - 1] == 'x' {
        let n = v.subrange(0, v.len() - 2);
        if is_float_literal(n) {
            Some(DimensionView::Points(n))
        } else {
            None
        }
    } else {
        None
    }
}

/// The style after the property `name` is set to the text `value`.
pub open spec fn with_property(acc: StyleView, name: Seq<char>, value: Seq<char>) -> Option<StyleView> {
    if name == "flex-direction"@ {
        match direction_of(value) {
            Some(d) => Some(StyleView { direction: d, ..acc }),
            None => None,
        }
    } else if name == "flex-wrap"@ {
        match wrap_of(value) {
            Some(w) => Some(StyleView { wrap: w, ..acc }),
            None => None,
        }
    } else if name == "width"@ {
        match dimension_of(value) {
            Some(d) => Some(StyleView { width: d, ..acc }),
            None => None,
        }
    } else if name == "height"@ {
        match dimension_of(value) {
            Some(d) => Some(StyleView { height: d, ..acc }),
            None => None,
        }
    } else if name == "margin"@ {
        match dimension_of(value) {
            Some(d) => Some(
                StyleView { margin_left: d, margin_top: d, margin_right: d, margin_bottom: d, ..acc },
            ),
            None => None,
        }
    } else {
        None
    }
}

/// The style after one pair: its text is trimmed and split at the first `:`,
/// and both halves are trimmed.
pub open spec fn with_pair(acc: StyleView, pair: Seq<char>) -> Option<StyleView> {
    let t = trim(pair);
    let k = next_of(t, ':', 0);
    if k < t.len() {
        with_property(acc, trim(t.subrange(0, k)), trim(t.subrange(k + 1, t.len() as int)))
    } else {
        None
    }
}

/// The style after each `;`-separated pair of `s`, in order, or `None` as
/// soon as one of them fails.
pub open spec fn with_pairs(acc: StyleView, s: Seq<char>) -> Option<StyleView>
    decreases s.len(),
{
    let j = next_of(s, ';', 0);
    match with_pair(acc, s.subrange(0, j)) {
        None => None,
        Some(a) => if 0 <= j < s.len() {
            with_pairs(a, s.subrange(j + 1, s.len() as int))
        } else {
            Some(a)
        },
    }
}

/// The style that the text `s` describes, if it is well formed.
pub open spec fn style_of(s: Seq<char>) -> Option<StyleView> {
    with_pairs(default_view(), s)
}

impl StyleRecord {
    /// The style with every property at its default.
    pub fn new() -> (r: StyleRecord)
        ensures
            r@ == default_view(),
    {
        StyleRecord {
            flex_direction: FlexDirection::Row,
            flex_wrap: FlexWrap::NoWrap,
            width: Dimension::Auto,
            height: Dimension::Auto,
            margin: Edges {
                left: Dimension::Auto,
                top: Dimension::Auto,
                right: Dimension::Auto,
                bottom: Dimension::Auto,
            },
        }
    }

    pub fn flex_direction(&self) -> (r: FlexDirection)
        ensures
            r == self@.direction,
    {
        self.flex_direction
    }

    pub fn flex_wrap(&self) -> (r: FlexWrap)
        ensures
            r == self@.wrap,
    {
        self.flex_wrap
    }

    pub fn width(&self) -> (r: &Dimension)
        ensures
            r@ == self@.width,
    {
        &self.width
    }

    pub fn height(&self) -> (r: &Dimension)
        ensures
            r@ == self@.height,
    {
        &self.height
    }

    pub fn margin(&self) -> (r: &Edges)
        ensures
            r.left@ == self@.margin_left,
            r.top@ == self@.margin_top,
            r.right@ == self@.margin_right,
            r.bottom@ == self@.margin_bottom,
    {
        &self.margin
    }
}

/// Parses the dimension in the range `a..b` of `v`, the characters of `text`.
pub fn parse_dimension(text: &str, v: &Vec<char>, a: usize, b: usize) -> (r: Option<Dimension>)
    requires
        v@ == text@,
        a <= b <= v@.len(),
    ensures
        r is Some <==> dimension_of(v@.subrange(a as int, b as int)) is Some,
        r is Some ==> r->Some_0@ == dimension_of(v@.subrange(a as int, b as int))->Some_0,
{
    let ghost s = v@.subrange(a as int, b as int);
    if range_is(v, a, b, "auto") {
        return Some(Dimension::Auto);
    }
    if b - a >= 1 && v[b - 1] == '%' {
        assert(s.subrange(0, s.len() - 1) =~= v@.subrange(a as int, b - 1));
        if is_number(v, a, b - 1) {
            let number = Number { text: String::from_str(text.substring_char(a, b - 1)) };
            return Some(Dimension::Percent(number));
        }
        return None;
    }
    if b - a >= 2 && v[b - 2] == 'p' && v[b - 1] == 'x' {
        assert(s.subrange(0, s.len() - 2) =~= v@.subrange(a as int, b - 2));
        if is_number(v, a, b - 2) {
            let number = Number { text: String::from_str(text.substring_char(a, b - 2)) };
            return Some(Dimension::Points(number));
        }
        return None;
    }
    None
}

/// Applies the pair in the range `a..b` of `v`, the characters of `text`, to `rec`.
fn apply_pair(text: &str, v: &Vec<char>, a: usize, b: usize, rec: &mut StyleRecord) -> (ok: bool)
    requires
        v@ == text@,
        a <= b <= v@.len(),
    ensures
        ok <==> with_pair(old(rec)@, v@.subrange(a as int, b as int)) is Some,
        ok ==> final(rec)@ == with_pair(old(rec)@, v@.subrange(a as int, b as int))->Some_0,
{
    let (ta, tb) = trim_range(v, a, b);
    let ghost t = v@.subrange(ta as int, tb as int);
    let k = find_char(v, ta, tb, ':');
    if k == tb {
        return false;
    }
    proof {
        lemma_next_of_bounds(t, ':', 0);
    }
    assert(t.subrange(0, k - ta) =~= v@.subrange(ta as int, k as int));
    assert(t.subrange(k - ta + 1, t.len() as int) =~= v@.subrange(k + 1, tb as int));
    let (na, nb) = trim_range(v, ta, k);
    let (va, vb) = trim_range(v, k + 1, tb);
    if range_is(v, na, nb, "flex-direction") {
        if range_is(v, va, vb, "row") {
            rec.flex_direction = FlexDirection::Row;
        } else if range_is(v, va, vb, "column") {
            rec.flex_direction = FlexDirection::Column;
        } else if range_is(v, va, vb, "row-reverse") {
            rec.flex_direction = FlexDirection::RowReverse;
        } else if range_is(v, va, vb, "column-reverse") {
            rec.flex_direction = FlexDirection::ColumnReverse;
        } else {
            return false;
        }
        true
    } else if range_is(v, na, nb, "flex-wrap") {
        if range_is(v, va, vb, "nowrap") {
            rec.flex_wrap = FlexWrap::NoWrap;
        } else if range_is(v, va, vb, "wrap") {
            rec.flex_wrap = FlexWrap::Wrap;
        } else if range_is(v, va, vb, "wrap-reverse") {
            rec.flex_wrap = FlexWrap::WrapReverse;
        } else {
            return false;
        }
        true
    } else if range_is(v, na, nb, "width") {
        match parse_dimension(text, v, va, vb) {
            Some(d) => {
                rec.width = d;
                true
            },
            None => false,
        }
    } else if range_is(v, na, nb, "height") {
        match parse_dimension(text, v, va, vb) {
            Some(d) => {
                rec.height = d;
                true
            },
            None => false,
        }
    } else if range_is(v, na, nb, "margin") {
        match parse_dimension(text, v, va, vb) {
            Some(d) => {
                rec.margin = Edges { left: d.clone(), top: d.clone(), right: d.clone(), bottom: d };
                true
            },
            None => false,
        }
    } else {
        false
    }
}

/// Parses style text. The whole text fails at the first pair that is
/// malformed, names an unknown property or holds an invalid value.
pub fn parse_style(text: &str) -> (r: Result<StyleRecord, Failure>)
    ensures
        r is Ok <==> style_of(text@) is Some,
        r is Ok ==> r->Ok_0@ == style_of(text@)->Some_0,
        r is Err ==> r->Err_0 == Failure::MalformedStyle,
{
    let v = chars_of(text);
    let n = v.len();
    let mut rec = StyleRecord::new();
    let mut i: usize = 0;
    assert(v@.subrange(0, n as int) =~= text@);
    loop
        invariant
            v@ == text@,
            n == v@.len(),
            i <= n,
            with_pairs(rec@, v@.subrange(i as int, n as int)) == style_of(text@),
        decreases n - i,
    {
        let ghost rest = v@.subrange(i as int, n as int);
        let j = find_char(&v, i, n, ';');
        proof {
            lemma_next_of_bounds(rest, ';', 0);
        }
        assert(rest.subrange(0, j - i) =~= v@.subrange(i as int, j as int));
        if !apply_pair(text, &v, i, j, &mut rec) {
            return Err(Failure::MalformedStyle);
        }
        if j == n {
            return Ok(rec);
        }
        assert(rest.subrange(j - i + 1, rest.len() as int) =~= v@.subrange(j + 1, n as int));
        i = j + 1;
    }
}

pub open spec fn direction_text(d: FlexDirection) -> Seq<char> {
    match d {
        FlexDirection::Row => "row"@,
        FlexDirection::Column => "column"@,
        FlexDirection::RowReverse => "row-reverse"@,
        FlexDirection::ColumnReverse => "column-reverse"@,
    }
}

pub open spec fn wrap_text(w: FlexWrap) -> Seq<char> {
    match w {
        FlexWrap::NoWrap => "nowrap"@,
        FlexWrap::Wrap => "wrap"@,
        FlexWrap::WrapReverse => "wrap-reverse"@,
    }
}

pub open spec fn dimension_text(d: DimensionView) -> Seq<char> {
    match d {
        DimensionView::Auto => "auto"@,
        DimensionView::Points(n) => n + "px"@,
        DimensionView::Percent(n) => n + "%"@,
    }
}

/// The text of a style: every property, in the order the parser lists
/// them, the margin by its left side.
pub open spec fn style_text(v: StyleView) -> Seq<char> {
    "flex-direction: "@ + direction_text(v.direction) + ";flex-wrap: "@ + wrap_text(v.wrap) + ";width: "@
        + dimension_text(v.width) + ";height: "@ + dimension_text(v.height) + ";margin: "@
        + dimension_text(v.margin_left)
}

fn direction_word(d: FlexDirection) -> (r: &'static str)
    ensures
        r@ == direction_text(d),
{
    match d {
        FlexDirection::Row => "row",
        FlexDirection::Column => "column",
        FlexDirection::RowReverse => "row-reverse",
        FlexDirection::ColumnReverse => "column-reverse",
    }
}

fn wrap_word(w: FlexWrap) -> (r: &'static str)
    ensures
        r@ == wrap_text(w),
{
    match w {
        FlexWrap::NoWrap => "nowrap",
        FlexWrap::Wrap => "wrap",
        FlexWrap::WrapReverse => "wrap-reverse",
    }
}

fn append_dimension(out: &mut String, d: &Dimension)
    ensures
        final(out)@ == old(out)@ + dimension_text(d@),
{
    match d {
        Dimension::Auto => out.append("auto"),
        Dimension::Points(n) => {
            out.append(n.as_str());
            out.append("px");
        },
        Dimension::Percent(n) => {
            out.append(n.as_str());
            out.append("%");
        },
    }
}

impl StyleRecord {
    /// The style as text that `parse_style` reads back.
    pub fn to_text(&self) -> (r: String)
        ensures
            r@ == style_text(self@),
    {
        let mut out = String::from_str("flex-direction: ");
        out.append(direction_word(self.flex_direction));
        out.append(";flex-wrap: ");
        out.append(wrap_word(self.flex_wrap));
        out.append(";width: ");
        append_dimension(&mut out, &self.width);
        out.append(";height: ");
        append_dimension(&mut out, &self.height);
        out.append(";margin: ");
        append_dimension(&mut out, &self.margin.left);
        out
    }
}

} // verus!
