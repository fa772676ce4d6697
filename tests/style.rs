use chewy::failure::{Failure, Status};
use chewy::style::{parse_style, Dimension, FlexDirection, FlexWrap, StyleRecord};

fn number(d: &Dimension) -> (&'static str, f32) {
    match d {
        Dimension::Auto => ("auto", 0.0),
        Dimension::Points(n) => ("px", n.as_str().parse::<f32>().unwrap()),
        Dimension::Percent(n) => ("%", n.as_str().parse::<f32>().unwrap()),
    }
}

fn fails(text: &str) {
    let r = parse_style(text);
    assert_eq!(r.as_ref().err(), Some(&Failure::MalformedStyle), "{text}");
    assert_eq!(r.err().unwrap().status(), Status::InvalidArgument);
}

#[test]
fn parse_row_wrap_percent() {
    let s = parse_style("flex-direction: row;flex-wrap: wrap;width: 100%;height: 100%").unwrap();
    assert_eq!(s.flex_direction(), FlexDirection::Row);
    assert_eq!(s.flex_wrap(), FlexWrap::Wrap);
    assert_eq!(number(s.width()), ("%", 100.0));
    assert_eq!(number(s.height()), ("%", 100.0));
    assert_eq!(s.margin().left, Dimension::Auto);
}

#[test]
fn parse_margin_points() {
    let s = parse_style("margin: 10px;width: 170px;height: 170px").unwrap();
    let m = s.margin();
    for side in [&m.left, &m.top, &m.right, &m.bottom] {
        assert_eq!(number(side), ("px", 10.0));
    }
    assert_eq!(number(s.width()), ("px", 170.0));
    assert_eq!(number(s.height()), ("px", 170.0));
    assert_eq!(s.flex_direction(), FlexDirection::Row);
    assert_eq!(s.flex_wrap(), FlexWrap::NoWrap);
}

#[test]
fn unknown_property_fails() {
    fails("unknown-prop: 1");
}

#[test]
fn unsupported_unit_fails() {
    fails("width: 10em");
}

#[test]
fn malformed_pairs_fail() {
    fails("width 10px");
    fails("");
    fails("width: 10px;");
    fails("flex-direction: sideways");
    fails("flex-wrap: Wrap");
    fails("width: px");
    fails("width: 1.2.3px");
    fails("width: e5px");
    fails("width: 10 px");
    fails("height: 5%%");
}

#[test]
fn later_error_fails_whole_text() {
    fails("width: 10px;height: 10em");
    fails("flex-direction: column;bogus: 1");
}

#[test]
fn defaults_and_every_keyword() {
    assert_eq!(parse_style("flex-wrap: nowrap").unwrap(), StyleRecord::new());
    assert_eq!(parse_style("flex-direction: row").unwrap(), StyleRecord::new());
    assert_eq!(parse_style("flex-direction: column").unwrap().flex_direction(), FlexDirection::Column);
    assert_eq!(parse_style("flex-direction: row-reverse").unwrap().flex_direction(), FlexDirection::RowReverse);
    assert_eq!(
        parse_style("flex-direction: column-reverse").unwrap().flex_direction(),
        FlexDirection::ColumnReverse
    );
    assert_eq!(parse_style("flex-wrap: wrap-reverse").unwrap().flex_wrap(), FlexWrap::WrapReverse);
    assert_eq!(*parse_style("width: auto").unwrap().width(), Dimension::Auto);
}

#[test]
fn whitespace_is_trimmed() {
    let s = parse_style("  width :\t25px ;\n height:  auto  ").unwrap();
    assert_eq!(number(s.width()), ("px", 25.0));
    assert_eq!(*s.height(), Dimension::Auto);
}

#[test]
fn later_pairs_override_earlier_ones() {
    let s = parse_style("width: 1px;width: 2%").unwrap();
    assert_eq!(number(s.width()), ("%", 2.0));
}

#[test]
fn numeric_literal_forms() {
    assert_eq!(number(parse_style("width: .5px").unwrap().width()), ("px", 0.5));
    assert_eq!(number(parse_style("width: 3.px").unwrap().width()), ("px", 3.0));
    assert_eq!(number(parse_style("width: -2px").unwrap().width()), ("px", -2.0));
    assert_eq!(number(parse_style("width: +1E2%").unwrap().width()), ("%", 100.0));
    assert_eq!(number(parse_style("width: 1e-1px").unwrap().width()), ("px", 0.1));
    assert!(number(parse_style("width: INFpx").unwrap().width()).1.is_infinite());
    assert!(number(parse_style("width: -Infinity%").unwrap().width()).1.is_infinite());
    assert!(number(&parse_style("margin: nanpx").unwrap().margin().top).1.is_nan());
    match parse_style("height: 007.50%").unwrap().height() {
        Dimension::Percent(n) => assert_eq!(n.as_str(), "007.50"),
        _ => panic!("expected a percentage"),
    }
}

#[test]
fn round_trip_keeps_the_record() {
    let texts = [
        "flex-direction: row;flex-wrap: wrap;width: 100%;height: 100%",
        "margin: 10px;width: 170px;height: 170px",
        "flex-direction: column-reverse; margin: auto ; height: 1e3%",
    ];
    for text in texts {
        let s = parse_style(text).unwrap();
        let again = parse_style(&s.to_text()).unwrap();
        assert_eq!(again, s);
    }
    assert_eq!(
        parse_style("margin: 10px;width: 170px").unwrap().to_text(),
        "flex-direction: row;flex-wrap: nowrap;width: 170px;height: auto;margin: 10px"
    );
}
