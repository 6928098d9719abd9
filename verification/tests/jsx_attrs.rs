use satteri::jsx_attrs::{parse_jsx_attrs_verbatim, try_parse_jsx_attrs_verbatim, JsxAttr};
use satteri::jsx_tag::{parse_jsx_tag_verbatim, try_parse_jsx_tag_verbatim};

fn s(x: &str) -> String {
    x.to_string()
}

#[test]
fn every_kind_of_attribute() {
    let attrs = parse_jsx_attrs_verbatim("<a b c=\"x\" d={1} {...e}/>", 0, 0);
    assert_eq!(
        attrs,
        vec![
            JsxAttr::Boolean(s("b")),
            JsxAttr::Literal(s("c"), s("x")),
            JsxAttr::Expression(s("d"), s("1"), 14, 15),
            JsxAttr::Spread(s("...e"), 18, 22),
        ]
    );
}

#[test]
fn spread_is_trimmed_and_placed() {
    let attrs = parse_jsx_attrs_verbatim("<a { ...x } >", 0, 0);
    assert_eq!(attrs, vec![JsxAttr::Spread(s("...x"), 5, 9)]);
}

#[test]
fn continuation_lines_of_values() {
    let attrs = parse_jsx_attrs_verbatim("<a b={x\n    y}>", 0, 0);
    assert_eq!(attrs, vec![JsxAttr::Expression(s("b"), s("x\n  y"), 6, 13)]);
    let attrs = parse_jsx_attrs_verbatim("<a t=\"p\n   q\">", 0, 0);
    assert_eq!(attrs, vec![JsxAttr::Literal(s("t"), s("p\nq"))]);
}

#[test]
fn odd_tags() {
    assert_eq!(parse_jsx_attrs_verbatim("<a b=>", 0, 0), vec![JsxAttr::Boolean(s("b"))]);
    assert_eq!(
        parse_jsx_attrs_verbatim("<x:y.z a>", 0, 0),
        vec![JsxAttr::Boolean(s("z")), JsxAttr::Boolean(s("a"))]
    );
    assert_eq!(parse_jsx_attrs_verbatim("</a>", 0, 0), vec![]);
    assert_eq!(parse_jsx_attrs_verbatim("<a xlink:href=\"u\">", 0, 0), vec![JsxAttr::Literal(s("xlink:href"), s("u"))]);
}

#[test]
fn tags_read_as_closing_opening_or_alone() {
    let t = parse_jsx_tag_verbatim("  </ Foo.Bar >", 0, 0);
    assert!(t.is_closing && !t.is_self_closing);
    assert_eq!(t.name, "Foo.Bar");
    assert_eq!(t.raw, "  </ Foo.Bar >");
    assert!(t.attrs.is_empty());

    let t = parse_jsx_tag_verbatim("<a b=\"c\" />", 0, 0);
    assert!(!t.is_closing && t.is_self_closing);
    assert_eq!(t.name, "a");
    assert_eq!(t.attrs, vec![JsxAttr::Literal(s("b"), s("c"))]);

    let t = parse_jsx_tag_verbatim("<x>text</x>", 0, 0);
    assert!(t.is_self_closing);
    assert_eq!(t.name, "x");

    let t = parse_jsx_tag_verbatim("<x y=\"</x>\">", 0, 0);
    assert!(!t.is_self_closing);

    let t = parse_jsx_tag_verbatim("<>a</>", 0, 0);
    assert!(t.is_self_closing);
    assert_eq!(t.name, "");
}

#[test]
fn checked_attribute_parse() {
    assert_eq!(
        try_parse_jsx_attrs_verbatim("<a b d={1}>", 0, 0),
        Some(vec![JsxAttr::Boolean(s("b")), JsxAttr::Expression(s("d"), s("1"), 8, 9)])
    );
    // An expression that opens at the very end of the tag cannot be cut out.
    assert_eq!(try_parse_jsx_attrs_verbatim("<a {", 0, 0), None);
    assert_eq!(try_parse_jsx_attrs_verbatim("<a b={", 0, 0), None);
    assert!(try_parse_jsx_tag_verbatim("<a {", 0, 0).is_none());
    let tag = try_parse_jsx_tag_verbatim("<a b />", 0, 0).unwrap();
    assert_eq!(tag.name, "a");
    assert_eq!(tag.attrs, vec![JsxAttr::Boolean(s("b"))]);
    assert!(tag.is_self_closing);
    assert!(!tag.is_closing);
}
