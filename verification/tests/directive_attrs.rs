use satteri::directive_attrs::{
    is_attr_shortcut_terminator, parse_directive_after_colons, parse_directive_attrs_inner,
    scan_directive_attributes,
};

fn pairs(v: &[(&str, &str)]) -> Vec<(String, String)> {
    v.iter().map(|(a, b)| (a.to_string(), b.to_string())).collect()
}

#[test]
fn attribute_list_with_every_form() {
    let bytes = b"{#x .a .b k=v q=\"a b\" flag}rest";
    let (attrs, n) = scan_directive_attributes(bytes).unwrap();
    assert_eq!(n, 27);
    assert_eq!(
        attrs,
        pairs(&[("k", "v"), ("q", "a b"), ("flag", ""), ("id", "x"), ("class", "a b")])
    );
}

#[test]
fn attribute_list_must_close_on_its_line() {
    assert!(scan_directive_attributes(b"{a\nb}").is_none());
    assert!(scan_directive_attributes(b"x").is_none());
    assert!(scan_directive_attributes(b"{a").is_none());
    assert!(scan_directive_attributes(b"").is_none());
    let (attrs, n) = scan_directive_attributes(b"{a=\\}}").unwrap();
    assert_eq!(n, 6);
    assert_eq!(attrs, pairs(&[("a", "\\")]));
}

#[test]
fn inner_entries() {
    assert_eq!(parse_directive_attrs_inner(b"=x"), pairs(&[("x", "")]));
    assert_eq!(parse_directive_attrs_inner(b"k='a\\'b'"), pairs(&[("k", "a\\'b")]));
    assert_eq!(parse_directive_attrs_inner(b"#a #b"), pairs(&[("id", "b")]));
    assert_eq!(parse_directive_attrs_inner(b"# ."), pairs(&[]));
    assert_eq!(parse_directive_attrs_inner("é=ü".as_bytes()), pairs(&[]));
    assert!(is_attr_shortcut_terminator(b'#'));
    assert!(is_attr_shortcut_terminator(b'}'));
    assert!(!is_attr_shortcut_terminator(b'a'));
}

#[test]
fn directive_name_label_and_attributes() {
    let text = "note[Title]{.a #b} rest";
    let (d, end) = parse_directive_after_colons(text, text.as_bytes(), 0).unwrap();
    assert_eq!(d.name, "note");
    assert_eq!((d.label_start, d.label_end), (5, 10));
    assert_eq!(d.attributes, pairs(&[("id", "b"), ("class", "a")]));
    assert_eq!(d.initial_size, 0);
    assert_eq!(end, 18);

    let text = ":::x";
    let (d, end) = parse_directive_after_colons(text, text.as_bytes(), 3).unwrap();
    assert_eq!((d.name.as_str(), end), ("x", 4));
    assert_eq!((d.label_start, d.label_end), (0, 0));

    let text = "tip [a]";
    let (d, end) = parse_directive_after_colons(text, text.as_bytes(), 0).unwrap();
    assert_eq!((d.name.as_str(), end), ("tip", 3));

    let text = "é{k=v}";
    let (d, end) = parse_directive_after_colons(text, text.as_bytes(), 0).unwrap();
    assert_eq!((d.name.as_str(), end), ("é", 7));
    assert_eq!(d.attributes, pairs(&[("k", "v")]));

    assert!(parse_directive_after_colons("[a]", b"[a]", 0).is_none());
    assert!(parse_directive_after_colons("x[a", b"x[a", 0).map(|(_, e)| e) == Some(1));
}
