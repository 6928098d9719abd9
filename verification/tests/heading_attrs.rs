use satteri::heading_attrs::{
    encode_heading_h_properties, extract_attribute_block_content_from_header_text,
    parse_inside_attribute_block, unquote_attribute_value, HeadingAttributes,
};

#[test]
fn finds_trailing_attribute_block() {
    assert_eq!(
        extract_attribute_block_content_from_header_text(b"Title {#id .c}"),
        (6, Some((7, 13)))
    );
    assert_eq!(extract_attribute_block_content_from_header_text(b"Title"), (5, None));
    assert_eq!(
        extract_attribute_block_content_from_header_text(b"Title {a}  \n"),
        (6, Some((7, 8)))
    );
    assert_eq!(extract_attribute_block_content_from_header_text(b"x {a<b}"), (7, None));
    assert_eq!(extract_attribute_block_content_from_header_text(b"{}"), (0, Some((1, 1))));
    assert_eq!(extract_attribute_block_content_from_header_text(b""), (0, None));
}

#[test]
fn parses_ids_classes_and_attributes() {
    let a = parse_inside_attribute_block("#id .a .b key=val k2=\"x y\" flag").unwrap();
    assert_eq!(a.id, Some("id".to_string()));
    assert_eq!(a.classes, vec!["a".to_string(), "b".to_string()]);
    assert_eq!(
        a.attrs,
        vec![
            ("key".to_string(), Some("val".to_string())),
            ("k2".to_string(), Some("x y".to_string())),
            ("flag".to_string(), None),
        ]
    );
}

#[test]
fn explicit_id_and_class_fold_in() {
    let a = parse_inside_attribute_block("id=foo class=bar .baz").unwrap();
    assert_eq!(a.id, Some("foo".to_string()));
    assert_eq!(a.classes, vec!["bar".to_string(), "baz".to_string()]);
    assert!(a.attrs.is_empty());
}

#[test]
fn empty_blocks_say_nothing() {
    assert!(parse_inside_attribute_block("  ").is_none());
    assert!(parse_inside_attribute_block("x").is_none());
    assert!(parse_inside_attribute_block("# .").is_none());
}

#[test]
fn unquoting_values() {
    assert_eq!(unquote_attribute_value("\"a\""), "a");
    assert_eq!(unquote_attribute_value("'a'"), "a");
    assert_eq!(unquote_attribute_value("'a"), "'a");
    assert_eq!(unquote_attribute_value("\"a'"), "\"a'");
    assert_eq!(unquote_attribute_value("\""), "\"");
}

#[test]
fn encodes_h_properties_json() {
    let a = HeadingAttributes {
        id: Some("x".to_string()),
        classes: vec!["a".to_string(), "b".to_string()],
        attrs: vec![
            ("k".to_string(), Some("v\"\n".to_string())),
            ("f".to_string(), None),
        ],
    };
    let json = encode_heading_h_properties(&a).unwrap();
    assert_eq!(
        String::from_utf8(json).unwrap(),
        "{\"hProperties\":{\"id\":\"x\",\"className\":[\"a\",\"b\"],\"k\":\"v\\\"\\n\",\"f\":\"\"}}"
    );
    let only_attr = HeadingAttributes {
        id: None,
        classes: vec![],
        attrs: vec![("t".to_string(), Some("\u{1}".to_string()))],
    };
    assert_eq!(
        String::from_utf8(encode_heading_h_properties(&only_attr).unwrap()).unwrap(),
        "{\"hProperties\":{\"t\":\"\\u0001\"}}"
    );
    let none = HeadingAttributes { id: None, classes: vec![], attrs: vec![] };
    assert!(encode_heading_h_properties(&none).is_none());
}
