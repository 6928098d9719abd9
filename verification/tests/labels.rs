use satteri::labels::{
    byte_offset_to_line_col, extract_definition_label, extract_reference_label,
    heading_level_to_u8, reference_kind, unescape_label_backslashes, HeadingLevel, LinkType,
};

#[test]
fn definition_labels() {
    assert_eq!(extract_definition_label("[foo]: /u", 0), Some("foo"));
    assert_eq!(extract_definition_label("x", 0), None);
    assert_eq!(extract_definition_label("[a\\]b]", 0), Some("a\\]b"));
    assert_eq!(extract_definition_label("[ab", 0), None);
    assert_eq!(extract_definition_label("[é]", 0), Some("é"));
}

#[test]
fn reference_labels() {
    assert_eq!(extract_reference_label("[a][b]", 0, 6, 2, false), "b");
    assert_eq!(extract_reference_label("[a][\\[b]", 0, 8, 2, false), "\\[b");
    assert_eq!(extract_reference_label("[a][]", 0, 5, 1, false), "a");
    assert_eq!(extract_reference_label("[a]", 0, 3, 0, false), "a");
    assert_eq!(extract_reference_label("![a]", 0, 4, 0, true), "a");
}

#[test]
fn label_escapes() {
    assert_eq!(unescape_label_backslashes("a\\*b"), Some("a*b".to_string()));
    assert_eq!(unescape_label_backslashes("\\[x\\]"), Some("[x]".to_string()));
    assert_eq!(unescape_label_backslashes("ab"), None);
    assert_eq!(unescape_label_backslashes("a\\b"), None);
}

#[test]
fn kinds_and_levels() {
    assert_eq!(reference_kind(LinkType::Reference), Some(2));
    assert_eq!(reference_kind(LinkType::CollapsedUnknown), Some(1));
    assert_eq!(reference_kind(LinkType::Shortcut), Some(0));
    assert_eq!(reference_kind(LinkType::Inline), None);
    assert_eq!(reference_kind(LinkType::WikiLink { has_pothole: true }), None);
    assert_eq!(heading_level_to_u8(HeadingLevel::H1), 1);
    assert_eq!(heading_level_to_u8(HeadingLevel::H6), 6);
}

#[test]
fn line_and_column_of_offsets() {
    assert_eq!(byte_offset_to_line_col("ab\ncd", 4), "2:2");
    assert_eq!(byte_offset_to_line_col("ab\ncd", 0), "1:1");
    assert_eq!(byte_offset_to_line_col("é", 2), "1:2");
    assert_eq!(byte_offset_to_line_col("ab", 99), "1:3");
    assert_eq!(byte_offset_to_line_col("\n\n\n\n\n\n\n\n\n\nx", 11), "11:2");
}

#[test]
fn ascii_positions_agree_with_the_line_index() {
    let s = "ab\ncd\n\nefg\n";
    let idx = satteri::LineIndex::from_source(s);
    for offset in 0..=s.len() {
        let (l, c) = idx.offset_to_line_col(offset as u32);
        assert_eq!(byte_offset_to_line_col(s, offset), format!("{l}:{c}"));
    }
}
