use satteri::continuation::{
    dedent_expression_continuation, strip_attr_continuation_indent, strip_expression_indent,
    PHANTOM_SPACE,
};
use satteri::normalize::{normalize_identifier, normalize_inline_html_wrap};
use satteri::tag_name::extract_tag_name;

fn phantom(n: usize) -> String {
    std::iter::repeat(PHANTOM_SPACE).take(n).collect()
}

#[test]
fn attribute_continuation_lines_lose_all_leading_blanks() {
    assert_eq!(strip_attr_continuation_indent("a\n   b\n\tc d"), "a\nb\nc d");
    assert_eq!(strip_attr_continuation_indent("x  y"), "x  y");
    assert_eq!(strip_attr_continuation_indent("a\r\n  b"), "a\r\nb");
    assert_eq!(strip_attr_continuation_indent(" a\n"), " a\n");
}

#[test]
fn expression_dedent_takes_two_columns() {
    assert_eq!(dedent_expression_continuation("a\n   b", 0), "a\n b");
    assert_eq!(dedent_expression_continuation("  a", 0), "  a");
    assert_eq!(dedent_expression_continuation("a\r\n  b", 0), "a\r\nb");
    // A tab from column 0 spans four columns: two are taken, two stay.
    assert_eq!(
        dedent_expression_continuation("a\n\tb", 0),
        format!("a\n{}b", phantom(2))
    );
    // Inside a container whose content starts at column 3 the tab spans two.
    assert_eq!(dedent_expression_continuation("a\n\tb", 3), "a\nb");
    assert_eq!(dedent_expression_continuation("a\n \tb", 0), format!("a\n{}b", phantom(2)));
}

#[test]
fn attribute_expression_dedent_counts_extra_columns() {
    assert_eq!(strip_expression_indent("a\n    b", 0, 0), "a\n  b");
    assert_eq!(strip_expression_indent("a\n\tb", 0, 0), format!("a\n{}b", phantom(2)));
    assert_eq!(strip_expression_indent("a\n\tb", 0, 2), "a\nb");
    assert_eq!(strip_expression_indent("a\n\n  b", 0, 0), "a\n\nb");
    assert_eq!(strip_expression_indent("é\n é", 0, 0), "é\né");
}

#[test]
fn identifiers_collapse_whitespace_and_fold_case() {
    assert_eq!(normalize_identifier("  Foo \t Bar  "), "foo bar");
    assert_eq!(normalize_identifier("A\nB"), "a b");
    assert_eq!(normalize_identifier("   "), "");
    assert_eq!(normalize_identifier(""), "");
    assert_eq!(normalize_identifier("ẞ  Straße"), "ss strasse");
    assert_eq!(normalize_identifier(" ÉCOLE "), "école");
}

#[test]
fn inline_html_continuation_indent() {
    assert_eq!(normalize_inline_html_wrap("<a\n   b>"), Some("<a\nb>".to_string()));
    assert_eq!(normalize_inline_html_wrap("<a\n    b>"), Some("<a\n b>".to_string()));
    assert_eq!(normalize_inline_html_wrap("<a\n\tb>"), Some("<a\n b>".to_string()));
    assert_eq!(normalize_inline_html_wrap("<a\nb>"), None);
    assert_eq!(normalize_inline_html_wrap("<a b>"), None);
    assert_eq!(normalize_inline_html_wrap("<a\r\n  b>"), Some("<a\r\nb>".to_string()));
}

#[test]
fn tag_names_join_members_and_one_namespace() {
    assert_eq!(extract_tag_name("a.b.c rest>"), "a.b.c");
    assert_eq!(extract_tag_name("a :b/>"), "a:b");
    assert_eq!(extract_tag_name("a:b:c>"), "a:b");
    assert_eq!(extract_tag_name("a . b>"), "a.b");
    assert_eq!(extract_tag_name("a. >"), "a");
    assert_eq!(extract_tag_name("ü.x>"), "ü.x");
    assert_eq!(extract_tag_name(""), "");
    // Only whitespace after the parts: the first name alone.
    assert_eq!(extract_tag_name("a.b "), "a");
}

#[test]
fn identifiers_are_stable_under_renormalizing() {
    for x in ["  Foo \t Bar  ", "A\nB", "x", "  ", "Some   LABEL"] {
        let once = normalize_identifier(x);
        assert_eq!(normalize_identifier(&once), once);
    }
}

#[test]
fn substring_search() {
    assert!(satteri::text::str_contains("<a>x</a>", "</a>"));
    assert!(satteri::text::str_contains("abc", ""));
    assert!(satteri::text::str_contains("abc", "abc"));
    assert!(!satteri::text::str_contains("abc", "abcd"));
    assert!(!satteri::text::str_contains("aab", "abb"));
    assert!(satteri::text::str_contains("héllo", "él"));
}
