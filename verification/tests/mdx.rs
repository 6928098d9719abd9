use satteri::mdx::{
    column_at, extract_opening_tag, scan_mdx_esm, scan_mdx_expression_block,
    scan_mdx_expression_end, scan_mdx_inline_expression, scan_mdx_inline_jsx,
    scan_mdx_jsx_block, scan_mdx_jsx_element_end, scan_mdx_jsx_tag_end, scan_to_line_end,
};
use satteri::mdx_lex::{
    char_len_utf8, is_mdx_unicode_whitespace, looks_like_spread, scan_regex, skip_string,
    slash_is_regex,
};

#[test]
fn expression_simple_and_nested() {
    assert_eq!(scan_mdx_expression_end(b"{a}", true), Some(3));
    assert_eq!(scan_mdx_expression_end(b"{a {b} c}", true), Some(9));
    assert_eq!(scan_mdx_expression_end(b"a}", true), None);
    assert_eq!(scan_mdx_expression_end(b"", true), None);
    assert_eq!(scan_mdx_expression_end(b"{a", true), None);
}

#[test]
fn expression_skips_strings_comments_and_regex() {
    assert_eq!(scan_mdx_expression_end(b"{\"}\"}", true), Some(5));
    assert_eq!(scan_mdx_expression_end(b"{user's}", true), Some(8));
    assert_eq!(scan_mdx_expression_end(b"{'a}", true), None);
    assert_eq!(scan_mdx_expression_end(b"{/* } */ x}", true), Some(11));
    assert_eq!(scan_mdx_expression_end(b"{x / 2}", true), Some(7));
    assert_eq!(scan_mdx_expression_end(b"{/}/}", true), Some(5));
    assert_eq!(scan_mdx_expression_end(b"{`}`}", true), Some(5));
    assert_eq!(scan_mdx_expression_end(b"{`${}}`}", true), Some(8));
}

#[test]
fn expression_blank_line_ends_inline_scan() {
    assert_eq!(scan_mdx_expression_end(b"{a\n\nb}", true), None);
    assert_eq!(scan_mdx_expression_end(b"{a\n\nb}", false), Some(6));
    assert_eq!(scan_mdx_expression_end(b"{a\nb}", true), Some(5));
}

#[test]
fn expression_with_jsx_child() {
    assert_eq!(scan_mdx_expression_end(b"{<a>}</a>}", true), Some(10));
    assert_eq!(scan_mdx_jsx_element_end(b"<a>x</a>", 0), Some(8));
    assert_eq!(scan_mdx_jsx_element_end(b"<a/>rest", 0), Some(4));
    assert_eq!(scan_mdx_jsx_element_end(b"<a>x", 0), None);
    assert_eq!(scan_mdx_jsx_element_end(b"<a>x</a>", 40), None);
}

#[test]
fn inline_expression_content_range() {
    assert_eq!(scan_mdx_inline_expression(b"{ab}x"), Some((1, 3, 4)));
    assert_eq!(scan_mdx_inline_expression(b"ab"), None);
}

#[test]
fn inline_jsx_tags() {
    assert_eq!(scan_mdx_inline_jsx(b"<a>"), Some(3));
    assert_eq!(scan_mdx_inline_jsx(b"<a b=\"c\" />"), Some(11));
    assert_eq!(scan_mdx_inline_jsx(b"</a>"), Some(4));
    assert_eq!(scan_mdx_inline_jsx(b"<>"), Some(2));
    assert_eq!(scan_mdx_inline_jsx(b"<a {...b}>"), Some(10));
    assert_eq!(scan_mdx_inline_jsx(b"<a.b.c>"), Some(7));
    assert_eq!(scan_mdx_inline_jsx(b"<a {b}>"), None);
    assert_eq!(scan_mdx_inline_jsx(b"<a x=foo>"), None);
    assert_eq!(scan_mdx_inline_jsx(b"<https://x>"), None);
    assert_eq!(scan_mdx_inline_jsx(b"a"), None);
    assert_eq!(scan_mdx_jsx_tag_end(b"<b c={1}>"), Some(9));
}

#[test]
fn jsx_and_expression_blocks() {
    assert_eq!(scan_mdx_jsx_block(b"<a />\nnext"), Some(6));
    assert_eq!(scan_mdx_jsx_block(b"<a /> text"), None);
    assert_eq!(scan_mdx_jsx_block(b"<a>{b}</a>\n"), Some(11));
    assert_eq!(scan_mdx_expression_block(b"{a}\n"), Some(4));
    assert_eq!(scan_mdx_expression_block(b"{a} b"), None);
    assert_eq!(scan_mdx_expression_block(b"{a}{b}"), None);
    assert_eq!(scan_mdx_expression_block(b"{a}<b/>"), Some(7));
}

#[test]
fn esm_blocks() {
    assert_eq!(scan_mdx_esm(b"import a from \"b\"\n\nrest"), Some(18));
    assert_eq!(scan_mdx_esm(b"export const a = 1"), Some(18));
    assert_eq!(scan_mdx_esm(b"export const a = `\n\n`\n\nx"), Some(22));
    assert_eq!(scan_mdx_esm(b"exports"), None);
    assert_eq!(scan_mdx_esm(b"important"), None);
}

#[test]
fn line_ends_and_columns() {
    assert_eq!(scan_to_line_end(b"ab\ncd", 0), Some(3));
    assert_eq!(scan_to_line_end(b"ab", 1), Some(2));
    assert_eq!(column_at(b"\tab", 1), 5);
    assert_eq!(column_at(b"ab\ncd", 4), 2);
    assert_eq!(column_at(b" \tx", 2), 5);
}

#[test]
fn opening_tag_of_element_text() {
    assert_eq!(extract_opening_tag("<a b=\">\">text</a>"), "<a b=\">\">");
    assert_eq!(extract_opening_tag("<a b={x > 1}>t</a>"), "<a b={x > 1}>");
    assert_eq!(extract_opening_tag("<a"), "<a");
}

#[test]
fn lexer_pieces() {
    assert_eq!(char_len_utf8(b'a'), 1);
    assert_eq!(char_len_utf8(0xC3), 2);
    assert_eq!(char_len_utf8(0xE2), 3);
    assert_eq!(char_len_utf8(0xF0), 4);
    assert_eq!(char_len_utf8(0x80), 1);
    assert!(is_mdx_unicode_whitespace("a\u{00A0}".as_bytes(), 1));
    assert!(is_mdx_unicode_whitespace(b" ", 0));
    assert!(!is_mdx_unicode_whitespace("é".as_bytes(), 0));
    assert!(looks_like_spread(b"{ ...x}"));
    assert!(!looks_like_spread(b"{x}"));
    assert_eq!(skip_string(b"'a\\'b' c", 0), 6);
    assert_eq!(skip_string(b"\"ab\ncd\"", 0), 3);
    assert_eq!(scan_regex(b"/a[/]b/gi;", 0), 9);
    assert!(slash_is_regex(b"return /x/", 7));
    assert!(!slash_is_regex(b"a /x/", 2));
    assert!(slash_is_regex(b"(/x/", 1));
}
