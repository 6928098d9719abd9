use satteri::inline_scope::{
    contains_blank_line, has_earlier_backtick_run, has_later_backtick_run,
    has_unbalanced_bracket_from, has_unbalanced_bracket_in_paragraph, is_at_paragraph_line_start,
    is_inside_code_span, is_inside_gfm_autolink_url, is_inside_link_destination,
    is_inside_link_url_parens, is_inside_open_inline_jsx_tag, leading_container_prefix, line_starts_block,
    mdx_block_interrupts, scope_for_inline,
};

#[test]
fn block_quote_depth() {
    assert_eq!(leading_container_prefix(b"> > a"), 2);
    assert_eq!(leading_container_prefix(b"   > a"), 1);
    assert_eq!(leading_container_prefix(b"    > a"), 0);
    assert_eq!(leading_container_prefix(b"a"), 0);
}

#[test]
fn inline_scope_stops_at_blank_lines_and_depth_changes() {
    assert_eq!(scope_for_inline(b"a\nb\n\nc", 2), (0, 3));
    assert_eq!(scope_for_inline(b"a\n> b\n> c", 4), (2, 9));
    assert_eq!(scope_for_inline(b"x", 0), (0, 1));
}

#[test]
fn blank_lines() {
    assert!(contains_blank_line(b"a\n\nb"));
    assert!(contains_blank_line(b"a\n  \nb"));
    assert!(!contains_blank_line(b"a\nb"));
    assert!(!contains_blank_line(b"\n"));
}

#[test]
fn paragraph_line_starts() {
    assert!(is_at_paragraph_line_start(b"> - {", 4));
    assert!(is_at_paragraph_line_start(b"  {", 2));
    assert!(is_at_paragraph_line_start(b"12. {", 4));
    assert!(!is_at_paragraph_line_start(b"a {", 2));
}

#[test]
fn block_starts() {
    assert!(line_starts_block(b"# h", 0));
    assert!(!line_starts_block(b"#h", 0));
    assert!(!line_starts_block(b"####### h", 0));
    assert!(line_starts_block(b"```", 0));
    assert!(!line_starts_block(b"``", 0));
    assert!(line_starts_block(b"- - -", 0));
    assert!(!line_starts_block(b"-- x", 0));
    assert!(line_starts_block(b"    x", 0));
    assert!(line_starts_block(b"> q", 0));
    assert!(!line_starts_block(b"x", 5));
    // List markers.
    assert!(line_starts_block(b"- a", 0));
    assert!(line_starts_block(b"+ a", 0));
    assert!(line_starts_block(b"* a", 0));
    assert!(line_starts_block(b"-", 0));
    assert!(line_starts_block(b"1. a", 0));
    assert!(line_starts_block(b"  12) a", 0));
    assert!(!line_starts_block(b"1234567890. a", 0));
    assert!(!line_starts_block(b"1.a", 0));
    assert!(!line_starts_block(b"-a", 0));
}

#[test]
fn unbalanced_brackets() {
    assert!(has_unbalanced_bracket_from(b"[a", 0, 2));
    assert!(!has_unbalanced_bracket_from(b"[a]", 0, 3));
    assert!(!has_unbalanced_bracket_from(b"[a\n\nb", 0, 5));
    assert!(!has_unbalanced_bracket_from(b"\\[a", 0, 3));
    assert!(has_unbalanced_bracket_in_paragraph(b"x [y", 4));
    assert!(!has_unbalanced_bracket_from(b"[a", 1, 2));
}

#[test]
fn backtick_runs() {
    assert!(has_later_backtick_run(b"a `b` c", 2, 1));
    assert!(!has_later_backtick_run(b"a `b`", 3, 2));
    assert!(!has_later_backtick_run(b"a\n\n`", 0, 1));
    assert!(has_earlier_backtick_run(b"`a` b", 4, 1));
    assert!(!has_earlier_backtick_run(b"`a` b", 0, 1));
    assert!(!has_earlier_backtick_run(b"``a", 3, 1));
}

#[test]
fn mdx_at_line_start_and_inside_tags() {
    assert!(mdx_block_interrupts(b"<a />", true));
    assert!(!mdx_block_interrupts(b"<a />", false));
    assert!(mdx_block_interrupts(b"{x}", true));
    assert!(!mdx_block_interrupts(b"{x} y", true));
    assert!(is_inside_open_inline_jsx_tag(b"<a b={x}>", 5));
    assert!(!is_inside_open_inline_jsx_tag(b"<a>{x}", 3));
    assert!(!is_inside_open_inline_jsx_tag(b"\\<a b={x}>", 6));
}

#[test]
fn code_span_pairs_runs_of_equal_length_and_depth() {
    assert!(is_inside_code_span(b"a `b{c` d", 4));
    assert!(!is_inside_code_span(b"a `b` {c}", 6));
    assert!(is_inside_code_span(b"``a`b``", 4));
    // A run inside link text does not pair with one outside it.
    assert!(!is_inside_code_span(b"[`a](x) {`", 8));
    // An escaped backtick opens nothing.
    assert!(!is_inside_code_span(b"\\`a {b`", 4));
    // Runs across a blank line do not pair.
    assert!(!is_inside_code_span(b"`a\n\n{b`", 4));
}

#[test]
fn link_url_parens_need_a_closed_tail() {
    assert!(is_inside_link_url_parens(b"[a](/u{x})", 6));
    assert!(!is_inside_link_url_parens(b"[a]({", 4));
    assert!(!is_inside_link_url_parens(b"a(b{c)", 3));
    assert!(!is_inside_link_url_parens(b"[a\n](b{)", 6));
}

#[test]
fn link_destination_follows_balanced_link_text() {
    assert!(is_inside_link_destination(b"[a](http://x.y)", 4));
    assert!(!is_inside_link_destination(b"a (http://x.y)", 3));
    assert!(!is_inside_link_destination(b"[a](b c)", 6));
}

#[test]
fn autolink_url_hides_backticks_outside_brackets() {
    assert!(is_inside_gfm_autolink_url(b"see https://x.com/`a` ok", 17));
    assert!(!is_inside_gfm_autolink_url(b"[see https://x.com/`a` ok", 18));
    assert!(!is_inside_gfm_autolink_url(b"[a](https://x.com) `b`", 19));
    assert!(!is_inside_gfm_autolink_url(b"plain `text`", 6));
}
