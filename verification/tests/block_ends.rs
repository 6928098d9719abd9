use satteri::block_ends::{
    extend_indented_code_block, extend_inner_blockquote_through_outer_markers,
    extend_list_in_blockquote_through_marker_lines, mdast_position_end,
    trim_trailing_newlines_from_code_block, BlockKind, IndentCodeExtension, ParentKind,
};

#[test]
fn trailing_line_terminators_are_trimmed() {
    let s = b"para\n\n";
    assert_eq!(mdast_position_end(0, 6, BlockKind::OtherBlock, ParentKind::Root, s), 4);
    assert_eq!(mdast_position_end(0, 2, BlockKind::Inline, ParentKind::Root, b"a\n"), 2);
    // Trimming stops at the block's start.
    assert_eq!(mdast_position_end(2, 4, BlockKind::OtherBlock, ParentKind::Root, b"a\n\n\n"), 2);
}

#[test]
fn fenced_code_keeps_its_terminator_at_the_end_of_input() {
    let s = b"```\na\n```\n";
    assert_eq!(mdast_position_end(0, 10, BlockKind::FencedCode, ParentKind::Root, s), 10);
    assert_eq!(mdast_position_end(0, 10, BlockKind::Math, ParentKind::Root, s), 10);
    // Not inside a block quote.
    assert_eq!(mdast_position_end(0, 10, BlockKind::FencedCode, ParentKind::BlockQuote, s), 9);
    // Before more text only one terminator goes.
    let t = b"```\na\n```\n\nx";
    assert_eq!(mdast_position_end(0, 11, BlockKind::FencedCode, ParentKind::Root, t), 10);
}

#[test]
fn unclosed_fence_in_a_list_item() {
    let s = b"- ```\n  a\n- b";
    assert_eq!(mdast_position_end(2, 10, BlockKind::FencedCode, ParentKind::ListItem, s), 10);
    assert_eq!(mdast_position_end(2, 10, BlockKind::FencedCode, ParentKind::Other, s), 9);
    let t = b"```\n1. x";
    assert_eq!(mdast_position_end(0, 4, BlockKind::FencedCode, ParentKind::ListItem, t), 4);
    let u = b"```\n1 x";
    assert_eq!(mdast_position_end(0, 4, BlockKind::FencedCode, ParentKind::ListItem, u), 3);
}

#[test]
fn nested_block_quote_takes_in_outer_marker_lines() {
    let s = b"> > a\n> \n> \nb";
    assert_eq!(extend_inner_blockquote_through_outer_markers(true, false, 1, s, 5), Some(10));
    assert_eq!(extend_inner_blockquote_through_outer_markers(true, true, 1, s, 5), None);
    assert_eq!(extend_inner_blockquote_through_outer_markers(true, false, 0, s, 5), None);
    assert_eq!(extend_inner_blockquote_through_outer_markers(false, false, 1, s, 5), None);
    // A line that goes on with the inner `>` is not taken in.
    assert_eq!(extend_inner_blockquote_through_outer_markers(true, false, 1, b"> > a\n> > b", 5), None);
}

#[test]
fn list_in_block_quote_takes_in_blank_marker_lines() {
    let s = b">- one\n>\n> two";
    assert_eq!(extend_list_in_blockquote_through_marker_lines(true, 1, false, 11, s, 6), Some(8));
    assert_eq!(extend_list_in_blockquote_through_marker_lines(true, 1, true, 11, s, 6), None);
    assert_eq!(extend_list_in_blockquote_through_marker_lines(false, 1, false, 11, s, 6), None);
    assert_eq!(extend_list_in_blockquote_through_marker_lines(true, 1, false, 6, s, 6), None);
    // A deeper `>` on the first line: the end goes past the outer markers.
    let t = b">- a\n>> b";
    assert_eq!(extend_list_in_blockquote_through_marker_lines(true, 1, false, 9, t, 4), Some(6));
    // Four columns of indentation stop the walk.
    let u = b">- a\n    > b";
    assert_eq!(extend_list_in_blockquote_through_marker_lines(true, 1, false, 12, u, 4), None);
}

#[test]
fn indented_code_takes_in_blank_lines() {
    let s = b"    a\n\n    \n\nb";
    assert_eq!(
        extend_indented_code_block(true, false, false, s, 1, 5),
        Some(IndentCodeExtension { end_offset: 11, extra_blank_lines: 1 })
    );
    assert_eq!(extend_indented_code_block(true, true, false, s, 1, 5), None);
    assert_eq!(extend_indented_code_block(true, false, true, s, 1, 5), None);
    assert_eq!(extend_indented_code_block(false, false, false, s, 1, 5), None);
    assert_eq!(extend_indented_code_block(true, false, false, b"    a\nb", 1, 5), None);
    // A less indented whitespace line is passed over.
    let t = b"    a\n  \n    \nb";
    assert_eq!(
        extend_indented_code_block(true, false, false, t, 1, 5),
        Some(IndentCodeExtension { end_offset: 13, extra_blank_lines: 1 })
    );
}

#[test]
fn code_block_text_loses_trailing_line_endings() {
    let s = b"```\na\r\n\n\n```";
    // The text node `a\r\n\n\n` spans 4..9.
    assert_eq!(trim_trailing_newlines_from_code_block(true, s, 4, 9, 1), 8);
    assert_eq!(trim_trailing_newlines_from_code_block(true, s, 4, 9, 3), 5);
    assert_eq!(trim_trailing_newlines_from_code_block(true, s, 4, 9, 9), 5);
    assert_eq!(trim_trailing_newlines_from_code_block(true, s, 4, 9, 0), 9);
    assert_eq!(trim_trailing_newlines_from_code_block(false, s, 4, 9, 3), 9);
    // A lone `\r` counts as one.
    assert_eq!(trim_trailing_newlines_from_code_block(true, b"a\r\r", 0, 3, 1), 2);
}
