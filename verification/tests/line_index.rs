use satteri::LineIndex;

#[test]
fn single_line() {
    let idx = LineIndex::from_source("hello");
    assert_eq!(idx.offset_to_line_col(0), (1, 1));
    assert_eq!(idx.offset_to_line_col(4), (1, 5));
    assert_eq!(idx.line_count(), 1);
}

#[test]
fn two_lines() {
    let idx = LineIndex::from_source("hi\nbye");
    // "hi\n" = offsets 0,1,2(\n)
    assert_eq!(idx.offset_to_line_col(0), (1, 1));
    assert_eq!(idx.offset_to_line_col(1), (1, 2));
    // byte 3 is 'b' on line 2
    assert_eq!(idx.offset_to_line_col(3), (2, 1));
    assert_eq!(idx.offset_to_line_col(5), (2, 3));
    assert_eq!(idx.line_count(), 2);
}

#[test]
fn trailing_newline() {
    // "abc\n" — the newline pushes offset 4 into line_offsets, but
    // that represents an empty line 2.
    let idx = LineIndex::from_source("abc\n");
    assert_eq!(idx.offset_to_line_col(0), (1, 1));
    assert_eq!(idx.offset_to_line_col(2), (1, 3));
    // offset 4 is the start of the empty trailing line
    assert_eq!(idx.offset_to_line_col(4), (2, 1));
    assert_eq!(idx.line_count(), 2);
}

#[test]
fn multi_line() {
    let source = "line1\nline2\nline3";
    let idx = LineIndex::from_source(source);
    assert_eq!(idx.line_count(), 3);
    // "line1" = bytes 0-4, '\n' at 5
    // "line2" starts at 6
    // "line3" starts at 12
    assert_eq!(idx.offset_to_line_col(6), (2, 1));
    assert_eq!(idx.offset_to_line_col(10), (2, 5));
    assert_eq!(idx.offset_to_line_col(12), (3, 1));
    assert_eq!(idx.offset_to_line_col(16), (3, 5));
}

#[test]
fn offsets_past_the_end_stay_on_the_last_line() {
    let idx = LineIndex::from_source("ab\ncd");
    assert_eq!(idx.offset_to_line_col(10), (2, 8));
}

#[test]
fn empty_source_has_one_line() {
    let idx = LineIndex::from_source("");
    assert_eq!(idx.line_count(), 1);
    assert_eq!(idx.offset_to_line_col(0), (1, 1));
}

#[test]
fn largest_offset_after_a_line_feed() {
    let idx = LineIndex::from_source("a\nb");
    assert_eq!(idx.offset_to_line_col(u32::MAX), (2, u32::MAX - 1));
}

#[test]
fn a_line_feed_starts_a_line() {
    let s = "a\nbc\n\nd";
    let idx = LineIndex::from_source(s);
    assert_eq!(idx.offset_to_line_col(0), (1, 1));
    for (i, b) in s.bytes().enumerate() {
        if b == b'\n' {
            let lines = 1 + s.as_bytes()[..=i].iter().filter(|&&c| c == b'\n').count() as u32;
            assert_eq!(idx.offset_to_line_col(i as u32 + 1), (lines, 1));
        }
    }
}
