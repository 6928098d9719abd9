use satteri::mdx_lex::{
    char_len_utf8, decode_utf8_char, is_blank_line_next, is_jsx_name_continue, is_jsx_name_start,
    slash_is_regex_after,
};

#[test]
fn characters_and_names() {
    assert_eq!(decode_utf8_char(b"ab", 1), Some('b'));
    assert_eq!(decode_utf8_char("é".as_bytes(), 0), Some('é'));
    assert_eq!(decode_utf8_char("é".as_bytes(), 1), None);
    assert_eq!(decode_utf8_char(b"a", 1), None);
    assert_eq!(char_len_utf8(b'a'), 1);
    assert_eq!(char_len_utf8(0xE2), 3);
    assert!(is_jsx_name_start(b"a", 0));
    assert!(is_jsx_name_start(b"$", 0));
    assert!(!is_jsx_name_start(b"1", 0));
    assert!(is_jsx_name_start("é".as_bytes(), 0));
    assert!(is_jsx_name_continue(b"-", 0));
    assert!(is_jsx_name_continue(b"1", 0));
    assert!(!is_jsx_name_continue(b".", 0));
}

#[test]
fn blank_next_lines() {
    assert!(is_blank_line_next(b"a\n  \nb", 1));
    assert!(is_blank_line_next(b"a\r\n", 1));
    assert!(!is_blank_line_next(b"a\nb", 1));
}

#[test]
fn slash_after_a_value_divides() {
    // After a value that ends in `)`, `/` divides.
    assert!(!slash_is_regex_after(b"(a) /x/", 4, true));
    // After an identifier the keyword rules decide.
    assert!(slash_is_regex_after(b"return /x/", 7, true));
    assert!(slash_is_regex_after(b"( /x/", 2, false));
}
