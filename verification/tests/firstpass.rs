use satteri::firstpass::{
    get_html_end_tag, is_directive_name_char_ascii, is_directive_name_start_ascii,
    link_tail_well_formed, scan_directive_label, scan_directive_name, scan_email_forward_from_atext,
};

#[test]
fn html_block_end_tags() {
    assert_eq!(get_html_end_tag(b"pre>"), Some("</pre>"));
    assert_eq!(get_html_end_tag(b"SCRIPT"), Some("</script>"));
    assert_eq!(get_html_end_tag(b"style x"), Some("</style>"));
    assert_eq!(get_html_end_tag(b"prex"), None);
    assert_eq!(get_html_end_tag(b"!-- c"), Some("-->"));
    assert_eq!(get_html_end_tag(b"?php"), Some("?>"));
    assert_eq!(get_html_end_tag(b"![CDATA[x"), Some("]]>"));
    assert_eq!(get_html_end_tag(b"div"), None);
}

#[test]
fn directive_names_and_labels() {
    assert!(is_directive_name_start_ascii(b'a'));
    assert!(!is_directive_name_start_ascii(b'-'));
    assert!(is_directive_name_char_ascii(b'-'));
    assert!(is_directive_name_char_ascii(b'_'));
    assert!(!is_directive_name_char_ascii(b'.'));
    assert_eq!(scan_directive_name(b"note[x]"), Some((0, 4)));
    assert_eq!(scan_directive_name(b"a-b c"), Some((0, 3)));
    assert_eq!(scan_directive_name(b"ab-"), None);
    assert_eq!(scan_directive_name(b"-ab"), None);
    assert_eq!(scan_directive_label(b"[a [b] c]x"), Some((1, 8, 9)));
    assert_eq!(scan_directive_label(b"[a\\]b]"), Some((1, 5, 6)));
    assert_eq!(scan_directive_label(b"[a\nb]"), None);
    assert_eq!(scan_directive_label(b"a]"), None);
}

#[test]
fn link_tails() {
    // `[a](/u "t")`, the `(` at 3.
    assert!(link_tail_well_formed(b"[a](/u \"t\")", 3, 4));
    assert!(!link_tail_well_formed(b"[a](/u", 3, 4));
    // After the URL, only a title may come before the `)`.
    assert!(!link_tail_well_formed(b"[a](/u x)", 3, 7));
    assert!(!link_tail_well_formed(b"[a](/u x)", 3, 4));
    // A position in the title is not in the URL.
    assert!(!link_tail_well_formed(b"[a](/u \"t\")", 3, 8));
    assert!(!link_tail_well_formed(b"[a](/u \"t{x}\")", 3, 9));
    assert!(link_tail_well_formed(b"[a](/u \"t{x}\")", 3, 5));
    assert!(link_tail_well_formed(b"[a](<b c>)", 3, 5));
}

#[test]
fn email_from_a_token_start() {
    assert_eq!(
        scan_email_forward_from_atext(b"hi me@x.io", 3, 0, 0),
        Some((3, 10, "mailto:me@x.io".to_string()))
    );
    assert_eq!(scan_email_forward_from_atext(b"hi me@x.io", 4, 0, 0), None);
    assert_eq!(scan_email_forward_from_atext(b"hi me@x.io", 3, 4, 0), None);
    assert_eq!(scan_email_forward_from_atext(b"hi me", 3, 0, 0), None);
}
