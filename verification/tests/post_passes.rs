use satteri::post_passes::{
    fnr_find_email, fnr_find_url, fnr_prev_ok, has_url_scheme, is_correct_domain_for_fnr,
    is_email_local_char, scan_autolink_literal, scan_email_autolink, split_url_trim_end,
    update_bracket_depth,
};

#[test]
fn email_local_characters() {
    assert!(is_email_local_char(b'a'));
    assert!(is_email_local_char(b'+'));
    assert!(is_email_local_char(b'_'));
    assert!(!is_email_local_char(b'@'));
    assert!(!is_email_local_char(b' '));
}

#[test]
fn bracket_depth_carries_over() {
    assert!(update_bracket_depth(false, "a [b"));
    assert!(!update_bracket_depth(true, "]"));
    assert!(!update_bracket_depth(false, "\\["));
    assert!(!update_bracket_depth(false, "]"));
    assert!(update_bracket_depth(true, "[]"));
}

#[test]
fn domains_for_find_and_replace() {
    assert!(is_correct_domain_for_fnr(b"example.com"));
    assert!(!is_correct_domain_for_fnr(b"localhost"));
    assert!(!is_correct_domain_for_fnr(b"a_b.com"));
    assert!(!is_correct_domain_for_fnr(b"x.y_z"));
    assert!(is_correct_domain_for_fnr(b"a..com"));
    assert!(!is_correct_domain_for_fnr(b"-.-"));
    assert!(is_correct_domain_for_fnr(b"example."));
}

#[test]
fn url_trail_is_split_off_with_balanced_parens() {
    assert_eq!(split_url_trim_end(b"http://a.b/c).", 7, 14), 12);
    assert_eq!(split_url_trim_end(b"http://a.b/(c).", 7, 15), 14);
    assert_eq!(split_url_trim_end(b"http://a.b", 7, 10), 10);
}

#[test]
fn previous_character_rules() {
    assert!(fnr_prev_ok(b"a b", 2));
    assert!(!fnr_prev_ok(b"ab", 1));
    assert!(fnr_prev_ok(b"x", 0));
    assert!(!fnr_prev_ok("éx".as_bytes(), 2));
    assert!(fnr_prev_ok("—x".as_bytes(), 3));
}

#[test]
fn url_schemes() {
    assert!(has_url_scheme(b"http://x", 0));
    assert!(has_url_scheme(b"a https://x", 2));
    assert!(has_url_scheme(b"www.x", 0));
    assert!(!has_url_scheme(b"ftp://x", 0));
    assert!(!has_url_scheme(b"www", 0));
}

#[test]
fn literal_autolinks() {
    assert_eq!(
        scan_autolink_literal(b"see https://example.com/a. ok", 4),
        Some((4, 26, 25, "https://example.com/a".to_string(), false))
    );
    assert_eq!(
        scan_autolink_literal(b"www.example.com", 0),
        Some((0, 15, 15, "http://www.example.com".to_string(), false))
    );
    assert_eq!(scan_autolink_literal(b"xhttps://a.b", 1), None);
    assert_eq!(scan_autolink_literal(b"https://", 0), None);
    assert_eq!(scan_autolink_literal(b"plain", 0), None);
}

#[test]
fn literal_autolink_leaves_entity_tail_out() {
    assert_eq!(
        scan_autolink_literal(b"www.google.com/search?q=commonmark&hl;", 0),
        Some((0, 38, 34, "http://www.google.com/search?q=commonmark".to_string(), false))
    );
    assert_eq!(
        scan_autolink_literal(b"https://a.b/c&amp;.", 0),
        Some((0, 19, 13, "https://a.b/c".to_string(), false))
    );
}

#[test]
fn find_and_replace_urls() {
    assert_eq!(
        fnr_find_url(b"see www.example.com.", 4),
        Some((4, 19, "http://www.example.com".to_string(), 20))
    );
    assert_eq!(fnr_find_url(b"xhttp://a.b", 1), None);
    assert_eq!(fnr_find_url(b"http://localhost", 0), None);
}

#[test]
fn email_autolinks() {
    assert_eq!(
        scan_email_autolink(b"mail me@example.com now", 7),
        Some((5, 19, "mailto:me@example.com".to_string(), false))
    );
    assert_eq!(scan_email_autolink(b"a/me@x.io", 4), None);
    assert_eq!(
        scan_email_autolink(b"me@x.io.", 2),
        Some((0, 7, "mailto:me@x.io".to_string(), false))
    );
    assert_eq!(scan_email_autolink(b"me@x.i0", 2), None);
    assert_eq!(scan_email_autolink(b"me@localhost", 2), None);
    assert_eq!(scan_email_autolink(b"@x.io", 0), None);
    assert_eq!(
        fnr_find_email(b"mail me@example.com now", 7),
        Some((5, 19, "mailto:me@example.com".to_string(), 19))
    );
    assert_eq!(fnr_find_email(b"me@.example.com", 2), None);
}
