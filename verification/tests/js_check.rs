use satteri::continuation::PHANTOM_SPACE;
use oxc_allocator::Allocator;
use satteri::js_check::{
    body_offset_of_clean, esm_verdict, expression_body_verdict, expression_error_message,
    is_blank_body, jsx_expression_range, scan_comment_only_body, strip_phantoms, try_parse_esm,
    EsmParseResult, ExprParseReport, LegacyOctalFinder,
};
use satteri::jsx_attrs::JsxAttr;

fn report(has_errors: bool, octal: Option<usize>, offset: Option<usize>, msg: &str) -> ExprParseReport {
    ExprParseReport {
        has_errors,
        legacy_octal: octal,
        first_error_offset: offset,
        first_error_message: msg.to_string(),
    }
}

#[test]
fn legacy_octal_first_one_wins() {
    let mut f = LegacyOctalFinder::new();
    f.check_raw(Some("10"), 1);
    assert_eq!(f.offset, None);
    f.check_raw(None, 2);
    assert_eq!(f.offset, None);
    f.check_raw(Some("09"), 3);
    assert_eq!(f.offset, Some(3));
    f.check_raw(Some("01"), 7);
    assert_eq!(f.offset, Some(3));
    let mut g = LegacyOctalFinder::new();
    g.check_raw(Some("0x1"), 4);
    g.check_raw(Some("0"), 5);
    assert_eq!(g.offset, None);
}

#[test]
fn comment_only_bodies() {
    assert_eq!(scan_comment_only_body(b"/* a */ // b\n "), Ok(false));
    assert_eq!(scan_comment_only_body(b"/* a */ x"), Ok(true));
    assert_eq!(scan_comment_only_body(b"x /* a"), Err(2));
    assert_eq!(scan_comment_only_body(b""), Ok(false));
    assert_eq!(scan_comment_only_body(b"//x\ny"), Ok(true));
}

#[test]
fn expression_verdicts() {
    assert!(is_blank_body(" \n\t"));
    assert_eq!(expression_body_verdict("  ", &report(true, None, Some(1), "e")), None);
    assert_eq!(expression_body_verdict("a", &report(false, None, None, "")), None);
    assert_eq!(
        expression_body_verdict("01", &report(false, Some(1), None, "")),
        Some((0, "Invalid number".to_string()))
    );
    assert_eq!(expression_body_verdict("/* c */", &report(true, None, Some(1), "e")), None);
    assert_eq!(
        expression_body_verdict("a /* c", &report(true, None, Some(1), "e")),
        Some((2, "Unterminated block comment".to_string()))
    );
    assert_eq!(
        expression_body_verdict("a +", &report(true, None, Some(4), "Unexpected token")),
        Some((3, "Unexpected token".to_string()))
    );
    assert_eq!(
        expression_body_verdict("a +", &report(true, None, None, "m")),
        Some((3, "m".to_string()))
    );
}

#[test]
fn phantom_spaces_are_taken_out_and_offsets_mapped_back() {
    let body = format!("a{}{}b+", PHANTOM_SPACE, PHANTOM_SPACE);
    assert_eq!(strip_phantoms(&body), Some("ab+".to_string()));
    assert_eq!(strip_phantoms("ab"), None);
    // Byte 2 of "ab+" is `+`, at byte 1 + 3 + 3 + 1 of the body.
    assert_eq!(body_offset_of_clean(&body, 2), 8);
    assert_eq!(body_offset_of_clean(&body, 0), 0);
    assert_eq!(body_offset_of_clean(&body, 9), body.len());
}

#[test]
fn esm_verdicts() {
    assert_eq!(esm_verdict(false, Some(1), 5), EsmParseResult::Complete);
    assert_eq!(esm_verdict(true, Some(5), 5), EsmParseResult::Incomplete);
    assert_eq!(esm_verdict(true, None, 5), EsmParseResult::Incomplete);
    assert_eq!(esm_verdict(true, Some(2), 5), EsmParseResult::Error);
}

#[test]
fn esm_blocks_parsed() {
    let mut allocator = Allocator::default();
    assert_eq!(try_parse_esm("export const a = 1", &mut allocator), EsmParseResult::Complete);
    assert_eq!(try_parse_esm("import {a} from 'b'", &mut allocator), EsmParseResult::Complete);
    assert_eq!(try_parse_esm("export const a = {", &mut allocator), EsmParseResult::Incomplete);
    assert_eq!(try_parse_esm("export const = 1", &mut allocator), EsmParseResult::Error);
}

#[test]
fn attribute_expression_ranges() {
    let tag = b"<A x={1} {...y} />";
    let e = JsxAttr::Expression("x".to_string(), "1".to_string(), 6, 7);
    assert_eq!(jsx_expression_range(tag, &e), Some((6, 7)));
    let sp = JsxAttr::Spread("...y".to_string(), 10, 14);
    assert_eq!(jsx_expression_range(tag, &sp), Some((13, 14)));
    let bad = JsxAttr::Spread("y".to_string(), 13, 14);
    assert_eq!(jsx_expression_range(tag, &bad), None);
    assert_eq!(jsx_expression_range(tag, &JsxAttr::Boolean("x".to_string())), None);
    assert_eq!(
        expression_error_message("Unexpected token"),
        "Could not parse expression with oxc: Unexpected token"
    );
}
