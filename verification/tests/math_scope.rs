use satteri::math_scope::{is_inside_math_span_no_fences, prev_line_has_open_inline_jsx_no_fences};

#[test]
fn math_span_pairs_dollar_runs() {
    assert!(is_inside_math_span_no_fences(b"a $x{y$ b", 4));
    assert!(!is_inside_math_span_no_fences(b"a $x$ {y}", 6));
    // An escaped `$` opens no span.
    assert!(!is_inside_math_span_no_fences(b"a \\$x{y$ b", 5));
    // Runs of different lengths do not pair.
    assert!(!is_inside_math_span_no_fences(b"$$x{$", 3));
    // An escaped `$` still closes a span.
    assert!(is_inside_math_span_no_fences(b"$x{\\$", 2));
}

#[test]
fn open_tag_on_previous_line() {
    assert!(prev_line_has_open_inline_jsx_no_fences(b"<a\nb/>", 3, false));
    assert!(!prev_line_has_open_inline_jsx_no_fences(b"`<a`\nb/>", 5, false));
    assert!(!prev_line_has_open_inline_jsx_no_fences(b"x\nb", 2, false));
    assert!(!prev_line_has_open_inline_jsx_no_fences(b"<a/>\nb", 5, false));
    // Not at a line start.
    assert!(!prev_line_has_open_inline_jsx_no_fences(b"<a\nb/>", 4, false));
}
