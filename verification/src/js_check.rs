//! What the JavaScript parse of an MDX expression or ESM block means for
//! the document: the parse itself (and the walk over its syntax tree) is
//! the JavaScript parser's, and hands its findings over as plain values;
//! the decisions taken on them are here.

use vstd::prelude::*;
use vstd::utf8::*;
use vstd::string::*;
use crate::ascii::{spec_is_digit, is_digit};
use crate::mdx_lex::{utf8_len, char_len_utf8, left};
use crate::continuation::PHANTOM_SPACE;
use crate::tag_name::lemma_boundary_step;
use crate::text::{push_char, str_trim, str_to_string, trim_chars, lemma_str_decodes};
use crate::jsx_attrs::{JsxAttr, JsxAttrView, attr_view};
use oxc_allocator::Allocator;
use oxc_parser::{ParseOptions, Parser};
use oxc_span::SourceType;

verus! {

// ---------------------------------------------------------------------
// Legacy octal literals
// ---------------------------------------------------------------------

/// A numeric literal written `0` then a digit (`01`, `0123`, `08`): a
/// legacy octal, or a decimal with a leading zero, which strict-mode
/// JavaScript rejects.
pub open spec fn legacy_octal_raw(raw: Seq<u8>) -> bool {
    raw.len() >= 2 && raw[0] == 48 && spec_is_digit(raw[1])
}

/// The first legacy octal literal met in a walk over a syntax tree.
pub struct LegacyOctalFinder {
    pub offset: Option<usize>,
}

impl LegacyOctalFinder {
    /// A finder that has met nothing yet.
    pub fn new() -> (f: LegacyOctalFinder)
        ensures
            f.offset is None,
    {
        LegacyOctalFinder { offset: None }
    }

    /// Takes note of a numeric literal with source text `raw` (if the tree
    /// kept it) starting at `span_start`, unless one was noted before.
    pub fn check_raw(&mut self, raw: Option<&str>, span_start: u32)
        ensures
            old(self).offset is Some ==> final(self).offset == old(self).offset,
            old(self).offset is None ==> final(self).offset == (match raw {
                Some(r) => if legacy_octal_raw(r.spec_bytes()) {
                    Some(span_start as usize)
                } else {
                    None
                },
                None => None,
            }),
    {
        if self.offset.is_some() {
            return;
        }
        let raw = match raw {
            Some(r) => r.as_bytes(),
            None => {
                return;
            },
        };
        if raw.len() >= 2 && raw[0] == '0' as u8 && is_digit(raw[1]) {
            self.offset = Some(span_start as usize);
        }
    }
}

// ---------------------------------------------------------------------
// Comment-only expression bodies
// ---------------------------------------------------------------------

/// Past the characters of a line comment from `i`: up to the next `\n`.
pub open spec fn to_newline(b: Seq<u8>, i: int) -> int
    decreases b.len() - i,
{
    if 0 <= i < b.len() && b[i] != 10 {
        to_newline(b, i + 1)
    } else {
        i
    }
}

/// Past the `*/` that closes a block comment whose body starts at `i`.
pub open spec fn block_close(b: Seq<u8>, i: int) -> Option<int>
    decreases b.len() - i,
{
    if i < 0 || i + 1 >= b.len() {
        None
    } else if b[i] == 42 && b[i + 1] == 47 {
        Some(i + 2)
    } else {
        block_close(b, i + 1)
    }
}

/// A space, tab, line feed or carriage return.
pub open spec fn js_blank(c: u8) -> bool {
    c == 32 || c == 9 || c == 10 || c == 13
}

/// Scanning a body from `i` with comments skipped: `Err` with the start
/// of a block comment that never closes, else whether anything but
/// comments and whitespace occurs (`seen` telling so of what came before).
pub open spec fn comment_scan(b: Seq<u8>, i: int, seen: bool) -> Result<bool, int>
    decreases b.len() - i,
{
    if i < 0 || i >= b.len() {
        Ok(seen)
    } else if i + 1 < b.len() && b[i] == 47 && b[i + 1] == 47 {
        proof {
            lemma_to_newline(b, i + 2);
        }
        comment_scan(b, to_newline(b, i + 2), seen)
    } else if i + 1 < b.len() && b[i] == 47 && b[i + 1] == 42 {
        proof {
            lemma_block_close(b, i + 2);
        }
        match block_close(b, i + 2) {
            None => Err(i),
            Some(e) => comment_scan(b, e, seen),
        }
    } else {
        comment_scan(b, i + 1, seen || !js_blank(b[i]))
    }
}

/// `to_newline` moves forward and stays within the bytes.
pub proof fn lemma_to_newline(b: Seq<u8>, i: int)
    requires
        0 <= i <= b.len(),
    ensures
        i <= to_newline(b, i) <= b.len(),
    decreases b.len() - i,
{
    if i < b.len() && b[i] != 10 {
        lemma_to_newline(b, i + 1);
    }
}

/// A block comment closes past its `*/`, within the bytes.
pub proof fn lemma_block_close(b: Seq<u8>, i: int)
    requires
        0 <= i,
    ensures
        block_close(b, i) matches Some(e) ==> i + 2 <= e <= b.len(),
    decreases b.len() - i,
{
    if i + 1 < b.len() && !(b[i] == 42 && b[i + 1] == 47) {
        lemma_block_close(b, i + 1);
    }
}

/// Scans an expression body for anything but comments and whitespace;
/// `Err` with the start of an unterminated block comment.
pub fn scan_comment_only_body(value: &[u8]) -> (r: Result<bool, usize>)
    ensures
        match comment_scan(value@, 0, false) {
            Ok(seen) => r == Ok::<bool, usize>(seen),
            Err(start) => r matches Err(s) && s == start,
        },
{
    let n = value.len();
    let mut i: usize = 0;
    let mut seen = false;
    while i < n
        invariant
            i <= n == value@.len(),
            comment_scan(value@, i as int, seen) == comment_scan(value@, 0, false),
        decreases n - i,
    {
        if i + 1 < n && value[i] == '/' as u8 && value[i + 1] == '/' as u8 {
            proof {
                lemma_to_newline(value@, i + 2);
            }
            let from = i + 2;
            i += 2;
            while i < n && value[i] != '\n' as u8
                invariant
                    from <= i <= n == value@.len(),
                    to_newline(value@, i as int) == to_newline(value@, from as int),
                decreases n - i,
            {
                i += 1;
            }
        } else if i + 1 < n && value[i] == '/' as u8 && value[i + 1] == '*' as u8 {
            let start = i;
            proof {
                lemma_block_close(value@, i + 2);
            }
            i += 2;
            let mut closed = false;
            while n - i >= 2
                invariant_except_break
                    !closed,
                    block_close(value@, i as int) == block_close(value@, start + 2),
                invariant
                    start + 2 <= i <= n,
                    n == value@.len(),
                ensures
                    closed ==> block_close(value@, start + 2) == Some(i as int),
                    !closed ==> block_close(value@, start + 2) is None,
                decreases n - i,
            {
                if value[i] == '*' as u8 && value[i + 1] == '/' as u8 {
                    closed = true;
                    i += 2;
                    break;
                }
                i += 1;
            }
            if !closed {
                return Err(start);
            }
        } else {
            let c = value[i];
            if !(c == ' ' as u8 || c == '\t' as u8 || c == '\n' as u8 || c == '\r' as u8) {
                seen = true;
            }
            i += 1;
        }
    }
    Ok(seen)
}

// ---------------------------------------------------------------------
// Expression bodies
// ---------------------------------------------------------------------

/// What the parser made of an expression body wrapped in parentheses:
/// whether it reported errors, the offset (in the wrapped text) of the
/// first legacy octal literal of the tree, and the offset and message of
/// the first error.
pub struct ExprParseReport {
    pub has_errors: bool,
    pub legacy_octal: Option<usize>,
    pub first_error_offset: Option<usize>,
    pub first_error_message: String,
}

/// `x - 1`, but not below 0.
pub open spec fn minus_one(x: int) -> int {
    if x > 0 {
        x - 1
    } else {
        0
    }
}

/// The error to report for an expression body, given the parse of its
/// wrapped text: none for a blank body or a clean parse; a legacy octal
/// literal as an invalid number; else, unless the body is only comments
/// and whitespace, an unterminated block comment or the parser's first
/// error. Offsets are in the body (the wrapping `(` taken off).
pub open spec fn expression_verdict(
    value: &str,
    has_errors: bool,
    octal: Option<usize>,
    err_offset: Option<usize>,
    err_message: Seq<char>,
) -> Option<(int, Seq<char>)> {
    if trim_chars(value@).len() == 0 {
        None
    } else if !has_errors {
        match octal {
            Some(o) => Some((minus_one(o as int), "Invalid number"@)),
            None => None,
        }
    } else {
        match comment_scan(value.spec_bytes(), 0, false) {
            Err(start) => Some((start, "Unterminated block comment"@)),
            Ok(false) => None,
            Ok(true) => Some(
                (
                    match err_offset {
                        Some(o) => minus_one(o as int),
                        None => value.spec_bytes().len() as int,
                    },
                    err_message,
                ),
            ),
        }
    }
}

/// Whether an expression body is blank, so that it needs no parse.
pub fn is_blank_body(value: &str) -> (r: bool)
    ensures
        r == (trim_chars(value@).len() == 0),
{
    str_trim(value).is_empty()
}

/// The parse error to report for an MDX expression body, as mdx-js
/// (acorn's `parseExpressionAt`) would: `(offset in the body, message)`,
/// or `None` when the body is accepted.
pub fn expression_body_verdict(value: &str, report: &ExprParseReport) -> (r: Option<(usize, String)>)
    ensures
        match expression_verdict(
            value,
            report.has_errors,
            report.legacy_octal,
            report.first_error_offset,
            report.first_error_message@,
        ) {
            None => r is None,
            Some((o, m)) => r matches Some((ro, rm)) && ro == o && rm@ == m,
        },
{
    if is_blank_body(value) {
        return None;
    }
    if !report.has_errors {
        return match report.legacy_octal {
            Some(o) => {
                let msg = "Invalid number";
                proof {
                    reveal_strlit("Invalid number");
                }
                Some((if o > 0 {
                    o - 1
                } else {
                    0
                }, str_to_string(msg)))
            },
            None => None,
        };
    }
    let bytes = value.as_bytes();
    match scan_comment_only_body(bytes) {
        Err(start) => {
            let msg = "Unterminated block comment";
            proof {
                reveal_strlit("Unterminated block comment");
            }
            Some((start, str_to_string(msg)))
        },
        Ok(false) => None,
        Ok(true) => {
            let offset = match report.first_error_offset {
                Some(o) => if o > 0 {
                    o - 1
                } else {
                    0
                },
                None => bytes.len(),
            };
            Some((offset, report.first_error_message.clone()))
        },
    }
}

// ---------------------------------------------------------------------
// Phantom spaces
// ---------------------------------------------------------------------

/// The characters without the phantom spaces.
pub open spec fn without_phantoms(cs: Seq<char>) -> Seq<char>
    decreases cs.len(),
{
    if cs.len() == 0 {
        cs
    } else if cs.last() == PHANTOM_SPACE {
        without_phantoms(cs.drop_last())
    } else {
        without_phantoms(cs.drop_last()).push(cs.last())
    }
}

/// A body with its phantom spaces taken out, for the parser (which
/// rejects that code point); `None` when it holds none.
pub fn strip_phantoms(body: &str) -> (r: Option<String>)
    ensures
        body@.contains(PHANTOM_SPACE) ==> (r matches Some(s) && s@ == without_phantoms(body@)),
        !body@.contains(PHANTOM_SPACE) ==> r is None,
{
    let mut out = String::new();
    let mut found = false;
    for c in it: body.chars()
        invariant
            it.seq() == body@,
            out@ == without_phantoms(body@.subrange(0, it.index() as int)),
            found == body@.subrange(0, it.index() as int).contains(PHANTOM_SPACE),
    {
        let ghost pre = body@.subrange(0, it.index() as int);
        let ghost next = body@.subrange(0, it.index() + 1);
        proof {
            assert(next.drop_last() =~= pre);
            assert(next[pre.len() as int] == c);
            if pre.contains(PHANTOM_SPACE) {
                let k = choose|k: int| 0 <= k < pre.len() && pre[k] == PHANTOM_SPACE;
                assert(next[k] == pre[k]);
            }
            if next.contains(PHANTOM_SPACE) && c != PHANTOM_SPACE {
                let k = choose|k: int| 0 <= k < next.len() && next[k] == PHANTOM_SPACE;
                assert(k < pre.len());
                assert(pre[k] == next[k]);
            }
        }
        if c == PHANTOM_SPACE {
            found = true;
        } else {
            push_char(&mut out, c);
        }
    }
    proof {
        assert(body@.subrange(0, body@.len() as int) =~= body@);
    }
    if found {
        Some(out)
    } else {
        None
    }
}

/// The UTF-8 encoding of the phantom space starts at `i`.
pub open spec fn phantom_at(b: Seq<u8>, i: int) -> bool {
    i + 3 <= b.len() && b[i] == 0xEF && b[i + 1] == 0x80 && b[i + 2] == 0x82
}

/// Walking the characters of a body from byte `i`, with `cleaned` bytes of
/// non-phantom text passed: the byte offset at which `target` bytes of the
/// text without phantoms are passed, or the end of the body.
pub open spec fn body_offset(b: Seq<u8>, i: int, cleaned: int, target: int) -> int
    decreases left(b, i),
{
    if i < 0 || i >= b.len() {
        b.len() as int
    } else if cleaned >= target {
        i
    } else {
        body_offset(
            b,
            i + utf8_len(b[i]),
            if phantom_at(b, i) {
                cleaned
            } else {
                cleaned + utf8_len(b[i])
            },
            target,
        )
    }
}

/// The byte offset in `body` of the byte `clean_offset` of the same body
/// with its phantom spaces taken out, or the end of the body.
pub fn body_offset_of_clean(body: &str, clean_offset: usize) -> (r: usize)
    ensures
        r == body_offset(body.spec_bytes(), 0, 0, clean_offset as int),
{
    let bytes = body.as_bytes();
    let ghost b = body.spec_bytes();
    let n = bytes.len();
    proof {
        lemma_str_decodes(body);
        is_char_boundary_start_end_of_seq(b);
    }
    let mut i: usize = 0;
    let mut cleaned: usize = 0;
    while i < n
        invariant
            bytes@ == b,
            b == body.spec_bytes(),
            n == b.len(),
            valid_utf8(b),
            i <= n,
            cleaned <= i,
            is_char_boundary(b, i as int),
            body_offset(b, i as int, cleaned as int, clean_offset as int) == body_offset(
                b,
                0,
                0,
                clean_offset as int,
            ),
        decreases n - i,
    {
        if cleaned >= clean_offset {
            return i;
        }
        proof {
            lemma_boundary_step(b, i as int);
        }
        let w = char_len_utf8(bytes[i]);
        let phantom = n - i >= 3 && bytes[i] == 0xEF && bytes[i + 1] == 0x80 && bytes[i + 2] == 0x82;
        if !phantom {
            cleaned += w;
        }
        i += w;
    }
    n
}

// ---------------------------------------------------------------------
// ESM blocks
// ---------------------------------------------------------------------

/// How the parse of an ESM block went.
#[derive(Clone, Copy, Debug, PartialEq, Eq, Structural)]
pub enum EsmParseResult {
    /// It parsed.
    Complete,
    /// It failed at its end: more lines may complete it.
    Incomplete,
    /// It failed before its end.
    Error,
}

/// The verdict on an ESM block of `len` bytes from its parse: complete
/// without errors, else incomplete when the first error sits at the end
/// (an error without a place counting as there).
pub open spec fn esm_verdict_of(has_errors: bool, first_error_offset: Option<usize>, len: usize) -> EsmParseResult {
    if !has_errors {
        EsmParseResult::Complete
    } else if (match first_error_offset {
        Some(o) => o,
        None => len,
    }) >= len {
        EsmParseResult::Incomplete
    } else {
        EsmParseResult::Error
    }
}

/// Whether a parse of an ESM block of `len` bytes means the block is
/// complete, incomplete (it may go on) or wrong.
pub fn esm_verdict(has_errors: bool, first_error_offset: Option<usize>, len: usize) -> (r: EsmParseResult)
    ensures
        r == esm_verdict_of(has_errors, first_error_offset, len),
{
    if !has_errors {
        return EsmParseResult::Complete;
    }
    let offset = match first_error_offset {
        Some(o) => o,
        None => len,
    };
    if offset >= len {
        EsmParseResult::Incomplete
    } else {
        EsmParseResult::Error
    }
}

/// The arena that the JavaScript parser allocates its syntax tree in.
#[verifier::external_type_specification]
#[verifier::external_body]
pub struct ExAllocator(oxc_allocator::Allocator);

/// What oxc's parser reports on a text parsed as an ES module with JSX:
/// whether it found errors, and the offset of the first label of the
/// first error, where that error has one.
pub uninterp spec fn oxc_module_report(text: Seq<char>) -> (bool, Option<usize>);

/// `oxc_parser::Parser::parse` of `value` as an ES module with JSX, in
/// `allocator` after `Allocator::reset`: whether the diagnostics hold an
/// error, and the offset of the first label of the first error. The report
/// is a function of the text alone; the allocator only lends memory.
#[verifier::external_body]
fn module_parse_report(value: &str, allocator: &mut Allocator) -> (r: (bool, Option<usize>))
    ensures
        r == oxc_module_report(value@),
{
    allocator.reset();
    let source = allocator.alloc_str(value);
    let ret = Parser::new(allocator, source, SourceType::mjs().with_jsx(true))
        .with_options(ParseOptions::default())
        .parse();
    let first = ret.diagnostics.errors().next();
    (ret.diagnostics.has_errors(), first.and_then(|d| d.labels.as_slice().first().map(|l| l.offset() as usize)))
}

/// Parses an ESM block and tells whether it is complete, incomplete (the
/// first error is at its end, so more lines may complete it) or wrong.
pub fn try_parse_esm(value: &str, allocator: &mut Allocator) -> (r: EsmParseResult)
    ensures
        r == esm_verdict_of(
            oxc_module_report(value@).0,
            oxc_module_report(value@).1,
            value.spec_bytes().len() as usize,
        ),
{
    let report = module_parse_report(value, allocator);
    esm_verdict(report.0, report.1, value.len())
}

// ---------------------------------------------------------------------
// Attribute expressions of JSX tags
// ---------------------------------------------------------------------

/// The byte ranges of an attribute lie inside a tag of `len` bytes.
pub open spec fn attr_in_tag(a: JsxAttrView, len: int) -> bool {
    match a {
        JsxAttrView::Spread(_, s, e) => 0 <= s <= e <= len,
        JsxAttrView::Expression(_, _, s, e) => 0 <= s <= e <= len,
        _ => true,
    }
}

/// The JavaScript that an attribute holds, as a byte range of the tag: all
/// of `x={…}`'s value, and the operand after `...` of a spread `{...x}`;
/// nothing for other attributes or a spread whose text lacks the `...`.
pub open spec fn expression_range_of(tag: Seq<u8>, a: JsxAttrView) -> Option<(int, int)> {
    match a {
        JsxAttrView::Expression(_, _, s, e) => Some((s, e)),
        JsxAttrView::Spread(_, s, e) => if s + 3 <= e && tag[s] == 46 && tag[s + 1] == 46 && tag[s
            + 2] == 46 {
            Some((s + 3, e))
        } else {
            None
        },
        _ => None,
    }
}

/// The byte range of the JavaScript in an attribute of `tag`: what gets
/// parsed as an expression.
pub fn jsx_expression_range(tag: &[u8], attr: &JsxAttr) -> (r: Option<(usize, usize)>)
    requires
        attr_in_tag(attr_view(*attr), tag@.len() as int),
    ensures
        match expression_range_of(tag@, attr_view(*attr)) {
            Some((a, b)) => r == Some((a as usize, b as usize)),
            None => r is None,
        },
{
    match attr {
        JsxAttr::Expression(_, _, start, end) => Some((*start, *end)),
        JsxAttr::Spread(_, start, end) => {
            if *end - *start >= 3 && tag[*start] == '.' as u8 && tag[*start + 1] == '.' as u8
                && tag[*start + 2] == '.' as u8 {
                Some((*start + 3, *end))
            } else {
                None
            }
        },
        _ => None,
    }
}

/// The message recorded for an attribute expression that does not parse.
pub fn expression_error_message(detail: &str) -> (r: String)
    ensures
        r@ == "Could not parse expression with oxc: "@ + detail@,
{
    crate::text::concat_str("Could not parse expression with oxc: ", detail)
}

} // verus!
