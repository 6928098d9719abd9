//! The attributes of an MDX JSX opening tag, as mdx-js reads them: spreads
//! `{...x}`, boolean attributes, string literals (continuation indentation
//! dropped, character references decoded) and expressions (continuation
//! lines dedented).

use vstd::prelude::*;
use vstd::utf8::*;
use vstd::string::*;
use crate::ascii::spec_is_ws;
use crate::mdx::{
    expr_end, no_prefix, opening_tag_close, extract_opening_tag, scan_mdx_expression_end,
};
use crate::mdx_lex::{
    utf8_len, left, addressable, jsx_name_start_at, jsx_name_continue_at, is_jsx_name_start,
    is_jsx_name_continue, char_len_utf8,
};
use crate::labels::str_range;
use crate::text::{
    str_trim, str_trim_start, str_to_string, trim_chars, leading_ws, lemma_leading_ws,
    lemma_str_decodes,
};
use crate::continuation::{
    attr_strip, indent_fold, base_column, strip_attr_continuation_indent, strip_expression_indent,
};
use crate::normalize::has_eol_char;

verus! {

/// What a character-reference decoder answers for a string.
pub type DecodeOracle = spec_fn(Seq<char>) -> Seq<char>;

/// An executable decoder that answers as `dec` does.
pub open spec fn decoder_ok<F: Fn(&str) -> String>(f: &F, dec: DecodeOracle) -> bool {
    &&& forall|s: &str| #[trigger] f.requires((s,))
    &&& forall|s: &str, r: String| #[trigger] f.ensures((s,), r) ==> r@ == dec(s@)
}

/// An attribute of a JSX tag.
#[derive(Debug, PartialEq, Eq)]
pub enum JsxAttr {
    /// `{...x}`: the spread's text, trimmed, and its byte range in the tag.
    Spread(String, usize, usize),
    /// A name alone.
    Boolean(String),
    /// `name="value"`, the value decoded.
    Literal(String, String),
    /// `name={value}`: the value and its byte range in the tag.
    Expression(String, String, usize, usize),
}

/// What an attribute holds, its strings as characters.
pub enum JsxAttrView {
    Spread(Seq<char>, int, int),
    Boolean(Seq<char>),
    Literal(Seq<char>, Seq<char>),
    Expression(Seq<char>, Seq<char>, int, int),
}

/// An attribute as plain values.
pub open spec fn attr_view(a: JsxAttr) -> JsxAttrView {
    match a {
        JsxAttr::Spread(v, s, e) => JsxAttrView::Spread(v@, s as int, e as int),
        JsxAttr::Boolean(n) => JsxAttrView::Boolean(n@),
        JsxAttr::Literal(n, v) => JsxAttrView::Literal(n@, v@),
        JsxAttr::Expression(n, v, s, e) => JsxAttrView::Expression(n@, v@, s as int, e as int),
    }
}

/// Attributes as plain values.
pub open spec fn attrs_view(v: Seq<JsxAttr>) -> Seq<JsxAttrView> {
    v.map_values(|a: JsxAttr| attr_view(a))
}

// ---------------------------------------------------------------------
// Scanning pieces
// ---------------------------------------------------------------------

/// Past the ASCII whitespace from `i`.
pub open spec fn ws_end(b: Seq<u8>, i: int) -> int
    decreases b.len() - i,
{
    if 0 <= i < b.len() && spec_is_ws(b[i]) {
        ws_end(b, i + 1)
    } else {
        i
    }
}

/// `ws_end` moves forward and stays within the bytes.
pub proof fn lemma_ws_end(b: Seq<u8>, i: int)
    ensures
        i <= ws_end(b, i),
        0 <= i <= b.len() ==> ws_end(b, i) <= b.len(),
    decreases b.len() - i,
{
    if 0 <= i < b.len() && spec_is_ws(b[i]) {
        lemma_ws_end(b, i + 1);
    }
}

fn skip_ws(bytes: &[u8], i0: usize) -> (r: usize)
    ensures
        r == ws_end(bytes@, i0 as int),
{
    proof {
        lemma_ws_end(bytes@, i0 as int);
    }
    let mut i = i0;
    while i < bytes.len() && (bytes[i] == ' ' as u8 || bytes[i] == '\t' as u8 || bytes[i] == '\n' as u8
        || bytes[i] == 12 || bytes[i] == '\r' as u8)
        invariant
            i0 <= i,
            ws_end(bytes@, i as int) == ws_end(bytes@, i0 as int),
        decreases bytes@.len() - i,
    {
        i += 1;
    }
    i
}

/// Past the name-continue characters from `i`.
pub open spec fn name_run(b: Seq<u8>, i: int) -> int
    decreases left(b, i),
{
    if 0 <= i < b.len() && jsx_name_continue_at(b, i) {
        name_run(b, i + utf8_len(b[i]))
    } else {
        i
    }
}

/// `name_run` moves forward and stays within the bytes.
pub proof fn lemma_name_run(b: Seq<u8>, i: int)
    ensures
        i <= name_run(b, i),
        0 <= i <= b.len() ==> name_run(b, i) <= b.len(),
    decreases left(b, i),
{
    if 0 <= i < b.len() && jsx_name_continue_at(b, i) {
        lemma_name_run(b, i + utf8_len(b[i]));
    }
}

fn skip_name_run(bytes: &[u8], i0: usize) -> (r: usize)
    requires
        i0 <= bytes@.len(),
    ensures
        r == name_run(bytes@, i0 as int),
        i0 <= r <= bytes@.len(),
{
    proof {
        lemma_name_run(bytes@, i0 as int);
    }
    let mut i = i0;
    while i < bytes.len() && is_jsx_name_continue(bytes, i)
        invariant
            i0 <= i <= bytes@.len(),
            name_run(bytes@, i as int) == name_run(bytes@, i0 as int),
        decreases bytes@.len() - i,
    {
        i += char_len_utf8(bytes[i]);
    }
    i
}

/// Past the tag name from `i`: a name, then `.member` parts or one
/// `:namespace` part (no member after it), whitespace allowed around the
/// separators; a separator with no name after it is passed.
pub open spec fn tag_name_skip(b: Seq<u8>, i: int, saw_ns: bool) -> int
    decreases left(b, i),
{
    let e = name_run(b, i);
    let w = ws_end(b, e);
    if i < 0 || w >= b.len() {
        e
    } else if (b[w] == 58 || b[w] == 46) && !saw_ns {
        let m = ws_end(b, w + 1);
        proof {
            lemma_name_run(b, i);
            lemma_ws_end(b, e);
            lemma_ws_end(b, w + 1);
        }
        if m >= b.len() || !jsx_name_start_at(b, m) {
            m
        } else {
            tag_name_skip(b, m + utf8_len(b[m]), b[w] == 58)
        }
    } else {
        e
    }
}

/// Past an attribute name from `i`: name characters and `:`.
pub open spec fn attr_name_run(b: Seq<u8>, i: int) -> int
    decreases left(b, i),
{
    if 0 <= i < b.len() && b[i] == 58 {
        attr_name_run(b, i + 1)
    } else if 0 <= i < b.len() && jsx_name_continue_at(b, i) {
        attr_name_run(b, i + utf8_len(b[i]))
    } else {
        i
    }
}

/// `attr_name_run` moves forward and stays within the bytes.
pub proof fn lemma_attr_name_run(b: Seq<u8>, i: int)
    ensures
        i <= attr_name_run(b, i),
        0 <= i <= b.len() ==> attr_name_run(b, i) <= b.len(),
    decreases left(b, i),
{
    if 0 <= i < b.len() && b[i] == 58 {
        lemma_attr_name_run(b, i + 1);
    } else if 0 <= i < b.len() && jsx_name_continue_at(b, i) {
        lemma_attr_name_run(b, i + utf8_len(b[i]));
    }
}

/// The first `q` from `i`, or the end.
pub open spec fn quote_end(b: Seq<u8>, i: int, q: u8) -> int
    decreases b.len() - i,
{
    if 0 <= i < b.len() && b[i] != q {
        quote_end(b, i + 1, q)
    } else {
        i
    }
}

/// `quote_end` moves forward and stays within the bytes.
pub proof fn lemma_quote_end(b: Seq<u8>, i: int, q: u8)
    ensures
        i <= quote_end(b, i, q),
        0 <= i <= b.len() ==> quote_end(b, i, q) <= b.len(),
    decreases b.len() - i,
{
    if 0 <= i < b.len() && b[i] != q {
        lemma_quote_end(b, i + 1, q);
    }
}

/// Past the expression whose `{` is at `i`, or the end when it does not
/// close.
pub open spec fn expr_close(b: Seq<u8>, i: int) -> int {
    match expr_end(b.subrange(i, b.len() as int), false, no_prefix(), false, true, 0) {
        Some(n) => i + n,
        None => b.len() as int,
    }
}

/// `&tag[lo..hi]` can be taken: ends in order and at character boundaries.
pub open spec fn slice_ok(b: Seq<u8>, lo: int, hi: int) -> bool {
    0 <= lo <= hi <= b.len() && is_char_boundary(b, lo) && is_char_boundary(b, hi)
}

/// The characters of `b[lo..hi]`.
pub open spec fn chars_in(b: Seq<u8>, lo: int, hi: int) -> Seq<char> {
    decode_utf8(b.subrange(lo, hi))
}

/// The length of the UTF-8 encoding of the characters.
pub open spec fn enc_len(cs: Seq<char>) -> int {
    encode_utf8(cs).len() as int
}

/// `x` before what follows, unless that failed.
pub open spec fn prepend(x: JsxAttrView, o: Option<Seq<JsxAttrView>>) -> Option<Seq<JsxAttrView>> {
    match o {
        None => None,
        Some(t) => Some(seq![x] + t),
    }
}

/// `pre` before what follows, unless that failed.
pub open spec fn prepend_all(pre: Seq<JsxAttrView>, o: Option<Seq<JsxAttrView>>) -> Option<
    Seq<JsxAttrView>,
> {
    match o {
        None => None,
        Some(t) => Some(pre + t),
    }
}

// ---------------------------------------------------------------------
// The attributes
// ---------------------------------------------------------------------

/// The attributes of the tag `b` from `i`; `None` when a slice of the tag
/// that the parse takes would not be at character boundaries, or would end
/// before it starts (an expression opening at the very end).
#[verifier::opaque]
pub open spec fn jsx_attrs_from(
    b: Seq<u8>,
    i: int,
    ccc: int,
    extra: int,
    dec: DecodeOracle,
) -> Option<Seq<JsxAttrView>>
    decreases left(b, i),
{
    let i1 = ws_end(b, i);
    if i < 0 || i1 >= b.len() {
        Some(Seq::empty())
    } else if b[i1] == 62 || (b[i1] == 47 && i1 + 1 < b.len() && b[i1 + 1] == 62) {
        Some(Seq::empty())
    } else if b[i1] == 123 {
        let end = expr_close(b, i1);
        let start = i1 + 1;
        let ve = if end > 0 {
            end - 1
        } else {
            0
        };
        proof {
            lemma_ws_end(b, i);
            lemma_expr_close(b, i1);
        }
        if !slice_ok(b, start, ve) {
            None
        } else {
            let raw = chars_in(b, start, ve);
            let value = trim_chars(raw);
            let vs = start + (enc_len(raw) - enc_len(raw.subrange(leading_ws(raw) as int, raw.len() as int)));
            prepend(
                JsxAttrView::Spread(value, vs, vs + enc_len(value)),
                jsx_attrs_from(b, end, ccc, extra, dec),
            )
        }
    } else {
        let ns = i1;
        let ne = attr_name_run(b, ns);
        proof {
            lemma_ws_end(b, i);
            lemma_attr_name_run(b, ns);
        }
        if ne == ns {
            jsx_attrs_from(b, ns + 1, ccc, extra, dec)
        } else if !slice_ok(b, ns, ne) {
            None
        } else {
            let name = chars_in(b, ns, ne);
            let j = ws_end(b, ne);
            proof {
                lemma_ws_end(b, ne);
            }
            if j < b.len() && b[j] == 61 {
                let k = ws_end(b, j + 1);
                proof {
                    lemma_ws_end(b, j + 1);
                }
                if k >= b.len() {
                    prepend(JsxAttrView::Boolean(name), jsx_attrs_from(b, k, ccc, extra, dec))
                } else if b[k] == 34 || b[k] == 39 {
                    let vs = k + 1;
                    let ve = quote_end(b, vs, b[k]);
                    let next = if ve < b.len() {
                        ve + 1
                    } else {
                        ve
                    };
                    proof {
                        lemma_quote_end(b, vs, b[k]);
                    }
                    if !slice_ok(b, vs, ve) {
                        None
                    } else {
                        prepend(
                            JsxAttrView::Literal(name, dec(attr_strip(chars_in(b, vs, ve)).0)),
                            jsx_attrs_from(b, next, ccc, extra, dec),
                        )
                    }
                } else if b[k] == 123 {
                    let end = expr_close(b, k);
                    let vs = k + 1;
                    let ve = if end > 0 {
                        end - 1
                    } else {
                        0
                    };
                    proof {
                        lemma_expr_close(b, k);
                    }
                    if !slice_ok(b, vs, ve) {
                        None
                    } else {
                        let value = chars_in(b, vs, ve);
                        let normalized = if has_eol_char(value) {
                            indent_fold(value, base_column(ccc), 2 + extra).0
                        } else {
                            value
                        };
                        prepend(
                            JsxAttrView::Expression(name, normalized, vs, ve),
                            jsx_attrs_from(b, end, ccc, extra, dec),
                        )
                    }
                } else {
                    prepend(JsxAttrView::Boolean(name), jsx_attrs_from(b, k, ccc, extra, dec))
                }
            } else {
                prepend(JsxAttrView::Boolean(name), jsx_attrs_from(b, j, ccc, extra, dec))
            }
        }
    }
}

/// An expression ends past its `{`, within the bytes, after a `}` when it
/// closes before the end.
pub proof fn lemma_expr_close(b: Seq<u8>, i: int)
    requires
        0 <= i < b.len(),
    ensures
        i < expr_close(b, i) <= b.len(),
        expr_close(b, i) < b.len() ==> expr_close(b, i) >= i + 2 && b[expr_close(b, i) - 1]
            == 125,
{
    crate::mdx::lemma_expression_end_closes(
        b.subrange(i, b.len() as int),
        false,
        no_prefix(),
        false,
        true,
        0,
    );
}

/// The bytes of the opening tag at the start of `t`.
pub open spec fn opening_tag_bytes(t: Seq<u8>) -> Seq<u8> {
    match opening_tag_close(t, 0) {
        Some(i) => t.subrange(0, i + 1),
        None => t,
    }
}

/// Where the attributes of the tag `b` start: past `<`, a `/`, whitespace
/// and the tag name.
pub open spec fn attrs_start(b: Seq<u8>) -> int {
    let i0 = if 1 < b.len() && b[1] == 47 {
        2
    } else {
        1
    };
    tag_name_skip(b, ws_end(b, i0), false)
}

/// The attributes of the JSX tag at the start of `t`.
pub open spec fn jsx_attrs_of(t: Seq<u8>, ccc: int, extra: int, dec: DecodeOracle) -> Option<
    Seq<JsxAttrView>,
> {
    let b = opening_tag_bytes(t);
    jsx_attrs_from(b, attrs_start(b), ccc, extra, dec)
}

// ---------------------------------------------------------------------
// Executable parse
// ---------------------------------------------------------------------

fn skip_tag_name(bytes: &[u8], i0: usize) -> (r: usize)
    requires
        i0 <= bytes@.len(),
    ensures
        r == tag_name_skip(bytes@, i0 as int, false),
        r <= bytes@.len(),
{
    let ghost b = bytes@;
    let len = bytes.len();
    let mut i = i0;
    let mut saw_ns = false;
    loop
        invariant
            b == bytes@,
            len == b.len(),
            i <= len,
            tag_name_skip(b, i as int, saw_ns) == tag_name_skip(b, i0 as int, false),
        decreases left(b, i as int),
    {
        let e = skip_name_run(bytes, i);
        proof {
            lemma_ws_end(b, e as int);
        }
        let w = skip_ws(bytes, e);
        if w >= len {
            return e;
        }
        if !((bytes[w] == ':' as u8 || bytes[w] == '.' as u8) && !saw_ns) {
            return e;
        }
        proof {
            lemma_ws_end(b, w + 1);
        }
        let m = skip_ws(bytes, w + 1);
        if m >= len || !is_jsx_name_start(bytes, m) {
            return m;
        }
        saw_ns = bytes[w] == ':' as u8;
        i = m + char_len_utf8(bytes[m]);
    }
}

fn skip_attr_name(bytes: &[u8], i0: usize) -> (r: usize)
    requires
        i0 <= bytes@.len(),
    ensures
        r == attr_name_run(bytes@, i0 as int),
        i0 <= r <= bytes@.len(),
{
    proof {
        lemma_attr_name_run(bytes@, i0 as int);
    }
    let mut i = i0;
    while i < bytes.len()
        invariant
            i0 <= i <= bytes@.len(),
            attr_name_run(bytes@, i as int) == attr_name_run(bytes@, i0 as int),
        decreases bytes@.len() - i,
    {
        if bytes[i] == ':' as u8 {
            i += 1;
        } else if is_jsx_name_continue(bytes, i) {
            i += char_len_utf8(bytes[i]);
        } else {
            return i;
        }
    }
    i
}

fn skip_to_quote(bytes: &[u8], i0: usize, q: u8) -> (r: usize)
    requires
        i0 <= bytes@.len(),
    ensures
        r == quote_end(bytes@, i0 as int, q),
        i0 <= r <= bytes@.len(),
{
    proof {
        lemma_quote_end(bytes@, i0 as int, q);
    }
    let mut i = i0;
    while i < bytes.len() && bytes[i] != q
        invariant
            i0 <= i <= bytes@.len(),
            quote_end(bytes@, i as int, q) == quote_end(bytes@, i0 as int, q),
        decreases bytes@.len() - i,
    {
        i += 1;
    }
    i
}

fn close_expression(bytes: &[u8], i: usize) -> (r: usize)
    requires
        i < bytes@.len(),
        addressable(bytes@),
    ensures
        r == expr_close(bytes@, i as int),
        i < r <= bytes@.len(),
{
    let rest = vstd::slice::slice_subrange(bytes, i, bytes.len());
    proof {
        lemma_expr_close(bytes@, i as int);
    }
    match scan_mdx_expression_end(rest, false) {
        Some(n) => i + n,
        None => bytes.len(),
    }
}

/// Whether a line ending occurs in `s`.
fn contains_eol(s: &str) -> (r: bool)
    ensures
        r == has_eol_char(s@),
{
    let mut seen = false;
    for c in it: s.chars()
        invariant
            it.seq() == s@,
            seen == has_eol_char(s@.subrange(0, it.index() as int)),
    {
        let ghost pre = s@.subrange(0, it.index() as int);
        let ghost next = s@.subrange(0, it.index() + 1);
        proof {
            assert(next.drop_last() =~= pre);
            assert(next[pre.len() as int] == c);
            if has_eol_char(pre) {
                let k = choose|k: int| 0 <= k < pre.len() && crate::continuation::is_eol_char(#[trigger] pre[k]);
                assert(next[k] == pre[k]);
            }
            if has_eol_char(next) {
                let k = choose|k: int| 0 <= k < next.len() && crate::continuation::is_eol_char(#[trigger] next[k]);
                if k < pre.len() {
                    assert(pre[k] == next[k]);
                }
            }
        }
        if c == '\n' || c == '\r' {
            seen = true;
        }
    }
    proof {
        assert(s@.subrange(0, s@.len() as int) =~= s@);
    }
    seen
}

/// Whether `b[lo..hi]` can be cut out of the tag: in order, inside it, and
/// at character boundaries.
pub fn slice_ok_exec(bytes: &[u8], lo: usize, hi: usize) -> (r: bool)
    requires
        valid_utf8(bytes@),
    ensures
        r == slice_ok(bytes@, lo as int, hi as int),
{
    if !(lo <= hi && hi <= bytes.len()) {
        return false;
    }
    proof {
        is_char_boundary_start_end_of_seq(bytes@);
        if lo < bytes@.len() {
            is_char_boundary_iff_not_is_continuation_byte(bytes@, lo as int);
        }
        if hi < bytes@.len() {
            is_char_boundary_iff_not_is_continuation_byte(bytes@, hi as int);
        }
    }
    let lo_ok = lo == bytes.len() || !(bytes[lo] >= 0x80 && bytes[lo] < 0xC0);
    let hi_ok = hi == bytes.len() || !(bytes[hi] >= 0x80 && bytes[hi] < 0xC0);
    lo_ok && hi_ok
}

/// The spread attribute whose `{` is at `i1`, and where the scan goes on.
fn spread_attr(tag: &str, bytes: &[u8], i: usize, i1: usize, Ghost(ccc): Ghost<int>, Ghost(extra): Ghost<int>, Ghost(dec): Ghost<DecodeOracle>) -> (r: Option<(JsxAttr, usize)>)
    requires
        bytes@ == tag.spec_bytes(),
        addressable(bytes@),
        i <= i1 < bytes@.len(),
        i1 == ws_end(bytes@, i as int),
        bytes@[i1 as int] == 123,
    ensures
        r is None ==> jsx_attrs_from(bytes@, i as int, ccc, extra, dec) is None,
        r matches Some((a, n)) ==> jsx_attrs_from(bytes@, i as int, ccc, extra, dec) == prepend(
            attr_view(a),
            jsx_attrs_from(bytes@, n as int, ccc, extra, dec),
        ) && i < n <= bytes@.len(),
{
    let ghost b = bytes@;
    proof {
        reveal(jsx_attrs_from);
        lemma_str_decodes(tag);
    }
    let end = close_expression(bytes, i1);
    let start = i1 + 1;
    let ve = end - 1;
    if !slice_ok_exec(bytes, start, ve) {
        return None;
    }
    let raw = str_range(tag, start, ve);
    let trimmed_start = str_trim_start(raw);
    proof {
        lemma_leading_ws(raw@);
    }
    let lead = raw.len() - trimmed_start.len();
    let value = str_trim(raw);
    let vs = start + lead;
    let vend = vs + value.len();
    Some((JsxAttr::Spread(str_to_string(value), vs, vend), end))
}

/// The attribute whose name starts at `ns` (not empty), and where the scan
/// goes on.
fn named_attr<F: Fn(&str) -> String>(
    tag: &str,
    bytes: &[u8],
    i: usize,
    ns: usize,
    ne: usize,
    container_content_col: usize,
    extra_strip_cols: usize,
    decode: &F,
    Ghost(dec): Ghost<DecodeOracle>,
) -> (r: Option<(JsxAttr, usize)>)
    requires
        bytes@ == tag.spec_bytes(),
        addressable(bytes@),
        i <= ns < ne <= bytes@.len(),
        ns == ws_end(bytes@, i as int),
        ne == attr_name_run(bytes@, ns as int),
        !(bytes@[ns as int] == 62 || (bytes@[ns as int] == 47 && ns + 1 < bytes@.len() && bytes@[ns
            + 1] == 62)),
        bytes@[ns as int] != 123,
        decoder_ok(decode, dec),
        container_content_col + extra_strip_cols + 8 <= usize::MAX,
    ensures
        r is None ==> jsx_attrs_from(bytes@, i as int, container_content_col as int, extra_strip_cols as int, dec) is None,
        r matches Some((a, n)) ==> jsx_attrs_from(bytes@, i as int, container_content_col as int, extra_strip_cols as int, dec)
            == prepend(
            attr_view(a),
            jsx_attrs_from(bytes@, n as int, container_content_col as int, extra_strip_cols as int, dec),
        ) && i < n <= bytes@.len(),
{
    let ghost b = bytes@;
    proof {
        reveal(jsx_attrs_from);
        lemma_str_decodes(tag);
    }
    let len = bytes.len();
    if !slice_ok_exec(bytes, ns, ne) {
        return None;
    }
    let name = str_to_string(str_range(tag, ns, ne));
    proof {
        lemma_ws_end(b, ne as int);
    }
    let j = skip_ws(bytes, ne);
    if !(j < len && bytes[j] == '=' as u8) {
        return Some((JsxAttr::Boolean(name), j));
    }
    proof {
        lemma_ws_end(b, j + 1);
    }
    let k = skip_ws(bytes, j + 1);
    if k >= len {
        return Some((JsxAttr::Boolean(name), k));
    }
    if bytes[k] == '"' as u8 || bytes[k] == '\'' as u8 {
        let q = bytes[k];
        let vs = k + 1;
        let ve = skip_to_quote(bytes, vs, q);
        if !slice_ok_exec(bytes, vs, ve) {
            return None;
        }
        let raw = str_range(tag, vs, ve);
        let stripped = strip_attr_continuation_indent(raw);
        let decoded = decode(stripped.as_str());
        let next = if ve < len {
            ve + 1
        } else {
            ve
        };
        return Some((JsxAttr::Literal(name, decoded), next));
    }
    if bytes[k] == '{' as u8 {
        let end = close_expression(bytes, k);
        let vs = k + 1;
        let ve = end - 1;
        if !slice_ok_exec(bytes, vs, ve) {
            return None;
        }
        let value = str_range(tag, vs, ve);
        let normalized = if contains_eol(value) {
            strip_expression_indent(value, container_content_col, extra_strip_cols)
        } else {
            str_to_string(value)
        };
        return Some((JsxAttr::Expression(name, normalized, vs, ve), end));
    }
    Some((JsxAttr::Boolean(name), k))
}

proof fn lemma_attrs_stop(b: Seq<u8>, i: int, ccc: int, extra: int, dec: DecodeOracle)
    requires
        0 <= i,
        ws_end(b, i) >= b.len() || b[ws_end(b, i)] == 62 || (b[ws_end(b, i)] == 47 && ws_end(b, i)
            + 1 < b.len() && b[ws_end(b, i) + 1] == 62),
    ensures
        jsx_attrs_from(b, i, ccc, extra, dec) == Some(Seq::<JsxAttrView>::empty()),
{
    reveal(jsx_attrs_from);
}

proof fn lemma_attrs_skip(b: Seq<u8>, i: int, ccc: int, extra: int, dec: DecodeOracle)
    requires
        0 <= i,
        ws_end(b, i) < b.len(),
        b[ws_end(b, i)] != 62,
        !(b[ws_end(b, i)] == 47 && ws_end(b, i) + 1 < b.len() && b[ws_end(b, i) + 1] == 62),
        b[ws_end(b, i)] != 123,
        attr_name_run(b, ws_end(b, i)) == ws_end(b, i),
    ensures
        jsx_attrs_from(b, i, ccc, extra, dec) == jsx_attrs_from(b, ws_end(b, i) + 1, ccc, extra, dec),
{
    reveal(jsx_attrs_from);
}

fn attrs_scan_start(bytes: &[u8]) -> (r: usize)
    ensures
        r == attrs_start(bytes@),
{
    let ghost b = bytes@;
    let len = bytes.len();
    let mut i: usize = 1;
    if i < len && bytes[i] == '/' as u8 {
        i += 1;
    }
    let i0 = i;
    proof {
        lemma_ws_end(b, i0 as int);
    }
    let i1 = if i0 <= len {
        skip_ws(bytes, i0)
    } else {
        i0
    };
    if i1 <= len {
        skip_tag_name(bytes, i1)
    } else {
        proof {
            lemma_name_run(b, i1 as int);
            lemma_ws_end(b, i1 as int);
        }
        i1
    }
}

fn collect_attrs<F: Fn(&str) -> String>(
    tag: &str,
    bytes: &[u8],
    st: usize,
    container_content_col: usize,
    extra_strip_cols: usize,
    decode: &F,
    Ghost(dec): Ghost<DecodeOracle>,
) -> (r: Option<Vec<JsxAttr>>)
    requires
        bytes@ == tag.spec_bytes(),
        addressable(bytes@),
        decoder_ok(decode, dec),
        container_content_col + extra_strip_cols + 8 <= usize::MAX,
    ensures
        match jsx_attrs_from(bytes@, st as int, container_content_col as int, extra_strip_cols as int, dec) {
            Some(t) => r matches Some(v) && attrs_view(v@) == t,
            None => r is None,
        },
{
    let ghost b = bytes@;
    let ghost ccc = container_content_col as int;
    let ghost extra = extra_strip_cols as int;
    let ghost whole = jsx_attrs_from(b, st as int, ccc, extra, dec);
    let len = bytes.len();
    let mut attrs: Vec<JsxAttr> = Vec::new();
    let mut i = st;
    proof {
        assert(attrs_view(attrs@) =~= Seq::<JsxAttrView>::empty());
        match jsx_attrs_from(b, i as int, ccc, extra, dec) {
            Some(t) => {
                assert(attrs_view(attrs@) + t =~= t);
            },
            None => {},
        }
    }
    loop
        invariant
            b == bytes@,
            b == tag.spec_bytes(),
            len == b.len(),
            addressable(b),
            decoder_ok(decode, dec),
            ccc == container_content_col,
            extra == extra_strip_cols,
            container_content_col + extra_strip_cols + 8 <= usize::MAX,
            whole == jsx_attrs_from(b, st as int, ccc, extra, dec),
            prepend_all(attrs_view(attrs@), jsx_attrs_from(b, i as int, ccc, extra, dec)) == whole,
        decreases left(b, i as int),
    {
        proof {
            lemma_ws_end(b, i as int);
        }
        let i1 = if i <= len {
            skip_ws(bytes, i)
        } else {
            i
        };
        if i1 >= len || bytes[i1] == '>' as u8 || (bytes[i1] == '/' as u8 && i1 + 1 < len
            && bytes[i1 + 1] == '>' as u8) {
            proof {
                lemma_attrs_stop(b, i as int, ccc, extra, dec);
                assert(attrs_view(attrs@) + Seq::<JsxAttrView>::empty() =~= attrs_view(attrs@));
            }
            return Some(attrs);
        }
        let step = if bytes[i1] == '{' as u8 {
            spread_attr(tag, bytes, i, i1, Ghost(ccc), Ghost(extra), Ghost(dec))
        } else {
            let ne = skip_attr_name(bytes, i1);
            if ne == i1 {
                proof {
                    lemma_attrs_skip(b, i as int, ccc, extra, dec);
                }
                i = i1 + 1;
                continue;
            }
            named_attr(
                tag,
                bytes,
                i,
                i1,
                ne,
                container_content_col,
                extra_strip_cols,
                decode,
                Ghost(dec),
            )
        };
        let (attr, next) = match step {
            Some(an) => an,
            None => {
                return None;
            },
        };
        let ghost pre = attrs_view(attrs@);
        attrs.push(attr);
        proof {
            assert(attrs_view(attrs@) =~= pre.push(attr_view(attr)));
            match jsx_attrs_from(b, next as int, ccc, extra, dec) {
                Some(t) => {
                    assert(pre + (seq![attr_view(attr)] + t) =~= pre.push(attr_view(attr)) + t);
                },
                None => {},
            }
        }
        i = next;
    }
}

/// The attributes of the JSX opening tag at the start of `text`: spreads,
/// boolean attributes, string literals (continuation indentation dropped,
/// character references decoded by `decode`) and expressions
/// (continuation lines dedented as `strip_expression_indent` does for a
/// container whose content starts at `container_content_col`). `None` when
/// a slice of the tag that the parse takes does not fall on character
/// boundaries, or an expression opens at the tag's very end.
pub fn try_parse_jsx_attrs<F: Fn(&str) -> String>(
    text: &str,
    container_content_col: usize,
    extra_strip_cols: usize,
    decode: &F,
    Ghost(dec): Ghost<DecodeOracle>,
) -> (r: Option<Vec<JsxAttr>>)
    requires
        addressable(text.spec_bytes()),
        decoder_ok(decode, dec),
        container_content_col + extra_strip_cols + 8 <= usize::MAX,
    ensures
        match jsx_attrs_of(text.spec_bytes(), container_content_col as int, extra_strip_cols as int, dec) {
            Some(t) => r matches Some(v) && attrs_view(v@) == t,
            None => r is None,
        },
{
    let tag = extract_opening_tag(text);
    let bytes = tag.as_bytes();
    proof {
        assert(bytes@ == opening_tag_bytes(text.spec_bytes()));
    }
    let st = attrs_scan_start(bytes);
    collect_attrs(tag, bytes, st, container_content_col, extra_strip_cols, decode, Ghost(dec))
}

/// The attributes of the JSX opening tag at the start of `text`, on a tag
/// that `try_parse_jsx_attrs` accepts.
pub fn parse_jsx_attrs<F: Fn(&str) -> String>(
    text: &str,
    container_content_col: usize,
    extra_strip_cols: usize,
    decode: &F,
    Ghost(dec): Ghost<DecodeOracle>,
) -> (r: Vec<JsxAttr>)
    requires
        addressable(text.spec_bytes()),
        decoder_ok(decode, dec),
        container_content_col + extra_strip_cols + 8 <= usize::MAX,
        jsx_attrs_of(text.spec_bytes(), container_content_col as int, extra_strip_cols as int, dec) is Some,
    ensures
        jsx_attrs_of(text.spec_bytes(), container_content_col as int, extra_strip_cols as int, dec)
            == Some(attrs_view(r@)),
{
    match try_parse_jsx_attrs(text, container_content_col, extra_strip_cols, decode, Ghost(dec)) {
        Some(v) => v,
        None => Vec::new(),
    }
}

/// Keeps a string as written.
pub fn keep_verbatim(s: &str) -> (r: String)
    ensures
        r@ == s@,
{
    str_to_string(s)
}

/// The decoder that changes nothing.
pub open spec fn verbatim() -> DecodeOracle {
    |s: Seq<char>| s
}

/// `try_parse_jsx_attrs` with string values kept as written (no character
/// reference decoded).
pub fn try_parse_jsx_attrs_verbatim(text: &str, container_content_col: usize, extra_strip_cols: usize) -> (r:
    Option<Vec<JsxAttr>>)
    requires
        addressable(text.spec_bytes()),
        container_content_col + extra_strip_cols + 8 <= usize::MAX,
    ensures
        match jsx_attrs_of(text.spec_bytes(), container_content_col as int, extra_strip_cols as int, verbatim()) {
            Some(t) => r matches Some(v) && attrs_view(v@) == t,
            None => r is None,
        },
{
    try_parse_jsx_attrs(text, container_content_col, extra_strip_cols, &keep_verbatim, Ghost(verbatim()))
}

/// `parse_jsx_attrs` with string values kept as written (no character
/// reference decoded).
pub fn parse_jsx_attrs_verbatim(text: &str, container_content_col: usize, extra_strip_cols: usize) -> (r:
    Vec<JsxAttr>)
    requires
        addressable(text.spec_bytes()),
        container_content_col + extra_strip_cols + 8 <= usize::MAX,
        jsx_attrs_of(text.spec_bytes(), container_content_col as int, extra_strip_cols as int, verbatim()) is Some,
    ensures
        jsx_attrs_of(text.spec_bytes(), container_content_col as int, extra_strip_cols as int, verbatim())
            == Some(attrs_view(r@)),
{
    parse_jsx_attrs(text, container_content_col, extra_strip_cols, &keep_verbatim, Ghost(verbatim()))
}

} // verus!
