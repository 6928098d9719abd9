//! Byte scanners of the block and inline pass: directive names, labels and
//! attributes, HTML block starts, container prefixes, backtick runs, link
//! tails and heading attribute blocks.

use vstd::prelude::*;
use vstd::string::*;
use vstd::utf8::*;
use crate::ascii::{
    spec_is_alnum, spec_is_alpha, spec_is_digit, spec_is_eol, spec_is_blank, is_alnum, is_alpha,
    is_digit, is_eol, is_blank,
};
use crate::text::{str_from_utf8, str_first_char, lemma_str_decodes};
use crate::post_passes::{
    spec_is_email_local_char, is_email_local_char, spec_email_span, mailto_url, scan_email_autolink,
};

verus! {

// ---------------------------------------------------------------------
// Directive names
// ---------------------------------------------------------------------

pub fn is_directive_name_start_ascii(c: u8) -> (r: bool)
    ensures
        r == spec_is_alnum(c),
{
    is_alnum(c)
}

/// Alphanumeric, `-` or `_`.
pub open spec fn spec_is_directive_name_char_ascii(c: u8) -> bool {
    spec_is_alnum(c) || c == 45 || c == 95
}

pub fn is_directive_name_char_ascii(c: u8) -> (r: bool)
    ensures
        r == spec_is_directive_name_char_ascii(c),
{
    is_alnum(c) || c == '-' as u8 || c == '_' as u8
}

/// What `unicode_id_start::is_id_start` answers: the Unicode `ID_Start`
/// property.
pub uninterp spec fn id_start(c: char) -> bool;

/// What `unicode_id_start::is_id_continue` answers: the Unicode
/// `ID_Continue` property.
pub uninterp spec fn id_continue(c: char) -> bool;

/// `unicode_id_start::is_id_start`.
#[verifier::external_body]
pub fn is_id_start(c: char) -> (r: bool)
    ensures
        r == id_start(c),
{
    unicode_id_start::is_id_start(c)
}

/// `unicode_id_start::is_id_continue`.
#[verifier::external_body]
pub fn is_id_continue(c: char) -> (r: bool)
    ensures
        r == id_continue(c),
{
    unicode_id_start::is_id_continue(c)
}

/// The length of the UTF-8 encoding whose first byte is `b`.
pub open spec fn utf8_width(b: u8) -> int {
    if b < 0x80 {
        1
    } else if 0xC0 <= b <= 0xDF {
        2
    } else if 0xE0 <= b <= 0xEF {
        3
    } else {
        4
    }
}

/// The width of the first character of valid UTF-8 is the width its first
/// byte announces.
pub proof fn lemma_first_scalar_width(bytes: Seq<u8>)
    requires
        valid_utf8(bytes),
        bytes.len() > 0,
    ensures
        length_of_first_scalar(bytes) == utf8_width(bytes[0]),
        length_of_first_scalar(bytes) <= bytes.len(),
        decode_utf8(bytes).len() > 0,
        decode_utf8(bytes)[0] == decode_first_scalar(bytes) as char,
{
}

/// A non-ASCII name character at `ix`: the rest of the bytes must decode,
/// and the first character must pass `pred`. Its width, or 0.
pub open spec fn unicode_name_char(b: Seq<u8>, ix: int, start: bool) -> int {
    let rest = b.subrange(ix, b.len() as int);
    if valid_utf8(rest) && rest.len() > 0 && (if start {
        id_start(decode_utf8(rest)[0])
    } else {
        id_continue(decode_utf8(rest)[0])
    }) {
        utf8_width(b[ix])
    } else {
        0
    }
}

/// Width of the directive-name character at `ix`, or 0 if there is none.
pub open spec fn name_char_width(b: Seq<u8>, ix: int) -> int {
    if ix < 0 || ix >= b.len() {
        0
    } else if b[ix] < 0x80 {
        if spec_is_directive_name_char_ascii(b[ix]) {
            1
        } else {
            0
        }
    } else {
        unicode_name_char(b, ix, false)
    }
}

/// Width of the directive-name start character at 0, or 0 if there is none.
pub open spec fn name_start_width(b: Seq<u8>) -> int {
    if b.len() == 0 {
        0
    } else if b[0] < 0x80 {
        if spec_is_alnum(b[0]) {
            1
        } else {
            0
        }
    } else {
        unicode_name_char(b, 0, true)
    }
}

fn unicode_name_char_exec(bytes: &[u8], ix: usize, start: bool) -> (r: usize)
    requires
        ix < bytes@.len(),
    ensures
        r == unicode_name_char(bytes@, ix as int, start),
        r <= bytes@.len() - ix,
{
    let rest = vstd::slice::slice_subrange(bytes, ix, bytes.len());
    match str_from_utf8(rest) {
        None => 0,
        Some(s) => {
            proof {
                lemma_str_decodes(s);
                lemma_first_scalar_width(rest@);
            }
            match str_first_char(s) {
                None => 0,
                Some(ch) => {
                    let ok = if start {
                        is_id_start(ch)
                    } else {
                        is_id_continue(ch)
                    };
                    if ok {
                        let b = bytes[ix];
                        if b < 0x80 {
                            1
                        } else if b >= 0xC0 && b <= 0xDF {
                            2
                        } else if b >= 0xE0 && b <= 0xEF {
                            3
                        } else {
                            4
                        }
                    } else {
                        0
                    }
                },
            }
        },
    }
}

/// True when the char at `ix` is a valid directive-name character: ASCII
/// alphanumeric, `-` or `_`, or a non-ASCII `ID_Continue` character (whose
/// whole remaining input must be valid UTF-8). Returns its width.
pub fn scan_directive_name_char(bytes: &[u8], ix: usize) -> (r: Option<usize>)
    ensures
        r matches Some(n) ==> n == name_char_width(bytes@, ix as int) && n > 0,
        r is None ==> name_char_width(bytes@, ix as int) == 0,
        r matches Some(n) ==> ix + n <= bytes@.len(),
{
    if ix >= bytes.len() {
        return None;
    }
    let b = bytes[ix];
    if b < 0x80 {
        return if is_directive_name_char_ascii(b) {
            Some(1)
        } else {
            None
        };
    }
    let n = unicode_name_char_exec(bytes, ix, false);
    if n == 0 {
        None
    } else {
        Some(n)
    }
}

/// The directive-name start character: ASCII alphanumeric or a non-ASCII
/// `ID_Start` character. Returns its width.
pub fn scan_directive_name_start(bytes: &[u8]) -> (r: Option<usize>)
    ensures
        r matches Some(n) ==> n == name_start_width(bytes@) && n > 0 && n <= bytes@.len(),
        r is None ==> name_start_width(bytes@) == 0,
{
    if bytes.len() == 0 {
        return None;
    }
    let b = bytes[0];
    if b < 0x80 {
        return if is_directive_name_start_ascii(b) {
            Some(1)
        } else {
            None
        };
    }
    let n = unicode_name_char_exec(bytes, 0, true);
    if n == 0 {
        None
    } else {
        Some(n)
    }
}

/// End of the run of directive-name characters that starts at `i`.
pub open spec fn name_run_end(b: Seq<u8>, i: int) -> int
    decreases b.len() - i,
{
    let n = name_char_width(b, i);
    if 0 <= i && n > 0 && i + n <= b.len() {
        name_run_end(b, i + n)
    } else {
        i
    }
}

/// A directive name at the start of `b`: its length.
pub open spec fn spec_directive_name_len(b: Seq<u8>) -> Option<int> {
    let first = name_start_width(b);
    let end = name_run_end(b, first);
    if first == 0 || first > b.len() {
        None
    } else if b[end - 1] == 45 || b[end - 1] == 95 {
        None
    } else {
        Some(end)
    }
}

proof fn lemma_name_run_end(b: Seq<u8>, i: int)
    requires
        0 <= i <= b.len(),
    ensures
        i <= name_run_end(b, i) <= b.len(),
    decreases b.len() - i,
{
    let n = name_char_width(b, i);
    if n > 0 && i + n <= b.len() {
        lemma_name_run_end(b, i + n);
    }
}

/// A directive name (remark-directive): a start character, then name
/// characters, not ending in `-` or `_`. Returns `(0, length)`.
pub fn scan_directive_name(bytes: &[u8]) -> (r: Option<(usize, usize)>)
    ensures
        match spec_directive_name_len(bytes@) {
            None => r is None,
            Some(n) => r == Some((0usize, n as usize)),
        },
{
    let first = match scan_directive_name_start(bytes) {
        Some(n) => n,
        None => {
            return None;
        },
    };
    let mut len = first;
    let blen = bytes.len();
    proof {
        lemma_name_run_end(bytes@, first as int);
    }
    loop
        invariant
            blen == bytes@.len(),
            first <= len <= bytes@.len(),
            name_run_end(bytes@, len as int) == name_run_end(bytes@, first as int),
        ensures
            first <= len <= bytes@.len(),
            name_run_end(bytes@, len as int) == name_run_end(bytes@, first as int),
            name_run_end(bytes@, len as int) == len,
        decreases bytes@.len() - len,
    {
        match scan_directive_name_char(bytes, len) {
            Some(n) => {
                len = len + n;
            },
            None => {
                break;
            },
        }
    }
    let last = bytes[len - 1];
    if last == '-' as u8 || last == '_' as u8 {
        return None;
    }
    Some((0, len))
}

// ---------------------------------------------------------------------
// Directive labels
// ---------------------------------------------------------------------

/// Scanning a label from `i` at bracket depth `depth`: the index of the
/// closing `]`, or -1 when a line ending or the end comes first.
pub open spec fn label_close(b: Seq<u8>, i: int, depth: int) -> int
    decreases b.len() - i,
{
    if i < 0 || i >= b.len() {
        -1
    } else if b[i] == 92 && i + 1 < b.len() {
        label_close(b, i + 2, depth)
    } else if b[i] == 91 {
        label_close(b, i + 1, depth + 1)
    } else if b[i] == 93 {
        if depth - 1 == 0 {
            i
        } else {
            label_close(b, i + 1, depth - 1)
        }
    } else if spec_is_eol(b[i]) {
        -1
    } else {
        label_close(b, i + 1, depth)
    }
}

/// A label's closing `]` lies within the input, at or after `i`.
pub proof fn lemma_label_close_bound(b: Seq<u8>, i: int, depth: int)
    ensures
        label_close(b, i, depth) < b.len(),
        label_close(b, i, depth) >= 0 ==> label_close(b, i, depth) >= i && b[label_close(
            b,
            i,
            depth,
        )] == 93,
    decreases b.len() - i,
{
    if 0 <= i < b.len() {
        if b[i] == 92 && i + 1 < b.len() {
            lemma_label_close_bound(b, i + 2, depth);
        } else if b[i] == 91 {
            lemma_label_close_bound(b, i + 1, depth + 1);
        } else if b[i] == 93 {
            if depth - 1 != 0 {
                lemma_label_close_bound(b, i + 1, depth - 1);
            }
        } else if !spec_is_eol(b[i]) {
            lemma_label_close_bound(b, i + 1, depth);
        }
    }
}

proof fn lemma_label_close(b: Seq<u8>, i: int, depth: int)
    requires
        0 <= i,
    ensures
        label_close(b, i, depth) == -1 || i <= label_close(b, i, depth) < b.len(),
    decreases b.len() - i,
{
    if 0 <= i < b.len() {
        if b[i] == 92 && i + 1 < b.len() {
            lemma_label_close(b, i + 2, depth);
        } else if b[i] == 91 {
            lemma_label_close(b, i + 1, depth + 1);
        } else if b[i] == 93 {
            if depth - 1 != 0 {
                lemma_label_close(b, i + 1, depth - 1);
            }
        } else if !spec_is_eol(b[i]) {
            lemma_label_close(b, i + 1, depth);
        }
    }
}

/// A directive label `[content]` at the start of `b`, with nested brackets
/// balanced, `\` escaping the next byte, and no line ending. Returns
/// `(label_start, label_end, total_consumed)` = `(1, close, close + 1)`.
pub fn scan_directive_label(bytes: &[u8]) -> (r: Option<(usize, usize, usize)>)
    ensures
        (bytes@.len() == 0 || bytes@[0] != 91 || label_close(bytes@, 1, 1) < 0) ==> r is None,
        (bytes@.len() > 0 && bytes@[0] == 91 && label_close(bytes@, 1, 1) >= 0) ==> r == Some(
            (1usize, label_close(bytes@, 1, 1) as usize, (label_close(bytes@, 1, 1) + 1) as usize),
        ),
{
    if bytes.len() == 0 || bytes[0] != '[' as u8 {
        return None;
    }
    let mut depth: usize = 1;
    let mut i: usize = 1;
    proof {
        lemma_label_close(bytes@, 1, 1);
    }
    while i < bytes.len()
        invariant
            1 <= i,
            1 <= depth <= i,
            bytes@.len() > 0,
            bytes@[0] == 91,
            label_close(bytes@, i as int, depth as int) == label_close(bytes@, 1, 1),
        decreases bytes@.len() - i,
    {
        let c = bytes[i];
        if c == '\\' as u8 && i + 1 < bytes.len() {
            i = i + 2;
            continue;
        }
        if c == '[' as u8 {
            depth = depth + 1;
        } else if c == ']' as u8 {
            depth = depth - 1;
            if depth == 0 {
                return Some((1, i, i + 1));
            }
        } else if c == '\n' as u8 || c == '\r' as u8 {
            return None;
        }
        i = i + 1;
    }
    None
}

// ---------------------------------------------------------------------
// HTML block starts
// ---------------------------------------------------------------------

/// Tab, line feed, vertical tab, form feed, carriage return or space.
pub open spec fn spec_is_html_ws(c: u8) -> bool {
    (9 <= c <= 13) || c == 32
}

pub open spec fn ascii_lower(c: u8) -> u8 {
    if 65 <= c <= 90 {
        (c + 32) as u8
    } else {
        c
    }
}

/// `b` starts with `tag`, ignoring ASCII case.
pub open spec fn starts_with_ignore_case(b: Seq<u8>, tag: Seq<u8>) -> bool {
    tag.len() <= b.len() && forall|k: int| 0 <= k < tag.len() ==> ascii_lower(#[trigger] b[k])
        == ascii_lower(tag[k])
}

/// `b` starts with `p`.
pub open spec fn starts_with(b: Seq<u8>, p: Seq<u8>) -> bool {
    p.len() <= b.len() && b.subrange(0, p.len() as int) == p
}

pub open spec fn tag_pre() -> Seq<u8> {
    seq![112u8, 114, 101]
}

pub open spec fn tag_style() -> Seq<u8> {
    seq![115u8, 116, 121, 108, 101]
}

pub open spec fn tag_script() -> Seq<u8> {
    seq![115u8, 99, 114, 105, 112, 116]
}

pub open spec fn tag_textarea() -> Seq<u8> {
    seq![116u8, 101, 120, 116, 97, 114, 101, 97]
}

/// The raw-text tag `tag` opens here: it is followed by the end, HTML
/// whitespace or `>`.
pub open spec fn raw_tag_opens(b: Seq<u8>, tag: Seq<u8>) -> bool {
    starts_with_ignore_case(b, tag) && (b.len() == tag.len() || spec_is_html_ws(b[tag.len() as int])
        || b[tag.len() as int] == 62)
}

/// The end tag of the HTML block that `b` (the bytes after `<`) starts:
/// the raw-text tags `pre`, `style`, `script`, `textarea` (tried while the
/// input is long enough), then `!--`, `?`, `![CDATA[`, then `!` + letter.
pub open spec fn spec_html_end_tag(b: Seq<u8>) -> Option<&'static str> {
    if b.len() >= 3 && raw_tag_opens(b, tag_pre()) {
        Some("</pre>")
    } else if b.len() >= 5 && raw_tag_opens(b, tag_style()) {
        Some("</style>")
    } else if b.len() >= 6 && raw_tag_opens(b, tag_script()) {
        Some("</script>")
    } else if b.len() >= 8 && raw_tag_opens(b, tag_textarea()) {
        Some("</textarea>")
    } else if starts_with(b, seq![33u8, 45, 45]) {
        Some("-->")
    } else if starts_with(b, seq![63u8]) {
        Some("?>")
    } else if starts_with(b, seq![33u8, 91, 67, 68, 65, 84, 65, 91]) {
        Some("]]>")
    } else if b.len() > 1 && b[0] == 33 && spec_is_alpha(b[1]) {
        Some(">")
    } else {
        None
    }
}

fn is_html_ws(c: u8) -> (r: bool)
    ensures
        r == spec_is_html_ws(c),
{
    (c >= 9 && c <= 13) || c == 32
}

fn to_ascii_lower(c: u8) -> (r: u8)
    ensures
        r == ascii_lower(c),
{
    if c >= 65 && c <= 90 {
        c + 32
    } else {
        c
    }
}

fn raw_tag_opens_exec(b: &[u8], tag: &[u8]) -> (r: bool)
    requires
        tag@.len() <= b@.len(),
    ensures
        r == raw_tag_opens(b@, tag@),
{
    let mut k: usize = 0;
    while k < tag.len()
        invariant
            tag@.len() <= b@.len(),
            0 <= k <= tag@.len(),
            forall|j: int| 0 <= j < k ==> ascii_lower(#[trigger] b@[j]) == ascii_lower(tag@[j]),
        decreases tag@.len() - k,
    {
        if to_ascii_lower(b[k]) != to_ascii_lower(tag[k]) {
            return false;
        }
        k = k + 1;
    }
    if b.len() == tag.len() {
        return true;
    }
    let s = b[tag.len()];
    is_html_ws(s) || s == '>' as u8
}

fn starts_with_exec(b: &[u8], p: &[u8]) -> (r: bool)
    ensures
        r == starts_with(b@, p@),
{
    if b.len() < p.len() {
        return false;
    }
    let mut k: usize = 0;
    while k < p.len()
        invariant
            p@.len() <= b@.len(),
            0 <= k <= p@.len(),
            forall|j: int| 0 <= j < k ==> b@[j] == p@[j],
        decreases p@.len() - k,
    {
        if b[k] != p[k] {
            proof {
                assert(b@.subrange(0, p@.len() as int)[k as int] != p@[k as int]);
            }
            return false;
        }
        k = k + 1;
    }
    proof {
        assert(b@.subrange(0, p@.len() as int) =~= p@);
    }
    true
}

/// The end tag of the HTML block (types 1 to 5) that `text_bytes` starts;
/// `text_bytes` is what follows a `<`.
pub fn get_html_end_tag(text_bytes: &[u8]) -> (r: Option<&'static str>)
    ensures
        r == spec_html_end_tag(text_bytes@),
{
    let pre: [u8; 3] = ['p' as u8, 'r' as u8, 'e' as u8];
    let style: [u8; 5] = ['s' as u8, 't' as u8, 'y' as u8, 'l' as u8, 'e' as u8];
    let script: [u8; 6] = ['s' as u8, 'c' as u8, 'r' as u8, 'i' as u8, 'p' as u8, 't' as u8];
    let textarea: [u8; 8] = [
        't' as u8,
        'e' as u8,
        'x' as u8,
        't' as u8,
        'a' as u8,
        'r' as u8,
        'e' as u8,
        'a' as u8,
    ];
    let comment: [u8; 3] = ['!' as u8, '-' as u8, '-' as u8];
    let pi: [u8; 1] = ['?' as u8];
    let cdata: [u8; 8] = [
        '!' as u8,
        '[' as u8,
        'C' as u8,
        'D' as u8,
        'A' as u8,
        'T' as u8,
        'A' as u8,
        '[' as u8,
    ];
    proof {
        assert(pre@ == tag_pre());
        assert(style@ == tag_style());
        assert(script@ == tag_script());
        assert(textarea@ == tag_textarea());
        assert(comment@ == seq![33u8, 45, 45]);
        assert(pi@ == seq![63u8]);
        assert(cdata@ == seq![33u8, 91, 67, 68, 65, 84, 65, 91]);
    }
    let n = text_bytes.len();
    // The raw-text tags are tried in increasing length while they fit.
    if n >= 3 {
        if raw_tag_opens_exec(text_bytes, pre.as_slice()) {
            return Some("</pre>");
        }
        if n >= 5 {
            if raw_tag_opens_exec(text_bytes, style.as_slice()) {
                return Some("</style>");
            }
            if n >= 6 {
                if raw_tag_opens_exec(text_bytes, script.as_slice()) {
                    return Some("</script>");
                }
                if n >= 8 {
                    if raw_tag_opens_exec(text_bytes, textarea.as_slice()) {
                        return Some("</textarea>");
                    }
                }
            }
        }
    }
    if starts_with_exec(text_bytes, comment.as_slice()) {
        return Some("-->");
    }
    if starts_with_exec(text_bytes, pi.as_slice()) {
        return Some("?>");
    }
    if starts_with_exec(text_bytes, cdata.as_slice()) {
        return Some("]]>");
    }
    if n > 1 && text_bytes[0] == '!' as u8 && is_alpha(text_bytes[1]) {
        Some(">")
    } else {
        None
    }
}

// ---------------------------------------------------------------------
// Link tails `(URL "title")`
// ---------------------------------------------------------------------

/// From `k` at paren depth `depth`: the index of the `)` that closes the
/// link tail, or -1 when a line ending or the end of input comes first.
/// `\` skips the byte after it.
pub open spec fn tail_rparen(b: Seq<u8>, k: int, depth: int) -> int
    decreases b.len() - k,
{
    if k < 0 || k >= b.len() || spec_is_eol(b[k]) {
        -1
    } else if b[k] == 92 && k + 1 < b.len() {
        tail_rparen(b, k + 2, depth)
    } else if b[k] == 40 {
        tail_rparen(b, k + 1, depth + 1)
    } else if b[k] == 41 {
        if depth - 1 == 0 {
            k
        } else {
            tail_rparen(b, k + 1, depth - 1)
        }
    } else {
        tail_rparen(b, k + 1, depth)
    }
}

/// First index in `[p, r)` that is not a space or tab, or `r`.
pub open spec fn skip_blanks(b: Seq<u8>, p: int, r: int) -> int
    decreases r - p,
{
    if p < r && spec_is_blank(b[p]) {
        skip_blanks(b, p + 1, r)
    } else {
        p
    }
}

/// An `<...>` destination from `p` (just past `<`), bounded by `r`: the
/// index past its `>`, or -1 when `<`, a line ending or `r` comes first.
pub open spec fn angle_url_end(b: Seq<u8>, p: int, r: int) -> int
    decreases r - p,
{
    if p >= r {
        -1
    } else if b[p] == 92 && p + 1 < r {
        angle_url_end(b, p + 2, r)
    } else if b[p] == 62 {
        p + 1
    } else if b[p] == 60 || spec_is_eol(b[p]) {
        -1
    } else {
        angle_url_end(b, p + 1, r)
    }
}

/// A plain destination from `p` at paren depth `depth`, bounded by `r`: its
/// end (an unmatched `)`, a space or tab, or `r`), or -1 on an ASCII
/// control character.
pub open spec fn plain_url_end(b: Seq<u8>, p: int, r: int, depth: int) -> int
    decreases r - p,
{
    if p >= r {
        p
    } else if b[p] == 92 && p + 1 < r {
        plain_url_end(b, p + 2, r, depth)
    } else if b[p] == 40 {
        plain_url_end(b, p + 1, r, depth + 1)
    } else if b[p] == 41 {
        if depth == 0 {
            p
        } else {
            plain_url_end(b, p + 1, r, depth - 1)
        }
    } else if spec_is_blank(b[p]) {
        p
    } else if b[p] < 32 || b[p] == 127 {
        -1
    } else {
        plain_url_end(b, p + 1, r, depth)
    }
}

/// From `r0` inside a title opened by `open`, bounded by `rparen`: the
/// index of the closing byte, or -1 when it is missing or when a paren
/// title holds a `(`.
pub open spec fn title_close(b: Seq<u8>, r0: int, rparen: int, open: u8, close: u8) -> int
    decreases rparen - r0,
{
    if r0 >= rparen {
        -1
    } else if b[r0] == 92 && r0 + 1 < rparen {
        title_close(b, r0 + 2, rparen, open, close)
    } else if open == 40 && b[r0] == 40 {
        -1
    } else if b[r0] == close {
        r0
    } else {
        title_close(b, r0 + 1, rparen, open, close)
    }
}

/// From `m`, bounded by `r`: the index of the next unescaped `q`, or -1.
pub open spec fn quote_close(b: Seq<u8>, m: int, r: int, q: u8) -> int
    decreases r - m,
{
    if m >= r {
        -1
    } else if b[m] == 92 && m + 1 < r {
        quote_close(b, m + 2, r, q)
    } else if b[m] == q {
        m
    } else {
        quote_close(b, m + 1, r, q)
    }
}

/// Every `"` or `'` from `k` to `r` is closed, except possibly one that does
/// not start before `pos`.
pub open spec fn quotes_ok(b: Seq<u8>, k: int, r: int, pos: int) -> bool
    decreases r - k,
{
    if k >= r {
        true
    } else if b[k] == 92 && k + 1 < r {
        quotes_ok(b, k + 2, r, pos)
    } else if b[k] == 34 || b[k] == 39 {
        let m = quote_close(b, k + 1, r, b[k]);
        proof {
            lemma_quote_close(b, k + 1, r, b[k]);
        }
        if m < 0 {
            if pos > k {
                false
            } else {
                quotes_ok(b, k + 1, r, pos)
            }
        } else {
            quotes_ok(b, m + 1, r, pos)
        }
    } else {
        quotes_ok(b, k + 1, r, pos)
    }
}

/// What follows the destination: optional blanks, then either `)` or one
/// whole title and blanks before `)`.
pub open spec fn after_url_ok(b: Seq<u8>, url_end: int, rparen: int) -> bool {
    let q = skip_blanks(b, url_end, rparen);
    if q == rparen {
        true
    } else {
        let open = b[q];
        let close: u8 = if open == 34 {
            34
        } else if open == 39 {
            39
        } else {
            41
        };
        let t = title_close(b, q + 1, rparen, open, close);
        (open == 34 || open == 39 || open == 40) && t >= 0 && skip_blanks(b, t + 1, rparen)
            == rparen
    }
}

/// The end of the destination of the tail `(` at `lparen` closed by
/// `rparen`, or -1 when the destination is malformed.
pub open spec fn spec_tail_url_end(b: Seq<u8>, lparen: int, rparen: int) -> int {
    let p = skip_blanks(b, lparen + 1, rparen);
    if p < rparen && b[p] == 60 {
        angle_url_end(b, p + 1, rparen)
    } else {
        plain_url_end(b, p, rparen, 0)
    }
}

/// The link tail opened at `lparen` closes on its line with a well-formed
/// destination and title, `pos` lies before the end of the destination,
/// and quotes before `pos` are closed.
pub open spec fn spec_link_tail_well_formed(b: Seq<u8>, lparen: int, pos: int) -> bool {
    let rparen = tail_rparen(b, lparen + 1, 1);
    let url_end = spec_tail_url_end(b, lparen, rparen);
    &&& rparen >= 0
    &&& url_end >= 0
    &&& pos < url_end
    &&& after_url_ok(b, url_end, rparen)
    &&& quotes_ok(b, lparen + 1, rparen, pos)
}

proof fn lemma_tail_rparen(b: Seq<u8>, k: int, depth: int)
    requires
        0 <= k,
    ensures
        tail_rparen(b, k, depth) == -1 || k <= tail_rparen(b, k, depth) < b.len(),
    decreases b.len() - k,
{
    if 0 <= k < b.len() && !spec_is_eol(b[k]) {
        if b[k] == 92 && k + 1 < b.len() {
            lemma_tail_rparen(b, k + 2, depth);
        } else if b[k] == 40 {
            lemma_tail_rparen(b, k + 1, depth + 1);
        } else if b[k] == 41 {
            if depth - 1 != 0 {
                lemma_tail_rparen(b, k + 1, depth - 1);
            }
        } else {
            lemma_tail_rparen(b, k + 1, depth);
        }
    }
}

proof fn lemma_skip_blanks(b: Seq<u8>, p: int, r: int)
    requires
        p <= r,
    ensures
        p <= skip_blanks(b, p, r) <= r,
    decreases r - p,
{
    if p < r && spec_is_blank(b[p]) {
        lemma_skip_blanks(b, p + 1, r);
    }
}

proof fn lemma_angle_url_end(b: Seq<u8>, p: int, r: int)
    ensures
        angle_url_end(b, p, r) == -1 || (p < angle_url_end(b, p, r) <= r),
    decreases r - p,
{
    if p < r {
        if b[p] == 92 && p + 1 < r {
            lemma_angle_url_end(b, p + 2, r);
        } else if !(b[p] == 62) && !(b[p] == 60 || spec_is_eol(b[p])) {
            lemma_angle_url_end(b, p + 1, r);
        }
    }
}

proof fn lemma_plain_url_end(b: Seq<u8>, p: int, r: int, depth: int)
    requires
        p <= r,
    ensures
        plain_url_end(b, p, r, depth) == -1 || (p <= plain_url_end(b, p, r, depth) <= r),
    decreases r - p,
{
    if p < r {
        if b[p] == 92 && p + 1 < r {
            lemma_plain_url_end(b, p + 2, r, depth);
        } else if b[p] == 40 {
            lemma_plain_url_end(b, p + 1, r, depth + 1);
        } else if b[p] == 41 {
            if depth != 0 {
                lemma_plain_url_end(b, p + 1, r, depth - 1);
            }
        } else if !spec_is_blank(b[p]) && !(b[p] < 32 || b[p] == 127) {
            lemma_plain_url_end(b, p + 1, r, depth);
        }
    }
}

proof fn lemma_title_close(b: Seq<u8>, r0: int, rparen: int, open: u8, close: u8)
    ensures
        title_close(b, r0, rparen, open, close) == -1 || (r0 <= title_close(
            b,
            r0,
            rparen,
            open,
            close,
        ) < rparen),
    decreases rparen - r0,
{
    if r0 < rparen {
        if b[r0] == 92 && r0 + 1 < rparen {
            lemma_title_close(b, r0 + 2, rparen, open, close);
        } else if !(open == 40 && b[r0] == 40) && b[r0] != close {
            lemma_title_close(b, r0 + 1, rparen, open, close);
        }
    }
}

pub proof fn lemma_quote_close(b: Seq<u8>, m: int, r: int, q: u8)
    ensures
        quote_close(b, m, r, q) == -1 || (m <= quote_close(b, m, r, q) < r),
    decreases r - m,
{
    if m < r {
        if b[m] == 92 && m + 1 < r {
            lemma_quote_close(b, m + 2, r, q);
        } else if b[m] != q {
            lemma_quote_close(b, m + 1, r, q);
        }
    }
}

fn skip_blanks_exec(bytes: &[u8], p0: usize, r: usize) -> (p: usize)
    requires
        p0 <= r <= bytes@.len(),
    ensures
        p == skip_blanks(bytes@, p0 as int, r as int),
        p0 <= p <= r,
{
    let mut p = p0;
    while p < r && is_blank(bytes[p])
        invariant
            p0 <= p <= r <= bytes@.len(),
            skip_blanks(bytes@, p as int, r as int) == skip_blanks(bytes@, p0 as int, r as int),
        decreases r - p,
    {
        p = p + 1;
    }
    p
}

fn quote_close_exec(bytes: &[u8], m0: usize, r: usize, q: u8) -> (m: Option<usize>)
    requires
        m0 <= r <= bytes@.len(),
    ensures
        match m {
            Some(i) => i == quote_close(bytes@, m0 as int, r as int, q) && m0 <= i < r,
            None => quote_close(bytes@, m0 as int, r as int, q) == -1,
        },
{
    let mut m = m0;
    proof {
        lemma_quote_close(bytes@, m0 as int, r as int, q);
    }
    while m < r
        invariant
            m0 <= m <= r + 1,
            r <= bytes@.len(),
            quote_close(bytes@, m as int, r as int, q) == quote_close(
                bytes@,
                m0 as int,
                r as int,
                q,
            ),
        decreases r + 1 - m,
    {
        if bytes[m] == '\\' as u8 && m + 1 < r {
            m = m + 2;
            continue;
        }
        if bytes[m] == q {
            return Some(m);
        }
        m = m + 1;
    }
    None
}

/// True if the link-URL parens at `lparen` close on the same line, the
/// destination and title are well-formed, `pos` lies before the end of the
/// destination (so not in the title or the blanks after the destination),
/// and no quote that starts before `pos` is left open.
pub fn link_tail_well_formed(bytes: &[u8], lparen: usize, pos: usize) -> (r: bool)
    requires
        lparen < bytes@.len(),
    ensures
        r == spec_link_tail_well_formed(bytes@, lparen as int, pos as int),
{
    let ghost b = bytes@;
    let n = bytes.len();
    // The `)` that closes the tail, on this line.
    let mut depth: usize = 1;
    let mut k = lparen + 1;
    let mut rparen: usize = 0;
    let mut found_rparen = false;
    proof {
        lemma_tail_rparen(b, lparen + 1, 1);
    }
    while k < n
        invariant_except_break
            1 <= depth <= k,
            !found_rparen,
            tail_rparen(b, k as int, depth as int) == tail_rparen(b, lparen + 1, 1),
        invariant
            n == bytes@.len(),
            b == bytes@,
            lparen + 1 <= k <= n + 1,
        ensures
            found_rparen ==> rparen == tail_rparen(b, lparen + 1, 1) && rparen < n,
            !found_rparen ==> tail_rparen(b, lparen + 1, 1) == -1,
        decreases n + 1 - k,
    {
        let c = bytes[k];
        if c == '\n' as u8 || c == '\r' as u8 {
            return false;
        }
        if c == '\\' as u8 && k + 1 < n {
            k = k + 2;
            continue;
        }
        if c == '(' as u8 {
            depth = depth + 1;
        } else if c == ')' as u8 {
            depth = depth - 1;
            if depth == 0 {
                rparen = k;
                found_rparen = true;
                break;
            }
        }
        k = k + 1;
    }
    if !found_rparen {
        return false;
    }
    // The destination.
    let mut p = skip_blanks_exec(bytes, lparen + 1, rparen);
    let url_end: usize;
    if p < rparen && bytes[p] == '<' as u8 {
        p = p + 1;
        let mut found = false;
        proof {
            lemma_angle_url_end(b, p as int, rparen as int);
        }
        while p < rparen
            invariant_except_break
                !found,
                angle_url_end(b, p as int, rparen as int) == angle_url_end(
                    b,
                    skip_blanks(b, lparen + 1, rparen as int) + 1,
                    rparen as int,
                ),
            invariant
                b == bytes@,
                rparen < bytes@.len(),
                p <= rparen + 1,
            ensures
                found ==> p == angle_url_end(
                    b,
                    skip_blanks(b, lparen + 1, rparen as int) + 1,
                    rparen as int,
                ) && p <= rparen,
                !found ==> angle_url_end(b, skip_blanks(b, lparen + 1, rparen as int) + 1, rparen as int)
                    == -1,
            decreases rparen + 1 - p,
        {
            let c = bytes[p];
            if c == '\\' as u8 && p + 1 < rparen {
                p = p + 2;
            } else if c == '>' as u8 {
                found = true;
                p = p + 1;
                break;
            } else if c == '<' as u8 || c == '\n' as u8 || c == '\r' as u8 {
                break;
            } else {
                p = p + 1;
            }
        }
        if !found {
            return false;
        }
        url_end = p;
    } else {
        let ghost p0 = p;
        let mut depth_url: usize = 0;
        proof {
            lemma_plain_url_end(b, p as int, rparen as int, 0);
        }
        while p < rparen
            invariant
                b == bytes@,
                rparen < bytes@.len(),
                lparen < bytes@.len(),
                rparen == tail_rparen(b, lparen + 1, 1),
                p0 == skip_blanks(b, lparen + 1, rparen as int),
                !(p0 < rparen && b[p0 as int] == 60),
                p0 <= p <= rparen,
                depth_url <= p,
                plain_url_end(b, p as int, rparen as int, depth_url as int) == plain_url_end(
                    b,
                    p0 as int,
                    rparen as int,
                    0,
                ),
            ensures
                p == plain_url_end(b, p0 as int, rparen as int, 0) && p <= rparen,
            decreases rparen + 1 - p,
        {
            let c = bytes[p];
            if c == '\\' as u8 && p + 1 < rparen {
                p = p + 2;
                continue;
            }
            if c == '(' as u8 {
                depth_url = depth_url + 1;
                p = p + 1;
            } else if c == ')' as u8 {
                if depth_url == 0 {
                    break;
                }
                depth_url = depth_url - 1;
                p = p + 1;
            } else if c == ' ' as u8 || c == '\t' as u8 {
                break;
            } else if c < 0x20 || c == 0x7f {
                return false;
            } else {
                p = p + 1;
            }
        }
        url_end = p;
    }
    // `pos` must lie in the destination, and what follows it must be
    // blanks and at most one whole title.
    if pos >= url_end {
        return false;
    }
    {
        let q = skip_blanks_exec(bytes, url_end, rparen);
        if q != rparen {
            let title_open = bytes[q];
            let title_close_byte: u8 = if title_open == '"' as u8 {
                '"' as u8
            } else if title_open == '\'' as u8 {
                '\'' as u8
            } else if title_open == '(' as u8 {
                ')' as u8
            } else {
                return false;
            };
            let ghost open = title_open;
            let mut r = q + 1;
            let mut closed = false;
            proof {
                lemma_title_close(b, q + 1, rparen as int, open, title_close_byte);
            }
            while r < rparen
                invariant_except_break
                    !closed,
                    title_close(b, r as int, rparen as int, open, title_close_byte) == title_close(
                        b,
                        q + 1,
                        rparen as int,
                        open,
                        title_close_byte,
                    ),
                invariant
                    b == bytes@,
                    q < rparen < bytes@.len(),
                    q + 1 <= r <= rparen + 1,
                    open == title_open,
                    open == b[q as int],
                    open == 34 || open == 39 || open == 40,
                    title_close_byte == (if open == 34 {
                        34u8
                    } else if open == 39 {
                        39u8
                    } else {
                        41u8
                    }),
                    lparen < bytes@.len(),
                    rparen == tail_rparen(b, lparen + 1, 1),
                    url_end == spec_tail_url_end(b, lparen as int, rparen as int),
                    pos < url_end,
                    q == skip_blanks(b, url_end as int, rparen as int),
                ensures
                    closed ==> r == title_close(b, q + 1, rparen as int, open, title_close_byte)
                        && r < rparen,
                    !closed ==> title_close(b, q + 1, rparen as int, open, title_close_byte) == -1,
                decreases rparen + 1 - r,
            {
                if bytes[r] == '\\' as u8 && r + 1 < rparen {
                    r = r + 2;
                    continue;
                }
                if title_open == '(' as u8 && bytes[r] == '(' as u8 {
                    return false;
                }
                if bytes[r] == title_close_byte {
                    closed = true;
                    break;
                }
                r = r + 1;
            }
            if !closed {
                return false;
            }
            let s = skip_blanks_exec(bytes, r + 1, rparen);
            if s != rparen {
                return false;
            }
        }
    }
    // Quotes between the parens must close, unless one opens at or after
    // `pos`.

    let mut k = lparen + 1;
    proof {
        assert(spec_link_tail_well_formed(b, lparen as int, pos as int) == quotes_ok(
            b,
            lparen + 1,
            rparen as int,
            pos as int,
        ));
    }
    while k < rparen
        invariant
            b == bytes@,
            rparen < bytes@.len(),
            spec_link_tail_well_formed(b, lparen as int, pos as int) == quotes_ok(
                b,
                lparen + 1,
                rparen as int,
                pos as int,
            ),
            lparen + 1 <= k <= rparen + 1,
            quotes_ok(b, k as int, rparen as int, pos as int) == quotes_ok(
                b,
                lparen + 1,
                rparen as int,
                pos as int,
            ),
        decreases rparen + 1 - k,
    {
        let c = bytes[k];
        if c == '\\' as u8 && k + 1 < rparen {
            k = k + 2;
            continue;
        }
        if c == '"' as u8 || c == '\'' as u8 {
            let m = quote_close_exec(bytes, k + 1, rparen, c);
            match m {
                None => {
                    if pos > k {
                        return false;
                    }
                },
                Some(m) => {
                    k = m + 1;
                    continue;
                },
            }
        }
        k = k + 1;
    }
    true
}

// ---------------------------------------------------------------------
// Email autolinks from a local-part start
// ---------------------------------------------------------------------

/// The end of the run of email local-part bytes from `i`.
pub open spec fn local_run_end(b: Seq<u8>, i: int) -> int
    decreases b.len() - i,
{
    if 0 <= i < b.len() && spec_is_email_local_char(b[i]) {
        local_run_end(b, i + 1)
    } else {
        i
    }
}

/// The email autolink whose local part starts at `start` (a token boundary)
/// and whose span the backward scan from its `@` agrees on, starting no
/// earlier than `begin_text` and `paragraph_start`.
pub open spec fn spec_email_forward(
    b: Seq<u8>,
    start: int,
    begin_text: int,
    paragraph_start: int,
) -> Option<(int, int)> {
    let at = local_run_end(b, start);
    if (start > 0 && spec_is_email_local_char(b[start - 1])) || at >= b.len() || b[at] != 64 {
        None
    } else {
        match spec_email_span(b, at) {
            Some((st, e, retry)) => if retry || st != start || st < begin_text || st
                < paragraph_start {
                None
            } else {
                Some((st, e))
            },
            None => None,
        }
    }
}

/// Scans forward from a possible local-part start to the `@`, then takes the
/// email autolink there if it starts exactly at `start_ix`: its span and its
/// `mailto:` URL.
pub fn scan_email_forward_from_atext(
    bytes: &[u8],
    start_ix: usize,
    begin_text: usize,
    paragraph_start: usize,
) -> (r: Option<(usize, usize, String)>)
    requires
        start_ix <= bytes@.len(),
        bytes@.len() < i64::MAX,
    ensures
        match spec_email_forward(
            bytes@,
            start_ix as int,
            begin_text as int,
            paragraph_start as int,
        ) {
            Some((st, e)) => r matches Some((rs, re, url)) && rs == st && re == e && url@
                == mailto_url(bytes@, st, e),
            None => r is None,
        },
{
    if start_ix > 0 && is_email_local_char(bytes[start_ix - 1]) {
        return None;
    }
    let mut at_ix = start_ix;
    while at_ix < bytes.len() && is_email_local_char(bytes[at_ix])
        invariant
            start_ix <= at_ix <= bytes@.len(),
            local_run_end(bytes@, at_ix as int) == local_run_end(bytes@, start_ix as int),
        decreases bytes@.len() - at_ix,
    {
        at_ix += 1;
    }
    if at_ix >= bytes.len() || bytes[at_ix] != '@' as u8 {
        return None;
    }
    let (sc_start, sc_end, full_url, retry_needed) = match scan_email_autolink(bytes, at_ix) {
        Some(t) => t,
        None => {
            return None;
        },
    };
    if retry_needed || sc_start != start_ix {
        return None;
    }
    if sc_start < begin_text {
        return None;
    }
    if sc_start < paragraph_start {
        return None;
    }
    Some((sc_start, sc_end, full_url))
}

} // verus!
