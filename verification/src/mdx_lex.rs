//! The byte-level pieces of the MDX scanners: UTF-8 lead bytes, JSX name
//! characters, ECMAScript whitespace, and the skips over JavaScript string,
//! regular-expression and comment tokens.

use vstd::prelude::*;
use vstd::utf8::*;
use crate::ascii::{spec_is_alnum, spec_is_alpha, spec_is_ws, is_alnum, is_alpha, is_ws};
use crate::text::{str_from_utf8, str_first_char, lemma_str_decodes};
use crate::firstpass::{
    id_start, id_continue, is_id_start, is_id_continue, utf8_width, lemma_first_scalar_width,
};

verus! {

/// A slice never holds more than `isize::MAX` bytes, so positions a few
/// bytes past its end still fit in a `usize`.
pub open spec fn addressable(s: Seq<u8>) -> bool {
    s.len() <= isize::MAX
}

/// How much of `s` lies ahead of `ix`; it shrinks as a scan moves forward
/// and is 0 once the scan has run past the end.
pub open spec fn left(s: Seq<u8>, ix: int) -> int {
    if ix < 0 {
        s.len() + 1int
    } else if ix <= s.len() {
        s.len() + 1 - ix
    } else {
        0
    }
}

// ---------------------------------------------------------------------
// UTF-8 and characters
// ---------------------------------------------------------------------

/// The width that a UTF-8 lead byte announces; a continuation byte counts
/// as 1.
pub open spec fn utf8_len(b: u8) -> int {
    if b <= 0x7F {
        1
    } else if 0xC0 <= b <= 0xDF {
        2
    } else if 0xE0 <= b <= 0xEF {
        3
    } else if b >= 0xF0 {
        4
    } else {
        1
    }
}

pub fn char_len_utf8(b: u8) -> (r: usize)
    ensures
        r == utf8_len(b),
        1 <= r <= 4,
{
    if b <= 0x7F {
        1
    } else if b >= 0xC0 && b <= 0xDF {
        2
    } else if b >= 0xE0 && b <= 0xEF {
        3
    } else if b >= 0xF0 {
        4
    } else {
        1
    }
}

/// The first character of `s[ix..]`, when all of `s[ix..]` is valid UTF-8.
pub open spec fn char_at(s: Seq<u8>, ix: int) -> Option<char> {
    let rest = s.subrange(ix, s.len() as int);
    if valid_utf8(rest) && rest.len() > 0 {
        Some(decode_utf8(rest)[0])
    } else {
        None
    }
}

/// Valid UTF-8 starts with a character as wide as its lead byte says.
pub proof fn lemma_lead_width(rest: Seq<u8>)
    requires
        valid_utf8(rest),
        rest.len() > 0,
    ensures
        utf8_len(rest[0]) <= rest.len(),
        decode_utf8(rest).len() > 0,
{
    lemma_first_scalar_width(rest);
    assert(utf8_len(rest[0]) == utf8_width(rest[0]));
}

/// `str::from_utf8(&s[ix..])`, then its first character.
pub fn decode_utf8_char(s: &[u8], ix: usize) -> (r: Option<char>)
    requires
        ix <= s@.len(),
    ensures
        r == char_at(s@, ix as int),
{
    let rest = vstd::slice::slice_subrange(s, ix, s.len());
    match str_from_utf8(rest) {
        None => None,
        Some(text) => {
            proof {
                lemma_str_decodes(text);
            }
            str_first_char(text)
        },
    }
}

/// The Unicode `Zs` characters other than the ASCII space, and the byte
/// order mark: the ECMAScript whitespace that is not ASCII.
pub open spec fn es_space_char(c: char) -> bool {
    let u = c as u32;
    u == 0xA0 || u == 0x1680 || (0x2000 <= u <= 0x200A) || u == 0x202F || u == 0x205F || u
        == 0x3000 || u == 0xFEFF
}

/// Whether `s[ix]` starts whitespace: ASCII whitespace, or a non-ASCII
/// space character whose own bytes are valid UTF-8.
pub open spec fn mdx_ws_at(s: Seq<u8>, ix: int) -> bool {
    let b = s[ix];
    if spec_is_ws(b) {
        true
    } else if b < 0x80 {
        false
    } else {
        let end = ix + utf8_len(b);
        end <= s.len() && valid_utf8(s.subrange(ix, end)) && es_space_char(
            decode_utf8(s.subrange(ix, end))[0],
        )
    }
}

fn es_space(c: char) -> (r: bool)
    ensures
        r == es_space_char(c),
{
    let u = c as u32;
    u == 0xA0 || u == 0x1680 || (u >= 0x2000 && u <= 0x200A) || u == 0x202F || u == 0x205F || u
        == 0x3000 || u == 0xFEFF
}

pub fn is_mdx_unicode_whitespace(s: &[u8], ix: usize) -> (r: bool)
    requires
        ix < s@.len(),
    ensures
        r == mdx_ws_at(s@, ix as int),
        r ==> ix + utf8_len(s@[ix as int]) <= s@.len(),
{
    let b = s[ix];
    if is_ws(b) {
        return true;
    }
    if b < 0x80 {
        return false;
    }
    let len = char_len_utf8(b);
    if len > s.len() - ix {
        return false;
    }
    let end = ix + len;
    let piece = vstd::slice::slice_subrange(s, ix, end);
    match str_from_utf8(piece) {
        None => false,
        Some(text) => {
            proof {
                lemma_str_decodes(text);
                lemma_lead_width(piece@);
            }
            match str_first_char(text) {
                Some(c) => es_space(c),
                None => false,
            }
        },
    }
}

// ---------------------------------------------------------------------
// JSX names
// ---------------------------------------------------------------------

/// A JSX name starts with an ASCII letter, `_` or `$`, or a character with
/// the Unicode `ID_Start` property.
pub open spec fn jsx_name_start_at(s: Seq<u8>, ix: int) -> bool {
    let b = s[ix];
    if b < 0x80 {
        spec_is_alpha(b) || b == 95 || b == 36
    } else {
        char_at(s, ix) matches Some(c) && id_start(c)
    }
}

/// A JSX name goes on with an ASCII letter or digit, `-`, `_` or `$`, or a
/// character with the Unicode `ID_Continue` property.
pub open spec fn jsx_name_continue_at(s: Seq<u8>, ix: int) -> bool {
    let b = s[ix];
    if b < 0x80 {
        spec_is_alnum(b) || b == 45 || b == 95 || b == 36
    } else {
        char_at(s, ix) matches Some(c) && id_continue(c)
    }
}

proof fn lemma_char_at_fits(s: Seq<u8>, ix: int)
    requires
        0 <= ix < s.len(),
        char_at(s, ix) is Some,
    ensures
        ix + utf8_len(s[ix]) <= s.len(),
{
    let rest = s.subrange(ix, s.len() as int);
    lemma_lead_width(rest);
}

pub fn is_jsx_name_start(s: &[u8], ix: usize) -> (r: bool)
    requires
        ix < s@.len(),
    ensures
        r == jsx_name_start_at(s@, ix as int),
        r ==> ix + utf8_len(s@[ix as int]) <= s@.len(),
{
    let b = s[ix];
    if b < 0x80 {
        return is_alpha(b) || b == '_' as u8 || b == '$' as u8;
    }
    match decode_utf8_char(s, ix) {
        Some(c) => {
            proof {
                lemma_char_at_fits(s@, ix as int);
            }
            is_id_start(c)
        },
        None => false,
    }
}

pub fn is_jsx_name_continue(s: &[u8], ix: usize) -> (r: bool)
    requires
        ix < s@.len(),
    ensures
        r == jsx_name_continue_at(s@, ix as int),
        r ==> ix + utf8_len(s@[ix as int]) <= s@.len(),
{
    let b = s[ix];
    if b < 0x80 {
        return is_alnum(b) || b == '-' as u8 || b == '_' as u8 || b == '$' as u8;
    }
    match decode_utf8_char(s, ix) {
        Some(c) => {
            proof {
                lemma_char_at_fits(s@, ix as int);
            }
            is_id_continue(c)
        },
        None => false,
    }
}

// ---------------------------------------------------------------------
// JavaScript tokens
// ---------------------------------------------------------------------

/// Where a JavaScript string whose quote `q` came just before `ix` ends:
/// after its closing quote, or at the line ending or end of input that cut
/// it short. A backslash escapes the byte after it, so an escape at the very
/// end leaves the position one past the end.
pub open spec fn string_end(s: Seq<u8>, q: u8, ix: int) -> int
    decreases left(s, ix),
{
    if 0 <= ix < s.len() && s[ix] != q && s[ix] != 10 && s[ix] != 13 {
        if s[ix] == 92 {
            string_end(s, q, ix + 2)
        } else {
            string_end(s, q, ix + 1)
        }
    } else if 0 <= ix < s.len() && s[ix] == q {
        ix + 1
    } else {
        ix
    }
}

/// Skips a `'…'` or `"…"` string whose opening quote is at `start`.
pub fn skip_string(bytes: &[u8], start: usize) -> (r: usize)
    requires
        start < bytes@.len(),
        addressable(bytes@),
    ensures
        r == string_end(bytes@, bytes@[start as int], start + 1),
        start < r <= bytes@.len() + 1,
{
    let quote = bytes[start];
    let len = bytes.len();
    let mut ix = start + 1;
    while ix < len && bytes[ix] != quote && bytes[ix] != '\n' as u8 && bytes[ix] != '\r' as u8
        invariant
            start < ix <= len + 1,
            len == bytes@.len(),
            addressable(bytes@),
            quote == bytes@[start as int],
            string_end(bytes@, quote, ix as int) == string_end(bytes@, quote, start + 1),
        decreases len + 1 - ix,
    {
        if bytes[ix] == '\\' as u8 {
            ix += 1;
        }
        ix += 1;
    }
    if ix < len && bytes[ix] == quote {
        ix += 1;
    }
    ix
}

/// The end of the run of ASCII letters and digits from `ix` (regex flags).
pub open spec fn flags_end(s: Seq<u8>, ix: int) -> int
    decreases left(s, ix),
{
    if 0 <= ix < s.len() && spec_is_alnum(s[ix]) {
        flags_end(s, ix + 1)
    } else {
        ix
    }
}

/// Where a regular-expression literal goes on from `ix` (inside a `[…]`
/// class when `in_class`) ends: after its closing `/` and flags, or at the
/// line ending or end of input that cut it short. A backslash escapes the
/// byte after it, and a `/` inside a class does not close the literal.
pub open spec fn regex_end(s: Seq<u8>, ix: int, in_class: bool) -> int
    decreases left(s, ix), if in_class {
        1int
    } else {
        0int
    },
{
    if in_class {
        if 0 <= ix < s.len() && s[ix] != 93 {
            regex_end(
                s,
                if s[ix] == 92 {
                    ix + 2
                } else {
                    ix + 1
                },
                true,
            )
        } else {
            regex_end(
                s,
                if ix < s.len() {
                    ix + 1
                } else {
                    ix
                },
                false,
            )
        }
    } else if !(0 <= ix < s.len()) {
        ix
    } else if s[ix] == 47 {
        flags_end(s, ix + 1)
    } else if s[ix] == 92 {
        regex_end(s, ix + 2, false)
    } else if s[ix] == 91 {
        regex_end(s, ix + 1, true)
    } else if s[ix] == 10 || s[ix] == 13 {
        ix
    } else {
        regex_end(s, ix + 1, false)
    }
}

/// Skips a regular-expression literal whose opening `/` is at `start`,
/// returning the offset past its flags.
pub fn scan_regex(bytes: &[u8], start: usize) -> (r: usize)
    requires
        start < bytes@.len(),
        addressable(bytes@),
    ensures
        r == regex_end(bytes@, start + 1, false),
        start < r <= bytes@.len() + 1,
{
    let len = bytes.len();
    let mut ix = start + 1;
    while ix < len
        invariant
            start < ix <= len + 1,
            len == bytes@.len(),
            addressable(bytes@),
            regex_end(bytes@, ix as int, false) == regex_end(bytes@, start + 1, false),
        decreases len + 1 - ix,
    {
        let b = bytes[ix];
        if b == '/' as u8 {
            ix += 1;
            while ix < len && is_alnum(bytes[ix])
                invariant
                    start < ix <= len,
                    len == bytes@.len(),
                    flags_end(bytes@, ix as int) == regex_end(bytes@, start + 1, false),
                decreases len - ix,
            {
                ix += 1;
            }
            return ix;
        } else if b == '\\' as u8 {
            ix += 2;
        } else if b == '[' as u8 {
            let open = ix;
            ix += 1;
            while ix < len && bytes[ix] != ']' as u8
                invariant
                    start < open < ix <= len + 1,
                    len == bytes@.len(),
                    addressable(bytes@),
                    regex_end(bytes@, ix as int, true) == regex_end(bytes@, start + 1, false),
                decreases len + 1 - ix,
            {
                if bytes[ix] == '\\' as u8 {
                    ix += 1;
                }
                ix += 1;
            }
            if ix < len {
                ix += 1;
            }
        } else if b == '\n' as u8 || b == '\r' as u8 {
            return ix;
        } else {
            ix += 1;
        }
    }
    ix
}

/// Space, tab, line feed or carriage return.
pub open spec fn is_js_space(b: u8) -> bool {
    b == 32 || b == 9 || b == 10 || b == 13
}

/// An identifier byte: ASCII letter or digit, `_` or `$`.
pub open spec fn is_ident_byte(b: u8) -> bool {
    spec_is_alnum(b) || b == 95 || b == 36
}

fn ident_byte(b: u8) -> (r: bool)
    ensures
        r == is_ident_byte(b),
{
    is_alnum(b) || b == '_' as u8 || b == '$' as u8
}

/// The index of the last byte before `pos` that is not a space, tab or line
/// ending; -1 when there is none.
pub open spec fn prev_token_byte(s: Seq<u8>, pos: int) -> int
    decreases pos,
{
    if pos <= 0 {
        -1
    } else if is_js_space(s[pos - 1]) {
        prev_token_byte(s, pos - 1)
    } else {
        pos - 1
    }
}

/// The start of the run of identifier bytes that ends just before `i`.
pub open spec fn ident_run_start(s: Seq<u8>, i: int) -> int
    decreases i,
{
    if i > 0 && is_ident_byte(s[i - 1]) {
        ident_run_start(s, i - 1)
    } else {
        i
    }
}

/// The keywords after which `/` starts a regular expression, not a division.
pub open spec fn regex_keyword(w: Seq<u8>) -> bool {
    ||| w == seq!['a' as u8, 'w' as u8, 'a' as u8, 'i' as u8, 't' as u8]
    ||| w == seq!['c' as u8, 'a' as u8, 's' as u8, 'e' as u8]
    ||| w == seq!['d' as u8, 'e' as u8, 'l' as u8, 'e' as u8, 't' as u8, 'e' as u8]
    ||| w == seq!['i' as u8, 'n' as u8]
    ||| w == seq![
        'i' as u8,
        'n' as u8,
        's' as u8,
        't' as u8,
        'a' as u8,
        'n' as u8,
        'c' as u8,
        'e' as u8,
        'o' as u8,
        'f' as u8,
    ]
    ||| w == seq!['n' as u8, 'e' as u8, 'w' as u8]
    ||| w == seq!['o' as u8, 'f' as u8]
    ||| w == seq!['r' as u8, 'e' as u8, 't' as u8, 'u' as u8, 'r' as u8, 'n' as u8]
    ||| w == seq!['t' as u8, 'h' as u8, 'r' as u8, 'o' as u8, 'w' as u8]
    ||| w == seq!['t' as u8, 'y' as u8, 'p' as u8, 'e' as u8, 'o' as u8, 'f' as u8]
    ||| w == seq!['v' as u8, 'o' as u8, 'i' as u8, 'd' as u8]
    ||| w == seq!['y' as u8, 'i' as u8, 'e' as u8, 'l' as u8, 'd' as u8]
}

fn same_bytes(a: &[u8], b: &[u8]) -> (r: bool)
    ensures
        r == (a@ == b@),
{
    if a.len() != b.len() {
        return false;
    }
    let mut i: usize = 0;
    while i < a.len()
        invariant
            i <= a@.len(),
            a@.len() == b@.len(),
            forall|j: int| 0 <= j < i ==> a@[j] == b@[j],
        decreases a@.len() - i,
    {
        if a[i] != b[i] {
            return false;
        }
        i += 1;
    }
    assert(a@ =~= b@);
    true
}

fn is_regex_keyword(w: &[u8]) -> (r: bool)
    ensures
        r == regex_keyword(w@),
{
    let await_kw: [u8; 5] = ['a' as u8, 'w' as u8, 'a' as u8, 'i' as u8, 't' as u8];
    let case_kw: [u8; 4] = ['c' as u8, 'a' as u8, 's' as u8, 'e' as u8];
    let delete_kw: [u8; 6] = ['d' as u8, 'e' as u8, 'l' as u8, 'e' as u8, 't' as u8, 'e' as u8];
    let in_kw: [u8; 2] = ['i' as u8, 'n' as u8];
    let instanceof_kw: [u8; 10] = [
        'i' as u8,
        'n' as u8,
        's' as u8,
        't' as u8,
        'a' as u8,
        'n' as u8,
        'c' as u8,
        'e' as u8,
        'o' as u8,
        'f' as u8,
    ];
    let new_kw: [u8; 3] = ['n' as u8, 'e' as u8, 'w' as u8];
    let of_kw: [u8; 2] = ['o' as u8, 'f' as u8];
    let return_kw: [u8; 6] = ['r' as u8, 'e' as u8, 't' as u8, 'u' as u8, 'r' as u8, 'n' as u8];
    let throw_kw: [u8; 5] = ['t' as u8, 'h' as u8, 'r' as u8, 'o' as u8, 'w' as u8];
    let typeof_kw: [u8; 6] = ['t' as u8, 'y' as u8, 'p' as u8, 'e' as u8, 'o' as u8, 'f' as u8];
    let void_kw: [u8; 4] = ['v' as u8, 'o' as u8, 'i' as u8, 'd' as u8];
    let yield_kw: [u8; 5] = ['y' as u8, 'i' as u8, 'e' as u8, 'l' as u8, 'd' as u8];
    same_bytes(w, &await_kw) || same_bytes(w, &case_kw) || same_bytes(w, &delete_kw)
        || same_bytes(w, &in_kw) || same_bytes(w, &instanceof_kw) || same_bytes(w, &new_kw)
        || same_bytes(w, &of_kw) || same_bytes(w, &return_kw) || same_bytes(w, &throw_kw)
        || same_bytes(w, &typeof_kw) || same_bytes(w, &void_kw) || same_bytes(w, &yield_kw)
}

/// Whether a `/` at `pos` starts a regular expression, judged by the last
/// byte before it that is not whitespace: none, an operator or punctuation
/// other than `)`, `]`, a quote, `++` or `--` say yes; an identifier or
/// number says yes only when it is one of the regex keywords.
pub open spec fn spec_slash_is_regex(s: Seq<u8>, pos: int) -> bool {
    let i = prev_token_byte(s, pos);
    if i < 0 {
        true
    } else {
        let b = s[i];
        if b == 41 || b == 93 {
            false
        } else if b == 34 || b == 39 || b == 96 {
            false
        } else if b == 43 && i > 0 && s[i - 1] == 43 {
            false
        } else if b == 45 && i > 0 && s[i - 1] == 45 {
            false
        } else if is_ident_byte(b) {
            regex_keyword(s.subrange(ident_run_start(s, i), i + 1))
        } else {
            true
        }
    }
}

pub fn slash_is_regex(bytes: &[u8], pos: usize) -> (r: bool)
    requires
        pos <= bytes@.len(),
    ensures
        r == spec_slash_is_regex(bytes@, pos as int),
{
    let mut i = pos;
    while i > 0 && (bytes[i - 1] == ' ' as u8 || bytes[i - 1] == '\t' as u8 || bytes[i - 1]
        == '\n' as u8 || bytes[i - 1] == '\r' as u8)
        invariant
            i <= pos <= bytes@.len(),
            prev_token_byte(bytes@, i as int) == prev_token_byte(bytes@, pos as int),
        decreases i,
    {
        i -= 1;
    }
    if i == 0 {
        return true;
    }
    let i = i - 1;
    let b = bytes[i];
    if b == ')' as u8 || b == ']' as u8 {
        return false;
    }
    if b == '"' as u8 || b == '\'' as u8 || b == '`' as u8 {
        return false;
    }
    if b == '+' as u8 && i > 0 && bytes[i - 1] == '+' as u8 {
        return false;
    }
    if b == '-' as u8 && i > 0 && bytes[i - 1] == '-' as u8 {
        return false;
    }
    if ident_byte(b) {
        let mut j = i;
        while j > 0 && ident_byte(bytes[j - 1])
            invariant
                j <= i < bytes@.len(),
                ident_run_start(bytes@, j as int) == ident_run_start(bytes@, i as int),
            decreases j,
        {
            j -= 1;
        }
        let word = vstd::slice::slice_subrange(bytes, j, i + 1);
        return is_regex_keyword(word);
    }
    true
}

/// The start of the run of spaces and tabs that ends just before `j`.
pub open spec fn blank_run_back(s: Seq<u8>, j: int) -> int
    decreases j,
{
    if j > 0 && (s[j - 1] == 32 || s[j - 1] == 9) {
        blank_run_back(s, j - 1)
    } else {
        j
    }
}

/// Whether a `/` at `ix` opens a regular expression, given whether the
/// previous token produced a value: after a value it is a division, unless
/// the byte before it (spaces and tabs aside) is an identifier byte, where
/// a regex keyword may still come first.
pub open spec fn spec_slash_is_regex_after(s: Seq<u8>, ix: int, prev_was_value: bool) -> bool {
    let j = blank_run_back(s, ix);
    let prev_is_ident_char = j > 0 && is_ident_byte(s[j - 1]);
    !(prev_was_value && !prev_is_ident_char) && spec_slash_is_regex(s, ix)
}

pub fn slash_is_regex_after(bytes: &[u8], ix: usize, prev_was_value: bool) -> (r: bool)
    requires
        ix <= bytes@.len(),
    ensures
        r == spec_slash_is_regex_after(bytes@, ix as int, prev_was_value),
{
    let mut j = ix;
    while j > 0 && (bytes[j - 1] == ' ' as u8 || bytes[j - 1] == '\t' as u8)
        invariant
            j <= ix <= bytes@.len(),
            blank_run_back(bytes@, j as int) == blank_run_back(bytes@, ix as int),
        decreases j,
    {
        j -= 1;
    }
    let prev_is_ident_char = j > 0 && ident_byte(bytes[j - 1]);
    let force_division = prev_was_value && !prev_is_ident_char;
    !force_division && slash_is_regex(bytes, ix)
}

/// The end of the run of spaces and tabs from `i`.
pub open spec fn blank_run_end(s: Seq<u8>, i: int) -> int
    decreases left(s, i),
{
    if 0 <= i < s.len() && (s[i] == 32 || s[i] == 9) {
        blank_run_end(s, i + 1)
    } else {
        i
    }
}

/// Whether the line ending at `ix` is followed by a blank line or the end
/// of input.
pub open spec fn blank_line_next(s: Seq<u8>, ix: int) -> bool {
    let j = if s[ix] == 13 && ix + 1 < s.len() && s[ix + 1] == 10 {
        ix + 2
    } else {
        ix + 1
    };
    let k = blank_run_end(s, j);
    k >= s.len() || s[k] == 10 || s[k] == 13
}

pub fn is_blank_line_next(bytes: &[u8], ix: usize) -> (r: bool)
    requires
        ix < bytes@.len(),
    ensures
        r == blank_line_next(bytes@, ix as int),
{
    let n = bytes.len();
    let mut j = ix + 1;
    if bytes[ix] == '\r' as u8 && j < bytes.len() && bytes[j] == '\n' as u8 {
        j += 1;
    }
    let mut k = j;
    while k < bytes.len() && (bytes[k] == ' ' as u8 || bytes[k] == '\t' as u8)
        invariant
            j <= k <= bytes@.len(),
            blank_run_end(bytes@, k as int) == blank_run_end(bytes@, j as int),
        decreases bytes@.len() - k,
    {
        k += 1;
    }
    k >= bytes.len() || bytes[k] == '\n' as u8 || bytes[k] == '\r' as u8
}

/// The end of the run of spaces, tabs and line endings from `i`.
pub open spec fn js_space_run_end(s: Seq<u8>, i: int) -> int
    decreases left(s, i),
{
    if 0 <= i < s.len() && is_js_space(s[i]) {
        js_space_run_end(s, i + 1)
    } else {
        i
    }
}

/// Whether the `{` at the start of `s` opens a spread, `{...expr}`, with
/// whitespace allowed before the dots.
pub open spec fn spec_looks_like_spread(s: Seq<u8>) -> bool {
    let i = js_space_run_end(s, 1);
    i + 2 < s.len() && s[i] == 46 && s[i + 1] == 46 && s[i + 2] == 46
}

pub fn looks_like_spread(bytes: &[u8]) -> (r: bool)
    requires
        bytes@.len() > 0,
        bytes@[0] == 123,
    ensures
        r == spec_looks_like_spread(bytes@),
{
    let mut i: usize = 1;
    while i < bytes.len() && (bytes[i] == ' ' as u8 || bytes[i] == '\t' as u8 || bytes[i]
        == '\n' as u8 || bytes[i] == '\r' as u8)
        invariant
            1 <= i <= bytes@.len(),
            js_space_run_end(bytes@, i as int) == js_space_run_end(bytes@, 1),
        decreases bytes@.len() - i,
    {
        i += 1;
    }
    i < bytes.len() && bytes.len() - i > 2 && bytes[i] == '.' as u8 && bytes[i + 1] == '.' as u8
        && bytes[i + 2] == '.' as u8
}

// ---------------------------------------------------------------------
// Skips move forward
// ---------------------------------------------------------------------

pub proof fn lemma_string_end_ge(s: Seq<u8>, q: u8, ix: int)
    requires
        0 <= ix,
    ensures
        string_end(s, q, ix) >= ix,
    decreases left(s, ix),
{
    if 0 <= ix < s.len() && s[ix] != q && s[ix] != 10 && s[ix] != 13 {
        if s[ix] == 92 {
            lemma_string_end_ge(s, q, ix + 2);
        } else {
            lemma_string_end_ge(s, q, ix + 1);
        }
    }
}

pub proof fn lemma_flags_end_ge(s: Seq<u8>, ix: int)
    requires
        0 <= ix,
    ensures
        flags_end(s, ix) >= ix,
    decreases left(s, ix),
{
    if 0 <= ix < s.len() && spec_is_alnum(s[ix]) {
        lemma_flags_end_ge(s, ix + 1);
    }
}

pub proof fn lemma_regex_end_ge(s: Seq<u8>, ix: int, in_class: bool)
    requires
        0 <= ix,
    ensures
        regex_end(s, ix, in_class) >= ix,
    decreases left(s, ix), if in_class {
        1int
    } else {
        0int
    },
{
    if in_class {
        if 0 <= ix < s.len() && s[ix] != 93 {
            lemma_regex_end_ge(
                s,
                if s[ix] == 92 {
                    ix + 2
                } else {
                    ix + 1
                },
                true,
            );
        } else {
            lemma_regex_end_ge(
                s,
                if ix < s.len() {
                    ix + 1
                } else {
                    ix
                },
                false,
            );
        }
    } else if !(0 <= ix < s.len()) {
    } else if s[ix] == 47 {
        lemma_flags_end_ge(s, ix + 1);
    } else if s[ix] == 92 {
        lemma_regex_end_ge(s, ix + 2, false);
    } else if s[ix] == 91 {
        lemma_regex_end_ge(s, ix + 1, true);
    } else if s[ix] == 10 || s[ix] == 13 {
    } else {
        lemma_regex_end_ge(s, ix + 1, false);
    }
}

pub proof fn lemma_blank_run_end_ge(s: Seq<u8>, i: int)
    requires
        0 <= i,
    ensures
        blank_run_end(s, i) >= i,
        i <= s.len() ==> blank_run_end(s, i) <= s.len(),
    decreases left(s, i),
{
    if 0 <= i < s.len() && (s[i] == 32 || s[i] == 9) {
        lemma_blank_run_end_ge(s, i + 1);
    }
}

} // verus!
