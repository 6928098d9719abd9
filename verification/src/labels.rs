//! Labels and positions for the tree builder: link reference and definition
//! labels cut from the source, their backslash escapes resolved, reference
//! kinds and heading levels as numbers, and `line:column` positions.

use vstd::prelude::*;
use vstd::string::*;
use vstd::utf8::*;
use crate::ascii::{spec_is_punct, is_punct};
use crate::text::{lemma_str_decodes, push_char, all_ascii};
use crate::ascii::{count_byte, lemma_count_byte_prefix_step};
use crate::line_index::{
    LineIndex, line_starts, last_line_start, lemma_line_counts_newlines,
    lemma_line_start_is_last_line_feed,
};

verus! {

// ---------------------------------------------------------------------
// Cutting a `str` at ASCII bytes
// ---------------------------------------------------------------------

/// In valid UTF-8 an ASCII byte starts a character.
pub proof fn lemma_boundary_at_ascii(b: Seq<u8>, i: int)
    requires
        valid_utf8(b),
        0 <= i < b.len(),
        b[i] < 0x80,
    ensures
        is_char_boundary(b, i),
{
    is_char_boundary_iff_not_is_continuation_byte(b, i);
}

/// In valid UTF-8 a character starts right after an ASCII byte.
pub proof fn lemma_boundary_after_ascii(b: Seq<u8>, i: int)
    requires
        valid_utf8(b),
        0 <= i < b.len(),
        b[i] < 0x80,
    ensures
        is_char_boundary(b, i + 1),
    decreases b.len(),
{
    let l = length_of_first_scalar(b);
    let tail = pop_first_scalar(b);
    assert(valid_utf8(tail));
    if i == 0 {
        assert(l == 1);
        assert(is_char_boundary(tail, 0));
    } else {
        assert(i >= l);
        assert(tail[i - l] == b[i]);
        lemma_boundary_after_ascii(tail, i - l);
    }
}

/// `&s[lo..hi]`, both ends at character boundaries.
pub fn str_range(s: &str, lo: usize, hi: usize) -> (r: &str)
    requires
        lo <= hi <= s.spec_bytes().len(),
        is_char_boundary(s.spec_bytes(), lo as int),
        is_char_boundary(s.spec_bytes(), hi as int),
    ensures
        r.spec_bytes() == s.spec_bytes().subrange(lo as int, hi as int),
        r@ == decode_utf8(s.spec_bytes().subrange(lo as int, hi as int)),
{
    let ghost b = s.spec_bytes();
    proof {
        lemma_str_decodes(s);
        valid_utf8_split(b, lo as int);
    }
    let (_, tail) = s.split_at(lo);
    proof {
        let t = tail.spec_bytes();
        assert(t == b.subrange(lo as int, b.len() as int));
        if hi - lo == 0 {
        } else if hi == b.len() {
            is_char_boundary_start_end_of_seq(t);
        } else {
            is_char_boundary_iff_not_is_continuation_byte(b, hi as int);
            is_char_boundary_iff_not_is_continuation_byte(t, hi - lo);
            assert(t[hi - lo] == b[hi as int]);
        }
    }
    let (mid, _) = tail.split_at(hi - lo);
    proof {
        assert(mid.spec_bytes() =~= b.subrange(lo as int, hi as int));
        lemma_str_decodes(mid);
    }
    mid
}

// ---------------------------------------------------------------------
// Definition and reference labels
// ---------------------------------------------------------------------

/// The `]` that closes a definition label going on from `i`; `\X` is a
/// two-byte escape.
pub open spec fn def_label_close(b: Seq<u8>, i: int) -> Option<int>
    decreases b.len() - i,
{
    if !(0 <= i < b.len()) {
        None
    } else if b[i] == 92 && i + 1 < b.len() {
        def_label_close(b, i + 2)
    } else if b[i] == 93 {
        Some(i)
    } else {
        def_label_close(b, i + 1)
    }
}

/// The text between the `[` at `start` and its closing `]`.
pub open spec fn definition_label_range(b: Seq<u8>, start: int) -> Option<(int, int)> {
    if start >= b.len() || b[start] != 91 {
        None
    } else {
        match def_label_close(b, start + 1) {
            Some(c) => Some((start + 1, c)),
            None => None,
        }
    }
}

/// The verbatim label of a link reference definition whose `[` is at
/// `start`, up to the first unescaped `]`.
pub fn extract_definition_label(source: &str, start: u32) -> (r: Option<&str>)
    ensures
        match definition_label_range(source.spec_bytes(), start as int) {
            Some((lo, hi)) => r matches Some(l) && l.spec_bytes() == source.spec_bytes().subrange(
                lo,
                hi,
            ),
            None => r is None,
        },
{
    let bytes = source.as_bytes();
    let ghost b = source.spec_bytes();
    let open = start as usize;
    if open >= bytes.len() || bytes[open] != '[' as u8 {
        return None;
    }
    let mut i = open + 1;
    while i < bytes.len()
        invariant
            open < i <= bytes@.len() + 1,
            open == start,
            bytes@ == b,
            b == source.spec_bytes(),
            b[open as int] == 91,
            def_label_close(b, i as int) == def_label_close(b, open + 1),
        decreases bytes@.len() + 1 - i,
    {
        if bytes[i] == '\\' as u8 && i + 1 < bytes.len() {
            i += 2;
        } else if bytes[i] == ']' as u8 {
            proof {
                lemma_str_decodes(source);
                lemma_boundary_after_ascii(b, open as int);
                lemma_boundary_at_ascii(b, i as int);
            }
            return Some(str_range(source, open + 1, i));
        } else {
            i += 1;
        }
    }
    None
}

/// The number of backslashes just before `k`, not counting below `floor`.
pub open spec fn backslashes_before(b: Seq<u8>, floor: int, k: int) -> nat
    decreases k - floor,
{
    if k > floor && b[k - 1] == 92 {
        1 + backslashes_before(b, floor, k - 1)
    } else {
        0
    }
}

/// Walking back from `o` to `floor`: just after the last `[` before `o` that
/// is not escaped (preceded by an even number of backslashes), or `floor`.
pub open spec fn label_open_back(b: Seq<u8>, floor: int, o: int) -> int
    decreases o - floor,
{
    if o > floor {
        if b[o - 1] == 91 && backslashes_before(b, floor, o - 1) % 2 == 0 {
            o
        } else {
            label_open_back(b, floor, o - 1)
        }
    } else {
        o
    }
}

proof fn lemma_label_open_back(b: Seq<u8>, floor: int, o: int)
    ensures
        floor <= o ==> floor <= label_open_back(b, floor, o) <= o,
    decreases o - floor,
{
    if o > floor {
        if !(b[o - 1] == 91 && backslashes_before(b, floor, o - 1) % 2 == 0) {
            lemma_label_open_back(b, floor, o - 1);
        }
    }
}

/// Where a reference's label lies: in the second brackets of a full
/// reference (`kind` 2), in the brackets before `[]` of a collapsed one
/// (`kind` 1), else in the only brackets; `end` is past the reference and
/// `start` at its `[` (or `!` of an image).
pub open spec fn reference_label_range(
    b: Seq<u8>,
    start: int,
    end: int,
    kind: u8,
    is_image: bool,
) -> (int, int) {
    let inner = if is_image {
        start + 2
    } else {
        start + 1
    };
    if kind == 2 {
        (label_open_back(b, inner, end - 1), end - 1)
    } else if kind == 1 {
        (inner, end - 3)
    } else {
        (inner, end - 1)
    }
}

/// The verbatim label text of a link or image reference.
pub fn extract_reference_label(source: &str, start: u32, end: u32, kind: u8, is_image: bool) -> (r:
    &str)
    requires
        end >= 3 || (kind != 1 && end >= 1),
        start + 2 <= usize::MAX,
        ({
            let (lo, hi) = reference_label_range(
                source.spec_bytes(),
                start as int,
                end as int,
                kind,
                is_image,
            );
            &&& 0 <= lo <= hi <= source.spec_bytes().len()
            &&& is_char_boundary(source.spec_bytes(), lo)
            &&& is_char_boundary(source.spec_bytes(), hi)
        }),
    ensures
        ({
            let (lo, hi) = reference_label_range(
                source.spec_bytes(),
                start as int,
                end as int,
                kind,
                is_image,
            );
            r.spec_bytes() == source.spec_bytes().subrange(lo, hi)
        }),
{
    let bytes = source.as_bytes();
    let ghost b = source.spec_bytes();
    proof {
        let inner = if is_image {
            start + 2
        } else {
            start + 1
        };
        lemma_label_open_back(b, inner, end - 1);
    }
    let start_ix = start as usize;
    let end_ix = end as usize;
    let inner_start = if is_image {
        start_ix + 2
    } else {
        start_ix + 1
    };
    if kind == 2 {
        let close2 = end_ix - 1;
        let mut open2 = close2;
        while open2 > inner_start
            invariant
                open2 <= close2 <= bytes@.len(),
                inner_start <= open2 || open2 == close2,
                reference_label_range(b, start as int, end as int, kind, is_image) == (
                    label_open_back(b, inner_start as int, close2 as int),
                    close2 as int,
                ),
                is_char_boundary(b, label_open_back(b, inner_start as int, close2 as int)),
                is_char_boundary(b, close2 as int),
                bytes@ == b,
                b == source.spec_bytes(),
                label_open_back(b, inner_start as int, open2 as int) == label_open_back(
                    b,
                    inner_start as int,
                    close2 as int,
                ),
            decreases open2,
        {
            if bytes[open2 - 1] == '[' as u8 {
                let mut bs: usize = 0;
                let mut k = open2 - 1;
                while k > inner_start && bytes[k - 1] == '\\' as u8
                    invariant
                        inner_start <= k < open2,
                        open2 <= bytes@.len(),
                        bytes@ == b,
                        bs + backslashes_before(b, inner_start as int, k as int)
                            == backslashes_before(b, inner_start as int, open2 - 1),
                        bs <= open2 - 1 - k,
                    decreases k,
                {
                    bs += 1;
                    k -= 1;
                }
                if bs % 2 == 0 {
                    assert(bs == backslashes_before(b, inner_start as int, open2 - 1));
                    return str_range(source, open2, close2);
                }
            }
            open2 -= 1;
        }
        return str_range(source, open2, close2);
    }
    if kind == 1 {
        let close1 = end_ix - 3;
        return str_range(source, inner_start, close1);
    }
    str_range(source, inner_start, end_ix - 1)
}

/// The label with each backslash before ASCII punctuation dropped, the
/// text between escapes kept as it is: `last` is where the current stretch
/// of kept text began, `i` where the scan is.
pub open spec fn unescaped_from(b: Seq<u8>, last: int, i: int) -> Seq<char>
    decreases b.len() - i,
{
    if !(0 <= i < b.len()) {
        decode_utf8(b.subrange(last, b.len() as int))
    } else if b[i] == 92 && i + 1 < b.len() && spec_is_punct(b[i + 1]) {
        decode_utf8(b.subrange(last, i)) + decode_utf8(b.subrange(i + 1, i + 2)) + unescaped_from(
            b,
            i + 2,
            i + 2,
        )
    } else {
        unescaped_from(b, last, i + 1)
    }
}

/// Whether some backslash at or after `i` escapes ASCII punctuation.
pub open spec fn has_punct_escape(b: Seq<u8>, i: int) -> bool
    decreases b.len() - i,
{
    if !(0 <= i < b.len()) {
        false
    } else if b[i] == 92 && i + 1 < b.len() && spec_is_punct(b[i + 1]) {
        true
    } else {
        has_punct_escape(b, i + 1)
    }
}

/// Resolves `\X` escapes of ASCII punctuation in a label; `None` when
/// there is none to resolve.
pub fn unescape_label_backslashes(s: &str) -> (r: Option<String>)
    ensures
        has_punct_escape(s.spec_bytes(), 0) ==> (r matches Some(out) && out@ == unescaped_from(
            s.spec_bytes(),
            0,
            0,
        )),
        !has_punct_escape(s.spec_bytes(), 0) ==> r is None,
{
    let bytes = s.as_bytes();
    let ghost b = s.spec_bytes();
    proof {
        lemma_str_decodes(s);
    }
    let len = bytes.len();
    let mut out = String::new();
    let mut last: usize = 0;
    let mut i: usize = 0;
    let mut changed = false;
    while i < len
        invariant
            last <= i <= len,
            len == b.len(),
            bytes@ == b,
            b == s.spec_bytes(),
            valid_utf8(b),
            last == 0 || (b[last - 1] < 0x80),
            out@ + unescaped_from(b, last as int, i as int) == unescaped_from(b, 0, 0),
            changed == (last > 0),
            !changed ==> has_punct_escape(b, 0) == has_punct_escape(b, i as int),
            changed ==> has_punct_escape(b, 0),
        decreases len - i,
    {
        if bytes[i] == '\\' as u8 && i + 1 < len && is_punct(bytes[i + 1]) {
            proof {
                if last > 0 {
                    lemma_boundary_after_ascii(b, last - 1);
                } else {
                    is_char_boundary_start_end_of_seq(b);
                }
                lemma_boundary_at_ascii(b, i as int);
                lemma_boundary_at_ascii(b, i + 1);
                lemma_boundary_after_ascii(b, i + 1);
            }
            let kept = str_range(s, last, i);
            let punct = str_range(s, i + 1, i + 2);
            out.append(kept);
            out.append(punct);
            i += 2;
            last = i;
            changed = true;
            proof {
                assert(out@ + unescaped_from(b, last as int, i as int) == unescaped_from(b, 0, 0));
            }
        } else {
            i += 1;
        }
    }
    if !changed {
        return None;
    }
    proof {
        lemma_boundary_after_ascii(b, last - 1);
        is_char_boundary_start_end_of_seq(b);
    }
    let rest = str_range(s, last, len);
    out.append(rest);
    Some(out)
}

// ---------------------------------------------------------------------
// Reference kinds and heading levels
// ---------------------------------------------------------------------

/// How a link or image was written.
#[derive(Clone, Copy, Debug, PartialEq, Eq, Structural)]
pub enum LinkType {
    Inline,
    Reference,
    ReferenceUnknown,
    Collapsed,
    CollapsedUnknown,
    Shortcut,
    ShortcutUnknown,
    Autolink,
    Email,
    WikiLink { has_pothole: bool },
}

/// The mdast reference kind of a link type: 0 shortcut, 1 collapsed, 2
/// full; `None` for the types that make an inline link or image.
pub fn reference_kind(link_type: LinkType) -> (r: Option<u8>)
    ensures
        r == (match link_type {
            LinkType::Reference | LinkType::ReferenceUnknown => Some(2u8),
            LinkType::Collapsed | LinkType::CollapsedUnknown => Some(1u8),
            LinkType::Shortcut | LinkType::ShortcutUnknown => Some(0u8),
            _ => None,
        }),
{
    match link_type {
        LinkType::Reference | LinkType::ReferenceUnknown => Some(2),
        LinkType::Collapsed | LinkType::CollapsedUnknown => Some(1),
        LinkType::Shortcut | LinkType::ShortcutUnknown => Some(0),
        _ => None,
    }
}

/// A heading's level, `#` to `######`.
#[derive(Clone, Copy, Debug, PartialEq, Eq, Structural)]
pub enum HeadingLevel {
    H1,
    H2,
    H3,
    H4,
    H5,
    H6,
}

pub fn heading_level_to_u8(level: HeadingLevel) -> (r: u8)
    ensures
        r == (match level {
            HeadingLevel::H1 => 1u8,
            HeadingLevel::H2 => 2u8,
            HeadingLevel::H3 => 3u8,
            HeadingLevel::H4 => 4u8,
            HeadingLevel::H5 => 5u8,
            HeadingLevel::H6 => 6u8,
        }),
        1 <= r <= 6,
{
    match level {
        HeadingLevel::H1 => 1,
        HeadingLevel::H2 => 2,
        HeadingLevel::H3 => 3,
        HeadingLevel::H4 => 4,
        HeadingLevel::H5 => 5,
        HeadingLevel::H6 => 6,
    }
}

// ---------------------------------------------------------------------
// `line:column` positions
// ---------------------------------------------------------------------

pub open spec fn digit_char(d: nat) -> char {
    (48 + d) as char
}

/// The decimal digits of `n`.
pub open spec fn decimal(n: nat) -> Seq<char>
    decreases n,
{
    if n < 10 {
        seq![digit_char(n)]
    } else {
        decimal(n / 10) + seq![digit_char(n % 10)]
    }
}

/// The 1-based line and column of the character at byte `m`: lines end at
/// line feeds, and each character (each byte that is not a UTF-8
/// continuation byte) takes one column.
pub open spec fn line_col_at(b: Seq<u8>, m: int) -> (int, int)
    decreases m,
{
    if m <= 0 {
        (1, 1)
    } else {
        let (l, c) = line_col_at(b, m - 1);
        if b[m - 1] == 10 {
            (l + 1, 1)
        } else if is_continuation_byte(b[m - 1]) {
            (l, c)
        } else {
            (l, c + 1)
        }
    }
}

proof fn lemma_line_col_bound(b: Seq<u8>, m: int)
    requires
        m >= 0,
    ensures
        1 <= line_col_at(b, m).0 <= m + 1,
        1 <= line_col_at(b, m).1 <= m + 1,
    decreases m,
{
    if m > 0 {
        lemma_line_col_bound(b, m - 1);
    }
}

/// Appends the decimal digits of `n`.
fn push_decimal(out: &mut String, n: usize)
    ensures
        final(out)@ == old(out)@ + decimal(n as nat),
    decreases n,
{
    let ghost o = out@;
    if n >= 10 {
        push_decimal(out, n / 10);
    }
    let d: u8 = (n % 10) as u8;
    let c = (48u8 + d) as char;
    proof {
        assert(c == digit_char((n % 10) as nat));
    }
    push_char(out, c);
    proof {
        if n >= 10 {
            assert(out@ =~= o + (decimal((n / 10) as nat) + seq![digit_char((n % 10) as nat)]));
        } else {
            assert(out@ =~= o + decimal(n as nat));
        }
    }
}

/// `line:col`, both numbers in decimal.
fn format_line_col(line: usize, col: usize) -> (r: String)
    ensures
        r@ == decimal(line as nat) + seq![':'] + decimal(col as nat),
{
    let mut out = String::new();
    push_decimal(&mut out, line);
    push_char(&mut out, ':');
    push_decimal(&mut out, col);
    proof {
        assert(out@ =~= decimal(line as nat) + seq![':'] + decimal(col as nat));
    }
    out
}

/// The `line:column` of byte `offset` of `source` (the end, when past it).
pub fn byte_offset_to_line_col(source: &str, offset: usize) -> (r: String)
    requires
        source.spec_bytes().len() < usize::MAX,
    ensures
        ({
            let b = source.spec_bytes();
            let m = if offset < b.len() {
                offset as int
            } else {
                b.len() as int
            };
            r@ == decimal(line_col_at(b, m).0 as nat) + seq![':'] + decimal(
                line_col_at(b, m).1 as nat,
            )
        }),
{
    let bytes = source.as_bytes();
    let m = if offset < bytes.len() {
        offset
    } else {
        bytes.len()
    };
    let mut line: usize = 1;
    let mut col: usize = 1;
    let mut i: usize = 0;
    while i < m
        invariant
            i <= m <= bytes@.len() < usize::MAX,
            (line as int, col as int) == line_col_at(bytes@, i as int),
        decreases m - i,
    {
        proof {
            lemma_line_col_bound(bytes@, i as int);
        }
        let b = bytes[i];
        if b == '\n' as u8 {
            line += 1;
            col = 1;
        } else if !(b >= 0x80 && b <= 0xBF) {
            col += 1;
        }
        i += 1;
    }
    format_line_col(line, col)
}

/// On ASCII text, `line_col_at` counts the line feeds before `m` and the
/// bytes since the last of them.
proof fn lemma_line_col_at_ascii(b: Seq<u8>, m: int)
    requires
        0 <= m <= b.len(),
        all_ascii(b),
    ensures
        line_col_at(b, m) == (1 + count_byte(b.subrange(0, m), 10) as int, m - last_line_start(
            b,
            m,
        ) + 1),
    decreases m,
{
    if m == 0 {
        assert(b.subrange(0, 0) =~= Seq::<u8>::empty());
    } else {
        lemma_line_col_at_ascii(b, m - 1);
        lemma_count_byte_prefix_step(b, m - 1, 10);
        assert(b[m - 1] < 128);
    }
}

/// On ASCII text, the line and column that `byte_offset_to_line_col` writes
/// for byte `m` are those that a `LineIndex` built from the same text gives.
pub proof fn lemma_ascii_positions_agree(idx: LineIndex, b: Seq<u8>, m: u32, line: u32, col: u32)
    requires
        idx.wf(),
        idx.starts() == line_starts(b),
        b.len() < u32::MAX,
        all_ascii(b),
        m <= b.len(),
        idx.spec_line_col(m, line, col),
    ensures
        line_col_at(b, m as int) == (line as int, col as int),
{
    lemma_line_col_at_ascii(b, m as int);
    lemma_line_counts_newlines(idx, b, m, line, col);
    lemma_line_start_is_last_line_feed(idx, b, m, line, col);
}

} // verus!
