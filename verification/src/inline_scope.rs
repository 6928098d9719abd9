//! How far inline constructs may reach around a position: the line and
//! block-quote scope, the paragraph (up to a blank line), and the checks on
//! brackets, backtick runs and line starts that decide whether a byte opens
//! something there.

use vstd::prelude::*;
use crate::ascii::{
    spec_is_eol, spec_is_blank, spec_is_digit, spec_is_punct, is_eol, is_blank, is_digit, is_punct,
    has_byte,
};
use crate::post_passes::{
    url_scheme, autolink_raw_end, lemma_autolink_advances, has_url_scheme, scan_autolink_literal,
};
use crate::firstpass::{spec_link_tail_well_formed, link_tail_well_formed};
use crate::search::{find_byte, find_either, rfind_either};
use crate::mdx_lex::addressable;
use crate::mdx::{
    as_pos, inline_jsx_end, jsx_block_end, expr_block_end, no_prefix, scan_mdx_inline_jsx,
    scan_mdx_jsx_block, scan_mdx_expression_block,
};

verus! {

// ---------------------------------------------------------------------
// Lines
// ---------------------------------------------------------------------

/// The start of the line holding `pos`: just after the last line ending
/// before it, or 0.
pub open spec fn line_start_at(s: Seq<u8>, pos: int) -> int
    decreases pos,
{
    if pos > 0 && !spec_is_eol(s[pos - 1]) {
        line_start_at(s, pos - 1)
    } else {
        pos
    }
}

/// The first line ending at or after `i`, or the end of input.
pub open spec fn eol_at(s: Seq<u8>, i: int) -> int
    decreases s.len() - i,
{
    if 0 <= i < s.len() && !spec_is_eol(s[i]) {
        eol_at(s, i + 1)
    } else {
        i
    }
}

/// Only spaces and tabs (or nothing).
pub open spec fn all_blank(l: Seq<u8>) -> bool {
    forall|k: int| 0 <= k < l.len() ==> #[trigger] spec_is_blank(l[k])
}

pub proof fn lemma_line_start_at(s: Seq<u8>, pos: int)
    requires
        0 <= pos <= s.len(),
    ensures
        0 <= line_start_at(s, pos) <= pos,
        forall|k: int| line_start_at(s, pos) <= k < pos ==> !spec_is_eol(#[trigger] s[k]),
    decreases pos,
{
    if pos > 0 && !spec_is_eol(s[pos - 1]) {
        lemma_line_start_at(s, pos - 1);
    }
}

pub proof fn lemma_eol_at(s: Seq<u8>, i: int)
    requires
        0 <= i <= s.len(),
    ensures
        i <= eol_at(s, i) <= s.len(),
        forall|k: int| i <= k < eol_at(s, i) ==> !spec_is_eol(#[trigger] s[k]),
    decreases s.len() - i,
{
    if i < s.len() && !spec_is_eol(s[i]) {
        lemma_eol_at(s, i + 1);
    }
}

pub fn line_start_of(bytes: &[u8], pos: usize) -> (r: usize)
    requires
        pos <= bytes@.len(),
    ensures
        r == line_start_at(bytes@, pos as int),
        r <= pos,
{
    proof {
        lemma_line_start_at(bytes@, pos as int);
    }
    let mut j = pos;
    while j > 0 && !is_eol(bytes[j - 1])
        invariant
            j <= pos <= bytes@.len(),
            line_start_at(bytes@, j as int) == line_start_at(bytes@, pos as int),
        decreases j,
    {
        j -= 1;
    }
    j
}

pub fn eol_from(bytes: &[u8], start: usize) -> (r: usize)
    requires
        start <= bytes@.len(),
    ensures
        r == eol_at(bytes@, start as int),
        start <= r <= bytes@.len(),
{
    let mut i = start;
    while i < bytes.len() && !is_eol(bytes[i])
        invariant
            start <= i <= bytes@.len(),
            eol_at(bytes@, i as int) == eol_at(bytes@, start as int),
        decreases bytes@.len() - i,
    {
        i += 1;
    }
    i
}

pub fn is_all_blank(l: &[u8]) -> (r: bool)
    ensures
        r == all_blank(l@),
{
    let mut k: usize = 0;
    while k < l.len()
        invariant
            k <= l@.len(),
            forall|j: int| 0 <= j < k ==> #[trigger] spec_is_blank(l@[j]),
        decreases l@.len() - k,
    {
        if !is_blank(l[k]) {
            return false;
        }
        k += 1;
    }
    true
}

// ---------------------------------------------------------------------
// Block-quote scope
// ---------------------------------------------------------------------

/// Past up to `3 - n` spaces from `i`.
pub open spec fn indent3_end(l: Seq<u8>, i: int, n: int) -> int
    decreases 3 - n,
{
    if n < 3 && 0 <= i < l.len() && l[i] == 32 {
        indent3_end(l, i + 1, n + 1)
    } else {
        i
    }
}

pub proof fn lemma_indent3_end(l: Seq<u8>, i: int, n: int)
    requires
        0 <= i <= l.len(),
    ensures
        i <= indent3_end(l, i, n) <= l.len(),
    decreases 3 - n,
{
    if n < 3 && 0 <= i < l.len() && l[i] == 32 {
        lemma_indent3_end(l, i + 1, n + 1);
    }
}

/// How many block-quote markers open the line from `i`: each is up to
/// three spaces, `>`, and an optional space or tab.
pub open spec fn quote_depth_from(l: Seq<u8>, i: int) -> int
    decreases l.len() - i,
{
    if !(0 <= i <= l.len()) {
        0
    } else {
        let j = indent3_end(l, i, 0);
        proof {
            lemma_indent3_end(l, i, 0);
        }
        if j < l.len() && l[j] == 62 {
            let k = if j + 1 < l.len() && spec_is_blank(l[j + 1]) {
                j + 2
            } else {
                j + 1
            };
            1 + quote_depth_from(l, k)
        } else {
            0
        }
    }
}

/// The block-quote depth at the start of a line: two lines share an inline
/// scope only if their depths match.
pub fn leading_container_prefix(line: &[u8]) -> (r: usize)
    ensures
        r == quote_depth_from(line@, 0),
{
    let len = line.len();
    let mut depth: usize = 0;
    let mut i: usize = 0;
    loop
        invariant
            i <= len,
            len == line@.len(),
            depth <= i,
            depth + quote_depth_from(line@, i as int) == quote_depth_from(line@, 0),
        decreases len - i,
    {
        let ghost i0 = i;
        let mut spaces: usize = 0;
        while i < len && line[i] == ' ' as u8 && spaces < 3
            invariant
                i0 <= i <= len,
                len == line@.len(),
                spaces == i - i0,
                spaces <= 3,
                indent3_end(line@, i as int, spaces as int) == indent3_end(line@, i0 as int, 0),
            decreases len - i,
        {
            i += 1;
            spaces += 1;
        }
        if i < len && line[i] == '>' as u8 {
            depth += 1;
            i += 1;
            if i < len && (line[i] == ' ' as u8 || line[i] == '\t' as u8) {
                i += 1;
            }
        } else {
            return depth;
        }
    }
}

/// Walking back from the line starting at `ls`: the start of the earliest
/// line reached before a blank line or a line of another block-quote depth.
pub open spec fn scope_start(s: Seq<u8>, ls: int, prefix: int) -> int
    decreases ls,
{
    if ls <= 0 || ls > s.len() {
        ls
    } else {
        let pe = if ls - 1 > 0 && s[ls - 1] == 10 && s[ls - 2] == 13 {
            ls - 2
        } else {
            ls - 1
        };
        let ps = line_start_at(s, pe);
        proof {
            lemma_line_start_at(s, pe);
        }
        let prev = s.subrange(ps, pe);
        if all_blank(prev) || quote_depth_from(prev, 0) != prefix {
            ls
        } else {
            scope_start(s, ps, prefix)
        }
    }
}

pub fn scope_start_with_prefix(bytes: &[u8], cur_line_start: usize, prefix: usize) -> (r: usize)
    requires
        cur_line_start <= bytes@.len(),
    ensures
        r == scope_start(bytes@, cur_line_start as int, prefix as int),
        r <= cur_line_start,
{
    let mut line_start = cur_line_start;
    while line_start > 0
        invariant
            line_start <= cur_line_start <= bytes@.len(),
            scope_start(bytes@, line_start as int, prefix as int) == scope_start(
                bytes@,
                cur_line_start as int,
                prefix as int,
            ),
        decreases line_start,
    {
        let mut prev_end = line_start - 1;
        if prev_end > 0 && bytes[prev_end] == '\n' as u8 && bytes[prev_end - 1] == '\r' as u8 {
            prev_end -= 1;
        }
        let prev_start = line_start_of(bytes, prev_end);
        let prev_line = vstd::slice::slice_subrange(bytes, prev_start, prev_end);
        if is_all_blank(prev_line) {
            return line_start;
        }
        if leading_container_prefix(prev_line) != prefix {
            return line_start;
        }
        line_start = prev_start;
    }
    line_start
}

/// From the line ending at `i`: the line ending after the last following
/// line of the same scope (not blank, same block-quote depth).
pub open spec fn scope_end_from(s: Seq<u8>, i: int, prefix: int) -> int
    decreases s.len() - i,
{
    if !(0 <= i < s.len()) {
        i
    } else {
        let a = if s[i] == 13 && i + 1 < s.len() && s[i + 1] == 10 {
            i + 2
        } else {
            i + 1
        };
        let ne = eol_at(s, a);
        proof {
            lemma_eol_at(s, a);
        }
        let next = s.subrange(a, ne);
        if all_blank(next) || quote_depth_from(next, 0) != prefix {
            i
        } else {
            scope_end_from(s, ne, prefix)
        }
    }
}

pub fn scope_end_with_prefix(bytes: &[u8], cur_line_start: usize, prefix: usize) -> (r: usize)
    requires
        cur_line_start <= bytes@.len(),
    ensures
        r == scope_end_from(bytes@, eol_at(bytes@, cur_line_start as int), prefix as int),
        cur_line_start <= r <= bytes@.len(),
{
    let len = bytes.len();
    let first = eol_from(bytes, cur_line_start);
    let mut i = first;
    while i < len
        invariant
            cur_line_start <= i <= len,
            len == bytes@.len(),
            first == eol_at(bytes@, cur_line_start as int),
            scope_end_from(bytes@, i as int, prefix as int) == scope_end_from(
                bytes@,
                first as int,
                prefix as int,
            ),
        decreases len - i,
    {
        let after_eol = if bytes[i] == '\r' as u8 && i + 1 < len && bytes[i + 1] == '\n' as u8 {
            i + 2
        } else {
            i + 1
        };
        let next_eol = eol_from(bytes, after_eol);
        let next_line = vstd::slice::slice_subrange(bytes, after_eol, next_eol);
        if is_all_blank(next_line) {
            return i;
        }
        if leading_container_prefix(next_line) != prefix {
            return i;
        }
        i = next_eol;
    }
    i
}

/// The inline scope around `pos`: from the start of the first line to the
/// end of the last line that shares `pos`'s block-quote depth with no blank
/// line between.
pub open spec fn spec_scope_for_inline(s: Seq<u8>, pos: int) -> (int, int) {
    let cls = line_start_at(s, pos);
    let prefix = quote_depth_from(s.subrange(cls, s.len() as int), 0);
    (scope_start(s, cls, prefix), scope_end_from(s, eol_at(s, cls), prefix))
}

proof fn lemma_scope_end_ge(s: Seq<u8>, i: int, prefix: int)
    requires
        0 <= i,
    ensures
        scope_end_from(s, i, prefix) >= i,
    decreases s.len() - i,
{
    if 0 <= i < s.len() {
        let a = if s[i] == 13 && i + 1 < s.len() && s[i + 1] == 10 {
            i + 2
        } else {
            i + 1
        };
        lemma_eol_at(s, a);
        let ne = eol_at(s, a);
        let next = s.subrange(a, ne);
        if !(all_blank(next) || quote_depth_from(next, 0) != prefix) {
            lemma_scope_end_ge(s, ne, prefix);
        }
    }
}

proof fn lemma_eol_past(s: Seq<u8>, i: int, pos: int)
    requires
        0 <= i <= pos <= s.len(),
        forall|k: int| i <= k < pos ==> !spec_is_eol(#[trigger] s[k]),
    ensures
        eol_at(s, i) >= pos,
    decreases pos - i,
{
    lemma_eol_at(s, i);
    if i < pos {
        assert(!spec_is_eol(s[i]));
        lemma_eol_past(s, i + 1, pos);
    }
}

/// The inline scope around a position holds it: `start <= pos <= end`.
pub fn scope_for_inline(bytes: &[u8], pos: usize) -> (r: (usize, usize))
    requires
        pos <= bytes@.len(),
    ensures
        (r.0 as int, r.1 as int) == spec_scope_for_inline(bytes@, pos as int),
        r.0 <= pos <= r.1 <= bytes@.len(),
{
    proof {
        lemma_line_start_at(bytes@, pos as int);
        let cls = line_start_at(bytes@, pos as int);
        lemma_eol_past(bytes@, cls, pos as int);
        lemma_scope_end_ge(
            bytes@,
            eol_at(bytes@, cls),
            quote_depth_from(bytes@.subrange(cls, bytes@.len() as int), 0),
        );
    }
    let cur_line_start = line_start_of(bytes, pos);
    let rest = vstd::slice::slice_subrange(bytes, cur_line_start, bytes.len());
    let cur_prefix = leading_container_prefix(rest);
    let start = scope_start_with_prefix(bytes, cur_line_start, cur_prefix);
    let end = scope_end_with_prefix(bytes, cur_line_start, cur_prefix);
    (start, end)
}

// ---------------------------------------------------------------------
// Line starts
// ---------------------------------------------------------------------

/// The end of the spaces and tabs from `k`.
pub open spec fn blank_end(l: Seq<u8>, k: int) -> int
    decreases l.len() - k,
{
    if 0 <= k < l.len() && spec_is_blank(l[k]) {
        blank_end(l, k + 1)
    } else {
        k
    }
}

/// The end of the block-quote markers (`>` with an optional space or tab
/// after each) from `k`.
pub open spec fn quote_marks_end(l: Seq<u8>, k: int) -> int
    decreases l.len() - k,
{
    if 0 <= k < l.len() && l[k] == 62 {
        quote_marks_end(
            l,
            if k + 1 < l.len() && spec_is_blank(l[k + 1]) {
                k + 2
            } else {
                k + 1
            },
        )
    } else {
        k
    }
}

/// The end of the ASCII digits from `m`.
pub open spec fn digits_end(l: Seq<u8>, m: int) -> int
    decreases l.len() - m,
{
    if 0 <= m < l.len() && spec_is_digit(l[m]) {
        digits_end(l, m + 1)
    } else {
        m
    }
}

/// A list marker at `k` with the space or tab after it: `-`, `+`, `*`, or
/// digits then `.` or `)`. Where it ends.
pub open spec fn list_marker_end(l: Seq<u8>, k: int) -> Option<int> {
    let b = l[k];
    if (b == 45 || b == 43 || b == 42) && k + 1 < l.len() && spec_is_blank(l[k + 1]) {
        Some(k + 2)
    } else if spec_is_digit(b) {
        let m = digits_end(l, k + 1);
        if m < l.len() && (l[m] == 46 || l[m] == 41) && m + 1 < l.len() && spec_is_blank(l[m + 1]) {
            Some(m + 2)
        } else {
            None
        }
    } else {
        None
    }
}

/// Whether everything on `pos`'s line before it is indentation, block-quote
/// markers and at most one list marker: the position starts a paragraph
/// line.
pub open spec fn paragraph_line_start(s: Seq<u8>, pos: int) -> bool {
    let line = s.subrange(line_start_at(s, pos), pos);
    let k1 = quote_marks_end(line, blank_end(line, 0));
    let k = if k1 < line.len() {
        match list_marker_end(line, k1) {
            Some(a) => blank_end(line, a),
            None => k1,
        }
    } else {
        k1
    };
    k == line.len()
}

fn skip_blank(l: &[u8], start: usize) -> (r: usize)
    requires
        start <= l@.len(),
    ensures
        r == blank_end(l@, start as int),
        start <= r <= l@.len(),
{
    let mut k = start;
    while k < l.len() && is_blank(l[k])
        invariant
            start <= k <= l@.len(),
            blank_end(l@, k as int) == blank_end(l@, start as int),
        decreases l@.len() - k,
    {
        k += 1;
    }
    k
}

pub fn is_at_paragraph_line_start(bytes: &[u8], pos: usize) -> (r: bool)
    requires
        pos <= bytes@.len(),
    ensures
        r == paragraph_line_start(bytes@, pos as int),
{
    let j = line_start_of(bytes, pos);
    let line = vstd::slice::slice_subrange(bytes, j, pos);
    let len = line.len();
    let k0 = skip_blank(line, 0);
    let mut k = k0;
    while k < len && line[k] == '>' as u8
        invariant
            k0 <= k <= len,
            len == line@.len(),
            quote_marks_end(line@, k as int) == quote_marks_end(line@, k0 as int),
        decreases len - k,
    {
        k += 1;
        if k < len && is_blank(line[k]) {
            k += 1;
        }
    }
    if k < len {
        let b = line[k];
        let consumed = if (b == '-' as u8 || b == '+' as u8 || b == '*' as u8) && k + 1 < len
            && is_blank(line[k + 1]) {
            Some(k + 2)
        } else if is_digit(b) {
            let mut m = k + 1;
            while m < len && is_digit(line[m])
                invariant
                    k < m <= len,
                    len == line@.len(),
                    digits_end(line@, m as int) == digits_end(line@, k + 1),
                decreases len - m,
            {
                m += 1;
            }
            if m < len && (line[m] == '.' as u8 || line[m] == ')' as u8) && m + 1 < len && is_blank(
                line[m + 1],
            ) {
                Some(m + 2)
            } else {
                None
            }
        } else {
            None
        };
        if let Some(after_marker) = consumed {
            k = skip_blank(line, after_marker);
        }
    }
    k == len
}

/// Past up to `4 - n` spaces from `i`.
pub open spec fn spaces4_end(s: Seq<u8>, i: int, n: int) -> int
    decreases 4 - n,
{
    if n < 4 && 0 <= i < s.len() && s[i] == 32 {
        spaces4_end(s, i + 1, n + 1)
    } else {
        i
    }
}

/// How many `#` follow from `i + h`, counting at most seven in all.
pub open spec fn hash_run(s: Seq<u8>, i: int, h: int) -> int
    decreases 7 - h,
{
    if h < 7 && 0 <= i + h < s.len() && s[i + h] == 35 {
        hash_run(s, i, h + 1)
    } else {
        h
    }
}

/// The length of the run of `c` from `j`.
pub open spec fn run_of(s: Seq<u8>, j: int, c: u8) -> nat
    decreases s.len() - j,
{
    if 0 <= j < s.len() && s[j] == c {
        1 + run_of(s, j + 1, c)
    } else {
        0
    }
}

/// The number of `c` from `j` to the line ending, spaces and tabs between
/// them; `None` when another byte comes first.
pub open spec fn thematic_count(s: Seq<u8>, j: int, c: u8) -> Option<int>
    decreases s.len() - j,
{
    if !(0 <= j < s.len()) {
        Some(0)
    } else if spec_is_blank(s[j]) {
        thematic_count(s, j + 1, c)
    } else if s[j] == c {
        match thematic_count(s, j + 1, c) {
            Some(n) => Some(n + 1),
            None => None,
        }
    } else if spec_is_eol(s[j]) {
        Some(0)
    } else {
        None
    }
}

/// Whether a list marker may end just before `k`: a space, a tab, a line
/// ending or the end of the input follows it.
pub open spec fn marker_follow_ok(s: Seq<u8>, k: int) -> bool {
    k >= s.len() || s[k] == 32 || s[k] == 9 || s[k] == 10 || s[k] == 13
}

/// How many ASCII digits follow from `i + d`, counting at most ten.
pub open spec fn digit_run(s: Seq<u8>, i: int, d: int) -> int
    decreases 10 - d,
{
    if d < 10 && 0 <= i + d < s.len() && spec_is_digit(s[i + d]) {
        digit_run(s, i, d + 1)
    } else {
        d
    }
}

/// A list marker at `i`: `-`, `+` or `*`, or one to nine digits and `.` or
/// `)`, followed by a blank, a line ending or the end of the input.
pub open spec fn list_marker_at(s: Seq<u8>, i: int) -> bool {
    let c = s[i];
    if c == 45 || c == 43 || c == 42 {
        marker_follow_ok(s, i + 1)
    } else {
        let d = digit_run(s, i, 0);
        1 <= d <= 9 && i + d < s.len() && (s[i + d] == 46 || s[i + d] == 41) && marker_follow_ok(
            s,
            i + d + 1,
        )
    }
}

/// Whether the line from `pos` starts a block that ends a paragraph: four
/// spaces of indentation, a block quote, an ATX heading, a code fence, a
/// list marker, or a thematic break.
pub open spec fn starts_block(s: Seq<u8>, pos: int) -> bool {
    let i = spaces4_end(s, pos, 0);
    if i - pos == 4 {
        true
    } else if !(0 <= i < s.len()) {
        false
    } else {
        let c = s[i];
        if c == 62 {
            true
        } else if c == 35 {
            let h = hash_run(s, i, 0);
            1 <= h <= 6 && (i + h >= s.len() || s[i + h] == 32 || s[i + h] == 9 || s[i + h] == 10
                || s[i + h] == 13)
        } else if c == 96 || c == 126 {
            run_of(s, i, c) >= 3
        } else if list_marker_at(s, i) {
            true
        } else if c == 45 || c == 95 || c == 42 {
            thematic_count(s, i, c) matches Some(n) && n >= 3
        } else {
            false
        }
    }
}

fn marker_follow_ok_exec(bytes: &[u8], k: usize) -> (r: bool)
    ensures
        r == marker_follow_ok(bytes@, k as int),
{
    k >= bytes.len() || bytes[k] == ' ' as u8 || bytes[k] == '\t' as u8 || bytes[k] == '\n' as u8
        || bytes[k] == '\r' as u8
}

fn list_marker_at_exec(bytes: &[u8], i: usize) -> (r: bool)
    requires
        i < bytes@.len(),
    ensures
        r == list_marker_at(bytes@, i as int),
{
    let c = bytes[i];
    if c == '-' as u8 || c == '+' as u8 || c == '*' as u8 {
        return marker_follow_ok_exec(bytes, i + 1);
    }
    let len = bytes.len();
    let mut d: usize = 0;
    while d < 10 && d < len - i && is_digit(bytes[i + d])
        invariant
            i < len,
            d <= 10,
            len == bytes@.len(),
            digit_run(bytes@, i as int, d as int) == digit_run(bytes@, i as int, 0),
        decreases 10 - d,
    {
        d += 1;
    }
    d >= 1 && d <= 9 && d < len - i && (bytes[i + d] == '.' as u8 || bytes[i + d] == ')' as u8)
        && marker_follow_ok_exec(bytes, i + d + 1)
}

pub fn line_starts_block(bytes: &[u8], pos: usize) -> (r: bool)
    ensures
        r == starts_block(bytes@, pos as int),
{
    let len = bytes.len();
    let mut i = pos;
    let mut sp: usize = 0;
    while i < len && bytes[i] == ' ' as u8 && sp < 4
        invariant
            pos <= i,
            sp == i - pos,
            sp <= 4,
            len == bytes@.len(),
            spaces4_end(bytes@, i as int, sp as int) == spaces4_end(bytes@, pos as int, 0),
        decreases 4 - sp,
    {
        sp += 1;
        i += 1;
    }
    if sp == 4 {
        return true;
    }
    if i >= len {
        return false;
    }
    let c = bytes[i];
    if c == '>' as u8 {
        true
    } else if c == '#' as u8 {
        let mut h: usize = 0;
        while h < len - i && bytes[i + h] == '#' as u8 && h < 7
            invariant
                i < len,
                h <= 7,
                len == bytes@.len(),
                hash_run(bytes@, i as int, h as int) == hash_run(bytes@, i as int, 0),
            decreases 7 - h,
        {
            h += 1;
        }
        h >= 1 && h <= 6 && (h >= len - i || bytes[i + h] == ' ' as u8 || bytes[i + h] == '\t' as u8
            || bytes[i + h] == '\n' as u8 || bytes[i + h] == '\r' as u8)
    } else if c == '`' as u8 || c == '~' as u8 {
        let mut n: usize = 0;
        while n < len - i && bytes[i + n] == c
            invariant
                i < len,
                n <= len - i,
                len == bytes@.len(),
                n + run_of(bytes@, i + n, c) == run_of(bytes@, i as int, c),
            decreases len - i - n,
        {
            n += 1;
        }
        n >= 3
    } else if list_marker_at_exec(bytes, i) {
        true
    } else if c == '-' as u8 || c == '_' as u8 || c == '*' as u8 {
        let mut j = i;
        let mut count: usize = 0;
        while j < len
            invariant
                i <= j <= len,
                c == 45 || c == 95 || c == 42,
                count <= j - i,
                len == bytes@.len(),
                starts_block(bytes@, pos as int) == (thematic_count(bytes@, i as int, c) matches Some(
                    n,
                ) && n >= 3),
                thematic_count(bytes@, i as int, c) == (match thematic_count(bytes@, j as int, c) {
                    Some(m) => Some(m + count),
                    None => None,
                }),
            decreases len - j,
        {
            let b = bytes[j];
            if b == ' ' as u8 || b == '\t' as u8 {
            } else if b == c {
                count += 1;
            } else if b == '\n' as u8 || b == '\r' as u8 {
                return count >= 3;
            } else {
                return false;
            }
            j += 1;
        }
        count >= 3
    } else {
        false
    }
}

// ---------------------------------------------------------------------
// Blank lines
// ---------------------------------------------------------------------

/// The scan for a blank line from `i`: `at_start` when `i` begins a line,
/// `non_ws` when the line so far holds more than spaces and tabs.
pub open spec fn blank_line_from(s: Seq<u8>, i: int, at_start: bool, non_ws: bool) -> bool
    decreases s.len() - i,
{
    if !(0 <= i < s.len()) {
        false
    } else if spec_is_eol(s[i]) {
        if !non_ws && !at_start {
            true
        } else {
            let j = if s[i] == 13 && i + 1 < s.len() && s[i + 1] == 10 {
                i + 2
            } else {
                i + 1
            };
            if j < s.len() && spec_is_eol(s[j]) {
                true
            } else {
                blank_line_from(s, j, true, false)
            }
        }
    } else {
        blank_line_from(s, i + 1, false, non_ws || !spec_is_blank(s[i]))
    }
}

/// Whether some line of `bytes` after the first holds only spaces and tabs
/// and is ended by a line ending (two line endings in a row count too).
pub fn contains_blank_line(bytes: &[u8]) -> (r: bool)
    ensures
        r == blank_line_from(bytes@, 0, true, false),
{
    let len = bytes.len();
    let mut i: usize = 0;
    let mut at_line_start = true;
    let mut line_has_non_ws = false;
    while i < len
        invariant
            i <= len,
            len == bytes@.len(),
            blank_line_from(bytes@, i as int, at_line_start, line_has_non_ws) == blank_line_from(
                bytes@,
                0,
                true,
                false,
            ),
        decreases len - i,
    {
        let b = bytes[i];
        if b == '\n' as u8 || b == '\r' as u8 {
            if !line_has_non_ws && !at_line_start {
                return true;
            }
            if b == '\r' as u8 && i + 1 < len && bytes[i + 1] == '\n' as u8 {
                i += 2;
            } else {
                i += 1;
            }
            if i < len && (bytes[i] == '\n' as u8 || bytes[i] == '\r' as u8) {
                return true;
            }
            at_line_start = true;
            line_has_non_ws = false;
        } else {
            at_line_start = false;
            if b != ' ' as u8 && b != '\t' as u8 {
                line_has_non_ws = true;
            }
            i += 1;
        }
    }
    false
}

// ---------------------------------------------------------------------
// Brackets
// ---------------------------------------------------------------------

/// How far `i` is from running past `end`; 0 once it has.
pub open spec fn ahead(end: int, i: int) -> int {
    if i <= end {
        end + 1 - i
    } else {
        0
    }
}

/// The start of the line holding `k`, but not before `floor`.
pub open spec fn line_start_above(s: Seq<u8>, floor: int, k: int) -> int
    decreases k - floor,
{
    if k > floor && !spec_is_eol(s[k - 1]) {
        line_start_above(s, floor, k - 1)
    } else {
        k
    }
}

/// Walking back from `i` to `floor`: just after the first line ending
/// found that ends a blank line, or `floor`.
pub open spec fn bracket_scope_start(s: Seq<u8>, floor: int, i: int) -> int
    decreases i - floor,
{
    if i <= floor {
        floor
    } else {
        let k = i - 1;
        if spec_is_eol(s[k]) && all_blank(s.subrange(line_start_above(s, floor, k), k)) {
            k + 1
        } else {
            bracket_scope_start(s, floor, k)
        }
    }
}

/// The `[` nesting from `i` to `pos`, starting from `d`; a backslash
/// escapes the next byte and a `]` never takes it below zero.
pub open spec fn bracket_depth(s: Seq<u8>, i: int, pos: int, d: int) -> int
    decreases ahead(pos, i),
{
    if i >= pos {
        d
    } else if s[i] == 92 {
        bracket_depth(s, i + 2, pos, d)
    } else if s[i] == 91 {
        bracket_depth(s, i + 1, pos, d + 1)
    } else if s[i] == 93 && d > 0 {
        bracket_depth(s, i + 1, pos, d - 1)
    } else {
        bracket_depth(s, i + 1, pos, d)
    }
}

/// Whether a `[` between `floor` and `pos` is still open at `pos`, counting
/// only from after the last blank line.
pub open spec fn unbalanced_bracket(s: Seq<u8>, floor: int, pos: int) -> bool {
    if pos <= floor || !has_byte(s, floor, pos, 91) {
        false
    } else {
        let ss = bracket_scope_start(s, floor, pos);
        has_byte(s, ss, pos, 91) && bracket_depth(s, ss, pos, 0) > 0
    }
}

/// `memchr` on `bytes[lo..hi]`: whether `c` occurs there.
pub fn occurs(bytes: &[u8], lo: usize, hi: usize, c: u8) -> (r: bool)
    requires
        lo <= hi <= bytes@.len(),
    ensures
        r == has_byte(bytes@, lo as int, hi as int, c),
{
    let part = vstd::slice::slice_subrange(bytes, lo, hi);
    match find_byte(c, part) {
        Some(k) => {
            assert(bytes@[lo + k] == part@[k as int]);
            true
        },
        None => {
            assert forall|i: int| lo <= i < hi implies bytes@[i] != c by {
                assert(bytes@[i] == part@[i - lo]);
            }
            false
        },
    }
}

fn bracket_search_start(bytes: &[u8], floor: usize, pos: usize) -> (r: usize)
    requires
        floor <= pos <= bytes@.len(),
    ensures
        r == bracket_scope_start(bytes@, floor as int, pos as int),
        floor <= r <= pos,
{
    let mut i = pos;
    while i > floor
        invariant
            floor <= i <= pos <= bytes@.len(),
            bracket_scope_start(bytes@, floor as int, i as int) == bracket_scope_start(
                bytes@,
                floor as int,
                pos as int,
            ),
        decreases i,
    {
        i -= 1;
        if is_eol(bytes[i]) {
            let mut line_start = i;
            while line_start > floor && !is_eol(bytes[line_start - 1])
                invariant
                    floor <= line_start <= i,
                    i < bytes@.len(),
                    line_start_above(bytes@, floor as int, line_start as int) == line_start_above(
                        bytes@,
                        floor as int,
                        i as int,
                    ),
                decreases line_start,
            {
                line_start -= 1;
            }
            let line = vstd::slice::slice_subrange(bytes, line_start, i);
            if is_all_blank(line) {
                return i + 1;
            }
        }
    }
    floor
}

/// Whether a `[` opened since the paragraph start `floor` (or since the
/// last blank line after it) is still unbalanced at `pos`.
pub fn has_unbalanced_bracket_from(bytes: &[u8], floor: usize, pos: usize) -> (r: bool)
    requires
        pos <= bytes@.len(),
    ensures
        r == unbalanced_bracket(bytes@, floor as int, pos as int),
{
    if pos <= floor {
        return false;
    }
    if !occurs(bytes, floor, pos, '[' as u8) {
        return false;
    }
    let search_start = bracket_search_start(bytes, floor, pos);
    if !occurs(bytes, search_start, pos, '[' as u8) {
        return false;
    }
    let mut depth: usize = 0;
    let mut i = search_start;
    while i < pos
        invariant
            search_start <= i <= pos,
            pos <= bytes@.len(),
            depth <= i,
            bracket_depth(bytes@, i as int, pos as int, depth as int) == bracket_depth(
                bytes@,
                search_start as int,
                pos as int,
                0,
            ),
        decreases pos - i,
    {
        let b = bytes[i];
        if b == '\\' as u8 {
            if pos - i >= 2 {
                i += 2;
            } else {
                assert(bracket_depth(bytes@, i + 2, pos as int, depth as int) == depth);
                i = pos;
            }
        } else {
            if b == '[' as u8 {
                depth += 1;
            } else if b == ']' as u8 && depth > 0 {
                depth -= 1;
            }
            i += 1;
        }
    }
    depth > 0
}

pub fn has_unbalanced_bracket_in_paragraph(bytes: &[u8], pos: usize) -> (r: bool)
    requires
        pos <= bytes@.len(),
    ensures
        r == unbalanced_bracket(bytes@, 0, pos as int),
{
    has_unbalanced_bracket_from(bytes, 0, pos)
}

// ---------------------------------------------------------------------
// Backtick runs
// ---------------------------------------------------------------------

/// From `i`: the first line ending that is followed by a blank line (or by
/// another line ending right away), or the end of input.
pub open spec fn later_scope_end(s: Seq<u8>, i: int) -> int
    decreases s.len() - i,
{
    if !(0 <= i < s.len()) {
        s.len() as int
    } else if spec_is_eol(s[i]) {
        let le = eol_at(s, i + 1);
        if all_blank(s.subrange(i + 1, le)) {
            i
        } else {
            later_scope_end(s, i + 1)
        }
    } else {
        later_scope_end(s, i + 1)
    }
}

/// Walking back from `i`: just after the first line ending found that is
/// preceded by a blank line, or 0.
pub open spec fn earlier_scope_start(s: Seq<u8>, i: int) -> int
    decreases i,
{
    if i <= 0 {
        0
    } else {
        let k = i - 1;
        if spec_is_eol(s[k]) && all_blank(
            s.subrange(
                line_start_at(
                    s,
                    if k > 0 {
                        k - 1
                    } else {
                        0
                    },
                ),
                k,
            ),
        ) {
            k + 1
        } else {
            earlier_scope_start(s, k)
        }
    }
}

/// Whether a backtick run of exactly `count` starts between `i` and `end`;
/// a backslash escapes the next byte, and a run is measured in full even
/// past `end`.
pub open spec fn tick_run_at(s: Seq<u8>, i: int, end: int, count: int) -> bool
    decreases ahead(end, i),
{
    if i >= end {
        false
    } else if s[i] == 92 {
        tick_run_at(s, i + 2, end, count)
    } else if s[i] == 96 {
        let run = 1 + run_of(s, i + 1, 96);
        if run == count {
            true
        } else {
            tick_run_at(s, i + run, end, count)
        }
    } else {
        tick_run_at(s, i + 1, end, count)
    }
}

proof fn lemma_run_of_bound(s: Seq<u8>, j: int, c: u8)
    requires
        0 <= j <= s.len(),
    ensures
        j + run_of(s, j, c) <= s.len(),
    decreases s.len() - j,
{
    if j < s.len() && s[j] == c {
        lemma_run_of_bound(s, j + 1, c);
    }
}

/// The length of the run of `c` starting at `from`.
fn run_length(bytes: &[u8], from: usize, c: u8) -> (r: usize)
    requires
        from <= bytes@.len(),
    ensures
        r == run_of(bytes@, from as int, c),
        from + r <= bytes@.len(),
{
    proof {
        lemma_run_of_bound(bytes@, from as int, c);
    }
    let mut n: usize = 0;
    while n < bytes.len() - from && bytes[from + n] == c
        invariant
            from + n <= bytes@.len(),
            n + run_of(bytes@, from + n, c) == run_of(bytes@, from as int, c),
        decreases bytes@.len() - from - n,
    {
        n += 1;
    }
    n
}

fn find_tick_run(bytes: &[u8], start: usize, end: usize, count: usize) -> (r: bool)
    requires
        start <= end <= bytes@.len(),
    ensures
        r == tick_run_at(bytes@, start as int, end as int, count as int),
{
    let mut i = start;
    while i < end
        invariant
            start <= i <= bytes@.len(),
            end <= bytes@.len(),
            tick_run_at(bytes@, i as int, end as int, count as int) == tick_run_at(
                bytes@,
                start as int,
                end as int,
                count as int,
            ),
        decreases bytes@.len() - i,
    {
        if bytes[i] == '\\' as u8 {
            if end - i >= 2 {
                i += 2;
            } else {
                assert(!tick_run_at(bytes@, i + 2, end as int, count as int));
                i = end;
            }
        } else if bytes[i] == '`' as u8 {
            let run = 1 + run_length(bytes, i + 1, '`' as u8);
            if run == count {
                return true;
            }
            i += run;
        } else {
            i += 1;
        }
    }
    false
}

/// Whether a backtick run of exactly `count` starts at or after `pos` in
/// the same paragraph (before a blank line).
pub fn has_later_backtick_run(bytes: &[u8], pos: usize, count: usize) -> (r: bool)
    ensures
        r == (pos < bytes@.len() && tick_run_at(
            bytes@,
            pos as int,
            later_scope_end(bytes@, pos as int),
            count as int,
        )),
{
    if pos >= bytes.len() {
        return false;
    }
    let search_end = later_end(bytes, pos);
    find_tick_run(bytes, pos, search_end, count)
}

fn later_end(bytes: &[u8], pos: usize) -> (r: usize)
    requires
        pos < bytes@.len(),
    ensures
        r == later_scope_end(bytes@, pos as int),
        pos <= r <= bytes@.len(),
{
    let len = bytes.len();
    let mut i = pos;
    while i < len
        invariant
            pos <= i <= len,
            len == bytes@.len(),
            later_scope_end(bytes@, i as int) == later_scope_end(bytes@, pos as int),
        decreases len - i,
    {
        if is_eol(bytes[i]) {
            let next = i + 1;
            let line_end = eol_from(bytes, next);
            let line = vstd::slice::slice_subrange(bytes, next, line_end);
            if is_all_blank(line) {
                return i;
            }
            i = next;
        } else {
            i += 1;
        }
    }
    len
}

/// Whether a backtick run of exactly `count` starts before `pos` in the
/// same paragraph (after a blank line).
pub fn has_earlier_backtick_run(bytes: &[u8], pos: usize, count: usize) -> (r: bool)
    requires
        pos <= bytes@.len(),
    ensures
        r == (pos > 0 && tick_run_at(
            bytes@,
            earlier_scope_start(bytes@, pos as int),
            pos as int,
            count as int,
        )),
{
    if pos == 0 {
        return false;
    }
    let search_start = earlier_start(bytes, pos);
    find_tick_run(bytes, search_start, pos, count)
}

fn earlier_start(bytes: &[u8], pos: usize) -> (r: usize)
    requires
        pos <= bytes@.len(),
    ensures
        r == earlier_scope_start(bytes@, pos as int),
        r <= pos,
{
    let mut i = pos;
    while i > 0
        invariant
            i <= pos <= bytes@.len(),
            earlier_scope_start(bytes@, i as int) == earlier_scope_start(bytes@, pos as int),
        decreases i,
    {
        i -= 1;
        if is_eol(bytes[i]) {
            let j0 = if i > 0 {
                i - 1
            } else {
                0
            };
            let j = line_start_of(bytes, j0);
            let line = vstd::slice::slice_subrange(bytes, j, i);
            if is_all_blank(line) {
                return i + 1;
            }
        }
    }
    0
}

// ---------------------------------------------------------------------
// MDX at line starts and inside tags
// ---------------------------------------------------------------------

/// Whether an MDX flow JSX element or flow expression at the start of
/// `bytes` interrupts a paragraph.
pub fn mdx_block_interrupts(bytes: &[u8], mdx: bool) -> (r: bool)
    requires
        addressable(bytes@),
    ensures
        r == ((mdx && bytes@.len() > 0 && bytes@[0] == 60 && jsx_block_end(bytes@, no_prefix())
            is Some) || (mdx && bytes@.len() > 0 && bytes@[0] == 123 && expr_block_end(
            bytes@,
            no_prefix(),
        ) is Some)),
{
    (mdx && bytes.len() > 0 && bytes[0] == '<' as u8 && scan_mdx_jsx_block(bytes).is_some()) || (
    mdx && bytes.len() > 0 && bytes[0] == '{' as u8 && scan_mdx_expression_block(bytes).is_some())
}

/// Walking back from `ls` to the start of the enclosing block: just after
/// two line endings with only spaces and tabs between them, or 0.
pub open spec fn block_start_back(s: Seq<u8>, ls: int, seen_newline: bool) -> int
    decreases ls,
{
    if ls <= 0 {
        ls
    } else {
        let b = s[ls - 1];
        if spec_is_eol(b) {
            if seen_newline {
                ls
            } else {
                block_start_back(s, ls - 1, true)
            }
        } else {
            block_start_back(
                s,
                ls - 1,
                if !spec_is_blank(b) {
                    false
                } else {
                    seen_newline
                },
            )
        }
    }
}

/// Whether an inline JSX tag opening at `i` reaches past `pos`.
#[verifier::opaque]
pub open spec fn tag_reaches(s: Seq<u8>, i: int, pos: int) -> bool {
    inline_jsx_end(s.subrange(i, s.len() as int), no_prefix()) matches Some(l) && i + l > pos
}

/// From `i` to `pos`: whether some unescaped `<` opens an inline JSX tag
/// that reaches past `pos`.
pub open spec fn open_tag_from(s: Seq<u8>, i: int, pos: int) -> bool
    decreases ahead(pos, i),
{
    if i >= pos {
        false
    } else if s[i] == 92 {
        open_tag_from(s, i + 2, pos)
    } else if s[i] == 60 {
        tag_reaches(s, i, pos) || open_tag_from(s, i + 1, pos)
    } else {
        open_tag_from(s, i + 1, pos)
    }
}

proof fn lemma_open_tag_skip(s: Seq<u8>, i: int, j: int, pos: int)
    requires
        0 <= i <= j <= pos,
        forall|k: int| i <= k < j ==> s[k] != 60 && s[k] != 92,
    ensures
        open_tag_from(s, i, pos) == open_tag_from(s, j, pos),
    decreases j - i,
{
    if i < j {
        lemma_open_tag_skip(s, i + 1, j, pos);
    }
}

/// Whether an inline JSX tag opening at `j` reaches past `pos`.
pub fn jsx_tag_reaches(bytes: &[u8], j: usize, pos: usize) -> (r: bool)
    requires
        j < bytes@.len(),
        addressable(bytes@),
    ensures
        r == tag_reaches(bytes@, j as int, pos as int),
{
    let rest = vstd::slice::slice_subrange(bytes, j, bytes.len());
    let reach = scan_mdx_inline_jsx(rest);
    proof {
        reveal(tag_reaches);
    }
    match reach {
        Some(len) => j + len > pos,
        None => false,
    }
}

fn block_start(bytes: &[u8], pos: usize) -> (r: usize)
    requires
        pos <= bytes@.len(),
    ensures
        r == block_start_back(bytes@, pos as int, false),
        r <= pos,
{
    let mut line_start = pos;
    let mut seen_newline = false;
    while line_start > 0
        invariant
            line_start <= pos <= bytes@.len(),
            block_start_back(bytes@, line_start as int, seen_newline) == block_start_back(
                bytes@,
                pos as int,
                false,
            ),
        decreases line_start,
    {
        let b = bytes[line_start - 1];
        if is_eol(b) {
            if seen_newline {
                return line_start;
            }
            seen_newline = true;
        } else if !is_blank(b) {
            seen_newline = false;
        }
        line_start -= 1;
    }
    line_start
}

/// Whether `pos` falls inside an inline JSX tag that opens earlier in the
/// same block, so that a `{` there belongs to the tag's attributes.
pub fn is_inside_open_inline_jsx_tag(bytes: &[u8], pos: usize) -> (r: bool)
    requires
        addressable(bytes@),
    ensures
        r == (0 < pos <= bytes@.len() && open_tag_from(
            bytes@,
            block_start_back(bytes@, pos as int, false),
            pos as int,
        )),
{
    if pos == 0 || pos > bytes.len() {
        return false;
    }
    let start = block_start(bytes, pos);
    let mut i = start;
    while i < pos
        invariant
            start <= i <= pos,
            0 < pos <= bytes@.len(),
            start == block_start_back(bytes@, pos as int, false),
            addressable(bytes@),
            open_tag_from(bytes@, i as int, pos as int) == open_tag_from(
                bytes@,
                start as int,
                pos as int,
            ),
        decreases pos - i,
    {
        let part = vstd::slice::slice_subrange(bytes, i, pos);
        let rel = match find_either('<' as u8, '\\' as u8, part) {
            Some(rel) => rel,
            None => {
                proof {
                    assert forall|k: int| i <= k < pos implies bytes@[k] != 60 && bytes@[k]
                        != 92 by {
                        assert(bytes@[k] == part@[k - i]);
                    }
                    lemma_open_tag_skip(bytes@, i as int, pos as int, pos as int);
                }
                return false;
            },
        };
        let j = i + rel;
        proof {
            assert forall|k: int| i <= k < j implies bytes@[k] != 60 && bytes@[k] != 92 by {
                assert(bytes@[k] == part@[k - i]);
            }
            assert(bytes@[j as int] == part@[rel as int]);
            lemma_open_tag_skip(bytes@, i as int, j as int, pos as int);
        }
        if bytes[j] == '\\' as u8 {
            if pos - j >= 2 {
                i = j + 2;
            } else {
                assert(!open_tag_from(bytes@, j + 2, pos as int));
                i = pos;
            }
        } else {
            if jsx_tag_reaches(bytes, j, pos) {
                return true;
            }
            i = j + 1;
        }
    }
    false
}

// ---------------------------------------------------------------------
// Link destinations
// ---------------------------------------------------------------------

/// The number of backslashes just before `i`.
pub open spec fn backslash_run(s: Seq<u8>, i: int) -> nat
    decreases i,
{
    if i > 0 && s[i - 1] == 92 {
        1 + backslash_run(s, i - 1)
    } else {
        0
    }
}

/// Whether the byte at `i` is escaped: an odd number of backslashes before it.
pub open spec fn escaped_at(s: Seq<u8>, i: int) -> bool {
    i > 0 && s[i - 1] == 92 && backslash_run(s, i) % 2 == 1
}

fn is_escaped(bytes: &[u8], i: usize) -> (r: bool)
    requires
        i <= bytes@.len(),
    ensures
        r == escaped_at(bytes@, i as int),
{
    if !(i > 0 && bytes[i - 1] == '\\' as u8) {
        return false;
    }
    let mut bs: usize = 0;
    let mut j = i;
    while j > 0 && bytes[j - 1] == '\\' as u8
        invariant
            j <= i <= bytes@.len(),
            bs + backslash_run(bytes@, j as int) == backslash_run(bytes@, i as int),
            bs == i - j,
        decreases j,
    {
        bs += 1;
        j -= 1;
    }
    bs % 2 == 1
}

/// Walking back from `i` on the same line: the unescaped `(` right after a
/// `]` that is not closed before `pos` (`excess` unescaped `)` still to
/// match); `None` at a line ending, the start, or a `(` not after `]`.
pub open spec fn dest_open_back(s: Seq<u8>, i: int, excess: int) -> Option<int>
    decreases i,
{
    if i <= 0 {
        None
    } else {
        let k = i - 1;
        let b = s[k];
        if spec_is_eol(b) {
            None
        } else if escaped_at(s, k) {
            dest_open_back(s, k, excess)
        } else if b == 41 {
            dest_open_back(s, k, excess + 1)
        } else if b == 40 {
            if excess > 0 {
                dest_open_back(s, k, excess - 1)
            } else if k > 0 && s[k - 1] == 93 {
                Some(k)
            } else {
                None
            }
        } else {
            dest_open_back(s, k, excess)
        }
    }
}

/// Walking back from `k` within the paragraph: whether the `]` whose
/// nesting is `depth` finds its unescaped `[` before a blank line or a line
/// that starts a block.
pub open spec fn bracket_opens_back(s: Seq<u8>, k: int, depth: int, just_nl: bool) -> bool
    decreases k,
{
    if k <= 0 {
        false
    } else {
        let m = k - 1;
        let b = s[m];
        if spec_is_eol(b) {
            if just_nl || starts_block(s, m + 1) {
                false
            } else {
                bracket_opens_back(s, m, depth, true)
            }
        } else if spec_is_blank(b) {
            bracket_opens_back(s, m, depth, just_nl)
        } else if escaped_at(s, m) {
            bracket_opens_back(s, m, depth, false)
        } else if b == 93 {
            bracket_opens_back(s, m, depth + 1, false)
        } else if b == 91 {
            if depth - 1 == 0 {
                true
            } else {
                bracket_opens_back(s, m, depth - 1, false)
            }
        } else {
            bracket_opens_back(s, m, depth, false)
        }
    }
}

/// The end of a destination from `j`: where whitespace or an unmatched `)`
/// stops it, and how many `(` are still open there.
pub open spec fn dest_scan(s: Seq<u8>, j: int, depth: int) -> (int, int)
    decreases s.len() + 1 - j,
{
    if !(0 <= j < s.len()) {
        (j, depth)
    } else {
        let b = s[j];
        if b == 32 || b == 9 || b == 10 || b == 13 {
            (j, depth)
        } else if b == 92 && j + 1 < s.len() {
            dest_scan(s, j + 2, depth)
        } else if b == 40 {
            dest_scan(s, j + 1, depth + 1)
        } else if b == 41 {
            if depth == 0 {
                (j, 0)
            } else {
                dest_scan(s, j + 1, depth - 1)
            }
        } else {
            dest_scan(s, j + 1, depth)
        }
    }
}

/// Whether `pos` sits in the destination of an inline link `[…](…)`: a `(`
/// right after a balanced `]` earlier on the line, the destination a run of
/// balanced parentheses with no whitespace, then only spaces and tabs before
/// the closing `)`.
pub open spec fn inside_link_destination(s: Seq<u8>, pos: int) -> bool {
    if pos < 2 || !has_byte(s, line_start_at(s, pos), pos, 40) {
        false
    } else {
        match dest_open_back(s, pos, 0) {
            None => false,
            Some(ps) => bracket_opens_back(s, ps - 1, 1, false) && {
                let (j, d) = dest_scan(s, ps + 1, 0);
                let k = blank_end(s, j);
                d == 0 && k < s.len() && s[k] == 41
            },
        }
    }
}

proof fn lemma_dest_open_back(s: Seq<u8>, i: int, excess: int)
    requires
        0 <= i <= s.len(),
    ensures
        dest_open_back(s, i, excess) matches Some(ps) ==> 1 <= ps < i && s[ps] == 40 && s[ps - 1]
            == 93,
    decreases i,
{
    if i > 0 {
        let k = i - 1;
        let b = s[k];
        if spec_is_eol(b) {
        } else if escaped_at(s, k) {
            lemma_dest_open_back(s, k, excess);
        } else if b == 41 {
            lemma_dest_open_back(s, k, excess + 1);
        } else if b == 40 {
            if excess > 0 {
                lemma_dest_open_back(s, k, excess - 1);
            }
        } else {
            lemma_dest_open_back(s, k, excess);
        }
    }
}

fn find_dest_open(bytes: &[u8], pos: usize) -> (r: Option<usize>)
    requires
        pos <= bytes@.len(),
    ensures
        match r {
            Some(ps) => dest_open_back(bytes@, pos as int, 0) == Some(ps as int),
            None => dest_open_back(bytes@, pos as int, 0) is None,
        },
        r matches Some(ps) ==> 1 <= ps < pos && bytes@[ps as int] == 40 && bytes@[ps - 1] == 93,
{
    proof {
        lemma_dest_open_back(bytes@, pos as int, 0);
    }
    let mut excess: usize = 0;
    let mut i = pos;
    while i > 0
        invariant
            i <= pos <= bytes@.len(),
            excess <= pos - i,
            dest_open_back(bytes@, i as int, excess as int) == dest_open_back(bytes@, pos as int, 0),
        decreases i,
    {
        i -= 1;
        let b = bytes[i];
        if b == '\n' as u8 || b == '\r' as u8 {
            return None;
        }
        if is_escaped(bytes, i) {
            continue;
        }
        if b == ')' as u8 {
            excess += 1;
        } else if b == '(' as u8 {
            if excess > 0 {
                excess -= 1;
            } else if i > 0 && bytes[i - 1] == ']' as u8 {
                return Some(i);
            } else {
                return None;
            }
        }
    }
    None
}

fn bracket_opens(bytes: &[u8], rbracket: usize) -> (r: bool)
    requires
        rbracket < bytes@.len(),
    ensures
        r == bracket_opens_back(bytes@, rbracket as int, 1, false),
{
    let mut k = rbracket;
    let mut depth: usize = 1;
    let mut just_saw_newline = false;
    while k > 0
        invariant
            k <= rbracket < bytes@.len(),
            1 <= depth <= rbracket - k + 1,
            bracket_opens_back(bytes@, k as int, depth as int, just_saw_newline)
                == bracket_opens_back(bytes@, rbracket as int, 1, false),
        decreases k,
    {
        k -= 1;
        let b = bytes[k];
        if b == '\n' as u8 || b == '\r' as u8 {
            if just_saw_newline {
                return false;
            }
            just_saw_newline = true;
            if line_starts_block(bytes, k + 1) {
                return false;
            }
            continue;
        }
        if b == ' ' as u8 || b == '\t' as u8 {
            continue;
        }
        just_saw_newline = false;
        if is_escaped(bytes, k) {
            continue;
        }
        if b == ']' as u8 {
            depth += 1;
        } else if b == '[' as u8 {
            depth -= 1;
            if depth == 0 {
                return true;
            }
        }
    }
    false
}

fn dest_end(bytes: &[u8], start: usize) -> (r: (usize, usize))
    requires
        start <= bytes@.len(),
    ensures
        (r.0 as int, r.1 as int) == dest_scan(bytes@, start as int, 0),
        start <= r.0 <= bytes@.len(),
{
    let len = bytes.len();
    let mut j = start;
    let mut depth: usize = 0;
    while j < len
        invariant
            start <= j <= len,
            len == bytes@.len(),
            depth <= j - start,
            dest_scan(bytes@, j as int, depth as int) == dest_scan(bytes@, start as int, 0),
        decreases len - j,
    {
        let b = bytes[j];
        if b == ' ' as u8 || b == '\t' as u8 || b == '\n' as u8 || b == '\r' as u8 {
            return (j, depth);
        }
        if b == '\\' as u8 && j + 1 < len {
            j += 2;
            continue;
        }
        if b == '(' as u8 {
            depth += 1;
        } else if b == ')' as u8 {
            if depth == 0 {
                return (j, 0);
            }
            depth -= 1;
        }
        j += 1;
    }
    (j, depth)
}

/// Whether `pos` sits in the destination of an inline link `[…](…)`, where
/// an autolink literal must not start.
pub fn is_inside_link_destination(bytes: &[u8], pos: usize) -> (r: bool)
    requires
        pos <= bytes@.len(),
    ensures
        r == inside_link_destination(bytes@, pos as int),
{
    if pos < 2 {
        return false;
    }
    let before = vstd::slice::slice_subrange(bytes, 0, pos);
    let last_eol = rfind_either('\n' as u8, '\r' as u8, before);
    let line_start = match last_eol {
        Some(i) => i + 1,
        None => 0,
    };
    proof {
        assert(before@ == bytes@.subrange(0, pos as int));
        assert forall|k: int| line_start <= k < pos implies !spec_is_eol(#[trigger] bytes@[k]) by {
            assert(bytes@[k] == before@[k]);
        }
        if line_start > 0 {
            assert(bytes@[line_start - 1] == before@[line_start - 1]);
        }
        lemma_line_start_at(bytes@, pos as int);
        lemma_line_start_is_last_eol(bytes@, pos as int, line_start as int);
    }
    if !occurs(bytes, line_start, pos, '(' as u8) {
        return false;
    }
    let paren_start = match find_dest_open(bytes, pos) {
        Some(ps) => ps,
        None => {
            return false;
        },
    };
    if !bracket_opens(bytes, paren_start - 1) {
        return false;
    }
    let (j0, depth) = dest_end(bytes, paren_start + 1);
    if depth != 0 {
        return false;
    }
    let j = skip_blank(bytes, j0);
    j < bytes.len() && bytes[j] == ')' as u8
}

proof fn lemma_line_start_is_last_eol(s: Seq<u8>, pos: int, ls: int)
    requires
        0 <= ls <= pos <= s.len(),
        ls == 0 || spec_is_eol(s[ls - 1]),
        forall|k: int| ls <= k < pos ==> !spec_is_eol(#[trigger] s[k]),
    ensures
        line_start_at(s, pos) == ls,
    decreases pos - ls,
{
    if pos > ls {
        assert(!spec_is_eol(s[pos - 1]));
        lemma_line_start_is_last_eol(s, pos - 1, ls);
    }
}

// ---------------------------------------------------------------------
// Link URL parentheses (MDX)
// ---------------------------------------------------------------------

/// Walking back from `i` on its line with `depth` unmatched `)`: the `(` of
/// a link tail `](` that is left open around the start, if one is met first.
/// A `(` not preceded by `]` is taken as a title's parenthesis and passed.
pub open spec fn url_paren_open(s: Seq<u8>, i: int, depth: int) -> Option<int>
    decreases i,
{
    if i <= 0 {
        None
    } else {
        let k = i - 1;
        let b = s[k];
        if spec_is_eol(b) {
            None
        } else if b == 41 {
            url_paren_open(s, k, depth + 1)
        } else if b == 40 {
            if depth == 0 {
                if k > 0 && s[k - 1] == 93 {
                    Some(k)
                } else {
                    url_paren_open(s, k, 0)
                }
            } else {
                url_paren_open(s, k, depth - 1)
            }
        } else {
            url_paren_open(s, k, depth)
        }
    }
}

/// Walking back from `j` on its line with `depth` unmatched `]`: whether a
/// `[` matches them all.
pub open spec fn bracket_matched_back(s: Seq<u8>, j: int, depth: int) -> bool
    decreases j,
{
    if j <= 0 {
        false
    } else {
        let k = j - 1;
        let b = s[k];
        if spec_is_eol(b) {
            false
        } else if b == 93 {
            bracket_matched_back(s, k, depth + 1)
        } else if b == 91 {
            if depth - 1 == 0 {
                true
            } else {
                bracket_matched_back(s, k, depth - 1)
            }
        } else {
            bracket_matched_back(s, k, depth)
        }
    }
}

/// Whether `pos` sits inside the parentheses of a link tail `[…](…)` that
/// closes well-formed on the same line, where a `{` is URL text and no
/// expression.
pub open spec fn inside_link_url_parens(s: Seq<u8>, pos: int) -> bool {
    if !has_byte(s, line_start_at(s, pos), pos, 40) {
        false
    } else {
        match url_paren_open(s, pos, 0) {
            None => false,
            Some(l) => bracket_matched_back(s, l - 1, 1) && spec_link_tail_well_formed(s, l, pos),
        }
    }
}

proof fn lemma_url_paren_open(s: Seq<u8>, i: int, depth: int)
    requires
        0 <= i <= s.len(),
    ensures
        url_paren_open(s, i, depth) matches Some(l) ==> 1 <= l < i && s[l - 1] == 93,
    decreases i,
{
    if i > 0 {
        let k = i - 1;
        let b = s[k];
        if spec_is_eol(b) {
        } else if b == 41 {
            lemma_url_paren_open(s, k, depth + 1);
        } else if b == 40 {
            if depth == 0 {
                if !(k > 0 && s[k - 1] == 93) {
                    lemma_url_paren_open(s, k, 0);
                }
            } else {
                lemma_url_paren_open(s, k, depth - 1);
            }
        } else {
            lemma_url_paren_open(s, k, depth);
        }
    }
}

fn find_url_paren_open(bytes: &[u8], pos: usize) -> (r: Option<usize>)
    requires
        pos <= bytes@.len(),
    ensures
        match r {
            Some(l) => url_paren_open(bytes@, pos as int, 0) == Some(l as int),
            None => url_paren_open(bytes@, pos as int, 0) is None,
        },
        r matches Some(l) ==> 1 <= l < pos,
{
    proof {
        lemma_url_paren_open(bytes@, pos as int, 0);
    }
    let mut depth: usize = 0;
    let mut i = pos;
    while i > 0
        invariant
            i <= pos <= bytes@.len(),
            depth <= pos - i,
            url_paren_open(bytes@, i as int, depth as int) == url_paren_open(bytes@, pos as int, 0),
        decreases i,
    {
        i -= 1;
        let b = bytes[i];
        if b == '\n' as u8 || b == '\r' as u8 {
            return None;
        }
        if b == ')' as u8 {
            depth += 1;
        } else if b == '(' as u8 {
            if depth == 0 {
                if i > 0 && bytes[i - 1] == ']' as u8 {
                    return Some(i);
                }
            } else {
                depth -= 1;
            }
        }
    }
    None
}

fn brackets_match_back(bytes: &[u8], rbracket: usize) -> (r: bool)
    requires
        rbracket < bytes@.len(),
    ensures
        r == bracket_matched_back(bytes@, rbracket as int, 1),
{
    let mut j = rbracket;
    let mut depth: usize = 1;
    while j > 0
        invariant
            j <= rbracket < bytes@.len(),
            1 <= depth <= rbracket - j + 1,
            bracket_matched_back(bytes@, j as int, depth as int) == bracket_matched_back(
                bytes@,
                rbracket as int,
                1,
            ),
        decreases j,
    {
        j -= 1;
        let b = bytes[j];
        if b == '\n' as u8 || b == '\r' as u8 {
            return false;
        }
        if b == ']' as u8 {
            depth += 1;
        } else if b == '[' as u8 {
            depth -= 1;
            if depth == 0 {
                return true;
            }
        }
    }
    false
}

/// Whether `pos` sits inside the parentheses of a well-formed link tail
/// `[…](…)` on its line.
pub fn is_inside_link_url_parens(bytes: &[u8], pos: usize) -> (r: bool)
    requires
        pos <= bytes@.len(),
    ensures
        r == inside_link_url_parens(bytes@, pos as int),
{
    let line_start = line_start_of(bytes, pos);
    if !occurs(bytes, line_start, pos, '(' as u8) {
        return false;
    }
    match find_url_paren_open(bytes, pos) {
        None => false,
        Some(l) => brackets_match_back(bytes, l - 1) && link_tail_well_formed(bytes, l, pos),
    }
}

// ---------------------------------------------------------------------
// Literal autolink URLs
// ---------------------------------------------------------------------

/// From `j` with `depth` open parentheses of a link destination: where the
/// scan stops (the closing `)` passed, a line ending, or the end) and the
/// depth left there. An escaped punctuation byte is skipped.
pub open spec fn paren_skip(s: Seq<u8>, j: int, depth: int) -> (int, int)
    decreases s.len() - j,
{
    if j < 0 || j >= s.len() || depth <= 0 {
        (j, depth)
    } else if s[j] == 92 && j + 1 < s.len() && spec_is_punct(s[j + 1]) {
        paren_skip(s, j + 2, depth)
    } else if spec_is_eol(s[j]) {
        (j, depth)
    } else if s[j] == 40 {
        paren_skip(s, j + 1, depth + 1)
    } else if s[j] == 41 {
        paren_skip(s, j + 1, depth - 1)
    } else {
        paren_skip(s, j + 1, depth)
    }
}

pub proof fn lemma_paren_skip(s: Seq<u8>, j: int, depth: int)
    requires
        0 <= j <= s.len(),
    ensures
        j <= paren_skip(s, j, depth).0 <= s.len(),
    decreases s.len() - j,
{
    if j < s.len() && depth > 0 {
        if s[j] == 92 && j + 1 < s.len() && spec_is_punct(s[j + 1]) {
            lemma_paren_skip(s, j + 2, depth);
        } else if spec_is_eol(s[j]) {
        } else if s[j] == 40 {
            lemma_paren_skip(s, j + 1, depth + 1);
        } else if s[j] == 41 {
            lemma_paren_skip(s, j + 1, depth - 1);
        } else {
            lemma_paren_skip(s, j + 1, depth);
        }
    }
}

/// Scanning the line forward from `i` towards `pos` with `depth` unbalanced
/// `[`: whether a literal autolink that micromark would tokenize reaches
/// past `pos`. Escaped punctuation is skipped, a closed link text followed
/// by a destination `(…)` is jumped over, and a URL is only looked for
/// outside brackets and outside a link destination.
pub open spec fn gfm_url_covers(s: Seq<u8>, i: int, pos: int, depth: int) -> bool
    decreases s.len() - i,
{
    if i < 0 || i >= pos || pos > s.len() {
        false
    } else {
        let b = s[i];
        if b == 92 && i + 1 < s.len() && spec_is_punct(s[i + 1]) {
            gfm_url_covers(s, i + 2, pos, depth)
        } else {
            let d = if b == 91 {
                depth + 1
            } else if b == 93 && depth > 0 {
                depth - 1
            } else {
                depth
            };
            let skip = paren_skip(s, i + 2, 1);
            if b == 93 && depth == 1 && i + 1 < s.len() && s[i + 1] == 40 && skip.1 == 0 {
                proof {
                    lemma_paren_skip(s, i + 2, 1);
                }
                gfm_url_covers(s, skip.0, pos, 0)
            } else if d == 0 && url_scheme(s, i) is Some && !inside_link_destination(s, i)
                && autolink_raw_end(s, i) is Some {
                let re = autolink_raw_end(s, i).unwrap();
                proof {
                    lemma_autolink_advances(s, i);
                }
                re > pos || gfm_url_covers(s, re, pos, 0)
            } else {
                gfm_url_covers(s, i + 1, pos, d)
            }
        }
    }
}

/// Whether `pos` falls inside a literal autolink URL on its line that
/// micromark's construct would tokenize (no unbalanced `[` before it).
pub open spec fn inside_gfm_autolink_url(s: Seq<u8>, pos: int) -> bool {
    if pos <= 0 || pos >= s.len() {
        false
    } else {
        gfm_url_covers(s, line_start_at(s, pos), pos, 0)
    }
}

fn skip_link_parens(bytes: &[u8], start: usize) -> (r: (usize, usize))
    requires
        1 <= start <= bytes@.len(),
    ensures
        (r.0 as int, r.1 as int) == paren_skip(bytes@, start as int, 1),
{
    let n = bytes.len();
    let mut j = start;
    let mut depth: usize = 1;
    while j < n && depth > 0
        invariant
            1 <= start <= j <= n,
            n == bytes@.len(),
            depth <= j - start + 1,
            paren_skip(bytes@, j as int, depth as int) == paren_skip(bytes@, start as int, 1),
        decreases n - j,
    {
        let c = bytes[j];
        if c == '\\' as u8 && j + 1 < n && is_punct(bytes[j + 1]) {
            j += 2;
            continue;
        }
        if c == '\n' as u8 || c == '\r' as u8 {
            return (j, depth);
        }
        if c == '(' as u8 {
            depth += 1;
        } else if c == ')' as u8 {
            depth -= 1;
        }
        j += 1;
    }
    (j, depth)
}

/// Whether `pos` falls inside a literal autolink URL on its line that
/// micromark's construct would tokenize: then a backtick there is URL text
/// and opens no code span.
pub fn is_inside_gfm_autolink_url(bytes: &[u8], pos: usize) -> (r: bool)
    requires
        bytes@.len() < i64::MAX,
    ensures
        r == inside_gfm_autolink_url(bytes@, pos as int),
{
    if pos == 0 || pos >= bytes.len() {
        return false;
    }
    let n = bytes.len();
    let line_start = line_start_of(bytes, pos);
    let mut depth: usize = 0;
    let mut i = line_start;
    while i < pos
        invariant
            n == bytes@.len() < i64::MAX,
            0 < pos < n,
            i <= n,
            depth <= i,
            gfm_url_covers(bytes@, i as int, pos as int, depth as int) == gfm_url_covers(
                bytes@,
                line_start_at(bytes@, pos as int),
                pos as int,
                0,
            ),
        decreases n - i,
    {
        let b = bytes[i];
        if b == '\\' as u8 && i + 1 < n && is_punct(bytes[i + 1]) {
            i += 2;
            continue;
        }
        if b == '[' as u8 {
            depth += 1;
        } else if b == ']' as u8 && depth > 0 {
            depth -= 1;
            if depth == 0 && i + 1 < n && bytes[i + 1] == '(' as u8 {
                let (j, open) = skip_link_parens(bytes, i + 2);
                if open == 0 {
                    proof {
                        lemma_paren_skip(bytes@, i + 2, 1);
                    }
                    i = j;
                    continue;
                }
            }
        }
        if depth == 0 && has_url_scheme(bytes, i) && !is_inside_link_destination(bytes, i) {
            if let Some((_, raw_end, _, _, _)) = scan_autolink_literal(bytes, i) {
                proof {
                    lemma_autolink_advances(bytes@, i as int);
                }
                if raw_end > pos {
                    return true;
                }
                i = raw_end;
                continue;
            }
        }
        i += 1;
    }
    false
}

// ---------------------------------------------------------------------
// Code spans
// ---------------------------------------------------------------------

/// The end of the run of `c` from `i`, stopping at `end`.
pub open spec fn run_end(s: Seq<u8>, i: int, end: int, c: u8) -> int
    decreases end - i,
{
    if i < end && s[i] == c {
        run_end(s, i + 1, end, c)
    } else {
        i
    }
}

pub proof fn lemma_run_end(s: Seq<u8>, i: int, end: int, c: u8)
    requires
        i <= end,
    ensures
        i <= run_end(s, i, end, c) <= end,
        i < end && s[i] == c ==> run_end(s, i, end, c) > i,
    decreases end - i,
{
    if i < end && s[i] == c {
        lemma_run_end(s, i + 1, end, c);
    }
}

/// The end of the run of `c` from `i`, stopping at `end`.
pub fn run_end_exec(bytes: &[u8], i: usize, end: usize, c: u8) -> (r: usize)
    requires
        i <= end <= bytes@.len(),
    ensures
        r == run_end(bytes@, i as int, end as int, c),
        i <= r <= end,
{
    proof {
        lemma_run_end(bytes@, i as int, end as int, c);
    }
    let mut k = i;
    while k < end && bytes[k] == c
        invariant
            i <= k <= end <= bytes@.len(),
            run_end(bytes@, k as int, end as int, c) == run_end(bytes@, i as int, end as int, c),
        decreases end - k,
    {
        k += 1;
    }
    k
}

/// The backtick runs of `s[i..end]` as `(start, length, bracket depth)`:
/// escaped bytes are skipped, and `[`/`]` track how deep in link text
/// (or a directive label) each run opens, starting from `depth`.
pub open spec fn code_runs(s: Seq<u8>, i: int, end: int, depth: int) -> Seq<(int, int, int)>
    decreases end - i,
{
    if i >= end {
        Seq::empty()
    } else if s[i] == 92 && i + 1 < end {
        code_runs(s, i + 2, end, depth)
    } else if s[i] == 91 {
        code_runs(s, i + 1, end, depth + 1)
    } else if s[i] == 93 && depth > 0 {
        code_runs(s, i + 1, end, depth - 1)
    } else if s[i] == 96 {
        let e = run_end(s, i, end, 96);
        proof {
            lemma_run_end(s, i, end, 96);
        }
        seq![(i, e - i, depth)] + code_runs(s, e, end, depth)
    } else {
        code_runs(s, i + 1, end, depth)
    }
}

/// The first run from `b` on, not yet paired, with the length and depth of
/// run `a`.
pub open spec fn partner(runs: Seq<(int, int, int)>, a: int, b: int, paired: Seq<bool>) -> Option<
    int,
>
    decreases runs.len() - b,
{
    if b < 0 || b >= runs.len() {
        None
    } else if !paired[b] && runs[b].1 == runs[a].1 && runs[b].2 == runs[a].2 {
        Some(b)
    } else {
        partner(runs, a, b + 1, paired)
    }
}

/// Pairing the runs first-fit from `a` on (each unpaired run with the next
/// unpaired run of the same length and depth): whether `pos` falls between
/// the two runs of some pair.
pub open spec fn pairs_cover(runs: Seq<(int, int, int)>, a: int, paired: Seq<bool>, pos: int) -> bool
    decreases runs.len() - a,
{
    if a < 0 || a >= runs.len() {
        false
    } else if paired[a] {
        pairs_cover(runs, a + 1, paired, pos)
    } else {
        match partner(runs, a, a + 1, paired) {
            None => pairs_cover(runs, a + 1, paired, pos),
            Some(b) => (runs[a].0 + runs[a].1 <= pos < runs[b].0) || pairs_cover(
                runs,
                a + 1,
                paired.update(a, true).update(b, true),
                pos,
            ),
        }
    }
}

/// The runs as integers.
pub open spec fn runs_view(v: Seq<(usize, usize, usize)>) -> Seq<(int, int, int)> {
    v.map_values(|t: (usize, usize, usize)| (t.0 as int, t.1 as int, t.2 as int))
}

/// Whether `pos` falls inside a code span of its inline scope: between two
/// backtick runs of one length and bracket depth that pair first-fit.
pub open spec fn inside_code_span(s: Seq<u8>, pos: int) -> bool {
    let (ps, pe) = spec_scope_for_inline(s, pos);
    if pos <= ps || pos >= pe || !has_byte(s, ps, pos, 96) || !has_byte(s, pos, pe, 96) {
        false
    } else {
        let runs = code_runs(s, ps, pe, 0);
        runs.len() >= 2 && pairs_cover(runs, 0, Seq::new(runs.len(), |i: int| false), pos)
    }
}

fn collect_code_runs(bytes: &[u8], start: usize, end: usize) -> (r: Vec<(usize, usize, usize)>)
    requires
        start <= end <= bytes@.len(),
    ensures
        runs_view(r@) == code_runs(bytes@, start as int, end as int, 0),
{
    let ghost s = bytes@;
    let mut runs: Vec<(usize, usize, usize)> = Vec::new();
    let mut depth: usize = 0;
    let mut i = start;
    proof {
        assert(runs_view(runs@) =~= Seq::<(int, int, int)>::empty());
    }
    while i < end
        invariant
            start <= i <= end <= s.len(),
            s == bytes@,
            depth <= i - start,
            runs_view(runs@) + code_runs(s, i as int, end as int, depth as int) == code_runs(
                s,
                start as int,
                end as int,
                0,
            ),
        decreases end - i,
    {
        let b = bytes[i];
        if b == '\\' as u8 && i + 1 < end {
            i += 2;
        } else if b == '[' as u8 {
            depth += 1;
            i += 1;
        } else if b == ']' as u8 && depth > 0 {
            depth -= 1;
            i += 1;
        } else if b == '`' as u8 {
            let st = i;
            i = run_end_exec(bytes, st, end, '`' as u8);
            proof {
                lemma_run_end(s, st as int, end as int, 96);
            }
            let ghost before = runs@;
            runs.push((st, i - st, depth));
            proof {
                let rest = code_runs(s, i as int, end as int, depth as int);
                assert(runs_view(runs@) =~= runs_view(before) + seq![
                    (st as int, (i - st) as int, depth as int),
                ]);
                assert(runs_view(runs@) + rest =~= runs_view(before) + (seq![
                    (st as int, (i - st) as int, depth as int),
                ] + rest));
            }
        } else {
            i += 1;
        }
    }
    proof {
        assert(runs_view(runs@) + code_runs(s, i as int, end as int, depth as int) =~= runs_view(
            runs@,
        ));
    }
    runs
}

fn find_partner(runs: &Vec<(usize, usize, usize)>, paired: &Vec<bool>, a: usize) -> (r: Option<
    usize,
>)
    requires
        a < runs@.len() == paired@.len(),
    ensures
        match r {
            Some(b) => partner(runs_view(runs@), a as int, a + 1, paired@) == Some(b as int) && a
                < b < runs@.len(),
            None => partner(runs_view(runs@), a as int, a + 1, paired@) is None,
        },
{
    let ghost rv = runs_view(runs@);
    let n = runs.len();
    let mut b = a + 1;
    while b < runs.len()
        invariant
            a < b <= runs@.len() == paired@.len(),
            rv == runs_view(runs@),
            partner(rv, a as int, b as int, paired@) == partner(rv, a as int, a + 1, paired@),
        decreases runs@.len() - b,
    {
        if !paired[b] && runs[b].1 == runs[a].1 && runs[b].2 == runs[a].2 {
            return Some(b);
        }
        b += 1;
    }
    None
}

fn pair_covers(runs: &Vec<(usize, usize, usize)>, pos: usize) -> (r: bool)
    ensures
        r == pairs_cover(
            runs_view(runs@),
            0,
            Seq::new(runs@.len(), |i: int| false),
            pos as int,
        ),
{
    let ghost rv = runs_view(runs@);
    let mut paired: Vec<bool> = Vec::new();
    let mut k: usize = 0;
    while k < runs.len()
        invariant
            k <= runs@.len(),
            paired@ =~= Seq::new(k as nat, |i: int| false),
        decreases runs@.len() - k,
    {
        paired.push(false);
        k += 1;
    }
    let mut a: usize = 0;
    while a < runs.len()
        invariant
            a <= runs@.len() == paired@.len(),
            rv == runs_view(runs@),
            pairs_cover(rv, a as int, paired@, pos as int) == pairs_cover(
                rv,
                0,
                Seq::new(runs@.len(), |i: int| false),
                pos as int,
            ),
        decreases runs@.len() - a,
    {
        if !paired[a] {
            match find_partner(runs, &paired, a) {
                None => {},
                Some(b) => {
                    let (st, len, _) = runs[a];
                    if pos >= st && pos - st >= len && pos < runs[b].0 {
                        return true;
                    }
                    paired.set(a, true);
                    paired.set(b, true);
                },
            }
        }
        a += 1;
    }
    false
}

/// Whether `pos` sits inside a code span: within its inline scope, between
/// two backtick runs that pair up (same length, same `[` depth, first
/// fit), so that what is there is code text.
pub fn is_inside_code_span(bytes: &[u8], pos: usize) -> (r: bool)
    requires
        pos <= bytes@.len(),
    ensures
        r == inside_code_span(bytes@, pos as int),
{
    let (ps, pe) = scope_for_inline(bytes, pos);
    if pos <= ps || pos >= pe || !occurs(bytes, ps, pos, '`' as u8) || !occurs(
        bytes,
        pos,
        pe,
        '`' as u8,
    ) {
        return false;
    }
    let runs = collect_code_runs(bytes, ps, pe);
    if runs.len() < 2 {
        return false;
    }
    pair_covers(&runs, pos)
}

proof fn lemma_spaces4_end_at(s: Seq<u8>, pos: int, i: int, n: int)
    requires
        0 <= pos + n <= i,
        0 <= n <= 4,
        i - pos <= 3,
        i < s.len(),
        s[i] != 32,
        forall|k: int| pos + n <= k < i ==> s[k] == 32,
    ensures
        spaces4_end(s, pos + n, n) == i,
    decreases 4 - n,
{
    if pos + n < i {
        lemma_spaces4_end_at(s, pos, i, n + 1);
    }
}

proof fn lemma_run_of_at_least3(s: Seq<u8>, i: int, c: u8)
    requires
        0 <= i,
        i + 3 <= s.len(),
        s[i] == c && s[i + 1] == c && s[i + 2] == c,
    ensures
        run_of(s, i, c) >= 3,
{
    assert(run_of(s, i + 2, c) >= 1);
    assert(run_of(s, i + 1, c) >= 2);
}

/// A line whose first byte after at most three spaces begins a run of at
/// least three backticks or three tildes (a code fence), or is a `>` (a
/// block quote), starts a block.
pub proof fn lemma_fence_or_quote_starts_block(s: Seq<u8>, pos: int, i: int)
    requires
        0 <= pos <= i < s.len(),
        i - pos <= 3,
        forall|k: int| pos <= k < i ==> s[k] == 32,
        s[i] == 62 || ((s[i] == 96 || s[i] == 126) && i + 3 <= s.len() && s[i + 1] == s[i] && s[i
            + 2] == s[i]),
    ensures
        starts_block(s, pos),
{
    lemma_spaces4_end_at(s, pos, i, 0);
    if s[i] != 62 {
        lemma_run_of_at_least3(s, i, s[i]);
    }
}

/// A line indented by four spaces starts a block.
pub proof fn lemma_indented_line_starts_block(s: Seq<u8>, pos: int)
    requires
        0 <= pos,
        pos + 4 <= s.len(),
        s[pos] == 32 && s[pos + 1] == 32 && s[pos + 2] == 32 && s[pos + 3] == 32,
    ensures
        starts_block(s, pos),
{
    reveal_with_fuel(spaces4_end, 5);
}

/// A line whose first byte after at most three spaces is `-`, `+` or `*`
/// followed by a space or a tab (a bullet list marker) starts a block.
pub proof fn lemma_bullet_starts_block(s: Seq<u8>, pos: int, i: int)
    requires
        0 <= pos <= i,
        i + 1 < s.len(),
        i - pos <= 3,
        forall|k: int| pos <= k < i ==> s[k] == 32,
        s[i] == 45 || s[i] == 43 || s[i] == 42,
        s[i + 1] == 32 || s[i + 1] == 9,
    ensures
        starts_block(s, pos),
{
    lemma_spaces4_end_at(s, pos, i, 0);
}

/// A line that, after at most three spaces, holds only a byte that is none
/// of `>`, `#`, `` ` ``, `~`, `-`, `+`, `*`, `_` or a digit does not start a
/// block.
pub proof fn lemma_text_line_does_not_start_block(s: Seq<u8>, pos: int, i: int)
    requires
        0 <= pos <= i < s.len(),
        i - pos <= 3,
        forall|k: int| pos <= k < i ==> s[k] == 32,
        !(s[i] == 62 || s[i] == 35 || s[i] == 96 || s[i] == 126 || s[i] == 45 || s[i] == 43
            || s[i] == 42 || s[i] == 95 || (48 <= s[i] <= 57) || s[i] == 32),
    ensures
        !starts_block(s, pos),
{
    lemma_spaces4_end_at(s, pos, i, 0);
    assert(digit_run(s, i, 0) == 0);
}

proof fn lemma_hash_run_at(s: Seq<u8>, i: int, h: int, k: int)
    requires
        0 <= i,
        0 <= k <= h <= 6,
        i + h <= s.len(),
        forall|j: int| i <= j < i + h ==> s[j] == 35,
        i + h == s.len() || s[i + h] != 35,
    ensures
        hash_run(s, i, k) == h,
    decreases h - k,
{
    if k < h {
        lemma_hash_run_at(s, i, h, k + 1);
    }
}

/// A line whose first byte after at most three spaces begins one to six
/// `#` followed by a blank, a line ending or the end (an ATX heading)
/// starts a block; seven `#`, or `#` followed by other text, do not.
pub proof fn lemma_atx_heading_starts_block(s: Seq<u8>, pos: int, i: int, h: int)
    requires
        0 <= pos <= i,
        i - pos <= 3,
        1 <= h <= 6,
        i + h <= s.len(),
        forall|k: int| pos <= k < i ==> s[k] == 32,
        forall|j: int| i <= j < i + h ==> s[j] == 35,
    ensures
        (i + h == s.len() || s[i + h] == 32 || s[i + h] == 9 || s[i + h] == 10 || s[i + h] == 13)
            ==> starts_block(s, pos),
        (i + h < s.len() && s[i + h] != 35 && s[i + h] != 32 && s[i + h] != 9 && s[i + h] != 10
            && s[i + h] != 13) ==> !starts_block(s, pos),
{
    lemma_spaces4_end_at(s, pos, i, 0);
    if i + h == s.len() || s[i + h] != 35 {
        lemma_hash_run_at(s, i, h, 0);
    }
}

/// A line whose first byte after at most three spaces is a digit followed
/// by `.` or `)` and a blank (an ordered list marker) starts a block, and so
/// does a line of exactly three `*`, `-` or `_` (a thematic break).
pub proof fn lemma_ordered_marker_or_break_starts_block(s: Seq<u8>, pos: int, i: int)
    requires
        0 <= pos <= i,
        i - pos <= 3,
        forall|k: int| pos <= k < i ==> s[k] == 32,
        i + 3 <= s.len(),
        ((48 <= s[i] <= 57) && (s[i + 1] == 46 || s[i + 1] == 41) && (s[i + 2] == 32 || s[i + 2]
            == 9)) || ((s[i] == 42 || s[i] == 45 || s[i] == 95) && s[i + 1] == s[i] && s[i + 2]
            == s[i] && (i + 3 == s.len() || s[i + 3] == 10 || s[i + 3] == 13)),
    ensures
        starts_block(s, pos),
{
    lemma_spaces4_end_at(s, pos, i, 0);
    if 48 <= s[i] <= 57 {
        assert(digit_run(s, i, 1) == 1);
    } else {
        let c = s[i];
        assert(thematic_count(s, i + 3, c) == Some(0int));
        assert(thematic_count(s, i + 2, c) == Some(1int));
        assert(thematic_count(s, i + 1, c) == Some(2int));
        assert(thematic_count(s, i, c) == Some(3int));
    }
}

} // verus!
