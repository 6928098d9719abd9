//! Where a block's mdast position ends: the trailing line terminators that
//! remark leaves out of a block, and the marker-only lines that a nested
//! block quote or a list inside a block quote takes in.
//!
//! The first-pass tree is read through plain values: the kind of the block
//! and of its parent, whether it has a next sibling, how many block quotes
//! enclose it, and where the next sibling starts.

use vstd::prelude::*;
use crate::ascii::{spec_is_eol, spec_is_blank, spec_is_digit, is_eol, is_blank, is_digit};

verus! {

/// What `mdast_position_end` needs to know of a block's kind.
#[derive(Clone, Copy, Debug, PartialEq, Eq, Structural)]
pub enum BlockKind {
    /// A math block.
    Math,
    /// A fenced code block.
    FencedCode,
    /// Any other block-level item.
    OtherBlock,
    /// An item that is not block-level.
    Inline,
}

/// What `mdast_position_end` needs to know of the enclosing block.
#[derive(Clone, Copy, Debug, PartialEq, Eq, Structural)]
pub enum ParentKind {
    BlockQuote,
    ListItem,
    Other,
    /// The block sits at the top level.
    Root,
}

/// The end of the run of ASCII digits from `p`.
pub open spec fn digits_end(s: Seq<u8>, p: int) -> int
    decreases s.len() - p,
{
    if 0 <= p < s.len() && spec_is_digit(s[p]) {
        digits_end(s, p + 1)
    } else {
        p
    }
}

/// A container marker starts at `e`: `-`, `*`, `+`, `>`, or digits then
/// `.` or `)`.
pub open spec fn container_marker_at(s: Seq<u8>, e: int) -> bool {
    0 <= e < s.len() && (s[e] == 45 || s[e] == 42 || s[e] == 43 || s[e] == 62 || (spec_is_digit(
        s[e],
    ) && digits_end(s, e + 1) < s.len() && (s[digits_end(s, e + 1)] == 46 || s[digits_end(
        s,
        e + 1,
    )] == 41)))
}

/// The block ends with one line terminator (not two), inside a list item,
/// and the next line opens a container.
pub open spec fn next_line_opens_container(s: Seq<u8>, end: int, parent: ParentKind) -> bool {
    &&& end > 1
    &&& end - 1 < s.len() && spec_is_eol(s[end - 1])
    &&& !(end - 2 < s.len() && spec_is_eol(s[end - 2]))
    &&& parent == ParentKind::ListItem
    &&& container_marker_at(s, end)
}

/// `e` with line terminators before it dropped, not below `start`; only
/// one when `single`.
pub open spec fn trim_eols(s: Seq<u8>, start: int, e: int, single: bool) -> int
    decreases e - start,
{
    if e > start && e - 1 < s.len() && spec_is_eol(s[e - 1]) {
        if single {
            e - 1
        } else {
            trim_eols(s, start, e - 1, single)
        }
    } else {
        e
    }
}

/// The mdast end of a block that spans `start..end` of `s`: line
/// terminators at its end are left out (one only for math and fenced code),
/// except that math and fenced code keep them at the end of the input
/// (unless inside a block quote) and when, unclosed in a list item, the
/// next line opens a container. Items that are not block-level keep `end`.
pub open spec fn spec_mdast_end(s: Seq<u8>, start: int, end: int, kind: BlockKind, parent: ParentKind) -> int {
    let is_math = kind == BlockKind::Math;
    let is_fenced = kind == BlockKind::FencedCode;
    let at_eof = end >= s.len();
    let in_bq = parent == ParentKind::BlockQuote;
    let opens = next_line_opens_container(s, end, parent);
    let keep = ((is_math || is_fenced) && (at_eof || opens)) && !((is_math || is_fenced) && at_eof
        && in_bq);
    if kind == BlockKind::Inline || keep {
        end
    } else {
        trim_eols(s, start, end, is_math || is_fenced)
    }
}

proof fn lemma_trim_eols(s: Seq<u8>, start: int, e: int, single: bool)
    requires
        start <= e,
    ensures
        start <= trim_eols(s, start, e, single) <= e,
    decreases e - start,
{
    if e > start && e - 1 < s.len() && spec_is_eol(s[e - 1]) && !single {
        lemma_trim_eols(s, start, e - 1, single);
    }
}

fn digits_end_exec(s: &[u8], p: usize) -> (r: usize)
    requires
        p <= s@.len(),
    ensures
        r == digits_end(s@, p as int),
        p <= r <= s@.len(),
{
    let mut q = p;
    while q < s.len() && is_digit(s[q])
        invariant
            p <= q <= s@.len(),
            digits_end(s@, q as int) == digits_end(s@, p as int),
        decreases s@.len() - q,
    {
        q += 1;
    }
    q
}

fn container_marker_at_exec(s: &[u8], e: usize) -> (r: bool)
    ensures
        r == container_marker_at(s@, e as int),
{
    if e >= s.len() {
        return false;
    }
    let c = s[e];
    if c == '-' as u8 || c == '*' as u8 || c == '+' as u8 || c == '>' as u8 {
        return true;
    }
    if is_digit(c) {
        let p = digits_end_exec(s, e + 1);
        return p < s.len() && (s[p] == '.' as u8 || s[p] == ')' as u8);
    }
    false
}

/// Computes the mdast `position.end` byte offset of a block item that
/// spans `start..end` of `source`, given its kind and its parent's.
pub fn mdast_position_end(start: u32, end: u32, kind: BlockKind, parent: ParentKind, source: &[u8]) -> (r: u32)
    requires
        start <= end,
    ensures
        r == spec_mdast_end(source@, start as int, end as int, kind, parent),
{
    if kind == BlockKind::Inline {
        return end;
    }
    let n = source.len();
    let is_math = kind == BlockKind::Math;
    let is_fenced = kind == BlockKind::FencedCode;
    let at_eof = end as usize >= n;
    let in_bq = parent == ParentKind::BlockQuote;
    let e1 = end as usize;
    let opens = e1 > 1 && e1 - 1 < n && is_eol(source[e1 - 1]) && !(e1 - 2 < n && is_eol(
        source[e1 - 2],
    )) && parent == ParentKind::ListItem && container_marker_at_exec(source, e1);
    let keep = ((is_math || is_fenced) && (at_eof || opens)) && !((is_math || is_fenced) && at_eof
        && in_bq);
    if keep {
        return end;
    }
    let single = is_math || is_fenced;
    if single {
        if end > start && ((end - 1) as usize) < n && is_eol(source[(end - 1) as usize]) {
            return end - 1;
        }
        return end;
    }
    let mut e = end;
    proof {
        lemma_trim_eols(source@, start as int, end as int, single);
    }
    while e > start && ((e - 1) as usize) < n && is_eol(source[(e - 1) as usize])
        invariant
            start <= e <= end,
            !single,
            n == source@.len(),
            trim_eols(source@, start as int, e as int, single) == trim_eols(
                source@,
                start as int,
                end as int,
                single,
            ),
        decreases e,
    {
        e -= 1;
    }
    e
}

// ---------------------------------------------------------------------
// Marker-only lines after a nested block quote
// ---------------------------------------------------------------------

/// Past one line terminator (`\r\n`, `\r` or `\n`) at `pos`, if one is
/// there.
pub open spec fn eol_skip(s: Seq<u8>, pos: int) -> int {
    if 0 <= pos < s.len() && s[pos] == 13 {
        if pos + 1 < s.len() && s[pos + 1] == 10 {
            pos + 2
        } else {
            pos + 1
        }
    } else if 0 <= pos < s.len() && s[pos] == 10 {
        pos + 1
    } else {
        pos
    }
}

/// Past the spaces and tabs from `p`.
pub open spec fn blanks_end(s: Seq<u8>, p: int) -> int
    decreases s.len() - p,
{
    if 0 <= p < s.len() && spec_is_blank(s[p]) {
        blanks_end(s, p + 1)
    } else {
        p
    }
}

/// Reading up to `k` block-quote markers (`>`, each after optional blanks)
/// from `scan`, `m` of them read so far: where the reading stops and how
/// many markers it read.
pub open spec fn markers_end(s: Seq<u8>, scan: int, m: int, k: int) -> (int, int)
    decreases s.len() - scan,
{
    if m < k && 0 <= scan < s.len() {
        let s2 = blanks_end(s, scan);
        if scan <= s2 < s.len() && s[s2] == 62 {
            markers_end(s, s2 + 1, m + 1, k)
        } else {
            (s2, m)
        }
    } else {
        (scan, m)
    }
}

/// The walk over the lines after a nested block quote that ends at `pos`:
/// each line that carries the `k` outer markers, then neither another `>`
/// nor content, moves the end to just after its markers (`acc`); the
/// first other line, or the end of the input, stops the walk.
pub open spec fn inner_bq_walk(s: Seq<u8>, k: int, pos: int, acc: Option<int>) -> Option<int>
    decreases s.len() - pos,
{
    if pos < 0 || pos >= s.len() {
        acc
    } else {
        let q = eol_skip(s, pos);
        let (scan, m) = markers_end(s, q, 0, k);
        let p = blanks_end(s, scan);
        if q >= s.len() || m < k {
            acc
        } else if p < s.len() && (s[p] == 62 || !spec_is_eol(s[p])) {
            acc
        } else if p <= pos || p > s.len() {
            acc
        } else {
            inner_bq_walk(s, k, p, Some(scan))
        }
    }
}

proof fn lemma_blanks_end(s: Seq<u8>, p: int)
    requires
        0 <= p,
    ensures
        p <= blanks_end(s, p),
        p <= s.len() ==> blanks_end(s, p) <= s.len(),
        !(blanks_end(s, p) < s.len() && spec_is_blank(s[blanks_end(s, p)])),
        blanks_end(s, blanks_end(s, p)) == blanks_end(s, p),
    decreases s.len() - p,
{
    if 0 <= p < s.len() && spec_is_blank(s[p]) {
        lemma_blanks_end(s, p + 1);
    }
}

proof fn lemma_markers_end(s: Seq<u8>, scan: int, m: int, k: int)
    requires
        0 <= scan <= s.len(),
    ensures
        scan <= markers_end(s, scan, m, k).0 <= s.len(),
        m <= markers_end(s, scan, m, k).1,
        markers_end(s, scan, m, k).1 > m ==> markers_end(s, scan, m, k).0 > scan,
    decreases s.len() - scan,
{
    if m < k && 0 <= scan < s.len() {
        lemma_blanks_end(s, scan);
        let s2 = blanks_end(s, scan);
        if s2 < s.len() && s[s2] == 62 {
            lemma_markers_end(s, s2 + 1, m + 1, k);
        }
    }
}

fn blanks_end_exec(s: &[u8], p: usize) -> (r: usize)
    requires
        p <= s@.len(),
    ensures
        r == blanks_end(s@, p as int),
        p <= r <= s@.len(),
{
    let mut q = p;
    while q < s.len() && is_blank(s[q])
        invariant
            p <= q <= s@.len(),
            blanks_end(s@, q as int) == blanks_end(s@, p as int),
        decreases s@.len() - q,
    {
        q += 1;
    }
    q
}

fn eol_skip_exec(s: &[u8], pos: usize) -> (r: usize)
    requires
        pos <= s@.len(),
    ensures
        r == eol_skip(s@, pos as int),
        pos <= r <= s@.len(),
{
    if pos < s.len() && s[pos] == '\r' as u8 {
        if pos + 1 < s.len() && s[pos + 1] == '\n' as u8 {
            pos + 2
        } else {
            pos + 1
        }
    } else if pos < s.len() && s[pos] == '\n' as u8 {
        pos + 1
    } else {
        pos
    }
}

fn markers_end_exec(s: &[u8], start: usize, k: usize) -> (r: (usize, usize))
    requires
        start <= s@.len(),
    ensures
        (r.0 as int, r.1 as int) == markers_end(s@, start as int, 0, k as int),
{
    let mut scan = start;
    let mut m: usize = 0;
    proof {
        lemma_markers_end(s@, start as int, 0, k as int);
    }
    while m < k && scan < s.len()
        invariant
            start <= scan <= s@.len(),
            m <= k,
            markers_end(s@, scan as int, m as int, k as int) == markers_end(
                s@,
                start as int,
                0,
                k as int,
            ),
        decreases s@.len() - scan,
    {
        let s2 = blanks_end_exec(s, scan);
        if s2 < s.len() && s[s2] == '>' as u8 {
            scan = s2 + 1;
            m += 1;
        } else {
            scan = s2;
            proof {
                lemma_blanks_end(s@, scan as int);
            }
            return (scan, m);
        }
    }
    (scan, m)
}

/// A nested block quote (one inside `outer_bq_count` block quotes, with no
/// next sibling) whose content ends at `cont_end` takes in the lines after
/// it that carry the outer markers but neither its own `>` nor content:
/// its end moves to just after the markers of the last such line. `None`
/// when no line is taken in, or the block is no such block quote.
pub fn extend_inner_blockquote_through_outer_markers(
    is_blockquote: bool,
    has_next: bool,
    outer_bq_count: usize,
    source: &[u8],
    cont_end: u32,
) -> (r: Option<u32>)
    requires
        source@.len() <= u32::MAX,
    ensures
        !is_blockquote || has_next || outer_bq_count == 0 ==> r is None,
        is_blockquote && !has_next && outer_bq_count > 0 ==> match inner_bq_walk(
            source@,
            outer_bq_count as int,
            cont_end as int,
            None,
        ) {
            Some(e) => r == Some(e as u32),
            None => r is None,
        },
{
    if !is_blockquote || has_next || outer_bq_count == 0 {
        return None;
    }
    let n = source.len();
    let k = outer_bq_count;
    let mut pos = cont_end as usize;
    let mut new_end: Option<u32> = None;
    let ghost s = source@;
    while pos < n
        invariant
            n == s.len(),
            s == source@,
            s.len() <= u32::MAX,
            is_blockquote && !has_next && outer_bq_count > 0,
            k == outer_bq_count,
            match new_end {
                Some(e) => inner_bq_walk(s, k as int, pos as int, Some(e as int)),
                None => inner_bq_walk(s, k as int, pos as int, None),
            } == inner_bq_walk(s, k as int, cont_end as int, None),
            new_end matches Some(e) ==> e <= n,
        decreases n - pos,
    {
        let ghost acc = match new_end {
            Some(e) => Some(e as int),
            None => None::<int>,
        };
        let q = eol_skip_exec(source, pos);
        if q >= n {
            return new_end;
        }
        let (scan, m) = markers_end_exec(source, q, k);
        proof {
            lemma_markers_end(s, q as int, 0, k as int);
        }
        if m < k {
            return new_end;
        }
        let p = blanks_end_exec(source, scan);
        if p < n && (source[p] == '>' as u8 || !is_eol(source[p])) {
            return new_end;
        }
        proof {
            assert(p > pos);
            assert(inner_bq_walk(s, k as int, pos as int, acc) == inner_bq_walk(
                s,
                k as int,
                p as int,
                Some(scan as int),
            ));
        }
        new_end = Some(scan as u32);
        pos = p;
    }
    new_end
}

// ---------------------------------------------------------------------
// Marker lines after a list inside block quotes
// ---------------------------------------------------------------------

/// The columns of indentation from `ws`, `cols` counted so far: spaces
/// count one, tabs reach the next multiple of four; the count stops once
/// it reaches four.
pub open spec fn indent_cols(s: Seq<u8>, ws: int, cols: int) -> int
    decreases s.len() - ws,
{
    if 0 <= ws < s.len() && spec_is_blank(s[ws]) && cols < 4 {
        indent_cols(
            s,
            ws + 1,
            cols + if s[ws] == 9 {
                4 - cols % 4
            } else {
                1
            },
        )
    } else {
        cols
    }
}

/// The walk over the lines after a list inside `k` block quotes, from
/// `pos` up to `next_start`: a line indented less than four columns that
/// carries the `k` markers and nothing else moves the end past its blanks;
/// the first such line that holds a deeper `>` instead moves the end to
/// just after the markers and stops; anything else stops.
pub open spec fn list_bq_walk(
    s: Seq<u8>,
    k: int,
    next_start: int,
    pos: int,
    new_end: int,
    saw_blank: bool,
) -> int
    decreases s.len() - pos,
{
    let q = eol_skip(s, pos);
    let (scan, m) = markers_end(s, q, 0, k);
    let p = blanks_end(s, scan);
    if pos < 0 || pos >= next_start || q >= next_start {
        new_end
    } else if indent_cols(s, q, 0) >= 4 || m < k {
        new_end
    } else if p >= s.len() || spec_is_eol(s[p]) {
        if p <= pos || p > s.len() {
            new_end
        } else {
            list_bq_walk(s, k, next_start, p, p, true)
        }
    } else if !saw_blank && s[p] == 62 {
        scan
    } else {
        new_end
    }
}

fn indent_reaches_four(s: &[u8], pos: usize) -> (r: bool)
    requires
        pos <= s@.len(),
    ensures
        r == (indent_cols(s@, pos as int, 0) >= 4),
{
    let mut cols: usize = 0;
    let mut ws = pos;
    while ws < s.len() && is_blank(s[ws]) && cols < 4
        invariant
            pos <= ws <= s@.len(),
            cols < 8,
            indent_cols(s@, ws as int, cols as int) == indent_cols(s@, pos as int, 0),
        decreases s@.len() - ws,
    {
        cols = cols + if s[ws] == '\t' as u8 {
            4 - (cols % 4)
        } else {
            1
        };
        ws += 1;
    }
    cols >= 4
}

/// A list inside `bq_count` block quotes (and in no list item) whose
/// content ends at `cont_end` takes in the blank marker lines before its
/// next sibling, which starts at `next_start`: its end moves past the
/// blanks of the last such line, or, when the first line after it holds a
/// deeper `>`, to just after that line's markers. `None` when the end does
/// not move, or the block is no such list.
pub fn extend_list_in_blockquote_through_marker_lines(
    is_list: bool,
    bq_count: usize,
    in_list_item: bool,
    next_start: usize,
    source: &[u8],
    cont_end: u32,
) -> (r: Option<u32>)
    requires
        source@.len() <= u32::MAX,
    ensures
        !is_list || bq_count == 0 || in_list_item || next_start <= cont_end ==> r is None,
        is_list && bq_count > 0 && !in_list_item && next_start > cont_end ==> {
            let e = list_bq_walk(
                source@,
                bq_count as int,
                next_start as int,
                cont_end as int,
                cont_end as int,
                false,
            );
            if e > cont_end {
                r == Some(e as u32)
            } else {
                r is None
            }
        },
{
    if !is_list || bq_count == 0 || in_list_item || next_start <= cont_end as usize {
        return None;
    }
    let n = source.len();
    let k = bq_count;
    let ghost s = source@;
    let ghost total = list_bq_walk(s, k as int, next_start as int, cont_end as int, cont_end as int, false);
    let mut pos = cont_end as usize;
    let mut new_end: usize = cont_end as usize;
    let mut saw_blank = false;
    while pos < next_start
        invariant
            n == s.len(),
            s == source@,
            s.len() <= u32::MAX,
            k == bq_count,
            k > 0,
            new_end <= u32::MAX,
            list_bq_walk(s, k as int, next_start as int, pos as int, new_end as int, saw_blank)
                == total,
        ensures
            new_end == total,
            new_end <= u32::MAX,
        decreases n + 1 - pos,
    {
        if pos > n {
            break;
        }
        let q = eol_skip_exec(source, pos);
        let (scan, m) = markers_end_exec(source, q, k);
        proof {
            lemma_markers_end(s, q as int, 0, k as int);
        }
        if q >= next_start {
            break;
        }
        if indent_reaches_four(source, q) || m < k {
            break;
        }
        let p = blanks_end_exec(source, scan);
        if p >= n || is_eol(source[p]) {
            proof {
                assert(p > pos);
            }
            new_end = p;
            saw_blank = true;
            pos = p;
        } else if !saw_blank && source[p] == '>' as u8 {
            new_end = scan;
            break;
        } else {
            break;
        }
    }
    if new_end > cont_end as usize {
        Some(new_end as u32)
    } else {
        None
    }
}

// ---------------------------------------------------------------------
// Blank lines after an indented code block
// ---------------------------------------------------------------------

/// What the walk after an indented code block found: where the block's
/// position ends, and how many blank lines go back into its value.
#[derive(Clone, Copy, Debug, PartialEq, Eq, Structural)]
pub struct IndentCodeExtension {
    pub end_offset: u32,
    pub extra_blank_lines: usize,
}

/// Past the line terminators from `pos`, counting them on from `nl`
/// (`\r\n` counts once).
pub open spec fn eols_end(s: Seq<u8>, pos: int, nl: int) -> (int, int)
    decreases s.len() - pos,
{
    if 0 <= pos < s.len() && spec_is_eol(s[pos]) {
        let q = if s[pos] == 13 && pos + 1 < s.len() && s[pos + 1] == 10 {
            pos + 2
        } else {
            pos + 1
        };
        eols_end(s, q, nl + 1)
    } else {
        (pos, nl)
    }
}

/// The columns of the indentation from `p`, `cols` counted so far: spaces
/// count one, tabs reach the next multiple of four.
pub open spec fn line_cols(s: Seq<u8>, p: int, cols: int) -> int
    decreases s.len() - p,
{
    if 0 <= p < s.len() && spec_is_blank(s[p]) {
        line_cols(
            s,
            p + 1,
            cols + if s[p] == 9 {
                4 - cols % 4
            } else {
                1
            },
        )
    } else {
        cols
    }
}

/// The first line terminator from `p`, or the end.
pub open spec fn line_end(s: Seq<u8>, p: int) -> int
    decreases s.len() - p,
{
    if 0 <= p < s.len() && !spec_is_eol(s[p]) {
        line_end(s, p + 1)
    } else {
        p
    }
}

/// Every byte of `s[a..b]` is a space or a tab.
pub open spec fn all_blank(s: Seq<u8>, a: int, b: int) -> bool {
    forall|i: int| a <= i < b ==> spec_is_blank(#[trigger] s[i])
}

/// The walk after an indented code block, from `pos` with `nl` line
/// terminators passed: a line indented at least `req` columns that holds
/// only blanks moves the end to its end (`last`, with the count of
/// terminators passed by then); a less indented line of blanks is passed
/// over; anything else, or the end of the input, stops.
pub open spec fn code_walk(s: Seq<u8>, req: int, pos: int, nl: int, last: Option<(int, int)>) -> Option<(int, int)>
    decreases s.len() - pos,
{
    let (q, nl2) = eols_end(s, pos, nl);
    let p = blanks_end(s, q);
    let e = line_end(s, q);
    if pos < 0 || q >= s.len() {
        last
    } else if line_cols(s, q, 0) < req {
        if p < s.len() && spec_is_eol(s[p]) && pos < p <= s.len() {
            code_walk(s, req, p, nl2, last)
        } else {
            last
        }
    } else if all_blank(s, q, e) && pos < e <= s.len() {
        code_walk(s, req, e, nl2, Some((e, nl2)))
    } else {
        last
    }
}

/// What `extend_indented_code_block` gives for a code block that may be
/// extended: the walk from `start_from`, with the count of blank lines one
/// less than the terminators passed (not below zero).
pub open spec fn spec_code_extension(s: Seq<u8>, start_column: int, start_from: int) -> Option<(int, int)> {
    match code_walk(s, start_column + 3, start_from, 0, None) {
        Some((e, nl)) => Some((e, if nl >= 1 {
            nl - 1
        } else {
            0
        })),
        None => None,
    }
}

proof fn lemma_eols_end(s: Seq<u8>, pos: int, nl: int)
    requires
        0 <= pos <= s.len(),
    ensures
        pos <= eols_end(s, pos, nl).0 <= s.len(),
        nl <= eols_end(s, pos, nl).1 <= nl + (eols_end(s, pos, nl).0 - pos),
        eols_end(s, pos, nl).0 < s.len() ==> !spec_is_eol(s[eols_end(s, pos, nl).0]),
    decreases s.len() - pos,
{
    if 0 <= pos < s.len() && spec_is_eol(s[pos]) {
        let q = if s[pos] == 13 && pos + 1 < s.len() && s[pos + 1] == 10 {
            pos + 2
        } else {
            pos + 1
        };
        lemma_eols_end(s, q, nl + 1);
    }
}

/// Walks forward from `start_from` past the blank and whitespace lines that
/// continue an indented code block whose content column is
/// `start_column + 3`, and gives the block's new end and the number of
/// blank lines to fold back into its value. `None` when no such line
/// follows, or when the block cannot be extended: it is no indented code
/// block, it was opened as a lazy continuation, or its parent is a block
/// quote.
pub fn extend_indented_code_block(
    is_indent_code: bool,
    lazy: bool,
    parent_is_blockquote: bool,
    source: &[u8],
    start_column: u32,
    start_from: u32,
) -> (r: Option<IndentCodeExtension>)
    requires
        source@.len() <= u32::MAX,
    ensures
        !is_indent_code || lazy || parent_is_blockquote ==> r is None,
        is_indent_code && !lazy && !parent_is_blockquote ==> match spec_code_extension(
            source@,
            start_column as int,
            start_from as int,
        ) {
            Some((e, b)) => r == Some(
                IndentCodeExtension { end_offset: e as u32, extra_blank_lines: b as usize },
            ),
            None => r is None,
        },
{
    if !is_indent_code || lazy || parent_is_blockquote {
        return None;
    }
    let n = source.len();
    let ghost s = source@;
    let req: u64 = start_column as u64 + 3;
    let ghost total = code_walk(s, req as int, start_from as int, 0, None);
    let mut pos = start_from as usize;
    let mut last_end: usize = 0;
    let mut last_nl: usize = 0;
    let mut found = false;
    let mut nl: usize = 0;
    if pos > n {
        return None;
    }
    while pos < n
        invariant
            n == s.len(),
            s == source@,
            s.len() <= u32::MAX,
            req == start_column + 3,
            pos <= n,
            nl <= pos,
            found ==> last_end <= n && last_nl <= n,
            code_walk(s, req as int, pos as int, nl as int, if found {
                Some((last_end as int, last_nl as int))
            } else {
                None
            }) == total,
        ensures
            total == (if found {
                Some((last_end as int, last_nl as int))
            } else {
                None::<(int, int)>
            }),
            found ==> last_end <= n && last_nl <= n,
        decreases n - pos,
    {
        let ghost last = if found {
            Some((last_end as int, last_nl as int))
        } else {
            None::<(int, int)>
        };
        // Line terminators.
        let ghost pos0 = pos;
        let ghost nl0 = nl;
        proof {
            lemma_eols_end(s, pos as int, nl as int);
        }
        while pos < n && is_eol(source[pos])
            invariant
                n == s.len(),
                s == source@,
                pos0 <= pos <= n,
                nl <= pos,
                eols_end(s, pos as int, nl as int) == eols_end(s, pos0 as int, nl0 as int),
            decreases n - pos,
        {
            if source[pos] == '\r' as u8 {
                pos += 1;
                if pos < n && source[pos] == '\n' as u8 {
                    pos += 1;
                }
            } else {
                pos += 1;
            }
            nl += 1;
        }
        if pos >= n {
            break;
        }
        // The indentation of the line.
        let mut cols: u64 = 0;
        let mut w = pos;
        while w < n && is_blank(source[w])
            invariant
                n == s.len(),
                s == source@,
                pos <= w <= n,
                cols <= 4 * (w - pos),
                n <= u32::MAX,
                line_cols(s, w as int, cols as int) == line_cols(s, pos as int, 0),
            decreases n - w,
        {
            cols = cols + if source[w] == '\t' as u8 {
                4 - (cols % 4)
            } else {
                1
            };
            w += 1;
        }
        if cols < req {
            let p = blanks_end_exec(source, pos);
            if p < n && is_eol(source[p]) {
                proof {
                    lemma_blanks_end(s, pos as int);
                }
                pos = p;
                continue;
            }
            break;
        }
        let line_start = pos;
        let mut e = pos;
        while e < n && !is_eol(source[e])
            invariant
                n == s.len(),
                s == source@,
                line_start <= e <= n,
                line_end(s, e as int) == line_end(s, line_start as int),
            decreases n - e,
        {
            e += 1;
        }
        let mut k = line_start;
        let mut blank = true;
        while k < e
            invariant
                line_start <= k <= e <= n,
                n == s.len(),
                s == source@,
                blank == all_blank(s, line_start as int, k as int),
            decreases e - k,
        {
            if !is_blank(source[k]) {
                blank = false;
            }
            k += 1;
        }
        if !blank {
            break;
        }
        proof {
            assert(spec_is_blank(s[line_start as int]));
        }
        pos = e;
        last_end = pos;
        last_nl = nl;
        found = true;
    }
    if found {
        Some(IndentCodeExtension {
            end_offset: last_end as u32,
            extra_blank_lines: if last_nl >= 1 {
                last_nl - 1
            } else {
                0
            },
        })
    } else {
        None
    }
}

// ---------------------------------------------------------------------
// Line endings at the end of a fenced code block's text
// ---------------------------------------------------------------------

/// The end of the text `b[start..end]` after up to `k` trailing line
/// endings are dropped (`\r\n` counting as one).
pub open spec fn trim_newlines(b: Seq<u8>, start: int, end: int, k: int) -> int
    decreases k,
{
    if k <= 0 || end <= start || end < 1 {
        end
    } else if b[end - 1] == 10 {
        let e2 = if end >= 2 && b[end - 2] == 13 {
            end - 2
        } else {
            end - 1
        };
        trim_newlines(b, start, e2, k - 1)
    } else if b[end - 1] == 13 {
        trim_newlines(b, start, end - 1, k - 1)
    } else {
        end
    }
}

/// Drops up to `max_newlines` trailing line endings from the text node
/// `bytes[start..end]` that ends a fenced code block's content, and gives
/// its new end. A last child that is no text node keeps its `end`.
pub fn trim_trailing_newlines_from_code_block(
    is_text: bool,
    bytes: &[u8],
    start: usize,
    end: usize,
    max_newlines: usize,
) -> (r: usize)
    requires
        end <= bytes@.len(),
    ensures
        !is_text ==> r == end,
        is_text ==> r == trim_newlines(bytes@, start as int, end as int, max_newlines as int),
{
    if !is_text {
        return end;
    }
    let mut e = end;
    let mut stripped: usize = 0;
    while stripped < max_newlines
        invariant
            e <= end <= bytes@.len(),
            stripped <= max_newlines,
            trim_newlines(bytes@, start as int, e as int, max_newlines - stripped) == trim_newlines(
                bytes@,
                start as int,
                end as int,
                max_newlines as int,
            ),
        ensures
            trim_newlines(bytes@, start as int, e as int, max_newlines - stripped) == e,
            trim_newlines(bytes@, start as int, e as int, max_newlines - stripped) == trim_newlines(
                bytes@,
                start as int,
                end as int,
                max_newlines as int,
            ),
        decreases max_newlines - stripped,
    {
        if e <= start || e < 1 {
            break;
        }
        let last = bytes[e - 1];
        if last == '\n' as u8 {
            if e >= 2 && bytes[e - 2] == '\r' as u8 {
                e = e - 2;
            } else {
                e = e - 1;
            }
            stripped += 1;
        } else if last == '\r' as u8 {
            e = e - 1;
            stripped += 1;
        } else {
            break;
        }
    }
    e
}

} // verus!
