//! Math spans `$…$` within an inline scope, and the inline JSX tags left
//! open at the end of a line. Display-math fence lines bound the scope of a
//! math span; whether a line is such a fence is decided by a check that
//! the caller passes in, with the predicate it computes.

use vstd::prelude::*;
use crate::ascii::{spec_is_eol, has_byte, is_eol};
use crate::search::find_either;
use crate::mdx_lex::addressable;
use crate::inline_scope::{
    spec_scope_for_inline, scope_for_inline, line_start_at, line_start_of, run_end, lemma_run_end,
    run_end_exec, inside_code_span, is_inside_code_span, tag_reaches, jsx_tag_reaches, occurs,
    ahead,
};

verus! {

/// What a display-math fence check answers for the content of a line.
pub type FenceOracle = spec_fn(Seq<u8>) -> bool;

/// An executable fence check that answers as `fence` does.
pub open spec fn fence_check_ok<F: Fn(&[u8]) -> bool>(f: &F, fence: FenceOracle) -> bool {
    &&& forall|line: &[u8]| #[trigger] f.requires((line,))
    &&& forall|line: &[u8], r: bool| #[trigger] f.ensures((line,), r) ==> r == fence(line@)
}

/// No line is a fence.
pub open spec fn no_fences() -> FenceOracle {
    |line: Seq<u8>| false
}

/// The check for text without display-math fences.
pub fn no_fence_check(line: &[u8]) -> (r: bool)
    ensures
        r == false,
{
    false
}

// ---------------------------------------------------------------------
// Fence lines
// ---------------------------------------------------------------------

/// The end of the line from `i`, not past `end`.
pub open spec fn line_end_within(s: Seq<u8>, i: int, end: int) -> int
    decreases end - i,
{
    if i < end && !spec_is_eol(s[i]) {
        line_end_within(s, i + 1, end)
    } else {
        i
    }
}

/// A line ends within its bounds, at a line ending unless at the bound.
pub proof fn lemma_line_end_within(s: Seq<u8>, i: int, end: int)
    requires
        i <= end,
    ensures
        i <= line_end_within(s, i, end) <= end,
        line_end_within(s, i, end) < end ==> spec_is_eol(s[line_end_within(s, i, end)]),
    decreases end - i,
{
    if i < end && !spec_is_eol(s[i]) {
        lemma_line_end_within(s, i + 1, end);
    }
}

/// The next line starts after the start of this one.
pub proof fn lemma_next_line(s: Seq<u8>, ls: int, pe: int)
    requires
        0 <= ls < pe <= s.len(),
    ensures
        ls < next_line(s, line_end_within(s, ls, pe)) <= s.len(),
{
    lemma_line_end_within(s, ls, pe);
    let le = line_end_within(s, ls, pe);
    if le < pe {
        assert(s[le] == 10 || s[le] == 13);
    }
}

/// Past up to three spaces from `ls`, not past `le`.
pub open spec fn indent3(s: Seq<u8>, ls: int, le: int) -> int {
    if ls < le && s[ls] == 32 {
        if ls + 1 < le && s[ls + 1] == 32 {
            if ls + 2 < le && s[ls + 2] == 32 {
                ls + 3
            } else {
                ls + 2
            }
        } else {
            ls + 1
        }
    } else {
        ls
    }
}

/// Past the line ending at `le` (`\r`, `\n` or `\r\n`).
pub open spec fn next_line(s: Seq<u8>, le: int) -> int {
    let a = if 0 <= le < s.len() && s[le] == 13 {
        le + 1
    } else {
        le
    };
    if 0 <= a < s.len() && s[a] == 10 {
        a + 1
    } else {
        a
    }
}

/// The scope `[lo, hi)` narrowed, line by line from `ls`, so that it holds
/// no fence line: the first fence after `pos` ends it, and one before
/// `pos` moves its start past it.
pub open spec fn clamp_from(s: Seq<u8>, pos: int, ls: int, pe: int, lo: int, fence: FenceOracle) -> (
    int,
    int,
)
    decreases s.len() - ls,
{
    if ls < 0 || ls >= pe || pe > s.len() {
        (lo, pe)
    } else {
        let le = line_end_within(s, ls, pe);
        let content = indent3(s, ls, le);
        let nl = next_line(s, le);
        proof {
            lemma_line_end_within(s, ls, pe);
            lemma_next_line(s, ls, pe);
        }
        if fence(s.subrange(content, le)) {
            if ls > pos {
                (lo, ls)
            } else {
                clamp_from(
                    s,
                    pos,
                    nl,
                    pe,
                    if le <= pos {
                        nl
                    } else {
                        lo
                    },
                    fence,
                )
            }
        } else {
            clamp_from(s, pos, nl, pe, lo, fence)
        }
    }
}

proof fn lemma_clamp_from(s: Seq<u8>, pos: int, ls: int, pe: int, lo: int, fence: FenceOracle)
    requires
        0 <= ls <= s.len(),
        0 <= lo <= s.len(),
        0 <= pe <= s.len(),
    ensures
        0 <= clamp_from(s, pos, ls, pe, lo, fence).0 <= s.len(),
        0 <= clamp_from(s, pos, ls, pe, lo, fence).1 <= pe,
    decreases s.len() - ls,
{
    if ls < pe {
        let le = line_end_within(s, ls, pe);
        lemma_line_end_within(s, ls, pe);
        let nl = next_line(s, le);
        lemma_next_line(s, ls, pe);
        lemma_clamp_from(s, pos, nl, pe, lo, fence);
        lemma_clamp_from(s, pos, nl, pe, nl, fence);
    }
}

fn clamp_scope_to_math_fences<F: Fn(&[u8]) -> bool>(
    bytes: &[u8],
    pos: usize,
    para_start: usize,
    para_end: usize,
    fence_check: &F,
    Ghost(fence): Ghost<FenceOracle>,
) -> (r: (usize, usize))
    requires
        para_start <= para_end <= bytes@.len(),
        fence_check_ok(fence_check, fence),
    ensures
        (r.0 as int, r.1 as int) == clamp_from(
            bytes@,
            pos as int,
            para_start as int,
            para_end as int,
            para_start as int,
            fence,
        ),
        r.0 <= bytes@.len(),
        r.1 <= para_end,
{
    let ghost s = bytes@;
    let n = bytes.len();
    let mut lo = para_start;
    let mut line_start = para_start;
    proof {
        lemma_clamp_from(s, pos as int, para_start as int, para_end as int, para_start as int, fence);
    }
    while line_start < para_end
        invariant
            s == bytes@,
            n == s.len(),
            para_start <= para_end <= n,
            lo <= n,
            line_start <= n,
            fence_check_ok(fence_check, fence),
            clamp_from(s, pos as int, line_start as int, para_end as int, lo as int, fence)
                == clamp_from(
                s,
                pos as int,
                para_start as int,
                para_end as int,
                para_start as int,
                fence,
            ),
        decreases n - line_start,
    {
        let mut line_end = line_start;
        proof {
            lemma_line_end_within(s, line_start as int, para_end as int);
            lemma_next_line(s, line_start as int, para_end as int);
        }
        while line_end < para_end && !is_eol(bytes[line_end])
            invariant
                line_start <= line_end <= para_end <= n,
                n == s.len(),
                s == bytes@,
                line_end_within(s, line_end as int, para_end as int) == line_end_within(
                    s,
                    line_start as int,
                    para_end as int,
                ),
            decreases para_end - line_end,
        {
            line_end += 1;
        }
        let mut content = line_start;
        if content < line_end && bytes[content] == ' ' as u8 {
            content += 1;
            if content < line_end && bytes[content] == ' ' as u8 {
                content += 1;
                if content < line_end && bytes[content] == ' ' as u8 {
                    content += 1;
                }
            }
        }
        let mut next = line_end;
        if next < n && bytes[next] == '\r' as u8 {
            next += 1;
        }
        if next < n && bytes[next] == '\n' as u8 {
            next += 1;
        }
        let line = vstd::slice::slice_subrange(bytes, content, line_end);
        let is_fence = fence_check(line);
        proof {
            assert(line@ == s.subrange(content as int, line_end as int));
        }
        if is_fence {
            if line_start > pos {
                return (lo, line_start);
            }
            if line_end <= pos {
                lo = next;
            }
        }
        line_start = next;
    }
    (lo, para_end)
}

// ---------------------------------------------------------------------
// Math spans
// ---------------------------------------------------------------------

/// The number of backslashes just before `k`, not counting from before `lo`.
pub open spec fn backslashes_down_to(s: Seq<u8>, k: int, lo: int) -> nat
    decreases k - lo,
{
    if k > lo && s[k - 1] == 92 {
        1 + backslashes_down_to(s, k - 1, lo)
    } else {
        0
    }
}

/// The `$` runs of `s[i..end]` as `(start, length, escaped)`; a run is
/// escaped when an odd number of backslashes (from `lo` on) precede it.
pub open spec fn dollar_runs(s: Seq<u8>, i: int, lo: int, end: int) -> Seq<(int, int, bool)>
    decreases end - i,
{
    if i >= end {
        Seq::empty()
    } else if s[i] == 36 {
        let e = run_end(s, i, end, 36);
        proof {
            lemma_run_end(s, i, end, 36);
        }
        seq![(i, e - i, backslashes_down_to(s, i, lo) % 2 == 1)] + dollar_runs(s, e, lo, end)
    } else {
        dollar_runs(s, i + 1, lo, end)
    }
}

/// The first run from `b` on, not yet paired, as long as run `a`.
pub open spec fn math_partner(runs: Seq<(int, int, bool)>, a: int, b: int, paired: Seq<bool>) -> Option<
    int,
>
    decreases runs.len() - b,
{
    if b < 0 || b >= runs.len() {
        None
    } else if !paired[b] && runs[b].1 == runs[a].1 {
        Some(b)
    } else {
        math_partner(runs, a, b + 1, paired)
    }
}

/// Pairing the runs first-fit from `a` on, an escaped run opening none:
/// whether `pos` falls between the two runs of some pair.
pub open spec fn math_pairs_cover(runs: Seq<(int, int, bool)>, a: int, paired: Seq<bool>, pos: int) -> bool
    decreases runs.len() - a,
{
    if a < 0 || a >= runs.len() {
        false
    } else if paired[a] || runs[a].2 {
        math_pairs_cover(runs, a + 1, paired, pos)
    } else {
        match math_partner(runs, a, a + 1, paired) {
            None => math_pairs_cover(runs, a + 1, paired, pos),
            Some(b) => (runs[a].0 + runs[a].1 <= pos < runs[b].0) || math_pairs_cover(
                runs,
                a + 1,
                paired.update(a, true).update(b, true),
                pos,
            ),
        }
    }
}

/// The runs as integers.
pub open spec fn dollar_runs_view(v: Seq<(usize, usize, bool)>) -> Seq<(int, int, bool)> {
    v.map_values(|t: (usize, usize, bool)| (t.0 as int, t.1 as int, t.2))
}

/// Whether `pos` falls inside a math span: between two `$` runs of one
/// length that pair first-fit within its inline scope, the scope cut at
/// display-math fence lines.
pub open spec fn inside_math_span(s: Seq<u8>, pos: int, fence: FenceOracle) -> bool {
    let (ps, pe) = spec_scope_for_inline(s, pos);
    if pos <= ps || pos >= pe || !has_byte(s, ps, pos, 36) || !has_byte(s, pos, pe, 36) {
        false
    } else {
        let (lo, hi) = clamp_from(s, pos, ps, pe, ps, fence);
        let runs = dollar_runs(s, lo, lo, hi);
        runs.len() >= 2 && math_pairs_cover(runs, 0, Seq::new(runs.len(), |i: int| false), pos)
    }
}

fn count_backslashes(bytes: &[u8], k0: usize, lo: usize) -> (r: usize)
    requires
        lo <= k0 <= bytes@.len(),
    ensures
        r == backslashes_down_to(bytes@, k0 as int, lo as int),
{
    let mut k = k0;
    let mut n: usize = 0;
    while k > lo && bytes[k - 1] == '\\' as u8
        invariant
            lo <= k <= k0 <= bytes@.len(),
            n == k0 - k,
            backslashes_down_to(bytes@, k0 as int, lo as int) == n + backslashes_down_to(
                bytes@,
                k as int,
                lo as int,
            ),
        decreases k,
    {
        n += 1;
        k -= 1;
    }
    n
}

fn collect_dollar_runs(bytes: &[u8], lo: usize, end: usize) -> (r: Vec<(usize, usize, bool)>)
    requires
        lo <= bytes@.len(),
        end <= bytes@.len(),
    ensures
        dollar_runs_view(r@) == dollar_runs(bytes@, lo as int, lo as int, end as int),
{
    let ghost s = bytes@;
    let mut runs: Vec<(usize, usize, bool)> = Vec::new();
    let mut i = lo;
    proof {
        assert(dollar_runs_view(runs@) =~= Seq::<(int, int, bool)>::empty());
    }
    while i < end
        invariant
            lo <= i,
            end <= s.len(),
            s == bytes@,
            dollar_runs_view(runs@) + dollar_runs(s, i as int, lo as int, end as int) == dollar_runs(
                s,
                lo as int,
                lo as int,
                end as int,
            ),
        decreases end - i,
    {
        if bytes[i] == '$' as u8 {
            let st = i;
            i = run_end_exec(bytes, st, end, '$' as u8);
            proof {
                lemma_run_end(s, st as int, end as int, 36);
            }
            let escaped = count_backslashes(bytes, st, lo) % 2 == 1;
            let ghost before = runs@;
            runs.push((st, i - st, escaped));
            proof {
                let rest = dollar_runs(s, i as int, lo as int, end as int);
                let t = (st as int, (i - st) as int, escaped);
                assert(dollar_runs_view(runs@) =~= dollar_runs_view(before) + seq![t]);
                assert(dollar_runs_view(runs@) + rest =~= dollar_runs_view(before) + (seq![t]
                    + rest));
            }
        } else {
            i += 1;
        }
    }
    proof {
        assert(dollar_runs_view(runs@) + dollar_runs(s, i as int, lo as int, end as int)
            =~= dollar_runs_view(runs@));
    }
    runs
}

fn find_math_partner(runs: &Vec<(usize, usize, bool)>, paired: &Vec<bool>, a: usize) -> (r: Option<
    usize,
>)
    requires
        a < runs@.len() == paired@.len(),
    ensures
        match r {
            Some(b) => math_partner(dollar_runs_view(runs@), a as int, a + 1, paired@) == Some(
                b as int,
            ) && a < b < runs@.len(),
            None => math_partner(dollar_runs_view(runs@), a as int, a + 1, paired@) is None,
        },
{
    let ghost rv = dollar_runs_view(runs@);
    let n = runs.len();
    let mut b = a + 1;
    while b < n
        invariant
            a < b <= n == runs@.len() == paired@.len(),
            rv == dollar_runs_view(runs@),
            math_partner(rv, a as int, b as int, paired@) == math_partner(rv, a as int, a + 1, paired@),
        decreases n - b,
    {
        if !paired[b] && runs[b].1 == runs[a].1 {
            return Some(b);
        }
        b += 1;
    }
    None
}

fn math_pair_covers(runs: &Vec<(usize, usize, bool)>, pos: usize) -> (r: bool)
    ensures
        r == math_pairs_cover(
            dollar_runs_view(runs@),
            0,
            Seq::new(runs@.len(), |i: int| false),
            pos as int,
        ),
{
    let ghost rv = dollar_runs_view(runs@);
    let mut paired: Vec<bool> = Vec::new();
    let mut k: usize = 0;
    while k < runs.len()
        invariant
            k <= runs@.len(),
            paired@ =~= Seq::new(k as nat, |i: int| false),
        decreases runs@.len() - k,
    {
        paired.push(false);
        k += 1;
    }
    let mut a: usize = 0;
    while a < runs.len()
        invariant
            a <= runs@.len() == paired@.len(),
            rv == dollar_runs_view(runs@),
            math_pairs_cover(rv, a as int, paired@, pos as int) == math_pairs_cover(
                rv,
                0,
                Seq::new(runs@.len(), |i: int| false),
                pos as int,
            ),
        decreases runs@.len() - a,
    {
        if !paired[a] && !runs[a].2 {
            match find_math_partner(runs, &paired, a) {
                None => {},
                Some(b) => {
                    let (st, len, _) = runs[a];
                    if pos >= st && pos - st >= len && pos < runs[b].0 {
                        return true;
                    }
                    paired.set(a, true);
                    paired.set(b, true);
                },
            }
        }
        a += 1;
    }
    false
}

/// Whether `pos` sits inside a math span `$…$`: within its inline scope,
/// cut at display-math fence lines (as `fence_check` finds them), between
/// two `$` runs of one length that pair first-fit, an escaped run opening
/// none.
pub fn is_inside_math_span<F: Fn(&[u8]) -> bool>(
    bytes: &[u8],
    pos: usize,
    fence_check: &F,
    Ghost(fence): Ghost<FenceOracle>,
) -> (r: bool)
    requires
        pos <= bytes@.len(),
        fence_check_ok(fence_check, fence),
    ensures
        r == inside_math_span(bytes@, pos as int, fence),
{
    let (ps, pe) = scope_for_inline(bytes, pos);
    if pos <= ps || pos >= pe || !occurs(bytes, ps, pos, '$' as u8) || !occurs(
        bytes,
        pos,
        pe,
        '$' as u8,
    ) {
        return false;
    }
    let (lo, hi) = clamp_scope_to_math_fences(bytes, pos, ps, pe, fence_check, Ghost(fence));
    let runs = collect_dollar_runs(bytes, lo, hi);
    if runs.len() < 2 {
        return false;
    }
    math_pair_covers(&runs, pos)
}

// ---------------------------------------------------------------------
// JSX tags left open on the previous line
// ---------------------------------------------------------------------

/// From `i` to `end` on a line: whether an unescaped `<` that is neither
/// in a code span nor (with math on) in a math span opens an inline JSX tag
/// reaching past `ix`.
pub open spec fn open_jsx_on_line(
    s: Seq<u8>,
    i: int,
    end: int,
    ix: int,
    has_math: bool,
    fence: FenceOracle,
) -> bool
    decreases ahead(end, i),
{
    if i >= end {
        false
    } else if s[i] == 92 {
        open_jsx_on_line(s, i + 2, end, ix, has_math, fence)
    } else if s[i] == 60 {
        if inside_code_span(s, i) || (has_math && inside_math_span(s, i, fence)) {
            open_jsx_on_line(s, i + 1, end, ix, has_math, fence)
        } else {
            tag_reaches(s, i, ix) || open_jsx_on_line(s, i + 1, end, ix, has_math, fence)
        }
    } else {
        open_jsx_on_line(s, i + 1, end, ix, has_math, fence)
    }
}

/// The line before `ix` (which must start a line): its start and the end of
/// its content, before the line ending.
pub open spec fn prev_line_bounds(s: Seq<u8>, ix: int) -> (int, int) {
    let e0 = ix - 1;
    let e = if e0 > 0 && s[e0] == 10 && s[e0 - 1] == 13 {
        e0 - 1
    } else {
        e0
    };
    (line_start_at(s, e), e)
}

/// Whether the line ending just before `ix` holds an inline JSX tag that
/// is still open at `ix`.
pub open spec fn prev_line_open_jsx(s: Seq<u8>, ix: int, has_math: bool, fence: FenceOracle) -> bool {
    if ix == 0 || ix > s.len() || !spec_is_eol(s[ix - 1]) {
        false
    } else {
        let (ls, le) = prev_line_bounds(s, ix);
        (has_byte(s, ls, le, 60) || has_byte(s, ls, le, 92)) && open_jsx_on_line(
            s,
            ls,
            le,
            ix,
            has_math,
            fence,
        )
    }
}

proof fn lemma_open_jsx_skip(
    s: Seq<u8>,
    i: int,
    j: int,
    end: int,
    ix: int,
    has_math: bool,
    fence: FenceOracle,
)
    requires
        0 <= i <= j <= end,
        forall|k: int| i <= k < j ==> s[k] != 60 && s[k] != 92,
    ensures
        open_jsx_on_line(s, i, end, ix, has_math, fence) == open_jsx_on_line(
            s,
            j,
            end,
            ix,
            has_math,
            fence,
        ),
    decreases j - i,
{
    if i < j {
        lemma_open_jsx_skip(s, i + 1, j, end, ix, has_math, fence);
    }
}

/// Whether the line ending just before `ix` holds an unescaped `<`, outside
/// code and math spans, that opens an inline JSX tag still open at `ix`; a
/// paragraph must not be interrupted there.
pub fn prev_line_has_open_inline_jsx<F: Fn(&[u8]) -> bool>(
    bytes: &[u8],
    ix: usize,
    has_math: bool,
    fence_check: &F,
    Ghost(fence): Ghost<FenceOracle>,
) -> (r: bool)
    requires
        addressable(bytes@),
        fence_check_ok(fence_check, fence),
    ensures
        r == prev_line_open_jsx(bytes@, ix as int, has_math, fence),
{
    if ix == 0 || ix > bytes.len() {
        return false;
    }
    let mut prev_line_end = ix - 1;
    if !is_eol(bytes[prev_line_end]) {
        return false;
    }
    if prev_line_end > 0 && bytes[prev_line_end] == '\n' as u8 && bytes[prev_line_end - 1]
        == '\r' as u8 {
        prev_line_end -= 1;
    }
    let prev_line_start = line_start_of(bytes, prev_line_end);
    if !occurs(bytes, prev_line_start, prev_line_end, '<' as u8) && !occurs(
        bytes,
        prev_line_start,
        prev_line_end,
        '\\' as u8,
    ) {
        return false;
    }
    let end = prev_line_end;
    let mut i = prev_line_start;
    assert(prev_line_open_jsx(bytes@, ix as int, has_math, fence) == open_jsx_on_line(
        bytes@,
        prev_line_start as int,
        end as int,
        ix as int,
        has_math,
        fence,
    ));
    while i < end
        invariant
            prev_line_start <= i <= end,
            prev_line_open_jsx(bytes@, ix as int, has_math, fence) == open_jsx_on_line(
                bytes@,
                prev_line_start as int,
                end as int,
                ix as int,
                has_math,
                fence,
            ),
            end < bytes@.len(),
            addressable(bytes@),
            fence_check_ok(fence_check, fence),
            open_jsx_on_line(bytes@, i as int, end as int, ix as int, has_math, fence)
                == open_jsx_on_line(
                bytes@,
                prev_line_start as int,
                end as int,
                ix as int,
                has_math,
                fence,
            ),
        decreases end - i,
    {
        let part = vstd::slice::slice_subrange(bytes, i, end);
        let rel = match find_either('<' as u8, '\\' as u8, part) {
            Some(rel) => rel,
            None => {
                proof {
                    assert forall|k: int| i <= k < end implies bytes@[k] != 60 && bytes@[k]
                        != 92 by {
                        assert(bytes@[k] == part@[k - i]);
                    }
                    lemma_open_jsx_skip(bytes@, i as int, end as int, end as int, ix as int, has_math, fence);
                }
                return false;
            },
        };
        let j = i + rel;
        proof {
            assert forall|k: int| i <= k < j implies bytes@[k] != 60 && bytes@[k] != 92 by {
                assert(bytes@[k] == part@[k - i]);
            }
            assert(bytes@[j as int] == part@[rel as int]);
            lemma_open_jsx_skip(bytes@, i as int, j as int, end as int, ix as int, has_math, fence);
        }
        if bytes[j] == '\\' as u8 {
            if end - j >= 2 {
                i = j + 2;
            } else {
                assert(!open_jsx_on_line(bytes@, j + 2, end as int, ix as int, has_math, fence));
                i = end;
            }
        } else {
            let in_code = is_inside_code_span(bytes, j);
            let in_math = has_math && is_inside_math_span(bytes, j, fence_check, Ghost(fence));
            if !in_code && !in_math && jsx_tag_reaches(bytes, j, ix) {
                return true;
            }
            i = j + 1;
        }
    }
    false
}

/// `is_inside_math_span` for text in which no line is a display-math fence.
pub fn is_inside_math_span_no_fences(bytes: &[u8], pos: usize) -> (r: bool)
    requires
        pos <= bytes@.len(),
    ensures
        r == inside_math_span(bytes@, pos as int, no_fences()),
{
    is_inside_math_span(bytes, pos, &no_fence_check, Ghost(no_fences()))
}

/// `prev_line_has_open_inline_jsx` for text in which no line is a
/// display-math fence.
pub fn prev_line_has_open_inline_jsx_no_fences(bytes: &[u8], ix: usize, has_math: bool) -> (r: bool)
    requires
        addressable(bytes@),
    ensures
        r == prev_line_open_jsx(bytes@, ix as int, has_math, no_fences()),
{
    prev_line_has_open_inline_jsx(bytes, ix, has_math, &no_fence_check, Ghost(no_fences()))
}

} // verus!
