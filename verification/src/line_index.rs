//! `LineIndex`: maps byte offsets in the source to 1-based (line, column)
//! pairs.

use vstd::prelude::*;
use vstd::string::*;
use crate::ascii::count_byte;

verus! {

/// The offsets just past each `\n` of `b`, in order.
pub open spec fn newline_ends(b: Seq<u8>) -> Seq<u32>
    decreases b.len(),
{
    if b.len() == 0 {
        Seq::empty()
    } else if b.last() == 10u8 {
        newline_ends(b.drop_last()).push(b.len() as u32)
    } else {
        newline_ends(b.drop_last())
    }
}

/// The offset where each line of `b` starts: 0, then one past every `\n`.
pub open spec fn line_starts(b: Seq<u8>) -> Seq<u32> {
    seq![0u32] + newline_ends(b)
}

/// Strictly increasing offsets that start at 0: the shape of a line table.
pub open spec fn is_line_table(t: Seq<u32>) -> bool {
    &&& t.len() > 0
    &&& t[0] == 0
    &&& forall|i: int, j: int| 0 <= i < j < t.len() ==> #[trigger] t[i] < #[trigger] t[j]
}

proof fn lemma_newline_ends_bounds(b: Seq<u8>)
    requires
        b.len() <= u32::MAX,
    ensures
        newline_ends(b).len() <= b.len(),
        forall|i: int|
            0 <= i < newline_ends(b).len() ==> 0 < #[trigger] newline_ends(b)[i] <= b.len(),
        forall|i: int, j: int|
            0 <= i < j < newline_ends(b).len() ==> #[trigger] newline_ends(b)[i]
                < #[trigger] newline_ends(b)[j],
    decreases b.len(),
{
    if b.len() > 0 {
        lemma_newline_ends_bounds(b.drop_last());
    }
}

pub struct LineIndex {
    /// `line_offsets[i]` is the byte offset where line `i + 1` starts.
    line_offsets: Vec<u32>,
}

impl LineIndex {
    pub closed spec fn starts(&self) -> Seq<u32> {
        self.line_offsets@
    }

    pub open spec fn wf(&self) -> bool {
        &&& is_line_table(self.starts())
        &&& self.starts().len() <= u32::MAX
    }

    /// The (line, column) of `offset` in a line table: the last line that
    /// starts at or before `offset`, and the distance from its start plus one.
    pub open spec fn spec_line_col(&self, offset: u32, line: u32, col: u32) -> bool {
        let t = self.starts();
        &&& 1 <= line <= t.len()
        &&& t[line - 1] <= offset
        &&& (line == t.len() || offset < t[line as int])
        &&& col == offset - t[line - 1] + 1
    }

    pub fn from_source(source: &str) -> (idx: LineIndex)
        requires
            source.spec_bytes().len() < u32::MAX,
        ensures
            idx.wf(),
            idx.starts() == line_starts(source.spec_bytes()),
    {
        let bytes = source.as_bytes();
        let mut offsets: Vec<u32> = Vec::new();
        offsets.push(0);
        let mut i: usize = 0;
        while i < bytes.len()
            invariant
                bytes@ == source.spec_bytes(),
                bytes@.len() < u32::MAX,
                0 <= i <= bytes@.len(),
                offsets@ == line_starts(bytes@.subrange(0, i as int)),
            decreases bytes@.len() - i,
        {
            proof {
                let pre = bytes@.subrange(0, i as int + 1);
                assert(pre.drop_last() =~= bytes@.subrange(0, i as int));
                assert(pre.last() == bytes@[i as int]);
            }
            if bytes[i] == 10u8 {
                offsets.push(i as u32 + 1);
            }
            i = i + 1;
        }
        proof {
            assert(bytes@.subrange(0, bytes@.len() as int) =~= bytes@);
            lemma_newline_ends_bounds(bytes@);
            let t = offsets@;
            let e = newline_ends(bytes@);
            assert forall|a: int, b: int| 0 <= a < b < t.len() implies #[trigger] t[a]
                < #[trigger] t[b] by {
                if a == 0 {
                    assert(t[b] == e[b - 1]);
                } else {
                    assert(t[a] == e[a - 1]);
                    assert(t[b] == e[b - 1]);
                }
            }
        }
        LineIndex { line_offsets: offsets }
    }

    /// 1-based line and column of a byte offset. The column of `u32::MAX`
    /// on the first line does not fit in a `u32`.
    pub fn offset_to_line_col(&self, offset: u32) -> (r: (u32, u32))
        requires
            self.wf(),
            offset < u32::MAX || self.starts().len() > 1,
        ensures
            self.spec_line_col(offset, r.0, r.1),
    {
        let t = &self.line_offsets;
        // Find the last start that is <= offset: `lo` always qualifies and
        // every start at or after `hi` is past `offset`.
        let mut lo: usize = 0;
        let mut hi: usize = t.len();
        while lo + 1 < hi
            invariant
                self.wf(),
                t@ == self.starts(),
                0 <= lo < hi <= t@.len(),
                t@[lo as int] <= offset,
                hi == t@.len() || offset < t@[hi as int],
            decreases hi - lo,
        {
            let mid = lo + (hi - lo) / 2;
            if t[mid] <= offset {
                lo = mid;
            } else {
                hi = mid;
            }
        }
        proof {
            if lo + 1 < t@.len() {
                assert(hi == lo + 1);
            }
            if t@.len() > 1 {
                assert(t@[0] < t@[1]);
            }
        }
        let line = lo as u32 + 1;
        let col = offset - t[lo] + 1;
        (line, col)
    }

    /// Number of lines in the source (including a final unterminated line).
    pub fn line_count(&self) -> (n: usize)
        ensures
            n == self.starts().len(),
    {
        self.line_offsets.len()
    }
}

/// How many entries of `t` are at most `off`.
pub open spec fn count_le(t: Seq<u32>, off: int) -> nat
    decreases t.len(),
{
    if t.len() == 0 {
        0
    } else {
        count_le(t.drop_last(), off) + if t.last() <= off {
            1nat
        } else {
            0nat
        }
    }
}

proof fn lemma_count_le_all(t: Seq<u32>, off: int)
    requires
        forall|i: int| 0 <= i < t.len() ==> t[i] <= off,
    ensures
        count_le(t, off) == t.len(),
    decreases t.len(),
{
    if t.len() > 0 {
        lemma_count_le_all(t.drop_last(), off);
    }
}

/// In a strictly increasing table, the entries at most `off` are exactly
/// those up to the line that `off` falls on.
proof fn lemma_count_le_line(t: Seq<u32>, off: int, line: int)
    requires
        forall|i: int, j: int| 0 <= i < j < t.len() ==> #[trigger] t[i] < #[trigger] t[j],
        1 <= line <= t.len(),
        t[line - 1] <= off,
        line == t.len() || off < t[line],
    ensures
        count_le(t, off) == line,
    decreases t.len(),
{
    if line == t.len() {
        assert forall|i: int| 0 <= i < t.len() implies t[i] <= off by {
            if i < line - 1 {
                assert(t[i] < t[line - 1]);
            }
        }
        lemma_count_le_all(t, off);
    } else {
        let u = t.drop_last();
        if line < t.len() - 1 {
            assert(t[line] < t[t.len() - 1]);
        }
        lemma_count_le_line(u, off, line);
    }
}

proof fn lemma_count_le_front_zero(e: Seq<u32>, off: int)
    requires
        off >= 0,
    ensures
        count_le(seq![0u32] + e, off) == 1 + count_le(e, off),
    decreases e.len(),
{
    if e.len() > 0 {
        assert((seq![0u32] + e).drop_last() =~= seq![0u32] + e.drop_last());
        assert((seq![0u32] + e).last() == e.last());
        lemma_count_le_front_zero(e.drop_last(), off);
    } else {
        assert((seq![0u32] + e).drop_last() =~= Seq::<u32>::empty());
        assert(count_le(Seq::<u32>::empty(), off) == 0);
        assert(e =~= Seq::<u32>::empty());
    }
}

/// Among the line-feed ends, those at most `off` are one per line feed
/// before `off`.
proof fn lemma_newline_ends_count(b: Seq<u8>, off: int)
    requires
        b.len() <= u32::MAX,
        0 <= off <= b.len(),
    ensures
        count_le(newline_ends(b), off) == count_byte(b.subrange(0, off), 10),
    decreases b.len(),
{
    if b.len() == 0 {
        assert(b.subrange(0, off) =~= Seq::<u8>::empty());
    } else {
        let u = b.drop_last();
        let n = b.len() as int;
        lemma_newline_ends_bounds(u);
        if b.last() == 10u8 {
            assert(newline_ends(b) == newline_ends(u).push(n as u32));
            assert(newline_ends(b).drop_last() =~= newline_ends(u));
            assert(newline_ends(b).last() == n as u32);
        } else {
            assert(newline_ends(b) == newline_ends(u));
        }
        if off < n {
            lemma_newline_ends_count(u, off);
            assert(b.subrange(0, off) =~= u.subrange(0, off));
        } else {
            lemma_newline_ends_count(u, n - 1);
            assert(u.subrange(0, n - 1) =~= u);
            lemma_count_le_all(newline_ends(u), n - 1);
            lemma_count_le_all(newline_ends(u), off);
            assert(b.subrange(0, off) =~= b);
            if b.last() == 10u8 {
                assert(newline_ends(b).drop_last() =~= newline_ends(u));
            }
        }
    }
}

/// A line index built from `b` puts an offset on the line after as many
/// line feeds as come before it.
pub proof fn lemma_line_counts_newlines(idx: LineIndex, b: Seq<u8>, offset: u32, line: u32, col: u32)
    requires
        idx.wf(),
        idx.starts() == line_starts(b),
        b.len() < u32::MAX,
        offset <= b.len(),
        idx.spec_line_col(offset, line, col),
    ensures
        line == 1 + count_byte(b.subrange(0, offset as int), 10),
{
    let t = idx.starts();
    lemma_count_le_line(t, offset as int, line as int);
    lemma_count_le_front_zero(newline_ends(b), offset as int);
    lemma_newline_ends_count(b, offset as int);
}

/// The offset where the line holding offset `m` of `b` starts: just past
/// the last line feed before `m`, or 0.
pub open spec fn last_line_start(b: Seq<u8>, m: int) -> int
    decreases m,
{
    if m <= 0 {
        0
    } else if b[m - 1] == 10 {
        m
    } else {
        last_line_start(b, m - 1)
    }
}

proof fn lemma_last_line_start(b: Seq<u8>, m: int)
    requires
        0 <= m <= b.len(),
    ensures
        0 <= last_line_start(b, m) <= m,
        last_line_start(b, m) > 0 ==> b[last_line_start(b, m) - 1] == 10,
        forall|k: int| last_line_start(b, m) <= k < m ==> b[k] != 10,
    decreases m,
{
    if m > 0 && b[m - 1] != 10 {
        lemma_last_line_start(b, m - 1);
    }
}

/// A line feed at `k` puts `k + 1` among the line-feed ends.
proof fn lemma_newline_end_member(b: Seq<u8>, k: int)
    requires
        b.len() <= u32::MAX,
        0 <= k < b.len(),
        b[k] == 10,
    ensures
        exists|j: int| 0 <= j < newline_ends(b).len() && newline_ends(b)[j] == k + 1,
    decreases b.len(),
{
    let u = b.drop_last();
    let e = newline_ends(b);
    if k == b.len() - 1 {
        assert(e == newline_ends(u).push(b.len() as u32));
        assert(e[e.len() - 1] == k + 1);
    } else {
        assert(u[k] == b[k]);
        lemma_newline_end_member(u, k);
        let j = choose|j: int| 0 <= j < newline_ends(u).len() && newline_ends(u)[j] == k + 1;
        if b.last() == 10u8 {
            assert(e == newline_ends(u).push(b.len() as u32));
            assert(e[j] == newline_ends(u)[j]);
        } else {
            assert(e == newline_ends(u));
        }
        assert(0 <= j < e.len() && e[j] == k + 1);
    }
}

/// Each line-feed end comes just after a line feed.
proof fn lemma_newline_end_source(b: Seq<u8>, j: int)
    requires
        b.len() <= u32::MAX,
        0 <= j < newline_ends(b).len(),
    ensures
        1 <= newline_ends(b)[j] <= b.len(),
        b[newline_ends(b)[j] - 1] == 10,
    decreases b.len(),
{
    let u = b.drop_last();
    lemma_newline_ends_bounds(u);
    if b.last() == 10u8 && j == newline_ends(b).len() - 1 {
    } else {
        lemma_newline_end_source(u, j);
    }
}

/// A line index built from `b` puts offset `m` on the line that starts just
/// past the last line feed before `m`.
pub proof fn lemma_line_start_is_last_line_feed(idx: LineIndex, b: Seq<u8>, m: u32, line: u32, col: u32)
    requires
        idx.wf(),
        idx.starts() == line_starts(b),
        b.len() < u32::MAX,
        m <= b.len(),
        idx.spec_line_col(m, line, col),
    ensures
        idx.starts()[line - 1] == last_line_start(b, m as int),
        col == m - last_line_start(b, m as int) + 1,
{
    let t = idx.starts();
    let e = newline_ends(b);
    let ls = last_line_start(b, m as int);
    lemma_last_line_start(b, m as int);
    lemma_newline_ends_bounds(b);
    // `ls` is an entry of the table.
    let jl: int = if ls == 0 {
        0
    } else {
        lemma_newline_end_member(b, ls - 1);
        let j = choose|j: int| 0 <= j < e.len() && e[j] == ls;
        assert(t[j + 1] == e[j]);
        j + 1
    };
    assert(0 <= jl < t.len() && t[jl] == ls);
    // It is at or below the line's start.
    if jl > line - 1 {
        if line < t.len() {
            assert(t[line as int] <= t[jl]);
        }
    }
    assert(jl <= line - 1);
    if jl < line - 1 {
        assert(t[jl] < t[line - 1]);
    }
    // Nothing in the table lies above `ls` and at or below `m`.
    let x = t[line - 1];
    if x > ls {
        assert(line - 1 >= 1);
        assert(x == e[line - 2]);
        lemma_newline_end_source(b, line - 2);
        assert(b[x - 1] == 10);
    }
}

/// Offset 0 is line 1, column 1.
pub proof fn lemma_offset_zero(idx: LineIndex, line: u32, col: u32)
    requires
        idx.wf(),
        idx.spec_line_col(0, line, col),
    ensures
        line == 1,
        col == 1,
{
    let t = idx.starts();
    if line > 1 {
        assert(t[0] < t[line - 1]);
    }
}

/// A line feed at byte `i` puts offset `i + 1` at column 1 of the line
/// after the line feeds up to and including it.
pub proof fn lemma_line_feed_starts_line(idx: LineIndex, b: Seq<u8>, i: int, line: u32, col: u32)
    requires
        idx.wf(),
        idx.starts() == line_starts(b),
        b.len() < u32::MAX,
        0 <= i < b.len(),
        b[i] == 10,
        idx.spec_line_col((i + 1) as u32, line, col),
    ensures
        line == 1 + count_byte(b.subrange(0, i + 1), 10),
        col == 1,
{
    lemma_line_counts_newlines(idx, b, (i + 1) as u32, line, col);
    lemma_line_start_is_last_line_feed(idx, b, (i + 1) as u32, line, col);
}

} // verus!
