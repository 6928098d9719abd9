//! Continuation lines of MDX expressions and JSX attribute values: the
//! leading whitespace that micromark takes off each line after the first.
//! Each transform is stated as a left fold over the characters, one step per
//! character, so that the contract is exactly what one pass computes.

use vstd::prelude::*;
use crate::text::push_char;

verus! {

/// Stands for a column of a tab that dedenting took apart: whitespace with
/// no byte of its own in the source, so that it can be told from whitespace
/// the author wrote.
pub const PHANTOM_SPACE: char = '\u{F002}';

/// `n` phantom spaces.
pub open spec fn phantoms(n: int) -> Seq<char> {
    Seq::new(n as nat, |i: int| PHANTOM_SPACE)
}

fn push_phantoms(out: &mut String, n: usize)
    ensures
        final(out)@ == old(out)@ + phantoms(n as int),
{
    let mut k: usize = 0;
    while k < n
        invariant
            k <= n,
            out@ == old(out)@ + phantoms(k as int),
        decreases n - k,
    {
        push_char(out, PHANTOM_SPACE);
        k += 1;
        proof {
            assert(out@ =~= old(out)@ + phantoms(k as int));
        }
    }
}

/// A line ending character.
pub open spec fn is_eol_char(c: char) -> bool {
    c == '\n' || c == '\r'
}

// ---------------------------------------------------------------------
// Attribute values
// ---------------------------------------------------------------------

/// All spaces and tabs at the start of each continuation line dropped:
/// the output so far and whether the scan is at a line start.
pub open spec fn attr_strip(cs: Seq<char>) -> (Seq<char>, bool)
    decreases cs.len(),
{
    if cs.len() == 0 {
        (Seq::empty(), false)
    } else {
        let (out, at_start) = attr_strip(cs.drop_last());
        let c = cs.last();
        if is_eol_char(c) {
            (out.push(c), true)
        } else if at_start && (c == ' ' || c == '\t') {
            (out, true)
        } else {
            (out.push(c), false)
        }
    }
}

/// The value of a JSX attribute expression with the indentation of its
/// continuation lines removed, as `mdast-util-mdx-jsx` does.
pub fn strip_attr_continuation_indent(s: &str) -> (r: String)
    ensures
        r@ == attr_strip(s@).0,
{
    let mut out = String::new();
    let mut at_start = false;
    for c in it: s.chars()
        invariant
            it.seq() == s@,
            (out@, at_start) == attr_strip(s@.subrange(0, it.index() as int)),
    {
        proof {
            assert(s@.subrange(0, it.index() + 1).drop_last() =~= s@.subrange(0, it.index() as int));
        }
        if c == '\n' || c == '\r' {
            push_char(&mut out, c);
            at_start = true;
        } else if at_start && (c == ' ' || c == '\t') {
        } else {
            push_char(&mut out, c);
            at_start = false;
        }
    }
    proof {
        assert(s@.subrange(0, s@.len() as int) =~= s@);
    }
    out
}

// ---------------------------------------------------------------------
// Expressions
// ---------------------------------------------------------------------

/// The column a continuation line starts at: the container's content
/// column, or 1 outside containers.
pub open spec fn base_column(container_content_col: int) -> int {
    if container_content_col == 0 {
        1
    } else {
        container_content_col
    }
}

/// The state after a step of the expression dedent: the output so far,
/// whether leading whitespace is still being taken, how many columns were
/// taken on this line, and the (zero-based) column reached.
pub open spec fn dedent_step(st: (Seq<char>, bool, int, int), c: char, base: int) -> (
    Seq<char>,
    bool,
    int,
    int,
) {
    let (out, stripping, taken, col) = st;
    if is_eol_char(c) {
        (out.push(c), true, 0, base - 1)
    } else if stripping && taken < 2 {
        if c == ' ' {
            (out, true, taken + 1, col + 1)
        } else if c == '\t' {
            let next = (col / 4 + 1) * 4;
            let width = next - col;
            let take = if 2 - taken < width {
                2 - taken
            } else {
                width
            };
            (out + phantoms(width - take), true, taken + take, next)
        } else {
            (out.push(c), false, taken, col)
        }
    } else {
        (out.push(c), false, taken, col)
    }
}

/// Up to two columns of spaces and tabs taken off each continuation line
/// (micromark's `indentSize = 2` for expressions), tab stops every four
/// columns counted from `base`, the columns of a tab that are not taken
/// kept as phantom spaces.
pub open spec fn dedent_fold(cs: Seq<char>, base: int) -> (Seq<char>, bool, int, int)
    decreases cs.len(),
{
    if cs.len() == 0 {
        (Seq::empty(), false, 0, base - 1)
    } else {
        dedent_step(dedent_fold(cs.drop_last(), base), cs.last(), base)
    }
}

/// An MDX expression with the `indentSize = 2` prefix taken off each
/// continuation line; `container_content_col` is the column where the
/// innermost container's content begins (0 outside containers), which
/// places the tab stops.
pub fn dedent_expression_continuation(s: &str, container_content_col: usize) -> (r: String)
    requires
        container_content_col <= usize::MAX - 8,
    ensures
        r@ == dedent_fold(s@, base_column(container_content_col as int)).0,
{
    let base: usize = if container_content_col == 0 {
        1
    } else {
        container_content_col
    };
    let ghost b = base as int;
    let mut out = String::new();
    let mut stripping = false;
    let mut taken: usize = 0;
    let mut col: usize = base - 1;
    for c in it: s.chars()
        invariant
            it.seq() == s@,
            b == base_column(container_content_col as int),
            1 <= base <= usize::MAX - 8,
            b == base,
            taken <= 2,
            col <= base - 1 + 4 * taken,
            (out@, stripping, taken as int, col as int) == dedent_fold(
                s@.subrange(0, it.index() as int),
                b,
            ),
    {
        proof {
            assert(s@.subrange(0, it.index() + 1).drop_last() =~= s@.subrange(0, it.index() as int));
        }
        if c == '\n' || c == '\r' {
            push_char(&mut out, c);
            stripping = true;
            taken = 0;
            col = base - 1;
        } else if stripping && taken < 2 {
            if c == ' ' {
                taken += 1;
                col += 1;
            } else if c == '\t' {
                let next = (col / 4 + 1) * 4;
                let width = next - col;
                let take = if 2 - taken < width {
                    2 - taken
                } else {
                    width
                };
                push_phantoms(&mut out, width - take);
                taken += take;
                col = next;
            } else {
                push_char(&mut out, c);
                stripping = false;
            }
        } else {
            push_char(&mut out, c);
            stripping = false;
        }
    }
    proof {
        assert(s@.subrange(0, s@.len() as int) =~= s@);
    }
    out
}

/// The state after a step of the attribute-expression dedent: the output
/// so far, whether the scan is at a line start, the columns taken there,
/// and the (one-based) column reached.
pub open spec fn indent_step(st: (Seq<char>, bool, int, int), c: char, base: int, strip: int) -> (
    Seq<char>,
    bool,
    int,
    int,
) {
    let (out, at_start, taken, col) = st;
    if is_eol_char(c) {
        (out.push(c), true, 0, base)
    } else if at_start && taken < strip && c == ' ' {
        (out, true, taken + 1, col + 1)
    } else if at_start && taken < strip && c == '\t' {
        let tab = 4 - (col - 1) % 4;
        let want = strip - taken;
        if want >= tab {
            (out, true, taken + tab, col + tab)
        } else {
            (out + phantoms(tab - want), false, taken, col)
        }
    } else {
        (out.push(c), false, taken, col)
    }
}

/// Up to `strip` columns of spaces and tabs taken off each continuation
/// line, tab stops every four columns counted from `base`; a tab only
/// partly taken leaves its other columns as phantom spaces.
pub open spec fn indent_fold(cs: Seq<char>, base: int, strip: int) -> (Seq<char>, bool, int, int)
    decreases cs.len(),
{
    if cs.len() == 0 {
        (Seq::empty(), false, 0, base)
    } else {
        indent_step(indent_fold(cs.drop_last(), base, strip), cs.last(), base, strip)
    }
}

/// A JSX attribute expression with its continuation lines dedented as
/// `mdast-util-mdx-jsx` does: `indentSize = 2` columns plus
/// `extra_strip_cols` taken by enclosing constructs, counted from the
/// container's content column.
pub fn strip_expression_indent(s: &str, container_content_col: usize, extra_strip_cols: usize) -> (r:
    String)
    requires
        container_content_col + extra_strip_cols + 8 <= usize::MAX,
    ensures
        r@ == indent_fold(s@, base_column(container_content_col as int), 2 + extra_strip_cols).0,
{
    let base: usize = if container_content_col == 0 {
        1
    } else {
        container_content_col
    };
    let strip = 2 + extra_strip_cols;
    let mut out = String::new();
    let mut at_start = false;
    let mut taken: usize = 0;
    let mut col: usize = base;
    for c in it: s.chars()
        invariant
            it.seq() == s@,
            base == base_column(container_content_col as int),
            strip == 2 + extra_strip_cols,
            1 <= base,
            base + strip + 4 <= usize::MAX,
            taken <= strip,
            col == base + taken,
            (out@, at_start, taken as int, col as int) == indent_fold(
                s@.subrange(0, it.index() as int),
                base as int,
                strip as int,
            ),
    {
        proof {
            assert(s@.subrange(0, it.index() + 1).drop_last() =~= s@.subrange(0, it.index() as int));
        }
        if c == '\n' || c == '\r' {
            push_char(&mut out, c);
            at_start = true;
            taken = 0;
            col = base;
        } else if at_start && taken < strip && c == ' ' {
            taken += 1;
            col += 1;
        } else if at_start && taken < strip && c == '\t' {
            let tab = 4 - (col - 1) % 4;
            let want = strip - taken;
            if want >= tab {
                taken += tab;
                col += tab;
            } else {
                push_phantoms(&mut out, tab - want);
                at_start = false;
            }
        } else {
            push_char(&mut out, c);
            at_start = false;
        }
    }
    proof {
        assert(s@.subrange(0, s@.len() as int) =~= s@);
    }
    out
}

// ---------------------------------------------------------------------
// Single lines
// ---------------------------------------------------------------------

/// No line ending occurs in the characters.
pub open spec fn one_line(cs: Seq<char>) -> bool {
    forall|i: int| 0 <= i < cs.len() ==> !is_eol_char(#[trigger] cs[i])
}

proof fn lemma_one_line_prefix(cs: Seq<char>)
    requires
        one_line(cs),
        cs.len() > 0,
    ensures
        one_line(cs.drop_last()),
        !is_eol_char(cs.last()),
{
    assert forall|i: int| 0 <= i < cs.drop_last().len() implies !is_eol_char(
        #[trigger] cs.drop_last()[i],
    ) by {
        assert(cs.drop_last()[i] == cs[i]);
    }
    assert(cs.last() == cs[cs.len() - 1]);
}

/// Text on one line has no continuation line to strip: each transform
/// gives it back unchanged, and stays in its first-line state.
pub proof fn lemma_one_line_unchanged(cs: Seq<char>, base: int, strip: int)
    requires
        one_line(cs),
    ensures
        attr_strip(cs) == (cs, false),
        dedent_fold(cs, base).0 == cs && !dedent_fold(cs, base).1,
        indent_fold(cs, base, strip).0 == cs && !indent_fold(cs, base, strip).1,
    decreases cs.len(),
{
    if cs.len() > 0 {
        lemma_one_line_prefix(cs);
        lemma_one_line_unchanged(cs.drop_last(), base, strip);
        assert(cs.drop_last().push(cs.last()) =~= cs);
    } else {
        assert(cs =~= Seq::<char>::empty());
    }
}

} // verus!
