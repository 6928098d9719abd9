//! Normalizations made while the tree is built: the identifier under which
//! a link reference and its definition meet, and the indentation of the
//! continuation lines of inline HTML.

use vstd::prelude::*;
use crate::text::{
    push_char, pop_char, str_trim, str_to_lowercase, str_to_uppercase, str_to_string, trim_chars,
    lowercase_chars, uppercase_chars,
};
use crate::continuation::is_eol_char;

verus! {

// ---------------------------------------------------------------------
// Identifiers
// ---------------------------------------------------------------------

/// Space, tab, line feed or carriage return: what collapses to one space.
pub open spec fn is_label_ws(c: char) -> bool {
    c == ' ' || c == '\t' || c == '\n' || c == '\r'
}

/// ASCII lower case of a character; others stay.
pub open spec fn ascii_lower(c: char) -> char {
    if 'A' <= c <= 'Z' {
        ((c as u32) + 32) as char
    } else {
        c
    }
}

fn ascii_lower_char(c: char) -> (r: char)
    ensures
        r == ascii_lower(c),
{
    if 'A' <= c && c <= 'Z' {
        ((c as u8) + 32) as char
    } else {
        c
    }
}

/// ASCII identifiers: each run of whitespace one space, none at the start,
/// letters lower-cased (before the trailing space is dropped).
pub open spec fn ascii_ident_fold(cs: Seq<char>) -> Seq<char>
    decreases cs.len(),
{
    if cs.len() == 0 {
        Seq::empty()
    } else {
        let out = ascii_ident_fold(cs.drop_last());
        let c = cs.last();
        if is_label_ws(c) {
            if out.len() > 0 && out.last() != ' ' {
                out.push(' ')
            } else {
                out
            }
        } else {
            out.push(ascii_lower(c))
        }
    }
}

/// Each run of whitespace collapsed to one space.
pub open spec fn collapse_ws(cs: Seq<char>) -> Seq<char>
    decreases cs.len(),
{
    if cs.len() == 0 {
        Seq::empty()
    } else {
        let out = collapse_ws(cs.drop_last());
        let c = cs.last();
        if is_label_ws(c) {
            if out.len() > 0 && out.last() == ' ' {
                out
            } else {
                out.push(' ')
            }
        } else {
            out.push(c)
        }
    }
}

/// The identifier of a label, as remark normalizes it: whitespace runs
/// collapsed, trimmed, case-folded by lower-, upper- then lower-casing. On
/// ASCII the folding is plain lower-casing.
pub open spec fn identifier_of(cs: Seq<char>) -> Seq<char> {
    if vstd::utf8::is_ascii_chars(cs) {
        let o = ascii_ident_fold(cs);
        if o.len() > 0 && o.last() == ' ' {
            o.drop_last()
        } else {
            o
        }
    } else {
        lowercase_chars(uppercase_chars(lowercase_chars(trim_chars(collapse_ws(cs)))))
    }
}

/// The mdast identifier of a label: whitespace runs collapsed, trimmed and
/// case-folded, so that `[Foo  Bar]` and `[foo bar]` meet.
pub fn normalize_identifier(s: &str) -> (r: String)
    ensures
        r@ == identifier_of(s@),
{
    if s.is_ascii() {
        let mut out = String::new();
        let mut last_was_ws = false;
        let mut any = false;
        for c in it: s.chars()
            invariant
                it.seq() == s@,
                out@ == ascii_ident_fold(s@.subrange(0, it.index() as int)),
                last_was_ws == (out@.len() > 0 && out@.last() == ' '),
                any == (out@.len() > 0),
        {
            proof {
                assert(s@.subrange(0, it.index() + 1).drop_last() =~= s@.subrange(
                    0,
                    it.index() as int,
                ));
            }
            if c == ' ' || c == '\t' || c == '\n' || c == '\r' {
                if !last_was_ws && any {
                    push_char(&mut out, ' ');
                    last_was_ws = true;
                }
            } else {
                push_char(&mut out, ascii_lower_char(c));
                last_was_ws = false;
                any = true;
            }
        }
        proof {
            assert(s@.subrange(0, s@.len() as int) =~= s@);
        }
        if last_was_ws {
            pop_char(&mut out);
        }
        return out;
    }
    let mut collapsed = String::new();
    let mut last_was_ws = false;
    for c in it: s.chars()
        invariant
            it.seq() == s@,
            collapsed@ == collapse_ws(s@.subrange(0, it.index() as int)),
            last_was_ws == (collapsed@.len() > 0 && collapsed@.last() == ' '),
    {
        proof {
            assert(s@.subrange(0, it.index() + 1).drop_last() =~= s@.subrange(0, it.index() as int));
        }
        if c == ' ' || c == '\t' || c == '\n' || c == '\r' {
            if !last_was_ws {
                push_char(&mut collapsed, ' ');
                last_was_ws = true;
            }
        } else {
            push_char(&mut collapsed, c);
            last_was_ws = false;
        }
    }
    proof {
        assert(s@.subrange(0, s@.len() as int) =~= s@);
    }
    let trimmed = str_trim(collapsed.as_str());
    let lower = str_to_lowercase(trimmed);
    let upper = str_to_uppercase(lower.as_str());
    str_to_lowercase(upper.as_str())
}

/// The shape of what the ASCII folding puts out: ASCII, no tab or line
/// ending, no upper-case letter, no space first and no two spaces in a row.
pub open spec fn ident_shape(o: Seq<char>) -> bool {
    &&& vstd::utf8::is_ascii_chars(o)
    &&& forall|i: int| 0 <= i < o.len() ==> #[trigger] o[i] != '\t' && o[i] != '\n' && o[i] != '\r'
        && !('A' <= o[i] <= 'Z')
    &&& o.len() > 0 ==> o[0] != ' '
    &&& forall|i: int| 0 <= i < o.len() - 1 ==> !(#[trigger] o[i] == ' ' && o[i + 1] == ' ')
}

proof fn lemma_ascii_lower(c: char)
    requires
        '\0' <= c <= '\u{7f}',
    ensures
        '\0' <= ascii_lower(c) <= '\u{7f}',
        !('A' <= ascii_lower(c) <= 'Z'),
        !is_label_ws(c) ==> !is_label_ws(ascii_lower(c)),
        !('A' <= c <= 'Z') ==> ascii_lower(c) == c,
{
}

proof fn lemma_fold_shape(cs: Seq<char>)
    requires
        vstd::utf8::is_ascii_chars(cs),
    ensures
        ident_shape(ascii_ident_fold(cs)),
    decreases cs.len(),
{
    if cs.len() > 0 {
        let pre = cs.drop_last();
        assert(vstd::utf8::is_ascii_chars(pre)) by {
            assert forall|i: int| 0 <= i < pre.len() implies '\0' <= #[trigger] pre[i] <= '\u{7f}' by {
                assert(pre[i] == cs[i]);
            }
        }
        lemma_fold_shape(pre);
        let c = cs.last();
        assert(cs[cs.len() - 1] == c);
        lemma_ascii_lower(c);
        let out = ascii_ident_fold(pre);
        let o = ascii_ident_fold(cs);
        if is_label_ws(c) {
            if out.len() > 0 && out.last() != ' ' {
                assert(o == out.push(' '));
                assert forall|i: int| 0 <= i < o.len() implies '\0' <= #[trigger] o[i] <= '\u{7f}' by {
                    if i < out.len() {
                        assert(o[i] == out[i]);
                    }
                }
                assert forall|i: int| 0 <= i < o.len() implies #[trigger] o[i] != '\t' && o[i] != '\n'
                    && o[i] != '\r' && !('A' <= o[i] <= 'Z') by {
                    if i < out.len() {
                        assert(o[i] == out[i]);
                    }
                }
                assert forall|i: int| 0 <= i < o.len() - 1 implies !(#[trigger] o[i] == ' ' && o[i
                    + 1] == ' ') by {
                    if i + 1 < out.len() {
                        assert(o[i] == out[i] && o[i + 1] == out[i + 1]);
                    } else {
                        assert(o[i] == out[out.len() - 1]);
                    }
                }
                assert(o[0] == out[0]);
            }
        } else {
            let d = ascii_lower(c);
            assert(o == out.push(d));
            assert forall|i: int| 0 <= i < o.len() implies '\0' <= #[trigger] o[i] <= '\u{7f}' by {
                if i < out.len() {
                    assert(o[i] == out[i]);
                }
            }
            assert forall|i: int| 0 <= i < o.len() implies #[trigger] o[i] != '\t' && o[i] != '\n'
                && o[i] != '\r' && !('A' <= o[i] <= 'Z') by {
                if i < out.len() {
                    assert(o[i] == out[i]);
                }
            }
            assert forall|i: int| 0 <= i < o.len() - 1 implies !(#[trigger] o[i] == ' ' && o[i + 1]
                == ' ') by {
                if i + 1 < out.len() {
                    assert(o[i] == out[i] && o[i + 1] == out[i + 1]);
                }
            }
            if out.len() > 0 {
                assert(o[0] == out[0]);
            }
        }
    }
}

proof fn lemma_fold_fixed(o: Seq<char>)
    requires
        ident_shape(o),
    ensures
        ascii_ident_fold(o) == o,
    decreases o.len(),
{
    if o.len() > 0 {
        let pre = o.drop_last();
        let c = o.last();
        assert(c == o[o.len() - 1]);
        assert(ident_shape(pre)) by {
            assert forall|i: int| 0 <= i < pre.len() implies '\0' <= #[trigger] pre[i] <= '\u{7f}' by {
                assert(pre[i] == o[i]);
            }
            assert forall|i: int| 0 <= i < pre.len() implies #[trigger] pre[i] != '\t' && pre[i]
                != '\n' && pre[i] != '\r' && !('A' <= pre[i] <= 'Z') by {
                assert(pre[i] == o[i]);
            }
            assert forall|i: int| 0 <= i < pre.len() - 1 implies !(#[trigger] pre[i] == ' ' && pre[i
                + 1] == ' ') by {
                assert(pre[i] == o[i] && pre[i + 1] == o[i + 1]);
            }
            if pre.len() > 0 {
                assert(pre[0] == o[0]);
            }
        }
        lemma_fold_fixed(pre);
        lemma_ascii_lower(c);
        if c == ' ' {
            assert(o.len() > 1);
            assert(pre.last() == o[o.len() - 2]);
            assert(!(o[o.len() - 2] == ' ' && o[o.len() - 1] == ' '));
        }
        assert(pre.push(c) =~= o);
    }
}

/// Normalizing an ASCII identifier once more changes nothing: an
/// identifier is its own identifier, so a label normalized twice still
/// meets its definition.
pub proof fn lemma_identifier_idempotent(cs: Seq<char>)
    requires
        vstd::utf8::is_ascii_chars(cs),
    ensures
        identifier_of(identifier_of(cs)) == identifier_of(cs),
{
    let o = ascii_ident_fold(cs);
    lemma_fold_shape(cs);
    let y = identifier_of(cs);
    if o.len() > 0 && o.last() == ' ' {
        assert(o.len() > 1);
        assert(y == o.drop_last());
        assert(ident_shape(y)) by {
            assert forall|i: int| 0 <= i < y.len() implies '\0' <= #[trigger] y[i] <= '\u{7f}' by {
                assert(y[i] == o[i]);
            }
            assert forall|i: int| 0 <= i < y.len() implies #[trigger] y[i] != '\t' && y[i] != '\n'
                && y[i] != '\r' && !('A' <= y[i] <= 'Z') by {
                assert(y[i] == o[i]);
            }
            assert forall|i: int| 0 <= i < y.len() - 1 implies !(#[trigger] y[i] == ' ' && y[i + 1]
                == ' ') by {
                assert(y[i] == o[i] && y[i + 1] == o[i + 1]);
            }
            assert(y[0] == o[0]);
        }
        assert(y.last() == o[o.len() - 2]);
        assert(!(o[o.len() - 2] == ' ' && o[o.len() - 1] == ' '));
    } else {
        assert(y == o);
    }
    lemma_fold_fixed(y);
}

// ---------------------------------------------------------------------
// Inline HTML
// ---------------------------------------------------------------------

/// `n` spaces.
pub open spec fn spaces(n: int) -> Seq<char> {
    Seq::new(n as nat, |i: int| ' ')
}

/// The state after a step of the inline HTML dedent: the output so far,
/// whether the scan is in the indentation of a continuation line, and the
/// column reached there.
pub open spec fn html_wrap_step(st: (Seq<char>, bool, int), c: char) -> (Seq<char>, bool, int) {
    let (out, indent, col) = st;
    if is_eol_char(c) {
        (out.push(c), true, 0)
    } else if indent && col < 3 && c == ' ' {
        (out, true, col + 1)
    } else if indent && col < 3 && c == '\t' {
        let tab = 4 - col % 4;
        if col + tab <= 3 {
            (out, true, col + tab)
        } else {
            (out + spaces(col + tab - 3), true, 3)
        }
    } else {
        (out.push(c), false, col)
    }
}

/// Up to three columns of indentation taken off each continuation line,
/// tab stops every four columns, the columns of a tab past the third kept
/// as spaces.
pub open spec fn html_wrap_fold(cs: Seq<char>) -> (Seq<char>, bool, int)
    decreases cs.len(),
{
    if cs.len() == 0 {
        (Seq::empty(), false, 0)
    } else {
        html_wrap_step(html_wrap_fold(cs.drop_last()), cs.last())
    }
}

/// Whether a line ending occurs in the characters.
pub open spec fn has_eol_char(cs: Seq<char>) -> bool {
    exists|i: int| 0 <= i < cs.len() && is_eol_char(#[trigger] cs[i])
}

/// Inline HTML with the indentation of its continuation lines dedented as
/// micromark does; `None` when that changes nothing.
pub open spec fn html_wrap_of(cs: Seq<char>) -> Option<Seq<char>> {
    let o = html_wrap_fold(cs).0;
    if !has_eol_char(cs) || o == cs {
        None
    } else {
        Some(o)
    }
}

fn push_spaces(out: &mut String, n: usize)
    ensures
        final(out)@ == old(out)@ + spaces(n as int),
{
    let mut k: usize = 0;
    while k < n
        invariant
            k <= n,
            out@ == old(out)@ + spaces(k as int),
        decreases n - k,
    {
        push_char(out, ' ');
        k += 1;
        proof {
            assert(out@ =~= old(out)@ + spaces(k as int));
        }
    }
}

/// The source of an inline HTML span with up to three columns of
/// indentation taken off each continuation line (tabs to four-column
/// stops, overflow kept as spaces); `None` when no line changes.
pub fn normalize_inline_html_wrap(src: &str) -> (r: Option<String>)
    ensures
        r matches Some(o) ==> html_wrap_of(src@) == Some(o@),
        r is None ==> html_wrap_of(src@) is None,
{
    let mut out = String::new();
    let mut indent = false;
    let mut col: usize = 0;
    let mut seen_eol = false;
    for c in it: src.chars()
        invariant
            it.seq() == src@,
            col <= 3,
            (out@, indent, col as int) == html_wrap_fold(src@.subrange(0, it.index() as int)),
            seen_eol == has_eol_char(src@.subrange(0, it.index() as int)),
    {
        let ghost pre = src@.subrange(0, it.index() as int);
        let ghost next = src@.subrange(0, it.index() + 1);
        proof {
            assert(next.drop_last() =~= pre);
            assert(next.last() == c);
            if has_eol_char(pre) {
                let k = choose|k: int| 0 <= k < pre.len() && is_eol_char(#[trigger] pre[k]);
                assert(next[k] == pre[k]);
            }
            if has_eol_char(next) {
                let k = choose|k: int| 0 <= k < next.len() && is_eol_char(#[trigger] next[k]);
                if k < pre.len() {
                    assert(pre[k] == next[k]);
                }
            }
        }
        if c == '\n' || c == '\r' {
            push_char(&mut out, c);
            indent = true;
            col = 0;
            seen_eol = true;
        } else if indent && col < 3 && c == ' ' {
            col += 1;
        } else if indent && col < 3 && c == '\t' {
            let tab = 4 - col % 4;
            if col + tab <= 3 {
                col += tab;
            } else {
                push_spaces(&mut out, col + tab - 3);
                col = 3;
            }
        } else {
            push_char(&mut out, c);
            indent = false;
        }
    }
    proof {
        assert(src@.subrange(0, src@.len() as int) =~= src@);
    }
    if !seen_eol {
        return None;
    }
    let same = str_to_string(src);
    if out == same {
        None
    } else {
        Some(out)
    }
}

} // verus!
