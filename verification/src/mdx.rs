//! Where MDX constructs end: expressions `{…}` lexed as JavaScript, JSX
//! tags and whole elements, flow blocks of them, and ESM blocks. Scans that
//! cross lines inside a list or block quote check each continuation line's
//! container prefix through a caller's check.

use vstd::prelude::*;
use crate::ascii::{spec_is_alpha, spec_is_alnum, is_alpha, is_alnum};
use crate::search::find_byte;
use crate::labels::{str_range, lemma_boundary_after_ascii};
use crate::text::lemma_str_decodes;
use vstd::string::*;
use vstd::utf8::{valid_utf8, is_char_boundary, is_char_boundary_start_end_of_seq};
use crate::mdx_lex::{
    addressable, left, utf8_len, mdx_ws_at, jsx_name_start_at, jsx_name_continue_at, string_end,
    regex_end, is_ident_byte, spec_slash_is_regex_after, blank_line_next, blank_run_end,
    spec_looks_like_spread, lemma_string_end_ge, lemma_regex_end_ge, lemma_blank_run_end_ge,
    char_len_utf8, is_mdx_unicode_whitespace, is_jsx_name_start, is_jsx_name_continue,
    skip_string, scan_regex, slash_is_regex_after, is_blank_line_next, looks_like_spread,
};

verus! {

/// Nesting at which the mutually recursive expression and JSX scans give
/// up, so that inputs like `<a {<b {<c …}/>}/>` cannot exhaust the stack.
pub const MAX_MDX_NESTING: u32 = 32;

/// A container check as the scans see it: for the bytes from the start of
/// a continuation line, the width of the container prefix to skip, or
/// `None` when the line lacks it.
pub type LineOracle = spec_fn(Seq<u8>) -> Option<usize>;

/// An executable check that answers as `oracle` does and never skips past
/// the end of the line it is given.
pub open spec fn check_ok<F: Fn(&[u8]) -> Option<usize>>(f: &F, oracle: LineOracle) -> bool {
    &&& forall|line: &[u8]| #[trigger] f.requires((line,))
    &&& forall|line: &[u8], r: Option<usize>| #[trigger]
        f.ensures((line,), r) ==> r == oracle(line@) && (r matches Some(k) ==> k <= line@.len())
}

/// Outside any container there is no prefix to skip.
pub open spec fn no_prefix() -> LineOracle {
    |line: Seq<u8>| Some(0usize)
}

/// The check used outside any container.
pub fn no_line_check(line: &[u8]) -> (r: Option<usize>)
    ensures
        r == Some(0usize),
{
    Some(0)
}

pub open spec fn as_pos(r: Option<usize>) -> Option<int> {
    match r {
        Some(x) => Some(x as int),
        None => None,
    }
}

/// After a line break that ends just before `ix`: where the new line's
/// content starts, past its container prefix, or `None` when the prefix is
/// missing.
pub open spec fn prefix_after(s: Seq<u8>, ix: int, chk: LineOracle) -> Option<int> {
    if 0 <= ix < s.len() {
        match chk(s.subrange(ix, s.len() as int)) {
            Some(k) => Some(ix + k),
            None => None,
        }
    } else {
        Some(ix)
    }
}

/// Like `prefix_after`, but a line without the prefix is taken as a lazy
/// continuation: nothing is skipped and the second component says so.
pub open spec fn lazy_after(s: Seq<u8>, ix: int, chk: LineOracle) -> (int, bool) {
    if 0 <= ix < s.len() {
        match chk(s.subrange(ix, s.len() as int)) {
            Some(k) => (ix + k, false),
            None => (ix, true),
        }
    } else {
        (ix, false)
    }
}

/// Past a line ending at `ix` (a CR LF pair counts as one).
pub open spec fn after_eol(s: Seq<u8>, ix: int) -> int {
    if s[ix] == 13 && ix + 1 < s.len() && s[ix + 1] == 10 {
        ix + 2
    } else {
        ix + 1
    }
}

// ---------------------------------------------------------------------
// JavaScript tokens inside expressions
// ---------------------------------------------------------------------

/// Where a template literal goes on from `ix`, with `td` open `${` braces:
/// after its closing backtick, or at the end of input; `None` when a scan
/// that must stay `inline` meets a line ending followed by a blank line.
pub open spec fn template_end(s: Seq<u8>, ix: int, td: int, inline: bool) -> Option<int>
    decreases left(s, ix),
{
    if !(0 <= ix < s.len()) {
        Some(ix)
    } else {
        let b = s[ix];
        if b == 96 && td == 0 {
            Some(ix + 1)
        } else if b == 92 {
            template_end(s, ix + 2, td, inline)
        } else if b == 36 && ix + 1 < s.len() && s[ix + 1] == 123 {
            template_end(s, ix + 2, td + 1, inline)
        } else if b == 123 && td > 0 {
            template_end(s, ix + 1, td + 1, inline)
        } else if b == 125 && td > 0 {
            template_end(s, ix + 1, td - 1, inline)
        } else if (b == 10 || b == 13) && inline && blank_line_next(s, ix) {
            None
        } else {
            template_end(s, ix + 1, td, inline)
        }
    }
}

/// The line feed that ends a `//` comment going on from `i`, or the end.
pub open spec fn line_comment_end(s: Seq<u8>, i: int) -> int
    decreases left(s, i),
{
    if 0 <= i < s.len() && s[i] != 10 {
        line_comment_end(s, i + 1)
    } else {
        i
    }
}

/// Past the `*/` that closes a block comment going on from `ix`, or the
/// last byte when it is not closed; `None` when an `inline` scan meets a
/// line ending followed by a blank line.
pub open spec fn block_comment_end(s: Seq<u8>, ix: int, inline: bool) -> Option<int>
    decreases left(s, ix),
{
    if !(0 <= ix && ix + 1 < s.len()) {
        Some(ix)
    } else if s[ix] == 42 && s[ix + 1] == 47 {
        Some(ix + 2)
    } else if inline && (s[ix] == 10 || s[ix] == 13) && blank_line_next(s, ix) {
        None
    } else {
        block_comment_end(s, ix + 1, inline)
    }
}

/// A byte after `<` that can open a JSX tag inside an expression.
pub open spec fn jsx_open_byte(b: u8) -> bool {
    spec_is_alpha(b) || b == 95 || b == 36 || b == 47 || b == 62
}

// ---------------------------------------------------------------------
// JSX tag pieces
// ---------------------------------------------------------------------

/// The end of the whitespace (ASCII or Unicode space) from `i`.
pub open spec fn mdx_ws_run_end(s: Seq<u8>, i: int) -> int
    decreases left(s, i),
{
    if 0 <= i < s.len() && mdx_ws_at(s, i) {
        mdx_ws_run_end(s, i + utf8_len(s[i]))
    } else {
        i
    }
}

/// The end of the name-continue characters from `i`.
pub open spec fn name_continue_end(s: Seq<u8>, i: int) -> int
    decreases left(s, i),
{
    if 0 <= i < s.len() && jsx_name_continue_at(s, i) {
        name_continue_end(s, i + utf8_len(s[i]))
    } else {
        i
    }
}

/// The end of a tag name whose first character ended just before `ix`: a
/// plain name, a namespaced name `a:b` or a member chain `a.b.c`, with
/// whitespace allowed around the separators. `None` when a separator is not
/// followed by a name.
pub open spec fn tag_name_end(s: Seq<u8>, ix: int, saw_ns: bool, saw_member: bool) -> Option<int>
    decreases left(s, ix),
{
    if ix < 0 {
        None
    } else {
        let i1 = name_continue_end(s, ix);
        let i2 = mdx_ws_run_end(s, i1);
        let sep_ok = i2 < s.len() && ((s[i2] == 58 && !saw_ns && !saw_member) || (s[i2] == 46
            && !saw_ns));
        if !sep_ok {
            Some(i1)
        } else {
            let j = mdx_ws_run_end(s, i2 + 1);
            if j >= s.len() || !jsx_name_start_at(s, j) {
                None
            } else {
                proof {
                    lemma_name_continue_end_ge(s, ix);
                    lemma_mdx_ws_run_end_ge(s, i1);
                    lemma_mdx_ws_run_end_ge(s, i2 + 1);
                }
                tag_name_end(
                    s,
                    j + utf8_len(s[j]),
                    saw_ns || s[i2] == 58,
                    saw_member || s[i2] == 46,
                )
            }
        }
    }
}

/// Whitespace between attributes, line endings included: where it ends,
/// or `None` when a continuation line lacks its container prefix.
pub open spec fn attr_space_end(s: Seq<u8>, ix: int, chk: LineOracle) -> Option<int>
    decreases left(s, ix),
{
    if !(0 <= ix < s.len()) {
        Some(ix)
    } else {
        let b = s[ix];
        if b == 32 || b == 9 {
            attr_space_end(s, ix + 1, chk)
        } else if b == 10 || b == 13 {
            match prefix_after(s, after_eol(s, ix), chk) {
                Some(k) => attr_space_end(s, k, chk),
                None => None,
            }
        } else if mdx_ws_at(s, ix) {
            attr_space_end(s, ix + utf8_len(b), chk)
        } else {
            Some(ix)
        }
    }
}

/// The end of an attribute name whose first character ended just before
/// `ix`; one `:` may split it, and must be followed by a name start.
pub open spec fn attr_name_end(s: Seq<u8>, ix: int, saw_ns: bool) -> Option<int>
    decreases left(s, ix),
{
    if !(0 <= ix < s.len()) {
        Some(ix)
    } else if s[ix] == 58 {
        if saw_ns || ix + 1 >= s.len() || !jsx_name_start_at(s, ix + 1) {
            None
        } else {
            attr_name_end(s, ix + 1 + utf8_len(s[ix + 1]), true)
        }
    } else if jsx_name_continue_at(s, ix) {
        attr_name_end(s, ix + utf8_len(s[ix]), saw_ns)
    } else {
        Some(ix)
    }
}

/// The first `q` at or after `i`, or the end.
pub open spec fn quote_close(s: Seq<u8>, i: int, q: u8) -> int
    decreases left(s, i),
{
    if 0 <= i < s.len() && s[i] != q {
        quote_close(s, i + 1, q)
    } else {
        i
    }
}

// ---------------------------------------------------------------------
// The mutually recursive scans
// ---------------------------------------------------------------------
//
// Each is measured by how much nesting is left, then a rank (an element
// scan calls tag and expression scans at its own nesting), then by how
// far along it is. A tag scan that starts afresh (an inline tag, whose
// attribute expressions start at nesting 0) counts as one level above all.

pub open spec fn nest_left(nest: int, fresh: bool) -> int {
    if fresh {
        MAX_MDX_NESTING + 2
    } else {
        MAX_MDX_NESTING + 1 - nest
    }
}

/// The nesting at which a tag scan lexes its attribute expressions.
pub open spec fn attr_expr_nest(nest: int, fresh: bool) -> int {
    if fresh {
        0
    } else {
        nest + 1
    }
}

/// Where an expression `{…}` at the start of `s` ends, just past its
/// closing brace. Spaces and line breaks aside, a byte on a lazy line makes
/// a `lazy_mode` scan fail unless `allow_lazy_body`.
pub open spec fn expr_end(
    s: Seq<u8>,
    inline: bool,
    chk: LineOracle,
    lazy_mode: bool,
    allow_lazy_body: bool,
    nest: int,
) -> Option<int>
    decreases nest_left(nest, false), 0int, s.len() + 2,
{
    if nest > MAX_MDX_NESTING || s.len() == 0 || s[0] != 123 {
        None
    } else {
        expr_scan(s, 1, 1, false, false, inline, chk, lazy_mode, allow_lazy_body, nest)
    }
}

/// The expression lexer at `ix`, with `depth` braces open, `lazy_line`
/// telling whether the current line came in lazily, and `prev_value`
/// whether the last token produced a value (which makes a `/` a division).
pub open spec fn expr_scan(
    s: Seq<u8>,
    ix: int,
    depth: int,
    lazy_line: bool,
    prev_value: bool,
    inline: bool,
    chk: LineOracle,
    lazy_mode: bool,
    allow_lazy_body: bool,
    nest: int,
) -> Option<int>
    decreases nest_left(nest, false), 0int, left(s, ix),
{
    if nest > MAX_MDX_NESTING || depth <= 0 || !(0 <= ix < s.len()) {
        None
    } else {
        let b = s[ix];
        if b == 10 || b == 13 {
            if inline && blank_line_next(s, ix) {
                None
            } else if lazy_mode {
                let (k, lz) = lazy_after(s, after_eol(s, ix), chk);
                expr_scan(
                    s,
                    k,
                    depth,
                    lz,
                    prev_value,
                    inline,
                    chk,
                    lazy_mode,
                    allow_lazy_body,
                    nest,
                )
            } else {
                match prefix_after(s, after_eol(s, ix), chk) {
                    Some(k) => expr_scan(
                        s,
                        k,
                        depth,
                        lazy_line,
                        prev_value,
                        inline,
                        chk,
                        lazy_mode,
                        allow_lazy_body,
                        nest,
                    ),
                    None => None,
                }
            }
        } else if b == 32 || b == 9 {
            expr_scan(
                s,
                ix + 1,
                depth,
                lazy_line,
                prev_value,
                inline,
                chk,
                lazy_mode,
                allow_lazy_body,
                nest,
            )
        } else if lazy_mode && !allow_lazy_body && lazy_line {
            None
        } else if b == 123 {
            expr_scan(
                s,
                ix + 1,
                depth + 1,
                lazy_line,
                false,
                inline,
                chk,
                lazy_mode,
                allow_lazy_body,
                nest,
            )
        } else if b == 125 {
            if depth == 1 {
                Some(ix + 1)
            } else {
                expr_scan(
                    s,
                    ix + 1,
                    depth - 1,
                    lazy_line,
                    true,
                    inline,
                    chk,
                    lazy_mode,
                    allow_lazy_body,
                    nest,
                )
            }
        } else if b == 39 && ix > 0 && (spec_is_alnum(s[ix - 1]) || s[ix - 1] == 95) {
            // An apostrophe after a word (`user's`) is JSX text, not a string.
            expr_scan(
                s,
                ix + 1,
                depth,
                lazy_line,
                prev_value,
                inline,
                chk,
                lazy_mode,
                allow_lazy_body,
                nest,
            )
        } else if b == 34 || b == 39 {
            proof {
                lemma_string_end_ge(s, b, ix + 1);
            }
            expr_scan(
                s,
                string_end(s, b, ix + 1),
                depth,
                lazy_line,
                true,
                inline,
                chk,
                lazy_mode,
                allow_lazy_body,
                nest,
            )
        } else if b == 96 {
            match template_end(s, ix + 1, 0, inline) {
                Some(e) => {
                    proof {
                        lemma_template_end_ge(s, ix + 1, 0, inline);
                    }
                    expr_scan(
                        s,
                        e,
                        depth,
                        lazy_line,
                        true,
                        inline,
                        chk,
                        lazy_mode,
                        allow_lazy_body,
                        nest,
                    )
                },
                None => None,
            }
        } else if b == 47 && ix + 1 < s.len() && s[ix + 1] == 47 {
            proof {
                lemma_line_comment_end_ge(s, ix + 2);
            }
            expr_scan(
                s,
                line_comment_end(s, ix + 2),
                depth,
                lazy_line,
                prev_value,
                inline,
                chk,
                lazy_mode,
                allow_lazy_body,
                nest,
            )
        } else if b == 47 && ix + 1 < s.len() && s[ix + 1] == 42 {
            match block_comment_end(s, ix + 2, inline) {
                Some(e) => {
                    proof {
                        lemma_block_comment_end_ge(s, ix + 2, inline);
                    }
                    expr_scan(
                        s,
                        e,
                        depth,
                        lazy_line,
                        prev_value,
                        inline,
                        chk,
                        lazy_mode,
                        allow_lazy_body,
                        nest,
                    )
                },
                None => None,
            }
        } else if b == 47 && spec_slash_is_regex_after(s, ix, prev_value) {
            proof {
                lemma_regex_end_ge(s, ix + 1, false);
            }
            expr_scan(
                s,
                regex_end(s, ix + 1, false),
                depth,
                lazy_line,
                true,
                inline,
                chk,
                lazy_mode,
                allow_lazy_body,
                nest,
            )
        } else if b == 60 && ix + 1 < s.len() && jsx_open_byte(s[ix + 1]) {
            match element_end(s.subrange(ix, s.len() as int), nest + 1) {
                Some(e) => if e > 0 {
                    expr_scan(
                        s,
                        ix + e,
                        depth,
                        lazy_line,
                        true,
                        inline,
                        chk,
                        lazy_mode,
                        allow_lazy_body,
                        nest,
                    )
                } else {
                    None
                },
                None => expr_scan(
                    s,
                    ix + 1,
                    depth,
                    lazy_line,
                    false,
                    inline,
                    chk,
                    lazy_mode,
                    allow_lazy_body,
                    nest,
                ),
            }
        } else {
            expr_scan(
                s,
                ix + 1,
                depth,
                lazy_line,
                is_ident_byte(b) || b == 41 || b == 93,
                inline,
                chk,
                lazy_mode,
                allow_lazy_body,
                nest,
            )
        }
    }
}

/// Where a whole JSX element at the start of `s` ends: past its matching
/// closing tag, or past the tag itself when it closes or self-closes.
pub open spec fn element_end(s: Seq<u8>, nest: int) -> Option<int>
    decreases nest_left(nest, false), 1int, s.len() + 2,
{
    if nest > MAX_MDX_NESTING {
        None
    } else {
        match tag_end(s, no_prefix(), nest, false) {
            None => None,
            Some(t) => {
                let is_closing = s.len() > 1 && s[1] == 47;
                let is_self_closing = t >= 2 && s[t - 2] == 47;
                if is_closing || is_self_closing {
                    Some(t)
                } else {
                    children_end(s, t, nest)
                }
            },
        }
    }
}

/// The children of an element from `ix`: literal text, expressions and
/// nested elements, up to and including the first closing tag.
pub open spec fn children_end(s: Seq<u8>, ix: int, nest: int) -> Option<int>
    decreases nest_left(nest, false), 1int, left(s, ix),
{
    if nest > MAX_MDX_NESTING || !(0 <= ix < s.len()) {
        None
    } else if s[ix] == 123 {
        match expr_end(s.subrange(ix, s.len() as int), false, no_prefix(), false, true, nest) {
            Some(l) => if l > 0 {
                children_end(s, ix + l, nest)
            } else {
                None
            },
            None => None,
        }
    } else if s[ix] == 60 && ix + 1 < s.len() && s[ix + 1] == 47 {
        match tag_end(s.subrange(ix, s.len() as int), no_prefix(), nest, false) {
            Some(l) => Some(ix + l),
            None => None,
        }
    } else if s[ix] == 60 {
        match element_end(s.subrange(ix, s.len() as int), nest + 1) {
            Some(l) => if l > 0 {
                children_end(s, ix + l, nest)
            } else {
                None
            },
            None => children_end(s, ix + 1, nest),
        }
    } else {
        children_end(s, ix + 1, nest)
    }
}

/// Where a JSX tag at the start of `s` (its `<` at 0) ends, just past its
/// `>`: a fragment `<>` or `</>`, or a name, then for an opening tag its
/// attributes, and `>` or `/>`.
pub open spec fn tag_end(s: Seq<u8>, chk: LineOracle, nest: int, fresh: bool) -> Option<int>
    decreases nest_left(nest, fresh), 0int, s.len() + 2,
{
    if !fresh && nest > MAX_MDX_NESTING {
        None
    } else {
        let is_closing = 1 < s.len() && s[1] == 47;
        let ix = if is_closing {
            mdx_ws_run_end(s, 2)
        } else {
            1
        };
        if ix < s.len() && s[ix] == 62 {
            Some(ix + 1)
        } else if ix >= s.len() || !jsx_name_start_at(s, ix) {
            None
        } else {
            match tag_name_end(s, ix + utf8_len(s[ix]), false, false) {
                None => None,
                Some(e) => if e < s.len() && !(s[e] == 62 || s[e] == 47 || s[e] == 123 || mdx_ws_at(
                    s,
                    e,
                )) {
                    None
                } else {
                    attrs_end(s, e, is_closing, chk, nest, fresh)
                },
            }
        }
    }
}

/// The attribute area of a tag from `ix`, up to and including its `>`:
/// attributes `name`, `name="…"`, `name='…'` or `name={…}`, and spreads
/// `{...expr}`; a closing tag takes whitespace only.
pub open spec fn attrs_end(
    s: Seq<u8>,
    ix: int,
    is_closing: bool,
    chk: LineOracle,
    nest: int,
    fresh: bool,
) -> Option<int>
    decreases nest_left(nest, fresh), 0int, left(s, ix),
{
    if (!fresh && nest > MAX_MDX_NESTING) || ix < 0 {
        None
    } else {
        match attr_space_end(s, ix, chk) {
            None => None,
            Some(i) => {
                proof {
                    lemma_attr_space_end_ge(s, ix, chk);
                }
                if i >= s.len() {
                    None
                } else if s[i] == 62 {
                    Some(i + 1)
                } else if is_closing {
                    None
                } else if s[i] == 47 {
                    match attr_space_end(s, i + 1, chk) {
                        Some(j) => if j < s.len() && s[j] == 62 {
                            Some(j + 1)
                        } else {
                            None
                        },
                        None => None,
                    }
                } else if s[i] == 123 {
                    if !spec_looks_like_spread(s.subrange(i, s.len() as int)) {
                        None
                    } else {
                        match expr_end(
                            s.subrange(i, s.len() as int),
                            false,
                            no_prefix(),
                            false,
                            true,
                            attr_expr_nest(nest, fresh),
                        ) {
                            Some(l) => if l > 0 {
                                attrs_end(s, i + l, is_closing, chk, nest, fresh)
                            } else {
                                None
                            },
                            None => None,
                        }
                    }
                } else if jsx_name_start_at(s, i) {
                    match attr_name_end(s, i + utf8_len(s[i]), false) {
                        None => None,
                        Some(k) => {
                            proof {
                                lemma_attr_name_end_ge(s, i + utf8_len(s[i]), false);
                            }
                            match attr_space_end(s, k, chk) {
                                None => None,
                                Some(p) => if p < s.len() && s[p] == 61 {
                                    match attr_space_end(s, p + 1, chk) {
                                        None => None,
                                        Some(q) => {
                                            proof {
                                                lemma_attr_space_end_ge(s, k, chk);
                                                lemma_attr_space_end_ge(s, p + 1, chk);
                                            }
                                            if q >= s.len() {
                                                None
                                            } else if s[q] == 34 || s[q] == 39 {
                                                let e = quote_close(s, q + 1, s[q]);
                                                proof {
                                                    lemma_quote_close_ge(s, q + 1, s[q]);
                                                }
                                                if e >= s.len() {
                                                    None
                                                } else {
                                                    attrs_end(s, e + 1, is_closing, chk, nest, fresh)
                                                }
                                            } else if s[q] == 123 {
                                                match expr_end(
                                                    s.subrange(q, s.len() as int),
                                                    false,
                                                    no_prefix(),
                                                    false,
                                                    true,
                                                    attr_expr_nest(nest, fresh),
                                                ) {
                                                    Some(l) => if l > 0 {
                                                        attrs_end(
                                                            s,
                                                            q + l,
                                                            is_closing,
                                                            chk,
                                                            nest,
                                                            fresh,
                                                        )
                                                    } else {
                                                        None
                                                    },
                                                    None => None,
                                                }
                                            } else {
                                                None
                                            }
                                        },
                                    }
                                } else {
                                    attrs_end(s, k, is_closing, chk, nest, fresh)
                                },
                            }
                        },
                    }
                } else {
                    None
                }
            },
        }
    }
}

// ---------------------------------------------------------------------
// Progress of the pieces
// ---------------------------------------------------------------------

pub proof fn lemma_template_end_ge(s: Seq<u8>, ix: int, td: int, inline: bool)
    requires
        0 <= ix,
    ensures
        template_end(s, ix, td, inline) matches Some(e) ==> e >= ix,
    decreases left(s, ix),
{
    if 0 <= ix < s.len() {
        let b = s[ix];
        if b == 96 && td == 0 {
        } else if b == 92 {
            lemma_template_end_ge(s, ix + 2, td, inline);
        } else if b == 36 && ix + 1 < s.len() && s[ix + 1] == 123 {
            lemma_template_end_ge(s, ix + 2, td + 1, inline);
        } else if b == 123 && td > 0 {
            lemma_template_end_ge(s, ix + 1, td + 1, inline);
        } else if b == 125 && td > 0 {
            lemma_template_end_ge(s, ix + 1, td - 1, inline);
        } else if (b == 10 || b == 13) && inline && blank_line_next(s, ix) {
        } else {
            lemma_template_end_ge(s, ix + 1, td, inline);
        }
    }
}

pub proof fn lemma_line_comment_end_ge(s: Seq<u8>, i: int)
    requires
        0 <= i,
    ensures
        line_comment_end(s, i) >= i,
        i <= s.len() ==> line_comment_end(s, i) <= s.len(),
    decreases left(s, i),
{
    if 0 <= i < s.len() && s[i] != 10 {
        lemma_line_comment_end_ge(s, i + 1);
    }
}

pub proof fn lemma_block_comment_end_ge(s: Seq<u8>, ix: int, inline: bool)
    requires
        0 <= ix,
    ensures
        block_comment_end(s, ix, inline) matches Some(e) ==> e >= ix,
    decreases left(s, ix),
{
    if 0 <= ix && ix + 1 < s.len() && !(s[ix] == 42 && s[ix + 1] == 47) && !(inline && (s[ix]
        == 10 || s[ix] == 13) && blank_line_next(s, ix)) {
        lemma_block_comment_end_ge(s, ix + 1, inline);
    }
}

pub proof fn lemma_mdx_ws_run_end_ge(s: Seq<u8>, i: int)
    requires
        0 <= i,
    ensures
        mdx_ws_run_end(s, i) >= i,
    decreases left(s, i),
{
    if 0 <= i < s.len() && mdx_ws_at(s, i) {
        lemma_mdx_ws_run_end_ge(s, i + utf8_len(s[i]));
    }
}

pub proof fn lemma_name_continue_end_ge(s: Seq<u8>, i: int)
    requires
        0 <= i,
    ensures
        name_continue_end(s, i) >= i,
    decreases left(s, i),
{
    if 0 <= i < s.len() && jsx_name_continue_at(s, i) {
        lemma_name_continue_end_ge(s, i + utf8_len(s[i]));
    }
}

pub proof fn lemma_attr_space_end_ge(s: Seq<u8>, ix: int, chk: LineOracle)
    requires
        0 <= ix,
    ensures
        attr_space_end(s, ix, chk) matches Some(i) ==> i >= ix,
    decreases left(s, ix),
{
    if 0 <= ix < s.len() {
        let b = s[ix];
        if b == 32 || b == 9 {
            lemma_attr_space_end_ge(s, ix + 1, chk);
        } else if b == 10 || b == 13 {
            match prefix_after(s, after_eol(s, ix), chk) {
                Some(k) => lemma_attr_space_end_ge(s, k, chk),
                None => {},
            }
        } else if mdx_ws_at(s, ix) {
            lemma_attr_space_end_ge(s, ix + utf8_len(b), chk);
        }
    }
}

pub proof fn lemma_attr_name_end_ge(s: Seq<u8>, ix: int, saw_ns: bool)
    requires
        0 <= ix,
    ensures
        attr_name_end(s, ix, saw_ns) matches Some(k) ==> k >= ix,
    decreases left(s, ix),
{
    if 0 <= ix < s.len() {
        if s[ix] == 58 {
            if !(saw_ns || ix + 1 >= s.len() || !jsx_name_start_at(s, ix + 1)) {
                lemma_attr_name_end_ge(s, ix + 1 + utf8_len(s[ix + 1]), true);
            }
        } else if jsx_name_continue_at(s, ix) {
            lemma_attr_name_end_ge(s, ix + utf8_len(s[ix]), saw_ns);
        }
    }
}

pub proof fn lemma_quote_close_ge(s: Seq<u8>, i: int, q: u8)
    requires
        0 <= i,
    ensures
        quote_close(s, i, q) >= i,
        i <= s.len() ==> quote_close(s, i, q) <= s.len(),
    decreases left(s, i),
{
    if 0 <= i < s.len() && s[i] != q {
        lemma_quote_close_ge(s, i + 1, q);
    }
}

// ---------------------------------------------------------------------
// Executable pieces
// ---------------------------------------------------------------------

/// After a line break, `ix` at the start of the next line: skip the
/// container prefix the check finds there, or fail without one.
fn check_container_after_newline<F: Fn(&[u8]) -> Option<usize>>(
    bytes: &[u8],
    ix: usize,
    check: &F,
    Ghost(chk): Ghost<LineOracle>,
) -> (r: Option<usize>)
    requires
        ix <= bytes@.len(),
        check_ok(check, chk),
    ensures
        as_pos(r) == prefix_after(bytes@, ix as int, chk),
        r matches Some(j) ==> ix <= j <= bytes@.len(),
{
    if ix < bytes.len() {
        let line = vstd::slice::slice_subrange(bytes, ix, bytes.len());
        match check(line) {
            Some(k) => Some(ix + k),
            None => None,
        }
    } else {
        Some(ix)
    }
}

/// Like `check_container_after_newline`, but a line without the prefix is accepted as a
/// lazy continuation, which the second component reports.
fn check_container_after_newline_lazy<F: Fn(&[u8]) -> Option<usize>>(
    bytes: &[u8],
    ix: usize,
    check: &F,
    Ghost(chk): Ghost<LineOracle>,
) -> (r: (usize, bool))
    requires
        ix <= bytes@.len(),
        check_ok(check, chk),
    ensures
        (r.0 as int, r.1) == lazy_after(bytes@, ix as int, chk),
        ix <= r.0 <= bytes@.len(),
{
    if ix < bytes.len() {
        let line = vstd::slice::slice_subrange(bytes, ix, bytes.len());
        match check(line) {
            Some(k) => (ix + k, false),
            None => (ix, true),
        }
    } else {
        (ix, false)
    }
}

fn skip_template(bytes: &[u8], start: usize, inline: bool) -> (r: Option<usize>)
    requires
        start <= bytes@.len(),
        addressable(bytes@),
    ensures
        as_pos(r) == template_end(bytes@, start as int, 0, inline),
        r matches Some(e) ==> start <= e <= bytes@.len() + 1,
{
    let len = bytes.len();
    let mut ix = start;
    let mut td: usize = 0;
    while ix < len
        invariant
            start <= ix <= len + 1,
            td <= ix,
            len == bytes@.len(),
            addressable(bytes@),
            template_end(bytes@, ix as int, td as int, inline) == template_end(
                bytes@,
                start as int,
                0,
                inline,
            ),
        decreases len + 1 - ix,
    {
        let b = bytes[ix];
        if b == '`' as u8 && td == 0 {
            return Some(ix + 1);
        } else if b == '\\' as u8 {
            ix += 2;
        } else if b == '$' as u8 && ix + 1 < len && bytes[ix + 1] == '{' as u8 {
            td += 1;
            ix += 2;
        } else if b == '{' as u8 && td > 0 {
            td += 1;
            ix += 1;
        } else if b == '}' as u8 && td > 0 {
            td -= 1;
            ix += 1;
        } else if (b == '\n' as u8 || b == '\r' as u8) && inline && is_blank_line_next(bytes, ix) {
            return None;
        } else {
            ix += 1;
        }
    }
    Some(ix)
}

fn skip_block_comment(bytes: &[u8], start: usize, inline: bool) -> (r: Option<usize>)
    requires
        start <= bytes@.len(),
        addressable(bytes@),
    ensures
        as_pos(r) == block_comment_end(bytes@, start as int, inline),
        r matches Some(e) ==> start <= e <= bytes@.len(),
{
    let len = bytes.len();
    let mut ix = start;
    while ix + 1 < len
        invariant
            start <= ix <= len,
            len == bytes@.len(),
            addressable(bytes@),
            block_comment_end(bytes@, ix as int, inline) == block_comment_end(
                bytes@,
                start as int,
                inline,
            ),
        decreases len - ix,
    {
        if bytes[ix] == '*' as u8 && bytes[ix + 1] == '/' as u8 {
            return Some(ix + 2);
        }
        if inline && (bytes[ix] == '\n' as u8 || bytes[ix] == '\r' as u8) && is_blank_line_next(
            bytes,
            ix,
        ) {
            return None;
        }
        ix += 1;
    }
    Some(ix)
}

/// The end of the MDX whitespace from `start`.
pub fn skip_mdx_ws(bytes: &[u8], start: usize) -> (r: usize)
    requires
        start <= bytes@.len(),
    ensures
        r == mdx_ws_run_end(bytes@, start as int),
        start <= r <= bytes@.len(),
{
    let mut ix = start;
    while ix < bytes.len() && is_mdx_unicode_whitespace(bytes, ix)
        invariant
            start <= ix <= bytes@.len(),
            mdx_ws_run_end(bytes@, ix as int) == mdx_ws_run_end(bytes@, start as int),
        decreases bytes@.len() - ix,
    {
        ix += char_len_utf8(bytes[ix]);
    }
    ix
}

/// The end of the name-continue characters from `start`.
pub fn skip_name_continue(bytes: &[u8], start: usize) -> (r: usize)
    requires
        start <= bytes@.len(),
    ensures
        r == name_continue_end(bytes@, start as int),
        start <= r <= bytes@.len(),
{
    let mut ix = start;
    while ix < bytes.len() && is_jsx_name_continue(bytes, ix)
        invariant
            start <= ix <= bytes@.len(),
            name_continue_end(bytes@, ix as int) == name_continue_end(bytes@, start as int),
        decreases bytes@.len() - ix,
    {
        ix += char_len_utf8(bytes[ix]);
    }
    ix
}

fn scan_tag_name(bytes: &[u8], start: usize) -> (r: Option<usize>)
    requires
        start <= bytes@.len(),
    ensures
        as_pos(r) == tag_name_end(bytes@, start as int, false, false),
        r matches Some(e) ==> start <= e <= bytes@.len(),
{
    let len = bytes.len();
    let mut ix = start;
    let mut saw_ns = false;
    let mut saw_member = false;
    loop
        invariant
            start <= ix <= len,
            len == bytes@.len(),
            tag_name_end(bytes@, ix as int, saw_ns, saw_member) == tag_name_end(
                bytes@,
                start as int,
                false,
                false,
            ),
        decreases len - ix,
    {
        let i1 = skip_name_continue(bytes, ix);
        let i2 = skip_mdx_ws(bytes, i1);
        if i2 >= len {
            return Some(i1);
        }
        let b = bytes[i2];
        let sep_ok = (b == ':' as u8 && !saw_ns && !saw_member) || (b == '.' as u8 && !saw_ns);
        if !sep_ok {
            return Some(i1);
        }
        let j = skip_mdx_ws(bytes, i2 + 1);
        if j >= len || !is_jsx_name_start(bytes, j) {
            return None;
        }
        saw_ns = saw_ns || b == ':' as u8;
        saw_member = saw_member || b == '.' as u8;
        ix = j + char_len_utf8(bytes[j]);
    }
}

fn skip_attr_space<F: Fn(&[u8]) -> Option<usize>>(
    bytes: &[u8],
    start: usize,
    check: &F,
    Ghost(chk): Ghost<LineOracle>,
) -> (r: Option<usize>)
    requires
        start <= bytes@.len(),
        check_ok(check, chk),
    ensures
        as_pos(r) == attr_space_end(bytes@, start as int, chk),
        r matches Some(i) ==> start <= i <= bytes@.len(),
{
    let len = bytes.len();
    let mut ix = start;
    while ix < len
        invariant
            start <= ix <= len,
            len == bytes@.len(),
            check_ok(check, chk),
            attr_space_end(bytes@, ix as int, chk) == attr_space_end(bytes@, start as int, chk),
        decreases len - ix,
    {
        let b = bytes[ix];
        if b == ' ' as u8 || b == '\t' as u8 {
            ix += 1;
        } else if b == '\n' as u8 || b == '\r' as u8 {
            let mut j = ix + 1;
            if b == '\r' as u8 && j < len && bytes[j] == '\n' as u8 {
                j += 1;
            }
            match check_container_after_newline(bytes, j, check, Ghost(chk)) {
                Some(k) => {
                    ix = k;
                },
                None => {
                    return None;
                },
            }
        } else if is_mdx_unicode_whitespace(bytes, ix) {
            ix += char_len_utf8(b);
        } else {
            return Some(ix);
        }
    }
    Some(ix)
}

fn scan_attr_name(bytes: &[u8], start: usize) -> (r: Option<usize>)
    requires
        start <= bytes@.len(),
    ensures
        as_pos(r) == attr_name_end(bytes@, start as int, false),
        r matches Some(k) ==> start <= k <= bytes@.len(),
{
    let len = bytes.len();
    let mut ix = start;
    let mut saw_ns = false;
    while ix < len
        invariant
            start <= ix <= len,
            len == bytes@.len(),
            attr_name_end(bytes@, ix as int, saw_ns) == attr_name_end(bytes@, start as int, false),
        decreases len - ix,
    {
        if bytes[ix] == ':' as u8 {
            if saw_ns {
                return None;
            }
            saw_ns = true;
            ix += 1;
            if ix >= len || !is_jsx_name_start(bytes, ix) {
                return None;
            }
            ix += char_len_utf8(bytes[ix]);
        } else if is_jsx_name_continue(bytes, ix) {
            ix += char_len_utf8(bytes[ix]);
        } else {
            return Some(ix);
        }
    }
    Some(ix)
}

// ---------------------------------------------------------------------
// Expressions, tags and elements
// ---------------------------------------------------------------------

fn jsx_open(b: u8) -> (r: bool)
    ensures
        r == jsx_open_byte(b),
{
    is_alpha(b) || b == '_' as u8 || b == '$' as u8 || b == '/' as u8 || b == '>' as u8
}

fn value_byte(b: u8) -> (r: bool)
    ensures
        r == (is_ident_byte(b) || b == 41 || b == 93),
{
    is_alnum(b) || b == '_' as u8 || b == '$' as u8 || b == ')' as u8 || b == ']' as u8
}

/// Scans an MDX expression `{…}` at the start of `bytes` with a light
/// JavaScript lexer (strings, comments, template literals, regular
/// expressions, nested braces and JSX), returning the offset just past the
/// matching `}`. An `inline` scan fails at a blank line. Continuation lines
/// go through `check`; with `lazy_mode`, a line lacking the prefix is a lazy
/// continuation, where only whitespace and the closing brace may stand
/// unless `allow_lazy_body`.
pub fn scan_mdx_expression_end_inner<F: Fn(&[u8]) -> Option<usize>>(
    bytes: &[u8],
    inline: bool,
    check: &F,
    Ghost(chk): Ghost<LineOracle>,
    lazy_mode: bool,
    allow_lazy_body: bool,
    nesting_depth: u32,
) -> (r: Option<usize>)
    requires
        check_ok(check, chk),
        addressable(bytes@),
    ensures
        as_pos(r) == expr_end(
            bytes@,
            inline,
            chk,
            lazy_mode,
            allow_lazy_body,
            nesting_depth as int,
        ),
        r matches Some(e) ==> 2 <= e <= bytes@.len(),
    decreases nest_left(nesting_depth as int, false), 0int,
{
    let len = bytes.len();
    if nesting_depth > MAX_MDX_NESTING || len == 0 || bytes[0] != '{' as u8 {
        return None;
    }
    let mut ix: usize = 1;
    let mut depth: usize = 1;
    let mut line_lazy = false;
    let mut prev_was_value = false;
    while ix < len
        invariant
            1 <= ix <= len + 1,
            1 <= depth <= ix,
            len == bytes@.len(),
            addressable(bytes@),
            check_ok(check, chk),
            nesting_depth <= MAX_MDX_NESTING,
            expr_scan(
                bytes@,
                ix as int,
                depth as int,
                line_lazy,
                prev_was_value,
                inline,
                chk,
                lazy_mode,
                allow_lazy_body,
                nesting_depth as int,
            ) == expr_end(bytes@, inline, chk, lazy_mode, allow_lazy_body, nesting_depth as int),
        decreases len + 1 - ix,
    {
        let b = bytes[ix];
        if b == '\n' as u8 || b == '\r' as u8 {
            if inline && is_blank_line_next(bytes, ix) {
                return None;
            }
            let mut j = ix + 1;
            if b == '\r' as u8 && j < len && bytes[j] == '\n' as u8 {
                j += 1;
            }
            if lazy_mode {
                let (k, lazy) = check_container_after_newline_lazy(bytes, j, check, Ghost(chk));
                ix = k;
                line_lazy = lazy;
            } else {
                match check_container_after_newline(bytes, j, check, Ghost(chk)) {
                    Some(k) => {
                        ix = k;
                    },
                    None => {
                        return None;
                    },
                }
            }
        } else if b == ' ' as u8 || b == '\t' as u8 {
            ix += 1;
        } else if lazy_mode && !allow_lazy_body && line_lazy {
            return None;
        } else if b == '{' as u8 {
            depth += 1;
            ix += 1;
            prev_was_value = false;
        } else if b == '}' as u8 {
            if depth == 1 {
                return Some(ix + 1);
            }
            depth -= 1;
            ix += 1;
            prev_was_value = true;
        } else if b == '\'' as u8 && ix > 0 && (is_alnum(bytes[ix - 1]) || bytes[ix - 1] == '_' as u8) {
            ix += 1;
        } else if b == '"' as u8 || b == '\'' as u8 {
            ix = skip_string(bytes, ix);
            prev_was_value = true;
        } else if b == '`' as u8 {
            match skip_template(bytes, ix + 1, inline) {
                Some(e) => {
                    ix = e;
                    prev_was_value = true;
                },
                None => {
                    return None;
                },
            }
        } else if b == '/' as u8 && ix + 1 < len && bytes[ix + 1] == '/' as u8 {
            let start = ix + 2;
            ix = start;
            while ix < len && bytes[ix] != '\n' as u8
                invariant
                    start <= ix <= len,
                    len == bytes@.len(),
                    line_comment_end(bytes@, ix as int) == line_comment_end(bytes@, start as int),
                decreases len - ix,
            {
                ix += 1;
            }
        } else if b == '/' as u8 && ix + 1 < len && bytes[ix + 1] == '*' as u8 {
            match skip_block_comment(bytes, ix + 2, inline) {
                Some(e) => {
                    ix = e;
                },
                None => {
                    return None;
                },
            }
        } else if b == '/' as u8 && slash_is_regex_after(bytes, ix, prev_was_value) {
            ix = scan_regex(bytes, ix);
            prev_was_value = true;
        } else if b == '<' as u8 && ix + 1 < len && jsx_open(bytes[ix + 1]) {
            let rest = vstd::slice::slice_subrange(bytes, ix, len);
            match scan_mdx_jsx_element_end(rest, nesting_depth + 1) {
                Some(e) => {
                    ix += e;
                    prev_was_value = true;
                },
                None => {
                    ix += 1;
                    prev_was_value = false;
                },
            }
        } else {
            prev_was_value = value_byte(b);
            ix += 1;
        }
    }
    None
}

/// Scans a JSX tag at the start of `bytes` (its `<` at 0) through its `>`,
/// validating the name and each attribute. Attribute expressions are lexed
/// at the next nesting level, or from level 0 when `fresh`.
fn scan_jsx_tag_core<F: Fn(&[u8]) -> Option<usize>>(
    bytes: &[u8],
    check: &F,
    Ghost(chk): Ghost<LineOracle>,
    nesting_depth: u32,
    fresh: bool,
) -> (r: Option<usize>)
    requires
        check_ok(check, chk),
        addressable(bytes@),
    ensures
        as_pos(r) == tag_end(bytes@, chk, nesting_depth as int, fresh),
        r matches Some(e) ==> 1 <= e <= bytes@.len(),
    decreases nest_left(nesting_depth as int, fresh), 0int,
{
    if !fresh && nesting_depth > MAX_MDX_NESTING {
        return None;
    }
    assert(check_ok(&no_line_check, no_prefix()));
    let len = bytes.len();
    let is_closing = 1 < len && bytes[1] == '/' as u8;
    let mut ix: usize = 1;
    if is_closing {
        ix = skip_mdx_ws(bytes, 2);
    }
    if ix < len && bytes[ix] == '>' as u8 {
        return Some(ix + 1);
    }
    if ix >= len || !is_jsx_name_start(bytes, ix) {
        return None;
    }
    let name_end = match scan_tag_name(bytes, ix + char_len_utf8(bytes[ix])) {
        Some(e) => e,
        None => {
            return None;
        },
    };
    if name_end < len && !(bytes[name_end] == '>' as u8 || bytes[name_end] == '/' as u8
        || bytes[name_end] == '{' as u8 || is_mdx_unicode_whitespace(bytes, name_end)) {
        return None;
    }
    let expr_nest: u32 = if fresh {
        0
    } else {
        nesting_depth + 1
    };
    let mut ix = name_end;
    loop
        invariant
            ix <= len,
            len == bytes@.len(),
            addressable(bytes@),
            check_ok(check, chk),
            check_ok(&no_line_check, no_prefix()),
            fresh || nesting_depth <= MAX_MDX_NESTING,
            expr_nest == attr_expr_nest(nesting_depth as int, fresh),
            attrs_end(bytes@, ix as int, is_closing, chk, nesting_depth as int, fresh) == tag_end(
                bytes@,
                chk,
                nesting_depth as int,
                fresh,
            ),
        decreases len - ix,
    {
        let i = match skip_attr_space(bytes, ix, check, Ghost(chk)) {
            Some(i) => i,
            None => {
                return None;
            },
        };
        if i >= len {
            return None;
        }
        let b = bytes[i];
        if b == '>' as u8 {
            return Some(i + 1);
        }
        if is_closing {
            return None;
        }
        if b == '/' as u8 {
            match skip_attr_space(bytes, i + 1, check, Ghost(chk)) {
                Some(j) => {
                    if j < len && bytes[j] == '>' as u8 {
                        return Some(j + 1);
                    }
                    return None;
                },
                None => {
                    return None;
                },
            }
        } else if b == '{' as u8 {
            let rest = vstd::slice::slice_subrange(bytes, i, len);
            if !looks_like_spread(rest) {
                return None;
            }
            match scan_mdx_expression_end_inner(
                rest,
                false,
                &no_line_check,
                Ghost(no_prefix()),
                false,
                true,
                expr_nest,
            ) {
                Some(l) => {
                    ix = i + l;
                },
                None => {
                    return None;
                },
            }
        } else if is_jsx_name_start(bytes, i) {
            let k = match scan_attr_name(bytes, i + char_len_utf8(b)) {
                Some(k) => k,
                None => {
                    return None;
                },
            };
            let p = match skip_attr_space(bytes, k, check, Ghost(chk)) {
                Some(p) => p,
                None => {
                    return None;
                },
            };
            if p < len && bytes[p] == '=' as u8 {
                let q = match skip_attr_space(bytes, p + 1, check, Ghost(chk)) {
                    Some(q) => q,
                    None => {
                        return None;
                    },
                };
                if q >= len {
                    return None;
                }
                let c = bytes[q];
                if c == '"' as u8 || c == '\'' as u8 {
                    let mut e = q + 1;
                    while e < len && bytes[e] != c
                        invariant
                            q < e <= len,
                            len == bytes@.len(),
                            c == bytes@[q as int],
                            quote_close(bytes@, e as int, c) == quote_close(
                                bytes@,
                                q + 1,
                                c,
                            ),
                        decreases len - e,
                    {
                        e += 1;
                    }
                    if e >= len {
                        return None;
                    }
                    ix = e + 1;
                } else if c == '{' as u8 {
                    let rest = vstd::slice::slice_subrange(bytes, q, len);
                    match scan_mdx_expression_end_inner(
                        rest,
                        false,
                        &no_line_check,
                        Ghost(no_prefix()),
                        false,
                        true,
                        expr_nest,
                    ) {
                        Some(l) => {
                            ix = q + l;
                        },
                        None => {
                            return None;
                        },
                    }
                } else {
                    return None;
                }
            } else {
                ix = k;
            }
        } else {
            return None;
        }
    }
}

/// Scans a whole JSX element at the start of `bytes`: its tag and, unless
/// the tag closes or self-closes, its children up to the matching closing
/// tag. Text in children is literal, so quotes there are not strings.
pub fn scan_mdx_jsx_element_end(bytes: &[u8], nesting_depth: u32) -> (r: Option<usize>)
    requires
        addressable(bytes@),
    ensures
        as_pos(r) == element_end(bytes@, nesting_depth as int),
        r matches Some(e) ==> 1 <= e <= bytes@.len(),
    decreases nest_left(nesting_depth as int, false), 1int,
{
    if nesting_depth > MAX_MDX_NESTING {
        return None;
    }
    assert(check_ok(&no_line_check, no_prefix()));
    let tag_len = match scan_jsx_tag_core(
        bytes,
        &no_line_check,
        Ghost(no_prefix()),
        nesting_depth,
        false,
    ) {
        Some(t) => t,
        None => {
            return None;
        },
    };
    let len = bytes.len();
    let is_closing = len > 1 && bytes[1] == '/' as u8;
    let is_self_closing = tag_len >= 2 && bytes[tag_len - 2] == '/' as u8;
    if is_closing || is_self_closing {
        return Some(tag_len);
    }
    let mut ix = tag_len;
    while ix < len
        invariant
            tag_len <= ix <= len,
            1 <= tag_len,
            len == bytes@.len(),
            addressable(bytes@),
            nesting_depth <= MAX_MDX_NESTING,
            check_ok(&no_line_check, no_prefix()),
            children_end(bytes@, ix as int, nesting_depth as int) == element_end(
                bytes@,
                nesting_depth as int,
            ),
        decreases len - ix,
    {
        let b = bytes[ix];
        let rest = vstd::slice::slice_subrange(bytes, ix, len);
        if b == '{' as u8 {
            match scan_mdx_expression_end_inner(
                rest,
                false,
                &no_line_check,
                Ghost(no_prefix()),
                false,
                true,
                nesting_depth,
            ) {
                Some(l) => {
                    ix += l;
                },
                None => {
                    return None;
                },
            }
        } else if b == '<' as u8 && ix + 1 < len && bytes[ix + 1] == '/' as u8 {
            match scan_jsx_tag_core(rest, &no_line_check, Ghost(no_prefix()), nesting_depth, false) {
                Some(l) => {
                    return Some(ix + l);
                },
                None => {
                    return None;
                },
            }
        } else if b == '<' as u8 {
            match scan_mdx_jsx_element_end(rest, nesting_depth + 1) {
                Some(l) => {
                    ix += l;
                },
                None => {
                    ix += 1;
                },
            }
        } else {
            ix += 1;
        }
    }
    None
}

// ---------------------------------------------------------------------
// Entry points
// ---------------------------------------------------------------------

/// An expression `{…}` at the start of `bytes`, outside any container.
pub fn scan_mdx_expression_end(bytes: &[u8], inline: bool) -> (r: Option<usize>)
    requires
        addressable(bytes@),
    ensures
        as_pos(r) == expr_end(bytes@, inline, no_prefix(), false, true, 0),
        r matches Some(e) ==> 2 <= e <= bytes@.len(),
{
    assert(check_ok(&no_line_check, no_prefix()));
    scan_mdx_expression_end_inner(bytes, inline, &no_line_check, Ghost(no_prefix()), false, true, 0)
}

/// A JSX tag at the start of `bytes`, from `<` to its `>`, with
/// continuation lines checked by `check`.
pub fn scan_mdx_jsx_tag_end_inner<F: Fn(&[u8]) -> Option<usize>>(
    bytes: &[u8],
    check: &F,
    Ghost(chk): Ghost<LineOracle>,
    nesting_depth: u32,
) -> (r: Option<usize>)
    requires
        check_ok(check, chk),
        addressable(bytes@),
    ensures
        as_pos(r) == tag_end(bytes@, chk, nesting_depth as int, false),
        r matches Some(e) ==> 1 <= e <= bytes@.len(),
{
    scan_jsx_tag_core(bytes, check, Ghost(chk), nesting_depth, false)
}

/// A JSX tag at the start of `bytes`, outside any container.
pub fn scan_mdx_jsx_tag_end(bytes: &[u8]) -> (r: Option<usize>)
    requires
        addressable(bytes@),
    ensures
        as_pos(r) == tag_end(bytes@, no_prefix(), 0, false),
        r matches Some(e) ==> 1 <= e <= bytes@.len(),
{
    assert(check_ok(&no_line_check, no_prefix()));
    scan_mdx_jsx_tag_end_inner(bytes, &no_line_check, Ghost(no_prefix()), 0)
}

/// An inline JSX tag: `bytes` starts with `<`, and the tag's attribute
/// expressions are lexed afresh.
pub open spec fn inline_jsx_end(s: Seq<u8>, chk: LineOracle) -> Option<int> {
    if s.len() < 2 || s[0] != 60 {
        None
    } else {
        tag_end(s, chk, 0, true)
    }
}

pub fn scan_mdx_inline_jsx_inner<F: Fn(&[u8]) -> Option<usize>>(
    bytes: &[u8],
    check: &F,
    Ghost(chk): Ghost<LineOracle>,
) -> (r: Option<usize>)
    requires
        check_ok(check, chk),
        addressable(bytes@),
    ensures
        as_pos(r) == inline_jsx_end(bytes@, chk),
        r matches Some(e) ==> 1 <= e <= bytes@.len(),
{
    if bytes.len() < 2 || bytes[0] != '<' as u8 {
        return None;
    }
    scan_jsx_tag_core(bytes, check, Ghost(chk), 0, true)
}

/// An inline JSX tag from `<` to `>` or `/>`, outside any container; in MDX
/// every tag is JSX.
pub fn scan_mdx_inline_jsx(bytes: &[u8]) -> (r: Option<usize>)
    requires
        addressable(bytes@),
    ensures
        as_pos(r) == inline_jsx_end(bytes@, no_prefix()),
        r matches Some(e) ==> 1 <= e <= bytes@.len(),
{
    assert(check_ok(&no_line_check, no_prefix()));
    scan_mdx_inline_jsx_inner(bytes, &no_line_check, Ghost(no_prefix()))
}

/// An inline expression: `(1, end - 1, end)`, the content between the
/// braces and the whole length.
pub fn scan_mdx_inline_expression(bytes: &[u8]) -> (r: Option<(usize, usize, usize)>)
    requires
        addressable(bytes@),
    ensures
        match r {
            Some((a, b, c)) => expr_end(bytes@, true, no_prefix(), false, true, 0) == Some(c as int)
                && a == 1 && b == c - 1,
            None => expr_end(bytes@, true, no_prefix(), false, true, 0) is None,
        },
{
    match scan_mdx_expression_end(bytes, true) {
        Some(total) => Some((1, total - 1, total)),
        None => None,
    }
}

/// An inline expression inside a container, whose continuation lines go
/// through `check` and may come in lazily.
pub fn scan_mdx_inline_expression_in_container<F: Fn(&[u8]) -> Option<usize>>(
    bytes: &[u8],
    check: &F,
    Ghost(chk): Ghost<LineOracle>,
    allow_lazy_body: bool,
) -> (r: Option<(usize, usize, usize)>)
    requires
        check_ok(check, chk),
        addressable(bytes@),
    ensures
        match r {
            Some((a, b, c)) => expr_end(bytes@, true, chk, true, allow_lazy_body, 0) == Some(
                c as int,
            ) && a == 1 && b == c - 1,
            None => expr_end(bytes@, true, chk, true, allow_lazy_body, 0) is None,
        },
{
    match scan_mdx_expression_end_inner(bytes, true, check, Ghost(chk), true, allow_lazy_body, 0) {
        Some(total) => Some((1, total - 1, total)),
        None => None,
    }
}

// ---------------------------------------------------------------------
// Flow blocks
// ---------------------------------------------------------------------

/// Past the first line feed at or after `i`, or the end of input.
pub open spec fn line_end_after(s: Seq<u8>, i: int) -> int
    decreases left(s, i),
{
    if 0 <= i < s.len() {
        if s[i] == 10 {
            i + 1
        } else {
            line_end_after(s, i + 1)
        }
    } else {
        s.len() as int
    }
}

proof fn lemma_line_end_found(s: Seq<u8>, i: int, k: int)
    requires
        0 <= i <= k < s.len(),
        s[k] == 10,
        forall|j: int| i <= j < k ==> s[j] != 10,
    ensures
        line_end_after(s, i) == k + 1,
    decreases k - i,
{
    if i < k {
        lemma_line_end_found(s, i + 1, k);
    }
}

proof fn lemma_line_end_none(s: Seq<u8>, i: int)
    requires
        0 <= i <= s.len(),
        forall|j: int| i <= j < s.len() ==> s[j] != 10,
    ensures
        line_end_after(s, i) == s.len(),
    decreases s.len() - i,
{
    if i < s.len() {
        lemma_line_end_none(s, i + 1);
    }
}

/// The offset past the end of the line that `start` is on, its line feed
/// included.
pub fn scan_to_line_end(bytes: &[u8], start: usize) -> (r: Option<usize>)
    requires
        start <= bytes@.len(),
    ensures
        r == Some(line_end_after(bytes@, start as int) as usize),
        start <= line_end_after(bytes@, start as int) <= bytes@.len(),
{
    let rest = vstd::slice::slice_subrange(bytes, start, bytes.len());
    let eol = match find_byte('\n' as u8, rest) {
        Some(i) => {
            proof {
                assert forall|j: int| start <= j < start + i implies bytes@[j] != 10 by {
                    assert(rest@[j - start] == bytes@[j]);
                }
                lemma_line_end_found(bytes@, start as int, start + i);
            }
            start + i + 1
        },
        None => {
            proof {
                assert forall|j: int| start <= j < bytes@.len() implies bytes@[j] != 10 by {
                    assert(rest@[j - start] == bytes@[j]);
                }
                lemma_line_end_none(bytes@, start as int);
            }
            bytes.len()
        },
    };
    Some(eol)
}

/// A block JSX element: tags, and expressions each right after a tag, then
/// nothing but spaces and tabs up to the line ending; past that line.
pub open spec fn jsx_block_end(s: Seq<u8>, chk: LineOracle) -> Option<int> {
    if s.len() < 2 || s[0] != 60 {
        None
    } else {
        let ns = if s[1] == 47 {
            mdx_ws_run_end(s, 2)
        } else {
            1
        };
        if ns >= s.len() {
            None
        } else if s[ns] == 62 {
            jsx_flow_tail(s, ns + 1, true, chk)
        } else if !jsx_name_start_at(s, ns) {
            None
        } else {
            match tag_end(s, chk, 0, false) {
                Some(p) => jsx_flow_tail(s, p, true, chk),
                None => None,
            }
        }
    }
}

/// The rest of a flow JSX line from `pos`.
pub open spec fn jsx_flow_tail(s: Seq<u8>, pos: int, last_was_jsx: bool, chk: LineOracle) -> Option<
    int,
>
    decreases left(s, pos),
{
    if pos < 0 {
        None
    } else {
        let p = blank_run_end(s, pos);
        proof {
            lemma_blank_run_end_ge(s, pos);
        }
        if p >= s.len() || s[p] == 10 || s[p] == 13 {
            Some(line_end_after(s, p))
        } else if s[p] == 60 && tag_end(s.subrange(p, s.len() as int), chk, 0, false) is Some
            && tag_end(s.subrange(p, s.len() as int), chk, 0, false)->0 > 0 {
            jsx_flow_tail(
                s,
                p + tag_end(s.subrange(p, s.len() as int), chk, 0, false)->0,
                true,
                chk,
            )
        } else if s[p] == 123 && expr_end(
            s.subrange(p, s.len() as int),
            false,
            no_prefix(),
            false,
            true,
            0,
        ) is Some && expr_end(s.subrange(p, s.len() as int), false, no_prefix(), false, true, 0)->0
            > 0 {
            if !last_was_jsx {
                None
            } else {
                jsx_flow_tail(
                    s,
                    p + expr_end(s.subrange(p, s.len() as int), false, no_prefix(), false, true, 0)->0,
                    false,
                    chk,
                )
            }
        } else {
            None
        }
    }
}

fn flow_blank_end(bytes: &[u8], start: usize) -> (r: usize)
    requires
        start <= bytes@.len(),
    ensures
        r == blank_run_end(bytes@, start as int),
        start <= r <= bytes@.len(),
{
    let mut p = start;
    while p < bytes.len() && (bytes[p] == ' ' as u8 || bytes[p] == '\t' as u8)
        invariant
            start <= p <= bytes@.len(),
            blank_run_end(bytes@, p as int) == blank_run_end(bytes@, start as int),
        decreases bytes@.len() - p,
    {
        p += 1;
    }
    p
}

/// Scans a block-level MDX JSX element: the line must hold only JSX tags
/// (and expressions right after tags) and trailing spaces or tabs. Returns
/// the offset past the line, its line feed included.
pub fn scan_mdx_jsx_block_in_container<F: Fn(&[u8]) -> Option<usize>>(
    bytes: &[u8],
    check: &F,
    Ghost(chk): Ghost<LineOracle>,
) -> (r: Option<usize>)
    requires
        check_ok(check, chk),
        addressable(bytes@),
    ensures
        as_pos(r) == jsx_block_end(bytes@, chk),
        r matches Some(e) ==> e <= bytes@.len(),
{
    let len = bytes.len();
    if len < 2 || bytes[0] != '<' as u8 {
        return None;
    }
    let is_closing = bytes[1] == '/' as u8;
    let name_start = if is_closing {
        skip_mdx_ws(bytes, 2)
    } else {
        1
    };
    if name_start >= len {
        return None;
    }
    let mut pos = if bytes[name_start] == '>' as u8 {
        name_start + 1
    } else {
        if !is_jsx_name_start(bytes, name_start) {
            return None;
        }
        match scan_mdx_jsx_tag_end_inner(bytes, check, Ghost(chk), 0) {
            Some(e) => e,
            None => {
                return None;
            },
        }
    };
    assert(check_ok(&no_line_check, no_prefix()));
    let mut last_was_jsx = true;
    loop
        invariant
            pos <= len,
            len == bytes@.len(),
            addressable(bytes@),
            check_ok(check, chk),
            check_ok(&no_line_check, no_prefix()),
            jsx_flow_tail(bytes@, pos as int, last_was_jsx, chk) == jsx_block_end(bytes@, chk),
        decreases len - pos,
    {
        let p = flow_blank_end(bytes, pos);
        if p >= len || bytes[p] == '\n' as u8 || bytes[p] == '\r' as u8 {
            return scan_to_line_end(bytes, p);
        }
        let rest = vstd::slice::slice_subrange(bytes, p, len);
        if bytes[p] == '<' as u8 {
            if let Some(end) = scan_mdx_jsx_tag_end_inner(rest, check, Ghost(chk), 0) {
                pos = p + end;
                last_was_jsx = true;
                continue;
            }
        }
        if bytes[p] == '{' as u8 {
            if let Some(l) = scan_mdx_expression_end(rest, false) {
                if !last_was_jsx {
                    return None;
                }
                pos = p + l;
                last_was_jsx = false;
                continue;
            }
        }
        return None;
    }
}

/// A block JSX element outside any container.
pub fn scan_mdx_jsx_block(bytes: &[u8]) -> (r: Option<usize>)
    requires
        addressable(bytes@),
    ensures
        as_pos(r) == jsx_block_end(bytes@, no_prefix()),
        r matches Some(e) ==> e <= bytes@.len(),
{
    assert(check_ok(&no_line_check, no_prefix()));
    scan_mdx_jsx_block_in_container(bytes, &no_line_check, Ghost(no_prefix()))
}

/// A block expression: `{…}`, then tags and expressions (each right after
/// a tag) and trailing spaces or tabs up to the line ending.
pub open spec fn expr_block_end(s: Seq<u8>, chk: LineOracle) -> Option<int> {
    match expr_end(s, false, chk, false, true, 0) {
        Some(ix) => expr_flow_tail(s, ix, false, chk),
        None => None,
    }
}

/// The rest of a flow expression line from `pos`; a bare `<>` or `</>`
/// counts as a tag.
pub open spec fn expr_flow_tail(s: Seq<u8>, pos: int, last_was_jsx: bool, chk: LineOracle) -> Option<
    int,
>
    decreases left(s, pos),
{
    if pos < 0 {
        None
    } else {
        let p = blank_run_end(s, pos);
        proof {
            lemma_blank_run_end_ge(s, pos);
        }
        if p >= s.len() || s[p] == 10 || s[p] == 13 {
            Some(line_end_after(s, p))
        } else if s[p] == 60 && tag_end(s.subrange(p, s.len() as int), chk, 0, false) is Some
            && tag_end(s.subrange(p, s.len() as int), chk, 0, false)->0 > 0 {
            expr_flow_tail(
                s,
                p + tag_end(s.subrange(p, s.len() as int), chk, 0, false)->0,
                true,
                chk,
            )
        } else if s[p] == 60 && p + 1 < s.len() && s[p + 1] == 62 {
            expr_flow_tail(s, p + 2, true, chk)
        } else if s[p] == 60 && p + 2 < s.len() && s[p + 1] == 47 && s[p + 2] == 62 {
            expr_flow_tail(s, p + 3, true, chk)
        } else if s[p] == 123 && expr_end(
            s.subrange(p, s.len() as int),
            true,
            no_prefix(),
            false,
            true,
            0,
        ) is Some {
            if !last_was_jsx {
                None
            } else {
                let l = expr_end(s.subrange(p, s.len() as int), true, no_prefix(), false, true, 0)->0;
                if l > 0 {
                    expr_flow_tail(s, p + l, false, chk)
                } else {
                    None
                }
            }
        } else {
            None
        }
    }
}

/// Scans an MDX expression block `{…}` with what may follow it on its
/// line; returns the offset past the line, its line feed included.
pub fn scan_mdx_expression_block_in_container<F: Fn(&[u8]) -> Option<usize>>(
    bytes: &[u8],
    check: &F,
    Ghost(chk): Ghost<LineOracle>,
) -> (r: Option<usize>)
    requires
        check_ok(check, chk),
        addressable(bytes@),
    ensures
        as_pos(r) == expr_block_end(bytes@, chk),
        r matches Some(e) ==> e <= bytes@.len(),
{
    let len = bytes.len();
    let mut ix = match scan_mdx_expression_end_inner(bytes, false, check, Ghost(chk), false, true, 0) {
        Some(e) => e,
        None => {
            return None;
        },
    };
    assert(check_ok(&no_line_check, no_prefix()));
    let mut last_was_jsx = false;
    loop
        invariant
            ix <= len,
            len == bytes@.len(),
            addressable(bytes@),
            check_ok(check, chk),
            check_ok(&no_line_check, no_prefix()),
            expr_flow_tail(bytes@, ix as int, last_was_jsx, chk) == expr_block_end(bytes@, chk),
        decreases len - ix,
    {
        let p = flow_blank_end(bytes, ix);
        if p >= len || bytes[p] == '\n' as u8 || bytes[p] == '\r' as u8 {
            return scan_to_line_end(bytes, p);
        }
        let rest = vstd::slice::slice_subrange(bytes, p, len);
        if bytes[p] == '<' as u8 {
            if let Some(end) = scan_mdx_jsx_tag_end_inner(rest, check, Ghost(chk), 0) {
                ix = p + end;
                last_was_jsx = true;
                continue;
            }
            if p + 1 < len && bytes[p + 1] == '>' as u8 {
                ix = p + 2;
                last_was_jsx = true;
                continue;
            }
            if p + 2 < len && bytes[p + 1] == '/' as u8 && bytes[p + 2] == '>' as u8 {
                ix = p + 3;
                last_was_jsx = true;
                continue;
            }
        }
        if bytes[p] == '{' as u8 {
            if let Some(l) = scan_mdx_expression_end(rest, true) {
                if !last_was_jsx {
                    return None;
                }
                ix = p + l;
                last_was_jsx = false;
                continue;
            }
        }
        return None;
    }
}

/// A block expression outside any container.
pub fn scan_mdx_expression_block(bytes: &[u8]) -> (r: Option<usize>)
    requires
        addressable(bytes@),
    ensures
        as_pos(r) == expr_block_end(bytes@, no_prefix()),
        r matches Some(e) ==> e <= bytes@.len(),
{
    assert(check_ok(&no_line_check, no_prefix()));
    scan_mdx_expression_block_in_container(bytes, &no_line_check, Ghost(no_prefix()))
}

// ---------------------------------------------------------------------
// ESM blocks
// ---------------------------------------------------------------------

pub open spec fn import_word() -> Seq<u8> {
    seq!['i' as u8, 'm' as u8, 'p' as u8, 'o' as u8, 'r' as u8, 't' as u8]
}

pub open spec fn export_word() -> Seq<u8> {
    seq!['e' as u8, 'x' as u8, 'p' as u8, 'o' as u8, 'r' as u8, 't' as u8]
}

/// `import` followed by a space, tab or `{`; or `export` followed by a
/// space, tab, `{`, `*` or a line ending.
pub open spec fn esm_start(s: Seq<u8>) -> bool {
    ||| s.len() >= 7 && s.subrange(0, 6) == import_word() && (s[6] == 32 || s[6] == 9 || s[6]
        == 123)
    ||| s.len() >= 7 && s.subrange(0, 6) == export_word() && (s[6] == 32 || s[6] == 9 || s[6]
        == 123 || s[6] == 42 || s[6] == 10 || s[6] == 13)
}

/// The ESM lexer at `ix`: inside a template literal with `tpl` open `${`
/// braces, inside a block comment, and whether the last token produced a
/// value. The block ends at a line followed by a blank line (or only
/// spaces and tabs), or at the end of input.
pub open spec fn esm_scan(s: Seq<u8>, ix: int, tpl: Option<int>, in_comment: bool, prev: bool) -> int
    decreases left(s, ix),
{
    if !(0 <= ix < s.len()) {
        ix
    } else if in_comment {
        if s[ix] == 42 && ix + 1 < s.len() && s[ix + 1] == 47 {
            esm_scan(s, ix + 2, tpl, false, prev)
        } else {
            esm_scan(s, ix + 1, tpl, true, prev)
        }
    } else if tpl is Some {
        let d = tpl->0;
        let b = s[ix];
        if b == 92 {
            esm_scan(s, ix + 2, tpl, false, prev)
        } else if b == 96 && d == 0 {
            esm_scan(s, ix + 1, None, false, true)
        } else if b == 36 && ix + 1 < s.len() && s[ix + 1] == 123 {
            esm_scan(s, ix + 2, Some(d + 1), false, prev)
        } else if b == 123 && d > 0 {
            esm_scan(s, ix + 1, Some(d + 1), false, prev)
        } else if b == 125 && d > 0 {
            esm_scan(s, ix + 1, Some(d - 1), false, prev)
        } else {
            esm_scan(s, ix + 1, tpl, false, prev)
        }
    } else {
        let b = s[ix];
        if b == 96 {
            esm_scan(s, ix + 1, Some(0), false, prev)
        } else if b == 39 || b == 34 {
            proof {
                lemma_string_end_ge(s, b, ix + 1);
            }
            esm_scan(s, string_end(s, b, ix + 1), None, false, true)
        } else if b == 47 && ix + 1 < s.len() && s[ix + 1] == 47 {
            proof {
                lemma_line_comment_end_ge(s, ix + 2);
            }
            esm_scan(s, line_comment_end(s, ix + 2), None, false, prev)
        } else if b == 47 && ix + 1 < s.len() && s[ix + 1] == 42 {
            esm_scan(s, ix + 2, None, true, prev)
        } else if b == 47 && spec_slash_is_regex_after(s, ix, prev) {
            proof {
                lemma_regex_end_ge(s, ix + 1, false);
            }
            esm_scan(s, regex_end(s, ix + 1, false), None, false, true)
        } else if b == 10 {
            if ix + 1 >= s.len() {
                ix + 1
            } else {
                let n = blank_run_end(s, ix + 1);
                if n >= s.len() || s[n] == 10 || s[n] == 13 {
                    ix + 1
                } else {
                    esm_scan(s, ix + 1, None, false, prev)
                }
            }
        } else if b == 32 || b == 9 || b == 13 {
            esm_scan(s, ix + 1, None, false, prev)
        } else {
            esm_scan(s, ix + 1, None, false, is_ident_byte(b) || b == 41 || b == 93 || b == 125)
        }
    }
}

fn starts_with_word(bytes: &[u8], w: &[u8; 6]) -> (r: bool)
    ensures
        r == (bytes@.len() >= 7 && bytes@.subrange(0, 6) == w@),
{
    if bytes.len() < 7 {
        return false;
    }
    let mut i: usize = 0;
    while i < 6
        invariant
            i <= 6,
            bytes@.len() >= 7,
            w@.len() == 6,
            forall|j: int| 0 <= j < i ==> bytes@[j] == w@[j],
        decreases 6 - i,
    {
        if bytes[i] != w[i] {
            return false;
        }
        i += 1;
    }
    assert(bytes@.subrange(0, 6) =~= w@);
    true
}

/// Scans an MDX ESM block (`import …` or `export …`): continuation lines are
/// taken until a blank line, except inside a template literal or block
/// comment, which may hold blank lines; strings and regular expressions are
/// skipped whole. Returns the offset past the block.
pub fn scan_mdx_esm(bytes: &[u8]) -> (r: Option<usize>)
    requires
        addressable(bytes@),
    ensures
        as_pos(r) == (if esm_start(bytes@) {
            Some(esm_scan(bytes@, 0, None, false, false))
        } else {
            None
        }),
        r matches Some(e) ==> e <= bytes@.len() + 1,
{
    let import_kw: [u8; 6] = ['i' as u8, 'm' as u8, 'p' as u8, 'o' as u8, 'r' as u8, 't' as u8];
    let export_kw: [u8; 6] = ['e' as u8, 'x' as u8, 'p' as u8, 'o' as u8, 'r' as u8, 't' as u8];
    assert(import_kw@ == import_word());
    assert(export_kw@ == export_word());
    let is_import = starts_with_word(bytes, &import_kw) && (bytes[6] == ' ' as u8 || bytes[6]
        == '\t' as u8 || bytes[6] == '{' as u8);
    let is_export = starts_with_word(bytes, &export_kw) && (bytes[6] == ' ' as u8 || bytes[6]
        == '\t' as u8 || bytes[6] == '{' as u8 || bytes[6] == '*' as u8 || bytes[6] == '\n' as u8
        || bytes[6] == '\r' as u8);
    if !is_import && !is_export {
        return None;
    }
    let len = bytes.len();
    let mut ix: usize = 0;
    let mut template_depth: Option<usize> = None;
    let mut in_block_comment = false;
    let mut prev_was_value = false;
    while ix < len
        invariant
            ix <= len + 1,
            len == bytes@.len(),
            addressable(bytes@),
            template_depth matches Some(d) ==> d <= ix,
            esm_start(bytes@),
            esm_scan(bytes@, ix as int, as_pos(template_depth), in_block_comment, prev_was_value)
                == esm_scan(bytes@, 0, None, false, false),
        decreases len + 1 - ix,
    {
        let b = bytes[ix];
        if in_block_comment {
            if b == '*' as u8 && ix + 1 < len && bytes[ix + 1] == '/' as u8 {
                in_block_comment = false;
                ix += 2;
            } else {
                ix += 1;
            }
        } else if let Some(depth) = template_depth {
            if b == '\\' as u8 {
                ix += 2;
            } else if b == '`' as u8 && depth == 0 {
                template_depth = None;
                prev_was_value = true;
                ix += 1;
            } else if b == '$' as u8 && ix + 1 < len && bytes[ix + 1] == '{' as u8 {
                template_depth = Some(depth + 1);
                ix += 2;
            } else if b == '{' as u8 && depth > 0 {
                template_depth = Some(depth + 1);
                ix += 1;
            } else if b == '}' as u8 && depth > 0 {
                template_depth = Some(depth - 1);
                ix += 1;
            } else {
                ix += 1;
            }
        } else if b == '`' as u8 {
            template_depth = Some(0);
            ix += 1;
        } else if b == '\'' as u8 || b == '"' as u8 {
            ix = skip_string(bytes, ix);
            prev_was_value = true;
        } else if b == '/' as u8 && ix + 1 < len && bytes[ix + 1] == '/' as u8 {
            let start = ix + 2;
            ix = start;
            while ix < len && bytes[ix] != '\n' as u8
                invariant
                    start <= ix <= len,
                    len == bytes@.len(),
                    line_comment_end(bytes@, ix as int) == line_comment_end(bytes@, start as int),
                decreases len - ix,
            {
                ix += 1;
            }
        } else if b == '/' as u8 && ix + 1 < len && bytes[ix + 1] == '*' as u8 {
            in_block_comment = true;
            ix += 2;
        } else if b == '/' as u8 && slash_is_regex_after(bytes, ix, prev_was_value) {
            ix = scan_regex(bytes, ix);
            prev_was_value = true;
        } else if b == '\n' as u8 {
            ix += 1;
            if ix >= len {
                return Some(ix);
            }
            let next = flow_blank_end(bytes, ix);
            if next >= len || bytes[next] == '\n' as u8 || bytes[next] == '\r' as u8 {
                return Some(ix);
            }
        } else if b == ' ' as u8 || b == '\t' as u8 || b == '\r' as u8 {
            ix += 1;
        } else {
            prev_was_value = value_byte(b) || b == '}' as u8;
            ix += 1;
        }
    }
    Some(ix)
}

// ---------------------------------------------------------------------
// Columns and opening tags
// ---------------------------------------------------------------------

/// The 1-based column reached from column `col` by the bytes from `i` to
/// `pos`: a tab moves to the next multiple of four plus one, any other byte
/// one column on.
pub open spec fn column_from(s: Seq<u8>, i: int, pos: int, col: int) -> int
    decreases pos - i,
{
    if i >= pos {
        col
    } else if s[i] == 9 {
        column_from(s, i + 1, pos, col + 4 - ((col - 1) % 4))
    } else {
        column_from(s, i + 1, pos, col + 1)
    }
}

/// The start of the line holding `pos`.
pub open spec fn mdx_line_start(s: Seq<u8>, pos: int) -> int
    decreases pos,
{
    if pos > 0 && s[pos - 1] != 10 && s[pos - 1] != 13 {
        mdx_line_start(s, pos - 1)
    } else {
        pos
    }
}

proof fn lemma_column_grows(s: Seq<u8>, i: int, pos: int, col: int)
    requires
        col >= 1,
    ensures
        column_from(s, i, pos, col) >= col,
    decreases pos - i,
{
    if i < pos {
        if s[i] == 9 {
            lemma_column_grows(s, i + 1, pos, col + 4 - ((col - 1) % 4));
        } else {
            lemma_column_grows(s, i + 1, pos, col + 1);
        }
    }
}

proof fn lemma_mdx_line_start(s: Seq<u8>, pos: int)
    requires
        0 <= pos,
    ensures
        0 <= mdx_line_start(s, pos) <= pos,
    decreases pos,
{
    if pos > 0 && s[pos - 1] != 10 && s[pos - 1] != 13 {
        lemma_mdx_line_start(s, pos - 1);
    }
}

/// The 1-based column of `bytes[pos]`, tabs expanded to four-column stops
/// from the start of its line.
pub fn column_at(bytes: &[u8], pos: usize) -> (r: usize)
    requires
        pos <= bytes@.len(),
        column_from(bytes@, mdx_line_start(bytes@, pos as int), pos as int, 1) <= usize::MAX,
    ensures
        r == column_from(bytes@, mdx_line_start(bytes@, pos as int), pos as int, 1),
{
    proof {
        lemma_mdx_line_start(bytes@, pos as int);
    }
    let mut line_start = pos;
    while line_start > 0 && bytes[line_start - 1] != '\n' as u8 && bytes[line_start - 1]
        != '\r' as u8
        invariant
            line_start <= pos <= bytes@.len(),
            mdx_line_start(bytes@, line_start as int) == mdx_line_start(bytes@, pos as int),
        decreases line_start,
    {
        line_start -= 1;
    }
    let mut col: usize = 1;
    let mut i = line_start;
    while i < pos
        invariant
            line_start <= i <= pos <= bytes@.len(),
            1 <= col,
            column_from(bytes@, line_start as int, pos as int, 1) <= usize::MAX,
            column_from(bytes@, i as int, pos as int, col as int) == column_from(
                bytes@,
                line_start as int,
                pos as int,
                1,
            ),
        decreases pos - i,
    {
        proof {
            if bytes@[i as int] == 9 {
                lemma_column_grows(bytes@, i + 1, pos as int, col + 4 - ((col - 1) % 4));
            } else {
                lemma_column_grows(bytes@, i + 1, pos as int, col + 1);
            }
        }
        if bytes[i] == '\t' as u8 {
            col += 4 - ((col - 1) % 4);
        } else {
            col += 1;
        }
        i += 1;
    }
    col
}

/// The first `>` from `i` that closes an opening tag: attribute strings
/// (no escapes) and attribute expressions (scanned as JavaScript) are
/// skipped whole.
pub open spec fn opening_tag_close(b: Seq<u8>, i: int) -> Option<int>
    decreases left(b, i),
{
    if !(0 <= i < b.len()) {
        None
    } else if b[i] == 39 || b[i] == 34 {
        let j = quote_close(b, i + 1, b[i]);
        proof {
            lemma_quote_close_ge(b, i + 1, b[i]);
        }
        opening_tag_close(
            b,
            if j < b.len() {
                j + 1
            } else {
                j
            },
        )
    } else if b[i] == 123 {
        match expr_end(b.subrange(i, b.len() as int), false, no_prefix(), false, true, 0) {
            Some(l) => if l > 0 {
                opening_tag_close(b, i + l)
            } else {
                None
            },
            None => opening_tag_close(b, i + 1),
        }
    } else if b[i] == 62 {
        Some(i)
    } else {
        opening_tag_close(b, i + 1)
    }
}

/// The opening tag at the start of `text`, up to and including its first
/// `>` outside attribute values; all of `text` when there is none.
pub fn extract_opening_tag(text: &str) -> (r: &str)
    requires
        text.spec_bytes().len() <= isize::MAX,
    ensures
        r.spec_bytes() == (match opening_tag_close(text.spec_bytes(), 0) {
            Some(i) => text.spec_bytes().subrange(0, i + 1),
            None => text.spec_bytes(),
        }),
        r.spec_bytes().len() <= text.spec_bytes().len(),
{
    let bytes = text.as_bytes();
    let ghost b = text.spec_bytes();
    let len = bytes.len();
    let mut i: usize = 0;
    while i < len
        invariant
            i <= len,
            len == b.len(),
            bytes@ == b,
            b == text.spec_bytes(),
            addressable(b),
            opening_tag_close(b, i as int) == opening_tag_close(b, 0),
        decreases len - i,
    {
        let c = bytes[i];
        if c == '\'' as u8 || c == '"' as u8 {
            let quote = c;
            let start = i + 1;
            i = start;
            while i < len && bytes[i] != quote
                invariant
                    start <= i <= len,
                    len == b.len(),
                    bytes@ == b,
                    quote_close(b, i as int, quote) == quote_close(b, start as int, quote),
                decreases len - i,
            {
                i += 1;
            }
            if i < len {
                i += 1;
            }
        } else if c == '{' as u8 {
            let rest = vstd::slice::slice_subrange(bytes, i, len);
            match scan_mdx_expression_end(rest, false) {
                Some(l) => {
                    i += l;
                },
                None => {
                    i += 1;
                },
            }
        } else if c == '>' as u8 {
            proof {
                lemma_str_decodes(text);
                lemma_boundary_after_ascii(b, i as int);
                is_char_boundary_start_end_of_seq(b);
            }
            return str_range(text, 0, i + 1);
        } else {
            i += 1;
        }
    }
    proof {
        assert(b.subrange(0, len as int) =~= b);
    }
    text
}

// ---------------------------------------------------------------------
// What a successful scan ends on
// ---------------------------------------------------------------------

proof fn lemma_expr_scan_closes(
    s: Seq<u8>,
    ix: int,
    depth: int,
    lazy_line: bool,
    prev_value: bool,
    inline: bool,
    chk: LineOracle,
    lazy_mode: bool,
    allow_lazy_body: bool,
    nest: int,
)
    requires
        0 <= ix,
    ensures
        expr_scan(s, ix, depth, lazy_line, prev_value, inline, chk, lazy_mode, allow_lazy_body, nest)
            matches Some(e) ==> ix < e <= s.len() && s[e - 1] == 125,
    decreases left(s, ix),
{
    if nest > MAX_MDX_NESTING || depth <= 0 || !(0 <= ix < s.len()) {
    } else {
        let b = s[ix];
        if b == 10 || b == 13 {
            if inline && blank_line_next(s, ix) {
            } else if lazy_mode {
                let (k, lz) = lazy_after(s, after_eol(s, ix), chk);
                lemma_expr_scan_closes(
                    s,
                    k,
                    depth,
                    lz,
                    prev_value,
                    inline,
                    chk,
                    lazy_mode,
                    allow_lazy_body,
                    nest,
                );
            } else {
                match prefix_after(s, after_eol(s, ix), chk) {
                    Some(k) => lemma_expr_scan_closes(
                        s,
                        k,
                        depth,
                        lazy_line,
                        prev_value,
                        inline,
                        chk,
                        lazy_mode,
                        allow_lazy_body,
                        nest,
                    ),
                    None => {},
                }
            }
        } else if b == 32 || b == 9 {
            lemma_expr_scan_closes(
                s,
                ix + 1,
                depth,
                lazy_line,
                prev_value,
                inline,
                chk,
                lazy_mode,
                allow_lazy_body,
                nest,
            );
        } else if lazy_mode && !allow_lazy_body && lazy_line {
        } else if b == 123 {
            lemma_expr_scan_closes(
                s,
                ix + 1,
                depth + 1,
                lazy_line,
                false,
                inline,
                chk,
                lazy_mode,
                allow_lazy_body,
                nest,
            );
        } else if b == 125 {
            if depth != 1 {
                lemma_expr_scan_closes(
                    s,
                    ix + 1,
                    depth - 1,
                    lazy_line,
                    true,
                    inline,
                    chk,
                    lazy_mode,
                    allow_lazy_body,
                    nest,
                );
            }
        } else if b == 39 && ix > 0 && (spec_is_alnum(s[ix - 1]) || s[ix - 1] == 95) {
            lemma_expr_scan_closes(
                s,
                ix + 1,
                depth,
                lazy_line,
                prev_value,
                inline,
                chk,
                lazy_mode,
                allow_lazy_body,
                nest,
            );
        } else if b == 34 || b == 39 {
            lemma_string_end_ge(s, b, ix + 1);
            lemma_expr_scan_closes(
                s,
                string_end(s, b, ix + 1),
                depth,
                lazy_line,
                true,
                inline,
                chk,
                lazy_mode,
                allow_lazy_body,
                nest,
            );
        } else if b == 96 {
            lemma_template_end_ge(s, ix + 1, 0, inline);
            match template_end(s, ix + 1, 0, inline) {
                Some(e) => lemma_expr_scan_closes(
                    s,
                    e,
                    depth,
                    lazy_line,
                    true,
                    inline,
                    chk,
                    lazy_mode,
                    allow_lazy_body,
                    nest,
                ),
                None => {},
            }
        } else if b == 47 && ix + 1 < s.len() && s[ix + 1] == 47 {
            lemma_line_comment_end_ge(s, ix + 2);
            lemma_expr_scan_closes(
                s,
                line_comment_end(s, ix + 2),
                depth,
                lazy_line,
                prev_value,
                inline,
                chk,
                lazy_mode,
                allow_lazy_body,
                nest,
            );
        } else if b == 47 && ix + 1 < s.len() && s[ix + 1] == 42 {
            lemma_block_comment_end_ge(s, ix + 2, inline);
            match block_comment_end(s, ix + 2, inline) {
                Some(e) => lemma_expr_scan_closes(
                    s,
                    e,
                    depth,
                    lazy_line,
                    prev_value,
                    inline,
                    chk,
                    lazy_mode,
                    allow_lazy_body,
                    nest,
                ),
                None => {},
            }
        } else if b == 47 && spec_slash_is_regex_after(s, ix, prev_value) {
            lemma_regex_end_ge(s, ix + 1, false);
            lemma_expr_scan_closes(
                s,
                regex_end(s, ix + 1, false),
                depth,
                lazy_line,
                true,
                inline,
                chk,
                lazy_mode,
                allow_lazy_body,
                nest,
            );
        } else if b == 60 && ix + 1 < s.len() && jsx_open_byte(s[ix + 1]) {
            match element_end(s.subrange(ix, s.len() as int), nest + 1) {
                Some(e) => if e > 0 {
                    lemma_expr_scan_closes(
                        s,
                        ix + e,
                        depth,
                        lazy_line,
                        true,
                        inline,
                        chk,
                        lazy_mode,
                        allow_lazy_body,
                        nest,
                    );
                },
                None => lemma_expr_scan_closes(
                    s,
                    ix + 1,
                    depth,
                    lazy_line,
                    false,
                    inline,
                    chk,
                    lazy_mode,
                    allow_lazy_body,
                    nest,
                ),
            }
        } else {
            lemma_expr_scan_closes(
                s,
                ix + 1,
                depth,
                lazy_line,
                is_ident_byte(b) || b == 41 || b == 93,
                inline,
                chk,
                lazy_mode,
                allow_lazy_body,
                nest,
            );
        }
    }
}

/// A successful expression scan runs from the `{` at the start of the input
/// to just past a `}`.
pub proof fn lemma_expression_end_closes(
    s: Seq<u8>,
    inline: bool,
    chk: LineOracle,
    lazy_mode: bool,
    allow_lazy_body: bool,
    nest: int,
)
    ensures
        expr_end(s, inline, chk, lazy_mode, allow_lazy_body, nest) matches Some(e) ==> 2 <= e
            <= s.len() && s[0] == 123 && s[e - 1] == 125,
{
    lemma_expr_scan_closes(s, 1, 1, false, false, inline, chk, lazy_mode, allow_lazy_body, nest);
}

proof fn lemma_tag_name_end_ge(s: Seq<u8>, ix: int, saw_ns: bool, saw_member: bool)
    requires
        0 <= ix,
    ensures
        tag_name_end(s, ix, saw_ns, saw_member) matches Some(e) ==> e >= ix,
    decreases left(s, ix),
{
    let i1 = name_continue_end(s, ix);
    let i2 = mdx_ws_run_end(s, i1);
    lemma_name_continue_end_ge(s, ix);
    lemma_mdx_ws_run_end_ge(s, i1);
    let sep_ok = i2 < s.len() && ((s[i2] == 58 && !saw_ns && !saw_member) || (s[i2] == 46
        && !saw_ns));
    if sep_ok {
        let j = mdx_ws_run_end(s, i2 + 1);
        lemma_mdx_ws_run_end_ge(s, i2 + 1);
        if !(j >= s.len() || !jsx_name_start_at(s, j)) {
            lemma_tag_name_end_ge(
                s,
                j + utf8_len(s[j]),
                saw_ns || s[i2] == 58,
                saw_member || s[i2] == 46,
            );
        }
    }
}

proof fn lemma_attrs_end_closes(
    s: Seq<u8>,
    ix: int,
    is_closing: bool,
    chk: LineOracle,
    nest: int,
    fresh: bool,
)
    requires
        0 <= ix,
    ensures
        attrs_end(s, ix, is_closing, chk, nest, fresh) matches Some(e) ==> ix < e <= s.len() && s[e
            - 1] == 62,
    decreases left(s, ix),
{
    if !fresh && nest > MAX_MDX_NESTING {
    } else {
        lemma_attr_space_end_ge(s, ix, chk);
        match attr_space_end(s, ix, chk) {
            None => {},
            Some(i) => {
                if i >= s.len() || s[i] == 62 || is_closing {
                } else if s[i] == 47 {
                    lemma_attr_space_end_ge(s, i + 1, chk);
                } else if s[i] == 123 {
                    if spec_looks_like_spread(s.subrange(i, s.len() as int)) {
                        match expr_end(
                            s.subrange(i, s.len() as int),
                            false,
                            no_prefix(),
                            false,
                            true,
                            attr_expr_nest(nest, fresh),
                        ) {
                            Some(l) => if l > 0 {
                                lemma_attrs_end_closes(s, i + l, is_closing, chk, nest, fresh);
                            },
                            None => {},
                        }
                    }
                } else if jsx_name_start_at(s, i) {
                    lemma_attr_name_end_ge(s, i + utf8_len(s[i]), false);
                    match attr_name_end(s, i + utf8_len(s[i]), false) {
                        None => {},
                        Some(k) => {
                            lemma_attr_space_end_ge(s, k, chk);
                            match attr_space_end(s, k, chk) {
                                None => {},
                                Some(p) => if p < s.len() && s[p] == 61 {
                                    lemma_attr_space_end_ge(s, p + 1, chk);
                                    match attr_space_end(s, p + 1, chk) {
                                        None => {},
                                        Some(q) => {
                                            if q >= s.len() {
                                            } else if s[q] == 34 || s[q] == 39 {
                                                lemma_quote_close_ge(s, q + 1, s[q]);
                                                let e = quote_close(s, q + 1, s[q]);
                                                if e < s.len() {
                                                    lemma_attrs_end_closes(
                                                        s,
                                                        e + 1,
                                                        is_closing,
                                                        chk,
                                                        nest,
                                                        fresh,
                                                    );
                                                }
                                            } else if s[q] == 123 {
                                                match expr_end(
                                                    s.subrange(q, s.len() as int),
                                                    false,
                                                    no_prefix(),
                                                    false,
                                                    true,
                                                    attr_expr_nest(nest, fresh),
                                                ) {
                                                    Some(l) => if l > 0 {
                                                        lemma_attrs_end_closes(
                                                            s,
                                                            q + l,
                                                            is_closing,
                                                            chk,
                                                            nest,
                                                            fresh,
                                                        );
                                                    },
                                                    None => {},
                                                }
                                            }
                                        },
                                    }
                                } else {
                                    lemma_attrs_end_closes(s, k, is_closing, chk, nest, fresh);
                                },
                            }
                        },
                    }
                }
            },
        }
    }
}

/// A successful tag scan ends just past a `>`.
pub proof fn lemma_tag_end_closes(s: Seq<u8>, chk: LineOracle, nest: int, fresh: bool)
    ensures
        tag_end(s, chk, nest, fresh) matches Some(e) ==> 2 <= e <= s.len() && s[e - 1] == 62,
{
    let is_closing = 1 < s.len() && s[1] == 47;
    if is_closing {
        lemma_mdx_ws_run_end_ge(s, 2);
    }
    let ix = if is_closing {
        mdx_ws_run_end(s, 2)
    } else {
        1
    };
    if !(ix < s.len() && s[ix] == 62) && !(ix >= s.len() || !jsx_name_start_at(s, ix)) {
        lemma_tag_name_end_ge(s, ix + utf8_len(s[ix]), false, false);
        match tag_name_end(s, ix + utf8_len(s[ix]), false, false) {
            Some(e) => lemma_attrs_end_closes(s, e, is_closing, chk, nest, fresh),
            None => {},
        }
    }
}

proof fn lemma_children_end_closes(s: Seq<u8>, ix: int, nest: int)
    requires
        0 <= ix,
    ensures
        children_end(s, ix, nest) matches Some(e) ==> ix < e <= s.len() && s[e - 1] == 62,
    decreases left(s, ix),
{
    if nest > MAX_MDX_NESTING || !(0 <= ix < s.len()) {
    } else if s[ix] == 123 {
        match expr_end(s.subrange(ix, s.len() as int), false, no_prefix(), false, true, nest) {
            Some(l) => if l > 0 {
                lemma_children_end_closes(s, ix + l, nest);
            },
            None => {},
        }
    } else if s[ix] == 60 && ix + 1 < s.len() && s[ix + 1] == 47 {
        let sub = s.subrange(ix, s.len() as int);
        lemma_tag_end_closes(sub, no_prefix(), nest, false);
        match tag_end(sub, no_prefix(), nest, false) {
            Some(l) => {
                assert(s[ix + l - 1] == sub[l - 1]);
            },
            None => {},
        }
    } else if s[ix] == 60 {
        match element_end(s.subrange(ix, s.len() as int), nest + 1) {
            Some(l) => if l > 0 {
                lemma_children_end_closes(s, ix + l, nest);
            },
            None => lemma_children_end_closes(s, ix + 1, nest),
        }
    } else {
        lemma_children_end_closes(s, ix + 1, nest);
    }
}

/// A successful element scan ends just past a `>`: that of its closing
/// tag, or of a tag that closes or self-closes.
pub proof fn lemma_element_end_closes(s: Seq<u8>, nest: int)
    ensures
        element_end(s, nest) matches Some(e) ==> 2 <= e <= s.len() && s[e - 1] == 62,
{
    lemma_tag_end_closes(s, no_prefix(), nest, false);
    match tag_end(s, no_prefix(), nest, false) {
        Some(t) => lemma_children_end_closes(s, t, nest),
        None => {},
    }
}

} // verus!
