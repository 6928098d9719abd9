//! The name of a JSX tag as mdx-js reads it: a name, then any `.member`
//! or one `:namespace` part, whitespace allowed around the separators.

use vstd::prelude::*;
use vstd::utf8::*;
use vstd::string::*;
use crate::mdx::{
    mdx_ws_run_end, name_continue_end, skip_mdx_ws, skip_name_continue, lemma_mdx_ws_run_end_ge,
    lemma_name_continue_end_ge,
};
use crate::mdx_lex::{
    utf8_len, left, jsx_name_start_at, jsx_name_continue_at, mdx_ws_at, is_jsx_name_start,
    char_len_utf8, lemma_lead_width,
};
use crate::labels::{str_range, lemma_boundary_after_ascii};
use crate::text::{push_char, str_to_string, lemma_str_decodes};

verus! {

/// In valid UTF-8, the character at a boundary is as wide as its lead
/// byte says, and the next boundary follows it.
pub proof fn lemma_boundary_step(b: Seq<u8>, i: int)
    requires
        valid_utf8(b),
        0 <= i < b.len(),
        is_char_boundary(b, i),
    ensures
        i + utf8_len(b[i]) <= b.len(),
        is_char_boundary(b, i + utf8_len(b[i])),
    decreases b.len(),
{
    lemma_lead_width(b);
    let l = length_of_first_scalar(b);
    let tail = pop_first_scalar(b);
    assert(valid_utf8(tail));
    crate::firstpass::lemma_first_scalar_width(b);
    if i == 0 {
        assert(is_char_boundary(tail, 0));
    } else {
        assert(is_char_boundary(tail, i - l));
        assert(tail[i - l] == b[i]);
        lemma_boundary_step(tail, i - l);
    }
}

proof fn lemma_ws_run_boundary(b: Seq<u8>, i: int)
    requires
        valid_utf8(b),
        0 <= i <= b.len(),
        is_char_boundary(b, i),
    ensures
        i <= mdx_ws_run_end(b, i) <= b.len(),
        is_char_boundary(b, mdx_ws_run_end(b, i)),
    decreases b.len() - i,
{
    if i < b.len() && mdx_ws_at(b, i) {
        lemma_boundary_step(b, i);
        lemma_ws_run_boundary(b, i + utf8_len(b[i]));
    }
}

proof fn lemma_name_run_boundary(b: Seq<u8>, i: int)
    requires
        valid_utf8(b),
        0 <= i <= b.len(),
        is_char_boundary(b, i),
    ensures
        i <= name_continue_end(b, i) <= b.len(),
        is_char_boundary(b, name_continue_end(b, i)),
    decreases b.len() - i,
{
    if i < b.len() && jsx_name_continue_at(b, i) {
        lemma_boundary_step(b, i);
        lemma_name_run_boundary(b, i + utf8_len(b[i]));
    }
}

/// `.` or `:` as a character.
pub open spec fn sep_char(sep: u8) -> char {
    if sep == 46 {
        '.'
    } else {
        ':'
    }
}

/// The parts of a tag name after its first name, from `j`: `None` when
/// only whitespace is left (the name is then its first part alone), else
/// each `.member` or `:namespace` part that follows, written without the
/// whitespace around its separator. A second namespace, or a separator
/// with no name after it, ends the name.
pub open spec fn tag_name_rest(b: Seq<u8>, j: int, saw_ns: bool) -> Option<Seq<char>>
    decreases left(b, j),
{
    let k = mdx_ws_run_end(b, j);
    if j < 0 || k >= b.len() {
        None
    } else {
        let sep = b[k];
        if (sep != 46 && sep != 58) || (sep == 58 && saw_ns) {
            Some(Seq::empty())
        } else {
            let m = mdx_ws_run_end(b, k + 1);
            if m >= b.len() || !jsx_name_start_at(b, m) {
                Some(Seq::empty())
            } else {
                let e = name_continue_end(b, m + utf8_len(b[m]));
                proof {
                    lemma_mdx_ws_run_end_ge(b, j);
                    lemma_mdx_ws_run_end_ge(b, k + 1);
                    lemma_name_continue_end_ge(b, m + utf8_len(b[m]));
                }
                match tag_name_rest(b, e, saw_ns || sep == 58) {
                    None => None,
                    Some(t) => Some(seq![sep_char(sep)] + decode_utf8(b.subrange(m, e)) + t),
                }
            }
        }
    }
}

/// The name of the tag whose text (after `<`) has the bytes `b`.
pub open spec fn tag_name_of(b: Seq<u8>) -> Seq<char> {
    let pe = name_continue_end(b, 0);
    let first = decode_utf8(b.subrange(0, pe));
    match tag_name_rest(b, pe, false) {
        None => first,
        Some(t) => first + t,
    }
}

/// Whatever follows `x` when there is more.
pub open spec fn then(x: Seq<char>, o: Option<Seq<char>>) -> Option<Seq<char>> {
    match o {
        None => None,
        Some(t) => Some(x + t),
    }
}

/// The name of a JSX tag from the text after its `<`: the first name,
/// then `.member` parts and at most one `:namespace` part, with the
/// whitespace around their separators left out.
pub fn extract_tag_name(s: &str) -> (r: String)
    ensures
        r@ == tag_name_of(s.spec_bytes()),
{
    let bytes = s.as_bytes();
    let ghost b = s.spec_bytes();
    let n = bytes.len();
    proof {
        lemma_str_decodes(s);
        is_char_boundary_start_end_of_seq(b);
        lemma_name_run_boundary(b, 0);
    }
    let primary_end = skip_name_continue(bytes, 0);
    let first = str_range(s, 0, primary_end);
    let mut acc = str_to_string(first);
    let ghost mut built = Seq::<char>::empty();
    let mut j = primary_end;
    let mut saw_namespace = false;
    proof {
        assert(then(built, tag_name_rest(b, j as int, saw_namespace)) == tag_name_rest(
            b,
            primary_end as int,
            false,
        )) by {
            match tag_name_rest(b, j as int, saw_namespace) {
                None => {},
                Some(t) => {
                    assert(built + t =~= t);
                },
            }
        }
    }
    loop
        invariant
            bytes@ == b,
            b == s.spec_bytes(),
            n == b.len(),
            valid_utf8(b),
            primary_end <= j <= n,
            primary_end == name_continue_end(b, 0),
            is_char_boundary(b, j as int),
            first@ == decode_utf8(b.subrange(0, primary_end as int)),
            acc@ == first@ + built,
            then(built, tag_name_rest(b, j as int, saw_namespace)) == tag_name_rest(
                b,
                primary_end as int,
                false,
            ),
        decreases left(b, j as int),
    {
        proof {
            lemma_ws_run_boundary(b, j as int);
        }
        let k = skip_mdx_ws(bytes, j);
        if k >= n {
            return str_to_string(first);
        }
        let sep = bytes[k];
        if (sep != '.' as u8 && sep != ':' as u8) || (sep == ':' as u8 && saw_namespace) {
            proof {
                assert(built + Seq::<char>::empty() =~= built);
            }
            return acc;
        }
        proof {
            lemma_boundary_after_ascii(b, k as int);
            lemma_ws_run_boundary(b, k + 1);
        }
        let m = skip_mdx_ws(bytes, k + 1);
        if m >= n || !is_jsx_name_start(bytes, m) {
            proof {
                assert(built + Seq::<char>::empty() =~= built);
            }
            return acc;
        }
        proof {
            lemma_boundary_step(b, m as int);
            lemma_name_run_boundary(b, m + utf8_len(b[m as int]));
        }
        let e = skip_name_continue(bytes, m + char_len_utf8(bytes[m]));
        let part = str_range(s, m, e);
        let c = if sep == '.' as u8 {
            '.'
        } else {
            ':'
        };
        push_char(&mut acc, c);
        acc.append(part);
        let ghost piece = seq![sep_char(sep)] + decode_utf8(b.subrange(m as int, e as int));
        proof {
            let rest = tag_name_rest(b, e as int, saw_namespace || sep == 58);
            assert(tag_name_rest(b, j as int, saw_namespace) == then(piece, rest));
            match rest {
                None => {},
                Some(t) => {
                    assert(built + (piece + t) =~= (built + piece) + t);
                },
            }
            assert(acc@ =~= first@ + (built + piece));
            built = built + piece;
        }
        if sep == ':' as u8 {
            saw_namespace = true;
        }
        j = e;
    }
}

} // verus!
