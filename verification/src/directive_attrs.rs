//! The `{…}` attribute list of a directive: `#id`, `.class`, `key=value`,
//! `key="quoted value"` and bare `key` entries.

use vstd::prelude::*;
use vstd::string::*;
use vstd::utf8::*;
use crate::ascii::{spec_is_alnum, is_alnum};
use crate::text::{lemma_str_decodes, str_from_utf8, str_to_string};
use crate::labels::{str_range, lemma_boundary_at_ascii, lemma_boundary_after_ascii};
use crate::heading_attrs::chars_of;
use crate::firstpass::{
    spec_directive_name_len, name_start_width, name_run_end, name_char_width, label_close,
    scan_directive_name, scan_directive_label, lemma_label_close_bound,
};
use crate::mdx_lex::utf8_len;
use crate::tag_name::lemma_boundary_step;

verus! {

/// `#`, `.`, `}`, space or tab: the end of a `#id` or `.class` shortcut.
pub open spec fn spec_is_attr_shortcut_terminator(c: u8) -> bool {
    c == 35 || c == 46 || c == 125 || c == 32 || c == 9
}

pub fn is_attr_shortcut_terminator(c: u8) -> (r: bool)
    ensures
        r == spec_is_attr_shortcut_terminator(c),
{
    c == '#' as u8 || c == '.' as u8 || c == '}' as u8 || c == ' ' as u8 || c == '\t' as u8
}

/// A byte of an attribute name: ASCII letter or digit, `-`, `.`, `:`, `_`.
pub open spec fn dir_name_byte(c: u8) -> bool {
    spec_is_alnum(c) || c == 45 || c == 46 || c == 58 || c == 95
}

pub open spec fn shortcut_end(b: Seq<u8>, i: int) -> int
    decreases b.len() - i,
{
    if 0 <= i < b.len() && !spec_is_attr_shortcut_terminator(b[i]) {
        shortcut_end(b, i + 1)
    } else {
        i
    }
}

pub open spec fn dir_name_end(b: Seq<u8>, i: int) -> int
    decreases b.len() - i,
{
    if 0 <= i < b.len() && dir_name_byte(b[i]) {
        dir_name_end(b, i + 1)
    } else {
        i
    }
}

/// The closing quote `q` of a value from `i`; a backslash skips the byte
/// after it.
pub open spec fn dir_quote_end(b: Seq<u8>, i: int, q: u8) -> int
    decreases b.len() - i,
{
    if 0 <= i < b.len() && b[i] != q {
        if b[i] == 92 && i + 1 < b.len() {
            dir_quote_end(b, i + 2, q)
        } else {
            dir_quote_end(b, i + 1, q)
        }
    } else {
        i
    }
}

/// An unquoted value runs to a space, tab or `}`.
pub open spec fn bare_value_end(b: Seq<u8>, i: int) -> int
    decreases b.len() - i,
{
    if 0 <= i < b.len() && b[i] != 32 && b[i] != 9 && b[i] != 125 {
        bare_value_end(b, i + 1)
    } else {
        i
    }
}

/// What the entries from `i` on add: attributes in order, classes, and the
/// last id.
pub type DirAttrsView = (Seq<(Seq<char>, Seq<char>)>, Seq<Seq<char>>, Option<Seq<char>>);

pub open spec fn dir_attrs_from(b: Seq<u8>, i: int, st: DirAttrsView) -> DirAttrsView
    decreases b.len() - i,
{
    if !(0 <= i < b.len()) {
        st
    } else if b[i] == 32 || b[i] == 9 {
        dir_attrs_from(b, i + 1, st)
    } else if b[i] == 35 || b[i] == 46 {
        let e = shortcut_end(b, i + 1);
        proof {
            lemma_run_ends(b, i + 1);
        }
        let v = chars_of(b, i + 1, e);
        dir_attrs_from(
            b,
            e,
            if e > i + 1 {
                if b[i] == 35 {
                    (st.0, st.1, Some(v))
                } else {
                    (st.0, st.1.push(v), st.2)
                }
            } else {
                st
            },
        )
    } else {
        let ne = dir_name_end(b, i);
        proof {
            lemma_run_ends(b, i);
        }
        if ne == i {
            dir_attrs_from(b, i + 1, st)
        } else {
            let name = chars_of(b, i, ne);
            if ne < b.len() && b[ne] == 61 {
                let j = ne + 1;
                if j < b.len() && (b[j] == 34 || b[j] == 39) {
                    let ve = dir_quote_end(b, j + 1, b[j]);
                    proof {
                        lemma_run_ends(b, j + 1);
                    }
                    dir_attrs_from(
                        b,
                        if ve < b.len() {
                            ve + 1
                        } else {
                            ve
                        },
                        (st.0.push((name, chars_of(b, j + 1, ve))), st.1, st.2),
                    )
                } else {
                    let ve = bare_value_end(b, j);
                    proof {
                        lemma_run_ends(b, j);
                    }
                    dir_attrs_from(b, ve, (st.0.push((name, chars_of(b, j, ve))), st.1, st.2))
                }
            } else {
                dir_attrs_from(b, ne, (st.0.push((name, Seq::empty())), st.1, st.2))
            }
        }
    }
}

pub proof fn lemma_run_ends(b: Seq<u8>, i: int)
    requires
        0 <= i,
    ensures
        i <= shortcut_end(b, i),
        i <= dir_name_end(b, i),
        i <= bare_value_end(b, i),
        forall|q: u8| #![trigger dir_quote_end(b, i, q)] i <= dir_quote_end(b, i, q),
        i <= b.len() ==> shortcut_end(b, i) <= b.len() && dir_name_end(b, i) <= b.len()
            && bare_value_end(b, i) <= b.len(),
        i <= b.len() ==> forall|q: u8| #![trigger dir_quote_end(b, i, q)] dir_quote_end(b, i, q) <= b.len(),
    decreases b.len() - i,
{
    if i < b.len() {
        lemma_run_ends(b, i + 1);
        if i + 1 < b.len() {
            lemma_run_ends(b, i + 2);
        }
        assert forall|q: u8| #![trigger dir_quote_end(b, i, q)] i <= dir_quote_end(b, i, q) && (i
            <= b.len() ==> dir_quote_end(b, i, q) <= b.len()) by {
            if b[i] != q && b[i] == 92 && i + 1 < b.len() {
                assert(i + 2 <= dir_quote_end(b, i + 2, q));
            } else if b[i] != q {
                assert(i + 1 <= dir_quote_end(b, i + 1, q));
            }
        }
    }
}

/// The characters of the parts with `sep` between them.
pub open spec fn join_chars(parts: Seq<Seq<char>>, sep: char) -> Seq<char>
    decreases parts.len(),
{
    if parts.len() == 0 {
        Seq::empty()
    } else if parts.len() == 1 {
        parts[0]
    } else {
        join_chars(parts.drop_last(), sep) + seq![sep] + parts.last()
    }
}

/// The attributes of a directive's `{…}` contents: each entry in order,
/// then the id, then the classes joined by spaces.
pub open spec fn dir_attrs(b: Seq<u8>) -> Seq<(Seq<char>, Seq<char>)> {
    let st = dir_attrs_from(b, 0, (Seq::empty(), Seq::empty(), None));
    let with_id = match st.2 {
        Some(id) => st.0.push((seq!['i', 'd'], id)),
        None => st.0,
    };
    if st.1.len() > 0 {
        with_id.push((seq!['c', 'l', 'a', 's', 's'], join_chars(st.1, ' ')))
    } else {
        with_id
    }
}

pub open spec fn pair_strings_view(v: Seq<(String, String)>) -> Seq<(Seq<char>, Seq<char>)> {
    v.map_values(|p: (String, String)| (p.0@, p.1@))
}

pub open spec fn strings_view(v: Seq<String>) -> Seq<Seq<char>> {
    v.map_values(|p: String| p@)
}

proof fn lemma_push_pair(v: Seq<(String, String)>, x: (String, String))
    ensures
        pair_strings_view(v.push(x)) == pair_strings_view(v).push((x.0@, x.1@)),
{
    assert(pair_strings_view(v.push(x)) =~= pair_strings_view(v).push((x.0@, x.1@)));
}

proof fn lemma_push_string(v: Seq<String>, x: String)
    ensures
        strings_view(v.push(x)) == strings_view(v).push(x@),
{
    assert(strings_view(v.push(x)) =~= strings_view(v).push(x@));
}

fn piece_of(text: &str, a: usize, z: usize) -> (r: String)
    requires
        a <= z <= text.spec_bytes().len(),
        is_char_boundary(text.spec_bytes(), a as int),
        is_char_boundary(text.spec_bytes(), z as int),
    ensures
        r@ == chars_of(text.spec_bytes(), a as int, z as int),
{
    str_to_string(str_range(text, a, z))
}

/// Parses the contents of a directive's `{…}` into attributes.
pub fn parse_directive_attrs_inner(bytes: &[u8]) -> (r: Vec<(String, String)>)
    requires
        valid_utf8(bytes@),
    ensures
        pair_strings_view(r@) == dir_attrs(bytes@),
{
    let text = match str_from_utf8(bytes) {
        Some(t) => t,
        None => {
            return Vec::new();
        },
    };
    let ghost b = bytes@;
    proof {
        lemma_str_decodes(text);
        is_char_boundary_start_end_of_seq(b);
    }
    let len = bytes.len();
    let mut attrs: Vec<(String, String)> = Vec::new();
    let mut classes: Vec<String> = Vec::new();
    let mut id: Option<String> = None;
    proof {
        assert(pair_strings_view(attrs@) =~= Seq::<(Seq<char>, Seq<char>)>::empty());
        assert(strings_view(classes@) =~= Seq::<Seq<char>>::empty());
    }
    let mut i: usize = 0;
    while i < len
        invariant
            i <= len + 1,
            len == b.len(),
            bytes@ == b,
            text.spec_bytes() == b,
            valid_utf8(b),
            is_char_boundary(b, len as int),
            dir_attrs_from(
                b,
                i as int,
                (
                    pair_strings_view(attrs@),
                    strings_view(classes@),
                    match id {
                        Some(s) => Some(s@),
                        None => None,
                    },
                ),
            ) == dir_attrs_from(b, 0, (Seq::empty(), Seq::empty(), None)),
        decreases len + 1 - i,
    {
        let c = bytes[i];
        if c == ' ' as u8 || c == '\t' as u8 {
            i += 1;
        } else if c == '#' as u8 || c == '.' as u8 {
            proof {
                lemma_boundary_after_ascii(b, i as int);
                lemma_run_ends(b, i + 1);
            }
            let start = i + 1;
            i = start;
            while i < len && !is_attr_shortcut_terminator(bytes[i])
                invariant
                    start <= i <= len,
                    len == b.len(),
                    bytes@ == b,
                    shortcut_end(b, i as int) == shortcut_end(b, start as int),
                decreases len - i,
            {
                i += 1;
            }
            proof {
                if i < len {
                    lemma_boundary_at_ascii(b, i as int);
                }
            }
            if i > start {
                let v = piece_of(text, start, i);
                if c == '#' as u8 {
                    id = Some(v);
                } else {
                    proof {
                        lemma_push_string(classes@, v);
                    }
                    classes.push(v);
                }
            }
        } else {
            let name_start = i;
            while i < len && (is_alnum(bytes[i]) || bytes[i] == '-' as u8 || bytes[i] == '.' as u8
                || bytes[i] == ':' as u8 || bytes[i] == '_' as u8)
                invariant
                    name_start <= i <= len,
                    len == b.len(),
                    bytes@ == b,
                    dir_name_end(b, i as int) == dir_name_end(b, name_start as int),
                    forall|k: int| name_start <= k < i ==> dir_name_byte(#[trigger] b[k]),
                decreases len - i,
            {
                i += 1;
            }
            if i == name_start {
                i += 1;
            } else {
                proof {
                    lemma_boundary_at_ascii(b, name_start as int);
                    lemma_boundary_after_ascii(b, i - 1);
                }
                let name = piece_of(text, name_start, i);
                if i < len && bytes[i] == '=' as u8 {
                    proof {
                        lemma_boundary_after_ascii(b, i as int);
                    }
                    i += 1;
                    if i < len && (bytes[i] == '"' as u8 || bytes[i] == '\'' as u8) {
                        let quote = bytes[i];
                        proof {
                            lemma_boundary_after_ascii(b, i as int);
                            lemma_run_ends(b, i + 1);
                        }
                        i += 1;
                        let val_start = i;
                        while i < len && bytes[i] != quote
                            invariant
                                val_start <= i <= len,
                                len == b.len(),
                                bytes@ == b,
                                dir_quote_end(b, i as int, quote) == dir_quote_end(
                                    b,
                                    val_start as int,
                                    quote,
                                ),
                            decreases len - i,
                        {
                            if bytes[i] == '\\' as u8 && i + 1 < len {
                                i += 1;
                            }
                            i += 1;
                        }
                        proof {
                            if i < len {
                                lemma_boundary_at_ascii(b, i as int);
                            }
                        }
                        let val = piece_of(text, val_start, i);
                        if i < len {
                            proof {
                                lemma_boundary_after_ascii(b, i as int);
                            }
                            i += 1;
                        }
                        proof {
                            lemma_push_pair(attrs@, (name, val));
                        }
                        attrs.push((name, val));
                    } else {
                        let val_start = i;
                        while i < len && bytes[i] != ' ' as u8 && bytes[i] != '\t' as u8 && bytes[i]
                            != '}' as u8
                            invariant
                                val_start <= i <= len,
                                len == b.len(),
                                bytes@ == b,
                                bare_value_end(b, i as int) == bare_value_end(b, val_start as int),
                            decreases len - i,
                        {
                            i += 1;
                        }
                        proof {
                            if i < len {
                                lemma_boundary_at_ascii(b, i as int);
                            }
                        }
                        let val = piece_of(text, val_start, i);
                        proof {
                            lemma_push_pair(attrs@, (name, val));
                        }
                        attrs.push((name, val));
                    }
                } else {
                    let empty = String::new();
                    proof {
                        lemma_push_pair(attrs@, (name, empty));
                    }
                    attrs.push((name, empty));
                }
            }
        }
    }
    let ghost st = dir_attrs_from(b, 0, (Seq::empty(), Seq::empty(), None));
    let ghost with_id = match st.2 {
        Some(idv) => st.0.push((seq!['i', 'd'], idv)),
        None => st.0,
    };
    proof {
        assert(st.0 == pair_strings_view(attrs@));
        assert(st.1 == strings_view(classes@));
        assert(st.2 == match id {
            Some(x) => Some(x@),
            None => None,
        });
    }
    match id {
        Some(id_val) => {
            let id_key = str_to_string("id");
            proof {
                reveal_strlit("id");
                lemma_push_pair(attrs@, (id_key, id_val));
            }
            attrs.push((id_key, id_val));
            proof {
                assert(id_key@ =~= seq!['i', 'd']);
                assert(pair_strings_view(attrs@) =~= with_id);
            }
        },
        None => {},
    }
    if classes.len() > 0 {
        let class_key = str_to_string("class");
        let joined = join_with_spaces(&classes);
        proof {
            reveal_strlit("class");
            lemma_push_pair(attrs@, (class_key, joined));
        }
        attrs.push((class_key, joined));
        proof {
            assert(class_key@ =~= seq!['c', 'l', 'a', 's', 's']);
            assert(pair_strings_view(attrs@) =~= with_id.push(
                (seq!['c', 'l', 'a', 's', 's'], join_chars(st.1, ' ')),
            ));
        }
    }
    attrs
}

/// The strings joined by single spaces (`join(" ")`).
fn join_with_spaces(parts: &Vec<String>) -> (r: String)
    requires
        parts@.len() > 0,
    ensures
        r@ == join_chars(strings_view(parts@), ' '),
{
    let mut out = parts[0].clone();
    let space = " ";
    proof {
        reveal_strlit(" ");
    }
    let mut i: usize = 1;
    while i < parts.len()
        invariant
            1 <= i <= parts@.len(),
            space@ == seq![' '],
            out@ == join_chars(strings_view(parts@.subrange(0, i as int)), ' '),
        decreases parts@.len() - i,
    {
        out.append(space);
        out.append(parts[i].as_str());
        proof {
            let pre = strings_view(parts@.subrange(0, i as int + 1));
            assert(pre.drop_last() =~= strings_view(parts@.subrange(0, i as int)));
            assert(pre.last() == parts@[i as int]@);
        }
        i += 1;
    }
    proof {
        assert(parts@.subrange(0, parts@.len() as int) =~= parts@);
    }
    out
}

/// The `}` that closes an attribute list going on from `i`: `None` at a
/// line ending or the end of input; a backslash escapes the next byte.
pub open spec fn attr_list_close_from(b: Seq<u8>, i: int) -> Option<int>
    decreases b.len() + 1 - i,
{
    if !(0 <= i < b.len()) {
        None
    } else if b[i] == 125 {
        Some(i)
    } else if b[i] == 10 || b[i] == 13 {
        None
    } else if b[i] == 92 && i + 1 < b.len() {
        attr_list_close_from(b, i + 2)
    } else {
        attr_list_close_from(b, i + 1)
    }
}

pub open spec fn dir_attr_list_close(b: Seq<u8>) -> Option<int> {
    if b.len() == 0 || b[0] != 123 {
        None
    } else {
        attr_list_close_from(b, 1)
    }
}

fn find_attr_list_close(bytes: &[u8]) -> (r: Option<usize>)
    requires
        bytes@.len() > 0,
        bytes@[0] == 123,
    ensures
        match r {
            Some(e) => attr_list_close_from(bytes@, 1) == Some(e as int) && 1 <= e < bytes@.len()
                && bytes@[e as int] == 125,
            None => attr_list_close_from(bytes@, 1) is None,
        },
{
    let mut i: usize = 1;
    while i < bytes.len()
        invariant
            1 <= i <= bytes@.len() + 1,
            attr_list_close_from(bytes@, i as int) == attr_list_close_from(bytes@, 1),
        decreases bytes@.len() + 1 - i,
    {
        let c = bytes[i];
        if c == '}' as u8 {
            return Some(i);
        } else if c == '\n' as u8 || c == '\r' as u8 {
            return None;
        } else if c == '\\' as u8 && i + 1 < bytes.len() {
            i += 2;
        } else {
            i += 1;
        }
    }
    None
}

/// Scans a directive's `{…}` attribute list at the start of `bytes` (on
/// one line; a backslash escapes the next byte): its attributes and the
/// offset past the `}`.
pub fn scan_directive_attributes(bytes: &[u8]) -> (r: Option<(Vec<(String, String)>, usize)>)
    requires
        valid_utf8(bytes@),
    ensures
        match dir_attr_list_close(bytes@) {
            Some(end) => r matches Some((attrs, n)) && n == end + 1 && 1 <= end < bytes@.len()
                && pair_strings_view(attrs@) == dir_attrs(bytes@.subrange(1, end)),
            None => r is None,
        },
{
    if bytes.len() == 0 || bytes[0] != '{' as u8 {
        return None;
    }
    let end = match find_attr_list_close(bytes) {
        Some(e) => e,
        None => {
            return None;
        },
    };
    let inner = vstd::slice::slice_subrange(bytes, 1, end);
    proof {
        let b = bytes@;
        lemma_boundary_after_ascii(b, 0);
        valid_utf8_split(b, 1);
        let tail = b.subrange(1, b.len() as int);
        is_char_boundary_iff_not_is_continuation_byte(tail, end - 1);
        assert(tail[end - 1] == b[end as int]);
        valid_utf8_split(tail, end - 1);
        assert(tail.subrange(0, end - 1) =~= b.subrange(1, end as int));
    }
    let attrs = parse_directive_attrs_inner(inner);
    Some((attrs, end + 1))
}

// ---------------------------------------------------------------------
// Directives
// ---------------------------------------------------------------------

/// In valid UTF-8, a boundary of a suffix that starts at a boundary is a
/// boundary of the whole.
pub proof fn lemma_suffix_boundary(b: Seq<u8>, s: int, k: int)
    requires
        valid_utf8(b),
        0 <= s <= b.len(),
        is_char_boundary(b, s),
        0 <= k <= b.len() - s,
        is_char_boundary(b.subrange(s, b.len() as int), k),
    ensures
        is_char_boundary(b, s + k),
{
    let t = b.subrange(s, b.len() as int);
    valid_utf8_split(b, s);
    if s + k == b.len() {
        is_char_boundary_start_end_of_seq(b);
    } else {
        is_char_boundary_iff_not_is_continuation_byte(t, k);
        is_char_boundary_iff_not_is_continuation_byte(b, s + k);
        assert(t[k] == b[s + k]);
    }
}

/// A directive-name character at a boundary of valid UTF-8 ends at the
/// next boundary.
proof fn lemma_name_char_step(b: Seq<u8>, i: int, n: int)
    requires
        valid_utf8(b),
        0 <= i < b.len(),
        is_char_boundary(b, i),
        n > 0,
        n == name_char_width(b, i) || (i == 0 && n == name_start_width(b)),
    ensures
        i + n <= b.len(),
        is_char_boundary(b, i + n),
{
    lemma_boundary_step(b, i);
    is_char_boundary_iff_not_is_continuation_byte(b, i);
    assert(n == utf8_len(b[i]));
}

proof fn lemma_name_run_boundary(b: Seq<u8>, i: int)
    requires
        valid_utf8(b),
        0 <= i <= b.len(),
        is_char_boundary(b, i),
    ensures
        is_char_boundary(b, name_run_end(b, i)),
    decreases b.len() - i,
{
    let n = name_char_width(b, i);
    if n > 0 && i + n <= b.len() {
        lemma_name_char_step(b, i, n);
        lemma_name_run_boundary(b, i + n);
    }
}

/// What a directive's `name[label]{attrs}` gives: its name, its attributes,
/// where its label's text starts and ends (both 0 without a label), and how
/// many columns an enclosing container directive's fence takes.
pub struct DirectiveAttrData {
    pub name: String,
    pub attributes: Vec<(String, String)>,
    pub label_start: usize,
    pub label_end: usize,
    pub initial_size: usize,
}

/// The label after a directive name ending at `p`: its text's start and
/// end, and where the directive goes on; `(0, 0, p)` when no label
/// follows.
pub open spec fn directive_label_at(b: Seq<u8>, p: int) -> (int, int, int) {
    let rest = b.subrange(p, b.len() as int);
    if p < b.len() && b[p] == 91 && label_close(rest, 1, 1) >= 0 {
        (p + 1, p + label_close(rest, 1, 1), p + label_close(rest, 1, 1) + 1)
    } else {
        (0, 0, p)
    }
}

/// The attribute list at `p`: its attributes and where the directive ends;
/// none and `p` when no list closes there.
pub open spec fn directive_attrs_at(b: Seq<u8>, p: int) -> (Seq<(Seq<char>, Seq<char>)>, int) {
    if p < b.len() && b[p] == 123 {
        match dir_attr_list_close(b.subrange(p, b.len() as int)) {
            Some(e) => (dir_attrs(b.subrange(p + 1, p + e)), p + e + 1),
            None => (Seq::empty(), p),
        }
    } else {
        (Seq::empty(), p)
    }
}

/// A directive after its colons, from `start`: `None` without a name, else
/// its name, attributes, label text bounds and end.
pub open spec fn directive_after_colons(b: Seq<u8>, start: int) -> Option<
    (Seq<char>, Seq<(Seq<char>, Seq<char>)>, int, int, int),
> {
    match spec_directive_name_len(b.subrange(start, b.len() as int)) {
        None => None,
        Some(nl) => {
            let (ls, le, p1) = directive_label_at(b, start + nl);
            let (attrs, p2) = directive_attrs_at(b, p1);
            Some((decode_utf8(b.subrange(start, start + nl)), attrs, ls, le, p2))
        },
    }
}

fn directive_label_part(bytes: &[u8], pos: usize) -> (r: (usize, usize, usize))
    requires
        valid_utf8(bytes@),
        pos <= bytes@.len(),
        is_char_boundary(bytes@, pos as int),
    ensures
        (r.0 as int, r.1 as int, r.2 as int) == directive_label_at(bytes@, pos as int),
        r.2 <= bytes@.len(),
        is_char_boundary(bytes@, r.2 as int),
{
    let n = bytes.len();
    if pos < n && bytes[pos] == '[' as u8 {
        let rest = vstd::slice::slice_subrange(bytes, pos, n);
        proof {
            lemma_label_close_bound(rest@, 1, 1);
        }
        if let Some((ls, le, consumed)) = scan_directive_label(rest) {
            proof {
                assert(bytes@[pos + le] == rest@[le as int]);
                lemma_boundary_after_ascii(bytes@, pos + le);
            }
            return (pos + ls, pos + le, pos + consumed);
        }
    }
    (0, 0, pos)
}

fn directive_attrs_part(bytes: &[u8], pos: usize) -> (r: (Vec<(String, String)>, usize))
    requires
        valid_utf8(bytes@),
        pos <= bytes@.len(),
        is_char_boundary(bytes@, pos as int),
    ensures
        (pair_strings_view(r.0@), r.1 as int) == directive_attrs_at(bytes@, pos as int),
{
    let ghost b = bytes@;
    let n = bytes.len();
    if pos < n && bytes[pos] == '{' as u8 {
        let rest = vstd::slice::slice_subrange(bytes, pos, n);
        proof {
            valid_utf8_split(b, pos as int);
            assert(rest@ == b.subrange(pos as int, n as int));
        }
        if let Some((attrs, consumed)) = scan_directive_attributes(rest) {
            proof {
                let e = consumed - 1;
                assert(rest@.subrange(1, e as int) =~= b.subrange(pos + 1, pos + e));
            }
            return (attrs, pos + consumed);
        }
    }
    let none: Vec<(String, String)> = Vec::new();
    proof {
        assert(pair_strings_view(none@) =~= Seq::<(Seq<char>, Seq<char>)>::empty());
    }
    (none, pos)
}

/// Parses `name[label]{attrs}` after the colons of a directive, from
/// `start`: the name must be there; the label and the attribute list, with
/// no space before them, are taken when they close. Returns the data and
/// the position right after the last part parsed.
pub fn parse_directive_after_colons(text: &str, bytes: &[u8], start: usize) -> (r: Option<
    (DirectiveAttrData, usize),
>)
    requires
        bytes@ == text.spec_bytes(),
        start <= bytes@.len(),
        is_char_boundary(bytes@, start as int),
    ensures
        match directive_after_colons(bytes@, start as int) {
            None => r is None,
            Some((name, attrs, ls, le, end)) => r matches Some((d, e)) && d.name@ == name
                && pair_strings_view(d.attributes@) == attrs && d.label_start == ls && d.label_end
                == le && d.initial_size == 0 && e == end,
        },
{
    let ghost b = bytes@;
    let n = bytes.len();
    proof {
        lemma_str_decodes(text);
    }
    let remaining = vstd::slice::slice_subrange(bytes, start, n);
    let name_len = match scan_directive_name(remaining) {
        Some((_, l)) => l,
        None => {
            return None;
        },
    };
    proof {
        let t = remaining@;
        valid_utf8_split(b, start as int);
        is_char_boundary_start_end_of_seq(t);
        let first = name_start_width(t);
        lemma_name_char_step(t, 0, first);
        lemma_name_run_boundary(t, first);
        lemma_suffix_boundary(b, start as int, name_len as int);
    }
    let name = str_range(text, start, start + name_len);
    let (label_start, label_end, p1) = directive_label_part(bytes, start + name_len);
    let (attributes, end) = directive_attrs_part(bytes, p1);
    Some((
        DirectiveAttrData {
            name: str_to_string(name),
            attributes,
            label_start,
            label_end,
            initial_size: 0,
        },
        end,
    ))
}

} // verus!
