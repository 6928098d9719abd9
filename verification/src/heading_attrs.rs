//! Heading attribute blocks: the trailing `{#id .class key=value}` of a
//! heading line, found and parsed into an id, classes and attributes.

use vstd::prelude::*;
use vstd::string::*;
use vstd::utf8::*;
use crate::ascii::{spec_is_ws, is_ws};
use crate::text::{lemma_str_decodes, str_to_string};
use crate::labels::{str_range, lemma_boundary_at_ascii, lemma_boundary_after_ascii};

verus! {

// ---------------------------------------------------------------------
// Finding the block
// ---------------------------------------------------------------------

/// Walking back from `ix` over line endings, spaces and tabs.
pub open spec fn trailing_space_start(h: Seq<u8>, ix: int) -> int
    decreases ix,
{
    if ix > 0 && (h[ix - 1] == 10 || h[ix - 1] == 13 || h[ix - 1] == 32 || h[ix - 1] == 9) {
        trailing_space_start(h, ix - 1)
    } else {
        ix
    }
}

/// A byte that may stand inside an attribute block: not a brace, angle
/// bracket, backslash or line ending.
pub open spec fn attr_block_byte(b: u8) -> bool {
    !(b == 123 || b == 125 || b == 60 || b == 62 || b == 92 || b == 10 || b == 13)
}

/// Walking back from `ix` over attribute-block bytes.
pub open spec fn attr_run_start(h: Seq<u8>, ix: int) -> int
    decreases ix,
{
    if ix > 0 && attr_block_byte(h[ix - 1]) {
        attr_run_start(h, ix - 1)
    } else {
        ix
    }
}

/// The heading content's length and the range inside a trailing `{…}`
/// block (trailing whitespace after `}` allowed); without such a block, the
/// whole length and `None`.
pub open spec fn attr_block_split(h: Seq<u8>) -> (int, Option<(int, int)>) {
    let ix = trailing_space_start(h, h.len() as int);
    if ix == 0 || h[ix - 1] != 125 {
        (h.len() as int, None)
    } else {
        let close = ix - 1;
        let st = attr_run_start(h, close);
        if st == 0 || h[st - 1] != 123 {
            (h.len() as int, None)
        } else {
            (st - 1, Some((st, close)))
        }
    }
}

pub fn extract_attribute_block_content_from_header_text(heading: &[u8]) -> (r: (
    usize,
    Option<(usize, usize)>,
))
    ensures
        r.0 == attr_block_split(heading@).0,
        match attr_block_split(heading@).1 {
            Some((a, z)) => r.1 == Some((a as usize, z as usize)),
            None => r.1 is None,
        },
        r.1 matches Some((a, z)) ==> a <= z < heading@.len() && r.0 + 1 == a,
{
    let heading_len = heading.len();
    let mut ix = heading_len;
    while ix > 0 && (heading[ix - 1] == '\n' as u8 || heading[ix - 1] == '\r' as u8 || heading[ix
        - 1] == ' ' as u8 || heading[ix - 1] == '\t' as u8)
        invariant
            ix <= heading_len == heading@.len(),
            trailing_space_start(heading@, ix as int) == trailing_space_start(
                heading@,
                heading_len as int,
            ),
        decreases ix,
    {
        ix -= 1;
    }
    if ix == 0 {
        return (heading_len, None);
    }
    let attr_block_close = ix - 1;
    if heading[attr_block_close] != '}' as u8 {
        return (heading_len, None);
    }
    ix -= 1;
    while ix > 0 && !(heading[ix - 1] == '{' as u8 || heading[ix - 1] == '}' as u8 || heading[ix
        - 1] == '<' as u8 || heading[ix - 1] == '>' as u8 || heading[ix - 1] == '\\' as u8
        || heading[ix - 1] == '\n' as u8 || heading[ix - 1] == '\r' as u8)
        invariant
            ix <= attr_block_close < heading_len == heading@.len(),
            attr_run_start(heading@, ix as int) == attr_run_start(
                heading@,
                attr_block_close as int,
            ),
        decreases ix,
    {
        ix -= 1;
    }
    if ix == 0 {
        return (heading_len, None);
    }
    let attr_block_open = ix - 1;
    if heading[attr_block_open] != '{' as u8 {
        return (heading_len, None);
    }
    (attr_block_open, Some((ix, attr_block_close)))
}

// ---------------------------------------------------------------------
// Parsing the block
// ---------------------------------------------------------------------

/// What a block says: the id, the classes and the other attributes, as
/// characters.
pub type AttrsView = (Option<Seq<char>>, Seq<Seq<char>>, Seq<(Seq<char>, Option<Seq<char>>)>);

pub open spec fn chars_of(b: Seq<u8>, a: int, z: int) -> Seq<char> {
    decode_utf8(b.subrange(a, z))
}

/// Where the token that starts at `start` ends, `i` being where the scan
/// is and `quote` the open quote of a value: at the first ASCII whitespace
/// outside quotes. A quote opens only right after `=`.
pub open spec fn attr_token_end(b: Seq<u8>, i: int, start: int, quote: Option<u8>) -> int
    decreases b.len() - i,
{
    if !(0 <= i < b.len()) {
        i
    } else {
        match quote {
            Some(q) => attr_token_end(
                b,
                i + 1,
                start,
                if b[i] == q {
                    None
                } else {
                    quote
                },
            ),
            None => if (b[i] == 34 || b[i] == 39) && i > start && b[i - 1] == 61 {
                attr_token_end(b, i + 1, start, Some(b[i]))
            } else if spec_is_ws(b[i]) {
                i
            } else {
                attr_token_end(b, i + 1, start, None)
            },
        }
    }
}

/// The first `=` in `b[i..z]`.
pub open spec fn first_eq(b: Seq<u8>, i: int, z: int) -> Option<int>
    decreases z - i,
{
    if i >= z {
        None
    } else if b[i] == 61 {
        Some(i)
    } else {
        first_eq(b, i + 1, z)
    }
}

/// A value without one pair of matching surrounding quotes.
pub open spec fn unquoted_range(b: Seq<u8>, a: int, z: int) -> (int, int) {
    if z - a >= 2 && (b[a] == 34 || b[a] == 39) && b[z - 1] == b[a] {
        (a + 1, z - 1)
    } else {
        (a, z)
    }
}

/// What the token `b[a..z]` adds: `#id`, `.class`, `key=value` (with `id=`
/// and `class=` folded into the id and classes), or a bare `key`. A token of
/// one byte adds nothing.
pub open spec fn apply_token(b: Seq<u8>, st: AttrsView, a: int, z: int) -> AttrsView {
    if z - a <= 1 {
        st
    } else if b[a] == 35 {
        (Some(chars_of(b, a + 1, z)), st.1, st.2)
    } else if b[a] == 46 {
        (st.0, st.1.push(chars_of(b, a + 1, z)), st.2)
    } else {
        match first_eq(b, a, z) {
            Some(q) => {
                let (va, vz) = unquoted_range(b, q + 1, z);
                let v = chars_of(b, va, vz);
                if b.subrange(a, q) == seq!['i' as u8, 'd' as u8] {
                    (Some(v), st.1, st.2)
                } else if b.subrange(a, q) == seq!['c' as u8, 'l' as u8, 'a' as u8, 's' as u8, 's' as u8] {
                    (st.0, st.1.push(v), st.2)
                } else {
                    (st.0, st.1, st.2.push((chars_of(b, a, q), Some(v))))
                }
            },
            None => (st.0, st.1, st.2.push((chars_of(b, a, z), None))),
        }
    }
}

/// The tokens from `i` on, applied in order.
pub open spec fn attrs_from(b: Seq<u8>, i: int, st: AttrsView) -> AttrsView
    decreases b.len() - i,
{
    if !(0 <= i < b.len()) {
        st
    } else if spec_is_ws(b[i]) {
        attrs_from(b, i + 1, st)
    } else {
        let e = attr_token_end(b, i + 1, i, None);
        proof {
            lemma_attr_token_end(b, i + 1, i, None);
        }
        attrs_from(b, e, apply_token(b, st, i, e))
    }
}

pub proof fn lemma_attr_token_end(b: Seq<u8>, i: int, start: int, quote: Option<u8>)
    requires
        0 <= i,
    ensures
        i <= attr_token_end(b, i, start, quote),
        i <= b.len() ==> attr_token_end(b, i, start, quote) <= b.len(),
    decreases b.len() - i,
{
    if 0 <= i < b.len() {
        match quote {
            Some(q) => lemma_attr_token_end(
                b,
                i + 1,
                start,
                if b[i] == q {
                    None
                } else {
                    quote
                },
            ),
            None => if (b[i] == 34 || b[i] == 39) && i > start && b[i - 1] == 61 {
                lemma_attr_token_end(b, i + 1, start, Some(b[i]));
            } else if !spec_is_ws(b[i]) {
                lemma_attr_token_end(b, i + 1, start, None);
            },
        }
    }
}

/// The attributes of a heading.
pub struct HeadingAttributes {
    pub id: Option<String>,
    pub classes: Vec<String>,
    pub attrs: Vec<(String, Option<String>)>,
}

pub open spec fn opt_view(o: Option<String>) -> Option<Seq<char>> {
    match o {
        Some(s) => Some(s@),
        None => None,
    }
}

impl HeadingAttributes {
    pub open spec fn view_of(&self) -> AttrsView {
        (
            opt_view(self.id),
            self.classes@.map_values(|c: String| c@),
            self.attrs@.map_values(|p: (String, Option<String>)| (p.0@, opt_view(p.1))),
        )
    }
}

pub open spec fn empty_attrs() -> AttrsView {
    (None, Seq::empty(), Seq::empty())
}

fn scan_attr_token(bytes: &[u8], start: usize) -> (r: usize)
    requires
        start < bytes@.len(),
    ensures
        r == attr_token_end(bytes@, start + 1, start as int, None),
        start < r <= bytes@.len(),
        r < bytes@.len() ==> spec_is_ws(bytes@[r as int]),
{
    let len = bytes.len();
    let mut quote: Option<u8> = None;
    let mut i = start + 1;
    while i < len
        invariant
            start < i <= len,
            len == bytes@.len(),
            attr_token_end(bytes@, i as int, start as int, quote) == attr_token_end(
                bytes@,
                start + 1,
                start as int,
                None,
            ),
        decreases len - i,
    {
        let c = bytes[i];
        if let Some(q) = quote {
            if c == q {
                quote = None;
            }
        } else if (c == '"' as u8 || c == '\'' as u8) && bytes[i - 1] == '=' as u8 {
            quote = Some(c);
        } else if is_ws(c) {
            return i;
        }
        i += 1;
    }
    i
}

fn find_eq(bytes: &[u8], a: usize, z: usize) -> (r: Option<usize>)
    requires
        a <= z <= bytes@.len(),
    ensures
        match r {
            Some(q) => first_eq(bytes@, a as int, z as int) == Some(q as int),
            None => first_eq(bytes@, a as int, z as int) is None,
        },
        r matches Some(q) ==> a <= q < z && bytes@[q as int] == 61,
{
    let mut i = a;
    while i < z
        invariant
            a <= i <= z <= bytes@.len(),
            first_eq(bytes@, i as int, z as int) == first_eq(bytes@, a as int, z as int),
        decreases z - i,
    {
        if bytes[i] == '=' as u8 {
            return Some(i);
        }
        i += 1;
    }
    None
}

fn is_word(bytes: &[u8], a: usize, z: usize, w: &[u8]) -> (r: bool)
    requires
        a <= z <= bytes@.len(),
    ensures
        r == (bytes@.subrange(a as int, z as int) == w@),
{
    if z - a != w.len() {
        return false;
    }
    let mut k: usize = 0;
    while k < w.len()
        invariant
            k <= w@.len(),
            z - a == w@.len(),
            a <= z <= bytes@.len(),
            forall|j: int| 0 <= j < k ==> bytes@[a + j] == w@[j],
        decreases w@.len() - k,
    {
        if bytes[a + k] != w[k] {
            return false;
        }
        k += 1;
    }
    assert(bytes@.subrange(a as int, z as int) =~= w@);
    true
}

/// The text of `s[a..z]` as an owned string.
fn piece(s: &str, a: usize, z: usize) -> (r: String)
    requires
        a <= z <= s.spec_bytes().len(),
        is_char_boundary(s.spec_bytes(), a as int),
        is_char_boundary(s.spec_bytes(), z as int),
    ensures
        r@ == chars_of(s.spec_bytes(), a as int, z as int),
{
    str_to_string(str_range(s, a, z))
}

proof fn lemma_push_view(v: Seq<String>, x: String)
    ensures
        v.push(x).map_values(|c: String| c@) == v.map_values(|c: String| c@).push(x@),
{
    assert(v.push(x).map_values(|c: String| c@) =~= v.map_values(|c: String| c@).push(x@));
}

proof fn lemma_push_pair_view(v: Seq<(String, Option<String>)>, x: (String, Option<String>))
    ensures
        v.push(x).map_values(|p: (String, Option<String>)| (p.0@, opt_view(p.1))) == v.map_values(
            |p: (String, Option<String>)| (p.0@, opt_view(p.1)),
        ).push((x.0@, opt_view(x.1))),
{
    assert(v.push(x).map_values(|p: (String, Option<String>)| (p.0@, opt_view(p.1))) =~= v.map_values(
        |p: (String, Option<String>)| (p.0@, opt_view(p.1)),
    ).push((x.0@, opt_view(x.1))));
}

/// Applies the token `text[a..z]` to the attributes gathered so far.
fn apply_attr_token(
    text: &str,
    a: usize,
    z: usize,
    id: &mut Option<String>,
    classes: &mut Vec<String>,
    attrs: &mut Vec<(String, Option<String>)>,
)
    requires
        a < z <= text.spec_bytes().len(),
        is_char_boundary(text.spec_bytes(), a as int),
        is_char_boundary(text.spec_bytes(), z as int),
        z < text.spec_bytes().len() ==> text.spec_bytes()[z as int] < 0x80,
        valid_utf8(text.spec_bytes()),
    ensures
        (opt_view(*final(id)), final(classes)@.map_values(|c: String| c@), final(attrs)@.map_values(
            |p: (String, Option<String>)| (p.0@, opt_view(p.1)),
        )) == apply_token(
            text.spec_bytes(),
            (opt_view(*old(id)), old(classes)@.map_values(|c: String| c@), old(attrs)@.map_values(
                |p: (String, Option<String>)| (p.0@, opt_view(p.1)),
            )),
            a as int,
            z as int,
        ),
{
    let bytes = text.as_bytes();
    let ghost b = text.spec_bytes();
    if z - a <= 1 {
        return;
    }
    let first = bytes[a];
    if first == '#' as u8 || first == '.' as u8 {
        proof {
            lemma_boundary_after_ascii(b, a as int);
        }
        let v = piece(text, a + 1, z);
        if first == '#' as u8 {
            *id = Some(v);
        } else {
            proof {
                lemma_push_view(classes@, v);
            }
            classes.push(v);
        }
        return;
    }
    match find_eq(bytes, a, z) {
        Some(q) => {
            proof {
                lemma_boundary_at_ascii(b, q as int);
                lemma_boundary_after_ascii(b, q as int);
            }
            let (va, vz) = if z - (q + 1) >= 2 && (bytes[q + 1] == '"' as u8 || bytes[q + 1]
                == '\'' as u8) && bytes[z - 1] == bytes[q + 1] {
                proof {
                    lemma_boundary_after_ascii(b, q + 1);
                    lemma_boundary_at_ascii(b, z - 1);
                }
                (q + 2, z - 1)
            } else {
                (q + 1, z)
            };
            let v = piece(text, va, vz);
            let id_kw: [u8; 2] = ['i' as u8, 'd' as u8];
            let class_kw: [u8; 5] = ['c' as u8, 'l' as u8, 'a' as u8, 's' as u8, 's' as u8];
            assert(id_kw@ == seq!['i' as u8, 'd' as u8]);
            assert(class_kw@ == seq!['c' as u8, 'l' as u8, 'a' as u8, 's' as u8, 's' as u8]);
            if is_word(bytes, a, q, &id_kw) {
                *id = Some(v);
            } else if is_word(bytes, a, q, &class_kw) {
                proof {
                    lemma_push_view(classes@, v);
                }
                classes.push(v);
            } else {
                let key = piece(text, a, q);
                proof {
                    lemma_push_pair_view(attrs@, (key, Some(v)));
                }
                attrs.push((key, Some(v)));
            }
        },
        None => {
            let key = piece(text, a, z);
            proof {
                lemma_push_pair_view(attrs@, (key, None));
            }
            attrs.push((key, None));
        },
    }
}

/// Parses the inside of an attribute block, such as `.a #b c=d`; tokens are
/// separated by ASCII whitespace, and a value after `=` may be quoted to hold
/// spaces. `None` when the block says nothing.
pub fn parse_inside_attribute_block(inside_attr_block: &str) -> (r: Option<HeadingAttributes>)
    ensures
        ({
            let v = attrs_from(inside_attr_block.spec_bytes(), 0, empty_attrs());
            if v.0 is None && v.1.len() == 0 && v.2.len() == 0 {
                r is None
            } else {
                r matches Some(h) && h.view_of() == v
            }
        }),
{
    let bytes = inside_attr_block.as_bytes();
    let ghost b = inside_attr_block.spec_bytes();
    proof {
        lemma_str_decodes(inside_attr_block);
        is_char_boundary_start_end_of_seq(b);
    }
    let len = bytes.len();
    let mut id: Option<String> = None;
    let mut classes: Vec<String> = Vec::new();
    let mut attrs: Vec<(String, Option<String>)> = Vec::new();
    proof {
        assert(classes@.map_values(|c: String| c@) =~= Seq::<Seq<char>>::empty());
        assert(attrs@.map_values(|p: (String, Option<String>)| (p.0@, opt_view(p.1))) =~= Seq::<
            (Seq<char>, Option<Seq<char>>),
        >::empty());
    }
    let mut i: usize = 0;
    while i < len
        invariant
            i <= len,
            len == b.len(),
            bytes@ == b,
            b == inside_attr_block.spec_bytes(),
            valid_utf8(b),
            is_char_boundary(b, i as int),
            is_char_boundary(b, len as int),
            attrs_from(
                b,
                i as int,
                (opt_view(id), classes@.map_values(|c: String| c@), attrs@.map_values(
                    |p: (String, Option<String>)| (p.0@, opt_view(p.1)),
                )),
            ) == attrs_from(b, 0, empty_attrs()),
        decreases len - i,
    {
        if is_ws(bytes[i]) {
            proof {
                lemma_boundary_after_ascii(b, i as int);
            }
            i += 1;
        } else {
            let e = scan_attr_token(bytes, i);
            proof {
                if e < len {
                    lemma_boundary_at_ascii(b, e as int);
                }
            }
            apply_attr_token(inside_attr_block, i, e, &mut id, &mut classes, &mut attrs);
            i = e;
        }
    }
    if id.is_none() && classes.len() == 0 && attrs.len() == 0 {
        return None;
    }
    Some(HeadingAttributes { id, classes, attrs })
}

/// Strips one pair of matching surrounding `"` or `'` from an attribute
/// value; an unbalanced quote is kept.
pub fn unquote_attribute_value(value: &str) -> (r: &str)
    ensures
        ({
            let (a, z) = unquoted_range(value.spec_bytes(), 0, value.spec_bytes().len() as int);
            r.spec_bytes() == value.spec_bytes().subrange(a, z)
        }),
{
    let bytes = value.as_bytes();
    let ghost b = value.spec_bytes();
    proof {
        lemma_str_decodes(value);
        is_char_boundary_start_end_of_seq(b);
    }
    if bytes.len() >= 2 {
        let quote = bytes[0];
        if (quote == '"' as u8 || quote == '\'' as u8) && bytes[bytes.len() - 1] == quote {
            proof {
                lemma_boundary_after_ascii(b, 0);
                lemma_boundary_at_ascii(b, b.len() - 1);
            }
            return str_range(value, 1, bytes.len() - 1);
        }
    }
    proof {
        assert(b.subrange(0, b.len() as int) =~= b);
    }
    value
}

// ---------------------------------------------------------------------
// Encoding as `hProperties` JSON
// ---------------------------------------------------------------------

pub open spec fn hex_digit(d: u8) -> u8 {
    if d < 10 {
        (48 + d) as u8
    } else {
        (87 + d) as u8
    }
}

/// One byte of a JSON string body: `"`, `\`, line feed, carriage return and
/// tab escaped by name, other control bytes as `\u00XX`.
pub open spec fn json_byte(c: u8) -> Seq<u8> {
    if c == 34 {
        seq![92u8, 34u8]
    } else if c == 92 {
        seq![92u8, 92u8]
    } else if c == 10 {
        seq![92u8, 110u8]
    } else if c == 13 {
        seq![92u8, 114u8]
    } else if c == 9 {
        seq![92u8, 116u8]
    } else if c < 0x20 {
        seq![92u8, 117u8, 48u8, 48u8, hex_digit(c / 16), hex_digit(c % 16)]
    } else {
        seq![c]
    }
}

pub open spec fn json_escape(s: Seq<u8>) -> Seq<u8>
    decreases s.len(),
{
    if s.len() == 0 {
        Seq::empty()
    } else {
        json_escape(s.drop_last()) + json_byte(s.last())
    }
}

/// A JSON string literal with the bytes of `s`.
pub open spec fn json_string(s: Seq<u8>) -> Seq<u8> {
    seq![34u8] + json_escape(s) + seq![34u8]
}

/// The parts joined with `sep` between them.
pub open spec fn join_with(parts: Seq<Seq<u8>>, sep: u8) -> Seq<u8>
    decreases parts.len(),
{
    if parts.len() == 0 {
        Seq::empty()
    } else if parts.len() == 1 {
        parts[0]
    } else {
        join_with(parts.drop_last(), sep) + seq![sep] + parts.last()
    }
}

pub open spec fn bytes_of(s: Seq<char>) -> Seq<u8> {
    encode_utf8(s)
}

/// The members of the `hProperties` object: `"id"`, then `"className"` as
/// an array, then each other attribute (a missing value as `""`).
pub open spec fn h_members(v: AttrsView) -> Seq<Seq<u8>> {
    id_members(v) + class_members(v) + attr_members(v)
}

pub open spec fn id_members(v: AttrsView) -> Seq<Seq<u8>> {
    match v.0 {
        Some(id) => seq![seq![34u8, 105u8, 100u8, 34u8, 58u8] + json_string(bytes_of(id))],
        None => Seq::empty(),
    }
}

pub open spec fn class_members(v: AttrsView) -> Seq<Seq<u8>> {
    if v.1.len() > 0 {
        seq![
            seq![34u8, 99u8, 108u8, 97u8, 115u8, 115u8, 78u8, 97u8, 109u8, 101u8, 34u8, 58u8, 91u8]
                + join_with(v.1.map_values(|c: Seq<char>| json_string(bytes_of(c))), 44u8)
                + seq![93u8],
        ]
    } else {
        Seq::empty()
    }
}

pub open spec fn attr_member(p: (Seq<char>, Option<Seq<char>>)) -> Seq<u8> {
    json_string(bytes_of(p.0)) + seq![58u8] + json_string(
        match p.1 {
            Some(x) => bytes_of(x),
            None => Seq::empty(),
        },
    )
}

pub open spec fn attr_members(v: AttrsView) -> Seq<Seq<u8>> {
    v.2.map_values(|p: (Seq<char>, Option<Seq<char>>)| attr_member(p))
}

/// `{"hProperties":{…}}` with those members.
pub open spec fn h_properties_json(v: AttrsView) -> Seq<u8> {
    seq![
        123u8,
        34u8,
        104u8,
        80u8,
        114u8,
        111u8,
        112u8,
        101u8,
        114u8,
        116u8,
        105u8,
        101u8,
        115u8,
        34u8,
        58u8,
        123u8,
    ] + join_with(h_members(v), 44u8) + seq![125u8, 125u8]
}

fn push_all(out: &mut Vec<u8>, bytes: &[u8])
    ensures
        final(out)@ == old(out)@ + bytes@,
{
    let mut i: usize = 0;
    while i < bytes.len()
        invariant
            i <= bytes@.len(),
            out@ == old(out)@ + bytes@.subrange(0, i as int),
        decreases bytes@.len() - i,
    {
        out.push(bytes[i]);
        i += 1;
        proof {
            assert(bytes@.subrange(0, i as int) =~= bytes@.subrange(0, i - 1).push(bytes@[i - 1]));
        }
    }
    proof {
        assert(bytes@.subrange(0, bytes@.len() as int) =~= bytes@);
    }
}

fn hex(d: u8) -> (r: u8)
    requires
        d < 16,
    ensures
        r == hex_digit(d),
{
    if d < 10 {
        48 + d
    } else {
        87 + d
    }
}

/// Appends `s` as a JSON string literal.
fn push_json_string(out: &mut Vec<u8>, s: &str)
    ensures
        final(out)@ == old(out)@ + json_string(s.spec_bytes()),
{
    let bytes = s.as_bytes();
    out.push('"' as u8);
    let ghost start = out@;
    let mut i: usize = 0;
    while i < bytes.len()
        invariant
            i <= bytes@.len(),
            out@ == start + json_escape(bytes@.subrange(0, i as int)),
        decreases bytes@.len() - i,
    {
        let c = bytes[i];
        if c == '"' as u8 {
            out.push('\\' as u8);
            out.push('"' as u8);
        } else if c == '\\' as u8 {
            out.push('\\' as u8);
            out.push('\\' as u8);
        } else if c == '\n' as u8 {
            out.push('\\' as u8);
            out.push('n' as u8);
        } else if c == '\r' as u8 {
            out.push('\\' as u8);
            out.push('r' as u8);
        } else if c == '\t' as u8 {
            out.push('\\' as u8);
            out.push('t' as u8);
        } else if c < 0x20 {
            out.push('\\' as u8);
            out.push('u' as u8);
            out.push('0' as u8);
            out.push('0' as u8);
            out.push(hex(c / 16));
            out.push(hex(c % 16));
        } else {
            out.push(c);
        }
        proof {
            let pre = bytes@.subrange(0, i as int + 1);
            assert(pre.drop_last() =~= bytes@.subrange(0, i as int));
            assert(pre.last() == c);
            assert(out@ =~= start + json_escape(pre));
        }
        i += 1;
    }
    proof {
        assert(bytes@.subrange(0, bytes@.len() as int) =~= bytes@);
    }
    out.push('"' as u8);
    proof {
        assert(out@ =~= old(out)@ + json_string(s.spec_bytes()));
    }
}

proof fn lemma_str_bytes(t: &str)
    ensures
        t.spec_bytes() == bytes_of(t@),
{
    lemma_str_decodes(t);
    decode_utf8_encode_utf8(t.spec_bytes());
}

proof fn lemma_join_push(parts: Seq<Seq<u8>>, p: Seq<u8>, sep: u8)
    ensures
        join_with(parts.push(p), sep) == if parts.len() == 0 {
            p
        } else {
            join_with(parts, sep) + seq![sep] + p
        },
{
    assert(parts.push(p).drop_last() =~= parts);
    if parts.len() == 0 {
        assert(parts.push(p)[0] == p);
    }
}

/// Appends one member (after a comma unless it is the first).
fn push_member_sep(out: &mut Vec<u8>, first: &mut bool)
    ensures
        *final(first) == false,
        final(out)@ == if *old(first) {
            old(out)@
        } else {
            old(out)@.push(44u8)
        },
{
    if *first {
        *first = false;
    } else {
        out.push(',' as u8);
    }
}

pub open spec fn class_member(cs: Seq<Seq<char>>) -> Seq<u8> {
    seq![34u8, 99u8, 108u8, 97u8, 115u8, 115u8, 78u8, 97u8, 109u8, 101u8, 34u8, 58u8, 91u8]
        + join_with(cs.map_values(|c: Seq<char>| json_string(bytes_of(c))), 44u8) + seq![93u8]
}

pub open spec fn string_views(v: Seq<String>) -> Seq<Seq<char>> {
    v.map_values(|c: String| c@)
}

pub open spec fn pair_views(v: Seq<(String, Option<String>)>) -> Seq<(Seq<char>, Option<Seq<char>>)> {
    v.map_values(|p: (String, Option<String>)| (p.0@, opt_view(p.1)))
}

/// Appends `"className":[…]` with the classes as JSON strings.
fn push_class_member(out: &mut Vec<u8>, classes: &Vec<String>)
    ensures
        final(out)@ == old(out)@ + class_member(string_views(classes@)),
{
    let class_key: [u8; 13] = [
        '"' as u8,
        'c' as u8,
        'l' as u8,
        'a' as u8,
        's' as u8,
        's' as u8,
        'N' as u8,
        'a' as u8,
        'm' as u8,
        'e' as u8,
        '"' as u8,
        ':' as u8,
        '[' as u8,
    ];
    push_all(out, &class_key);
    let ghost list_start = out@;
    let ghost mut items: Seq<Seq<u8>> = Seq::empty();
    let mut i: usize = 0;
    while i < classes.len()
        invariant
            i <= classes@.len(),
            items.len() == i,
            forall|k: int|
                0 <= k < i ==> items[k] == json_string(bytes_of(#[trigger] classes@[k]@)),
            out@ == list_start + join_with(items, 44u8),
            list_start == old(out)@ + class_member(Seq::empty()).subrange(0, 13),
        decreases classes@.len() - i,
    {
        if i > 0 {
            out.push(',' as u8);
        }
        let class = &classes[i];
        let class_str = class.as_str();
        push_json_string(out, class_str);
        proof {
            lemma_str_bytes(class_str);
            let m = json_string(bytes_of(class@));
            lemma_join_push(items, m, 44u8);
            items = items.push(m);
            assert(out@ =~= list_start + join_with(items, 44u8));
        }
        i += 1;
    }
    out.push(']' as u8);
    proof {
        let cs = string_views(classes@);
        assert(items =~= cs.map_values(|c: Seq<char>| json_string(bytes_of(c))));
        assert(out@ =~= old(out)@ + class_member(cs));
    }
}

/// Appends the other attributes as members, after `parts` already written.
fn push_attr_members(
    out: &mut Vec<u8>,
    attrs: &Vec<(String, Option<String>)>,
    first: &mut bool,
    Ghost(prefix): Ghost<Seq<u8>>,
    Ghost(parts): Ghost<Seq<Seq<u8>>>,
)
    requires
        old(out)@ == prefix + join_with(parts, 44u8),
        *old(first) == (parts.len() == 0),
    ensures
        final(out)@ == prefix + join_with(
            parts + pair_views(attrs@).map_values(
                |p: (Seq<char>, Option<Seq<char>>)| attr_member(p),
            ),
            44u8,
        ),
{
    let ghost mut done = parts;
    let mut j: usize = 0;
    while j < attrs.len()
        invariant
            j <= attrs@.len(),
            done.len() == parts.len() + j,
            forall|k: int| 0 <= k < parts.len() ==> done[k] == parts[k],
            forall|k: int|
                0 <= k < j ==> done[parts.len() + k] == attr_member(
                    (#[trigger] attrs@[k].0@, opt_view(attrs@[k].1)),
                ),
            out@ == prefix + join_with(done, 44u8),
            *first == (done.len() == 0),
        decreases attrs@.len() - j,
    {
        push_member_sep(out, first);
        let pair = &attrs[j];
        let key_str = pair.0.as_str();
        push_json_string(out, key_str);
        out.push(':' as u8);
        match &pair.1 {
            Some(value) => {
                let value_str = value.as_str();
                push_json_string(out, value_str);
                proof {
                    lemma_str_bytes(value_str);
                }
            },
            None => {
                out.push('"' as u8);
                out.push('"' as u8);
            },
        }
        proof {
            lemma_str_bytes(key_str);
            let m = attr_member((pair.0@, opt_view(pair.1)));
            assert(json_string(Seq::<u8>::empty()) =~= seq![34u8, 34u8]);
            lemma_join_push(done, m, 44u8);
            done = done.push(m);
            assert(out@ =~= prefix + join_with(done, 44u8));
        }
        j += 1;
    }
    proof {
        let all = parts + pair_views(attrs@).map_values(
            |p: (Seq<char>, Option<Seq<char>>)| attr_member(p),
        );
        assert(done =~= all);
    }
}

/// The `hProperties` JSON of a heading's attributes, `None` when it has
/// none.
pub fn encode_heading_h_properties(attrs: &HeadingAttributes) -> (r: Option<Vec<u8>>)
    ensures
        ({
            let v = attrs.view_of();
            if v.0 is None && v.1.len() == 0 && v.2.len() == 0 {
                r is None
            } else {
                r matches Some(buf) && buf@ == h_properties_json(v)
            }
        }),
{
    if attrs.id.is_none() && attrs.classes.len() == 0 && attrs.attrs.len() == 0 {
        proof {
            assert(attrs.view_of().1.len() == 0);
            assert(attrs.view_of().2.len() == 0);
        }
        return None;
    }
    let ghost v = attrs.view_of();
    let mut buf: Vec<u8> = Vec::new();
    let head: [u8; 16] = [
        '{' as u8,
        '"' as u8,
        'h' as u8,
        'P' as u8,
        'r' as u8,
        'o' as u8,
        'p' as u8,
        'e' as u8,
        'r' as u8,
        't' as u8,
        'i' as u8,
        'e' as u8,
        's' as u8,
        '"' as u8,
        ':' as u8,
        '{' as u8,
    ];
    push_all(&mut buf, &head);
    let ghost prefix = buf@;
    let ghost mut parts: Seq<Seq<u8>> = Seq::empty();
    let mut first = true;
    proof {
        assert(buf@ =~= prefix + join_with(parts, 44u8));
    }
    if let Some(id) = &attrs.id {
        push_member_sep(&mut buf, &mut first);
        let id_key: [u8; 5] = ['"' as u8, 'i' as u8, 'd' as u8, '"' as u8, ':' as u8];
        push_all(&mut buf, &id_key);
        let id_str = id.as_str();
        push_json_string(&mut buf, id_str);
        proof {
            lemma_str_bytes(id_str);
            let m = seq![34u8, 105u8, 100u8, 34u8, 58u8] + json_string(bytes_of(id@));
            lemma_join_push(parts, m, 44u8);
            parts = parts.push(m);
            assert(buf@ =~= prefix + join_with(parts, 44u8));
        }
    }
    proof {
        assert(parts =~= id_members(v));
    }
    if attrs.classes.len() > 0 {
        push_member_sep(&mut buf, &mut first);
        push_class_member(&mut buf, &attrs.classes);
        proof {
            let m = class_member(string_views(attrs.classes@));
            lemma_join_push(parts, m, 44u8);
            parts = parts.push(m);
            assert(buf@ =~= prefix + join_with(parts, 44u8));
        }
    }
    proof {
        assert(parts =~= id_members(v) + class_members(v));
    }
    push_attr_members(&mut buf, &attrs.attrs, &mut first, Ghost(prefix), Ghost(parts));
    buf.push('}' as u8);
    buf.push('}' as u8);
    proof {
        assert(parts + pair_views(attrs.attrs@).map_values(
            |p: (Seq<char>, Option<Seq<char>>)| attr_member(p),
        ) =~= h_members(v));
        assert(buf@ =~= h_properties_json(v));
    }
    Some(buf)
}

proof fn lemma_first_eq_at(b: Seq<u8>, i: int, q: int, z: int)
    requires
        i <= q < z,
        b[q] == 61,
        forall|k: int| i <= k < q ==> b[k] != 61,
    ensures
        first_eq(b, i, z) == Some(q),
    decreases q - i,
{
    if i < q {
        lemma_first_eq_at(b, i + 1, q, z);
    }
}

/// A `key=value` token whose value is wrapped in a matching pair of `"` or
/// of `'` gives the value without that pair: as the id for `id=`, as a
/// class for `class=`, and as the attribute's value for any other key.
pub proof fn lemma_quoted_value_unwrapped(b: Seq<u8>, st: AttrsView, a: int, q: int, z: int)
    requires
        0 <= a < q,
        q + 3 <= z <= b.len(),
        b[a] != 35 && b[a] != 46,
        b[q] == 61,
        forall|k: int| a <= k < q ==> b[k] != 61,
        b[q + 1] == 34 || b[q + 1] == 39,
        b[z - 1] == b[q + 1],
    ensures
        b.subrange(a, q) == seq!['i' as u8, 'd' as u8] ==> apply_token(b, st, a, z) == (
            Some(chars_of(b, q + 2, z - 1)),
            st.1,
            st.2,
        ),
        b.subrange(a, q) == seq!['c' as u8, 'l' as u8, 'a' as u8, 's' as u8, 's' as u8]
            ==> apply_token(b, st, a, z) == (st.0, st.1.push(chars_of(b, q + 2, z - 1)), st.2),
        b.subrange(a, q) != seq!['i' as u8, 'd' as u8] && b.subrange(a, q) != seq![
            'c' as u8,
            'l' as u8,
            'a' as u8,
            's' as u8,
            's' as u8,
        ] ==> apply_token(b, st, a, z) == (
            st.0,
            st.1,
            st.2.push((chars_of(b, a, q), Some(chars_of(b, q + 2, z - 1)))),
        ),
{
    lemma_first_eq_at(b, a, q, z);
}

/// A `key=value` token whose value does not start with a quote keeps the
/// value as written: as the id for `id=`, as a class for `class=`, and as
/// the attribute's value for any other key.
pub proof fn lemma_plain_value_kept(b: Seq<u8>, st: AttrsView, a: int, q: int, z: int)
    requires
        0 <= a < q < z <= b.len(),
        b[a] != 35 && b[a] != 46,
        b[q] == 61,
        forall|k: int| a <= k < q ==> b[k] != 61,
        q + 1 < z ==> b[q + 1] != 34 && b[q + 1] != 39,
    ensures
        b.subrange(a, q) == seq!['i' as u8, 'd' as u8] ==> apply_token(b, st, a, z) == (
            Some(chars_of(b, q + 1, z)),
            st.1,
            st.2,
        ),
        b.subrange(a, q) == seq!['c' as u8, 'l' as u8, 'a' as u8, 's' as u8, 's' as u8]
            ==> apply_token(b, st, a, z) == (st.0, st.1.push(chars_of(b, q + 1, z)), st.2),
        b.subrange(a, q) != seq!['i' as u8, 'd' as u8] && b.subrange(a, q) != seq![
            'c' as u8,
            'l' as u8,
            'a' as u8,
            's' as u8,
            's' as u8,
        ] ==> apply_token(b, st, a, z) == (
            st.0,
            st.1,
            st.2.push((chars_of(b, a, q), Some(chars_of(b, q + 1, z)))),
        ),
{
    lemma_first_eq_at(b, a, q, z);
}

/// A `#name` token sets the id to `name`, and a `.name` token adds the
/// class `name`; neither touches anything else. A token of one byte adds
/// nothing.
pub proof fn lemma_id_and_class_tokens(b: Seq<u8>, st: AttrsView, a: int, z: int)
    requires
        0 <= a < z <= b.len(),
    ensures
        z - a == 1 ==> apply_token(b, st, a, z) == st,
        z - a >= 2 && b[a] == 35 ==> apply_token(b, st, a, z) == (
            Some(chars_of(b, a + 1, z)),
            st.1,
            st.2,
        ),
        z - a >= 2 && b[a] == 46 ==> apply_token(b, st, a, z) == (
            st.0,
            st.1.push(chars_of(b, a + 1, z)),
            st.2,
        ),
{
}

/// A token without `=` (and not `#` or `.`) is a bare attribute with no
/// value.
pub proof fn lemma_bare_token(b: Seq<u8>, st: AttrsView, a: int, z: int)
    requires
        0 <= a,
        a + 2 <= z <= b.len(),
        b[a] != 35 && b[a] != 46,
        forall|k: int| a <= k < z ==> b[k] != 61,
    ensures
        apply_token(b, st, a, z) == (st.0, st.1, st.2.push((chars_of(b, a, z), None))),
{
    lemma_first_eq_none(b, a, z);
}

proof fn lemma_first_eq_none(b: Seq<u8>, i: int, z: int)
    requires
        forall|k: int| i <= k < z ==> b[k] != 61,
    ensures
        first_eq(b, i, z) is None,
    decreases z - i,
{
    if i < z {
        lemma_first_eq_none(b, i + 1, z);
    }
}

proof fn lemma_token_end_in_quote(b: Seq<u8>, i: int, start: int, qc: u8, c: int)
    requires
        0 <= i <= c < b.len(),
        b[c] == qc,
        forall|k: int| i <= k < c ==> b[k] != qc,
    ensures
        attr_token_end(b, i, start, Some(qc)) == attr_token_end(b, c + 1, start, None),
    decreases c - i,
{
    if i < c {
        lemma_token_end_in_quote(b, i + 1, start, qc, c);
    }
}

proof fn lemma_token_end_in_key(b: Seq<u8>, i: int, start: int, q: int)
    requires
        0 <= start < i <= q + 1,
        q + 1 < b.len(),
        b[q] == 61,
        b[q + 1] == 34 || b[q + 1] == 39,
        forall|k: int| i <= k <= q ==> !spec_is_ws(b[k]) && b[k] != 34 && b[k] != 39,
    ensures
        attr_token_end(b, i, start, None) == attr_token_end(b, q + 2, start, Some(b[q + 1])),
    decreases q + 1 - i,
{
    if i <= q {
        lemma_token_end_in_key(b, i + 1, start, q);
    }
}

/// A quoted value keeps its token together: in `key="…"` or `key='…'`,
/// blanks inside the quotes do not end the token, which runs at least to
/// the closing quote.
pub proof fn lemma_quoted_value_one_token(b: Seq<u8>, start: int, q: int, c: int)
    requires
        0 <= start < q,
        q + 1 < c < b.len(),
        b[q] == 61,
        b[q + 1] == 34 || b[q + 1] == 39,
        b[c] == b[q + 1],
        forall|k: int| q + 1 < k < c ==> #[trigger] b[k] != b[q + 1],
        forall|k: int| start < k <= q ==> !spec_is_ws(b[k]) && b[k] != 34 && b[k] != 39,
    ensures
        attr_token_end(b, start + 1, start, None) >= c + 1,
{
    lemma_token_end_in_key(b, start + 1, start, q);
    lemma_token_end_in_quote(b, q + 2, start, b[q + 1], c);
    lemma_attr_token_end(b, c + 1, start, None);
}

} // verus!
