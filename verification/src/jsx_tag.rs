//! A raw MDX JSX tag read into its name, attributes and whether it closes
//! an element, opens one or stands alone.

use vstd::prelude::*;
use vstd::utf8::*;
use vstd::string::*;
use crate::mdx::{tag_end, no_prefix, scan_mdx_jsx_tag_end, lemma_tag_end_closes};
use crate::mdx_lex::addressable;
use crate::labels::{str_range, lemma_boundary_after_ascii};
use crate::text::{
    str_trim, str_trim_start, str_to_string, trim_chars, leading_ws, lemma_leading_ws,
    lemma_str_decodes, str_contains, contains_bytes,
};
use crate::tag_name::{extract_tag_name, tag_name_of};
use crate::jsx_attrs::{
    JsxAttr, JsxAttrView, DecodeOracle, decoder_ok, attrs_view, jsx_attrs_of, try_parse_jsx_attrs, slice_ok_exec,
    slice_ok, keep_verbatim, verbatim,
};

verus! {

/// A JSX tag read from its source.
pub struct JsxElementData {
    pub name: String,
    pub attrs: Vec<JsxAttr>,
    pub raw: String,
    pub is_closing: bool,
    pub is_self_closing: bool,
}

/// Back from `j` past spaces, tabs and line endings.
pub open spec fn blank_back(b: Seq<u8>, j: int) -> int
    decreases j,
{
    if j > 0 && (b[j - 1] == 32 || b[j - 1] == 9 || b[j - 1] == 10 || b[j - 1] == 13) {
        blank_back(b, j - 1)
    } else {
        j
    }
}

/// The tag ends in `/>`, whitespace allowed between them.
pub open spec fn ends_self_close(b: Seq<u8>) -> bool {
    b.len() > 0 && b[b.len() - 1] == 62 && {
        let j = blank_back(b, b.len() - 1);
        j > 0 && b[j - 1] == 47
    }
}

/// The closing tag `</name>`.
pub open spec fn close_tag(name: Seq<char>) -> Seq<char> {
    seq!['<', '/'] + name + seq!['>']
}

/// What a raw tag reads as: its name, attributes, whether it is a closing
/// tag and whether it is self-closing (written `/>`, or its own closing
/// tag follows it); `None` when the attributes cannot be read (see
/// `jsx_attrs_of`) or the tag has no first character to skip.
pub open spec fn jsx_tag_view(raw: Seq<char>, ccc: int, extra: int, dec: DecodeOracle) -> Option<
    (Seq<char>, Seq<JsxAttrView>, bool, bool),
> {
    let sb = encode_utf8(trim_chars(raw));
    if sb.len() >= 2 && sb[0] == 60 && sb[1] == 47 {
        Some((tag_name_of(encode_utf8(after_close_slash(sb))), Seq::empty(), true, false))
    } else if !slice_ok(sb, 1, sb.len() as int) {
        None
    } else {
        let name = tag_name_of(sb.subrange(1, sb.len() as int));
        let contained = contains_bytes(
            sb.subrange(children_start(sb), sb.len() as int),
            encode_utf8(close_tag(name)),
        );
        match jsx_attrs_of(sb, ccc, extra, dec) {
            None => None,
            Some(attrs) => Some((name, attrs, false, ends_self_close(sb) || contained)),
        }
    }
}

fn ends_with_self_close(bytes: &[u8]) -> (r: bool)
    ensures
        r == ends_self_close(bytes@),
{
    let len = bytes.len();
    if len == 0 || bytes[len - 1] != '>' as u8 {
        return false;
    }
    let mut j = len - 1;
    while j > 0 && (bytes[j - 1] == ' ' as u8 || bytes[j - 1] == '\t' as u8 || bytes[j - 1]
        == '\n' as u8 || bytes[j - 1] == '\r' as u8)
        invariant
            j < len == bytes@.len(),
            blank_back(bytes@, j as int) == blank_back(bytes@, len - 1),
        decreases j,
    {
        j -= 1;
    }
    j > 0 && bytes[j - 1] == '/' as u8
}

/// The characters after `</` and the whitespace that follows it.
pub open spec fn after_close_slash(sb: Seq<u8>) -> Seq<char> {
    let rest = decode_utf8(sb.subrange(2, sb.len() as int));
    rest.subrange(leading_ws(rest) as int, rest.len() as int)
}

fn closing_name(s: &str) -> (r: String)
    requires
        s.spec_bytes().len() >= 2,
        s.spec_bytes()[0] == 60,
        s.spec_bytes()[1] == 47,
    ensures
        r@ == tag_name_of(encode_utf8(after_close_slash(s.spec_bytes()))),
{
    let bytes = s.as_bytes();
    let ghost sb = bytes@;
    let len = bytes.len();
    proof {
        lemma_str_decodes(s);
        is_char_boundary_start_end_of_seq(sb);
        lemma_boundary_after_ascii(sb, 1);
    }
    let rest = str_range(s, 2, len);
    proof {
        lemma_leading_ws(rest@);
    }
    let after = str_trim_start(rest);
    extract_tag_name(after)
}

/// Where the children of the tag `sb` start: past its `>`, or the end.
pub open spec fn children_start(sb: Seq<u8>) -> int {
    match tag_end(sb, no_prefix(), 0, false) {
        Some(e) => e,
        None => sb.len() as int,
    }
}

fn children_of(s: &str) -> (r: &str)
    requires
        addressable(s.spec_bytes()),
    ensures
        r.spec_bytes() == s.spec_bytes().subrange(
            children_start(s.spec_bytes()),
            s.spec_bytes().len() as int,
        ),
{
    let bytes = s.as_bytes();
    let ghost sb = bytes@;
    let len = bytes.len();
    proof {
        lemma_str_decodes(s);
        is_char_boundary_start_end_of_seq(sb);
    }
    let cs = match scan_mdx_jsx_tag_end(bytes) {
        Some(e) => e,
        None => len,
    };
    proof {
        if cs < len {
            lemma_tag_end_closes(sb, no_prefix(), 0, false);
            lemma_boundary_after_ascii(sb, cs - 1);
        }
    }
    str_range(s, cs, len)
}

fn closes_itself(s: &str, name: &String) -> (r: bool)
    requires
        addressable(s.spec_bytes()),
    ensures
        r == contains_bytes(
            s.spec_bytes().subrange(children_start(s.spec_bytes()), s.spec_bytes().len() as int),
            encode_utf8(close_tag(name@)),
        ),
{
    let children = children_of(s);
    let mut close = String::new();
    let open = "</";
    let shut = ">";
    proof {
        reveal_strlit("</");
        reveal_strlit(">");
    }
    close.append(open);
    close.append(name.as_str());
    close.append(shut);
    proof {
        assert(close@ =~= close_tag(name@));
    }
    str_contains(children, close.as_str())
}

/// Reads a raw JSX tag: its name, its attributes (string values decoded
/// by `decode`, expression values dedented for a container whose content
/// starts at `container_content_col`), whether it is a closing tag, and
/// whether it is self-closing: written with `/>`, or followed in `raw` by
/// its own closing tag. `None` when a slice of the tag that the reading
/// takes does not fall on character boundaries.
pub fn try_parse_jsx_tag_with_column<F: Fn(&str) -> String>(
    raw: &str,
    container_content_col: usize,
    extra_strip_cols: usize,
    decode: &F,
    Ghost(dec): Ghost<DecodeOracle>,
) -> (r: Option<JsxElementData>)
    requires
        addressable(raw.spec_bytes()),
        decoder_ok(decode, dec),
        container_content_col + extra_strip_cols + 8 <= usize::MAX,
    ensures
        match jsx_tag_view(raw@, container_content_col as int, extra_strip_cols as int, dec) {
            Some(t) => r matches Some(d) && t == (d.name@, attrs_view(d.attrs@), d.is_closing,
                d.is_self_closing) && d.raw@ == raw@,
            None => r is None,
        },
{
    let s = str_trim(raw);
    let bytes = s.as_bytes();
    let len = bytes.len();
    if len >= 2 && bytes[0] == '<' as u8 && bytes[1] == '/' as u8 {
        let name = closing_name(s);
        return Some(
            JsxElementData {
                name,
                attrs: Vec::new(),
                raw: str_to_string(raw),
                is_closing: true,
                is_self_closing: false,
            },
        );
    }
    proof {
        lemma_str_decodes(s);
    }
    if !slice_ok_exec(bytes, 1, len) {
        return None;
    }
    let self_close = ends_with_self_close(bytes);
    let first = str_range(s, 1, len);
    let name = extract_tag_name(first);
    let contained = closes_itself(s, &name);
    let attrs = match try_parse_jsx_attrs(s, container_content_col, extra_strip_cols, decode, Ghost(dec)) {
        Some(a) => a,
        None => {
            return None;
        },
    };
    Some(
        JsxElementData {
            name,
            attrs,
            raw: str_to_string(raw),
            is_closing: false,
            is_self_closing: self_close || contained,
        },
    )
}

/// Reads a raw JSX tag that `try_parse_jsx_tag_with_column` accepts.
pub fn parse_jsx_tag_with_column<F: Fn(&str) -> String>(
    raw: &str,
    container_content_col: usize,
    extra_strip_cols: usize,
    decode: &F,
    Ghost(dec): Ghost<DecodeOracle>,
) -> (r: JsxElementData)
    requires
        addressable(raw.spec_bytes()),
        decoder_ok(decode, dec),
        container_content_col + extra_strip_cols + 8 <= usize::MAX,
        jsx_tag_view(raw@, container_content_col as int, extra_strip_cols as int, dec) is Some,
    ensures
        jsx_tag_view(raw@, container_content_col as int, extra_strip_cols as int, dec) == Some(
            (r.name@, attrs_view(r.attrs@), r.is_closing, r.is_self_closing),
        ),
        r.raw@ == raw@,
{
    match try_parse_jsx_tag_with_column(raw, container_content_col, extra_strip_cols, decode, Ghost(dec)) {
        Some(d) => d,
        None => JsxElementData {
            name: String::new(),
            attrs: Vec::new(),
            raw: str_to_string(raw),
            is_closing: false,
            is_self_closing: false,
        },
    }
}

/// `try_parse_jsx_tag_with_column` with string values kept as written (no
/// character reference decoded).
pub fn try_parse_jsx_tag_verbatim(raw: &str, container_content_col: usize, extra_strip_cols: usize) -> (r:
    Option<JsxElementData>)
    requires
        addressable(raw.spec_bytes()),
        container_content_col + extra_strip_cols + 8 <= usize::MAX,
    ensures
        match jsx_tag_view(raw@, container_content_col as int, extra_strip_cols as int, verbatim()) {
            Some(t) => r matches Some(d) && t == (d.name@, attrs_view(d.attrs@), d.is_closing,
                d.is_self_closing) && d.raw@ == raw@,
            None => r is None,
        },
{
    try_parse_jsx_tag_with_column(
        raw,
        container_content_col,
        extra_strip_cols,
        &keep_verbatim,
        Ghost(verbatim()),
    )
}

/// `parse_jsx_tag_with_column` with string values kept as written (no
/// character reference decoded).
pub fn parse_jsx_tag_verbatim(raw: &str, container_content_col: usize, extra_strip_cols: usize) -> (r:
    JsxElementData)
    requires
        addressable(raw.spec_bytes()),
        container_content_col + extra_strip_cols + 8 <= usize::MAX,
        jsx_tag_view(raw@, container_content_col as int, extra_strip_cols as int, verbatim()) is Some,
    ensures
        jsx_tag_view(raw@, container_content_col as int, extra_strip_cols as int, verbatim())
            == Some((r.name@, attrs_view(r.attrs@), r.is_closing, r.is_self_closing)),
        r.raw@ == raw@,
{
    parse_jsx_tag_with_column(
        raw,
        container_content_col,
        extra_strip_cols,
        &keep_verbatim,
        Ghost(verbatim()),
    )
}

} // verus!
