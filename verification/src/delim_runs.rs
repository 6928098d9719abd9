//! Whether a run of delimiter characters (`*`, `_`, `~`, `^`, and the quotes
//! of smart punctuation) can open or close emphasis, strikethrough,
//! superscript, subscript or a quotation: CommonMark's left- and
//! right-flanking rules, with the GFM, table and smart-punctuation
//! refinements.
//!
//! Unicode punctuation is asked of a callback: both functions take it as
//! `is_punct`, and their contracts speak of what it answers.

use vstd::prelude::*;
use vstd::string::*;
use vstd::utf8::*;
use crate::options::Options;
use crate::labels::str_range;
use crate::text::{
    char_is_whitespace, is_whitespace_char, str_first_char, str_last_char, lemma_str_decodes,
};

verus! {

/// How a paragraph's inline pass treats table syntax.
#[derive(Clone, Copy, Debug, PartialEq, Eq, Structural)]
pub enum TableParseMode {
    /// Inside a paragraph, scanning for table headers.
    Scan,
    /// Inside a table.
    Active,
    /// Inside a paragraph, not scanning for table headers.
    Disabled,
}

/// A callback that can be asked about every character and answers each
/// one in one way only.
pub open spec fn punct_ok<P: Fn(char) -> bool>(p: &P) -> bool {
    &&& forall|c: char| #[trigger] p.requires((c,))
    &&& forall|c: char, a: bool, b: bool|
        #[trigger] p.ensures((c,), a) && #[trigger] p.ensures((c,), b) ==> a == b
}

/// What the callback `p` answers on `c`.
pub open spec fn punct_answer<P: Fn(char) -> bool>(p: &P, c: char) -> bool {
    choose|b: bool| p.ensures((c,), b)
}

/// The character that starts at byte `k` of `b`, if `k` is before the end.
pub open spec fn char_after(b: Seq<u8>, k: int) -> Option<char> {
    let t = decode_utf8(b.subrange(k, b.len() as int));
    if t.len() > 0 {
        Some(t[0])
    } else {
        None
    }
}

/// The character that ends just before byte `k` of `b`.
pub open spec fn char_before(b: Seq<u8>, k: int) -> char {
    decode_utf8(b.subrange(0, k)).last()
}

/// In table mode, a `|` that is not escaped ends the text before `ix`.
pub open spec fn pipe_before(b: Seq<u8>, ix: int) -> bool {
    ix >= 1 && b[ix - 1] == 124 && !(ix >= 2 && b[ix - 2] == 92)
}

/// Whether the run of `run_len` bytes at `ix` (its first byte the delimiter)
/// can open: it is followed by a character that is not whitespace, and,
/// unless the run starts the text or follows a table cell's `|`, either the
/// delimiter's own rule holds of the characters around it or it follows
/// whitespace or punctuation (an apostrophe not after `]` or `)`).
pub open spec fn can_open(
    b: Seq<u8>,
    run_len: int,
    ix: int,
    mode: TableParseMode,
    o: Options,
    pu: spec_fn(char) -> bool,
) -> bool {
    match char_after(b, ix + run_len) {
        None => false,
        Some(nc) => {
            let d = b[ix];
            let pc = char_before(b, ix);
            if char_is_whitespace(nc) {
                false
            } else if ix == 0 {
                true
            } else if mode == TableParseMode::Active && pipe_before(b, ix) {
                true
            } else if mode == TableParseMode::Active && nc == '|' {
                false
            } else if d == 42 && (nc == '*' || nc == '_' || nc == '~') {
                true
            } else if (d == 42 || d == 94) && !pu(nc) {
                true
            } else if d == 126 && run_len > 1 && !pu(nc) {
                true
            } else if d == 126 && o.spec_contains(Options::ENABLE_SUBSCRIPT) && !pu(nc) {
                true
            } else if d == 126 && o.spec_contains(Options::ENABLE_STRIKETHROUGH) && run_len == 1 {
                !pu(nc) || (pu(nc) && (char_is_whitespace(pc) || pu(pc)))
            } else if d == 34 {
                !pu(nc) || char_is_whitespace(pc) || pu(pc)
            } else {
                char_is_whitespace(pc) || pu(pc) && (d != 39 || !(pc == ']' || pc == ')'))
            }
        },
    }
}

/// Whether the run of `run_len` bytes at `ix` can close: it does not start
/// the text or follow whitespace, and either ends the text, or the
/// delimiter's own rule holds of the characters around it, or whitespace or
/// punctuation follows it.
pub open spec fn can_close(
    b: Seq<u8>,
    run_len: int,
    ix: int,
    mode: TableParseMode,
    o: Options,
    pu: spec_fn(char) -> bool,
) -> bool {
    let pc = char_before(b, ix);
    if ix == 0 {
        false
    } else if char_is_whitespace(pc) {
        false
    } else {
        match char_after(b, ix + run_len) {
            None => true,
            Some(nc) => {
                let d = b[ix];
                if mode == TableParseMode::Active && pipe_before(b, ix) {
                    false
                } else if mode == TableParseMode::Active && nc == '|' {
                    true
                } else if d == 42 && (pc == '*' || pc == '_' || pc == '~') {
                    true
                } else if (d == 42 || d == 94) && !pu(pc) {
                    true
                } else if d == 126 && run_len > 1 && !pu(pc) {
                    true
                } else if d == 126 && o.spec_contains(Options::ENABLE_SUBSCRIPT) {
                    true
                } else if d == 126 && o.spec_contains(Options::ENABLE_STRIKETHROUGH) && run_len
                    == 1 {
                    !pu(pc) || (pu(pc) && (char_is_whitespace(nc) || pu(nc)))
                } else if d == 34 {
                    !pu(pc) || char_is_whitespace(nc) || pu(nc)
                } else {
                    char_is_whitespace(nc) || pu(nc)
                }
            },
        }
    }
}

/// What both functions ask of their arguments: `suffix` is `s` from `ix`,
/// and `run_len` cuts `suffix` at a character boundary.
pub open spec fn run_args_ok(s: &str, suffix: &str, run_len: usize, ix: usize) -> bool {
    &&& ix <= s.spec_bytes().len()
    &&& suffix.spec_bytes() == s.spec_bytes().subrange(ix as int, s.spec_bytes().len() as int)
    &&& run_len <= suffix.spec_bytes().len()
    &&& is_char_boundary(suffix.spec_bytes(), run_len as int)
    &&& is_char_boundary(s.spec_bytes(), ix as int)
}

/// The character after the run, read from `suffix`.
fn next_char_after_run(s: &str, suffix: &str, run_len: usize, ix: usize) -> (r: Option<char>)
    requires
        run_args_ok(s, suffix, run_len, ix),
    ensures
        r == char_after(s.spec_bytes(), ix + run_len),
{
    proof {
        lemma_str_decodes(suffix);
        is_char_boundary_start_end_of_seq(suffix.spec_bytes());
    }
    let n = suffix.as_bytes().len();
    let rest = str_range(suffix, run_len, n);
    proof {
        assert(suffix.spec_bytes().subrange(run_len as int, suffix.spec_bytes().len() as int)
            =~= s.spec_bytes().subrange(ix + run_len, s.spec_bytes().len() as int));
    }
    str_first_char(rest)
}

/// The character before the run.
fn char_before_run(s: &str, ix: usize) -> (r: char)
    requires
        0 < ix <= s.spec_bytes().len(),
        is_char_boundary(s.spec_bytes(), ix as int),
    ensures
        r == char_before(s.spec_bytes(), ix as int),
{
    proof {
        lemma_str_decodes(s);
        is_char_boundary_start_end_of_seq(s.spec_bytes());
    }
    let head = str_range(s, 0, ix);
    proof {
        lemma_str_decodes(head);
        assert(head.spec_bytes().len() > 0);
        if head@.len() == 0 {
            assert(encode_utf8(head@) =~= Seq::<u8>::empty());
            encode_utf8_decode_utf8(head@);
        }
    }
    match str_last_char(head) {
        Some(c) => c,
        None => ' ',
    }
}

/// In table mode, whether an unescaped `|` comes just before `ix`.
fn pipe_before_exec(bytes: &[u8], ix: usize) -> (r: bool)
    requires
        ix <= bytes@.len(),
    ensures
        r == pipe_before(bytes@, ix as int),
{
    ix >= 1 && bytes[ix - 1] == '|' as u8 && !(ix >= 2 && bytes[ix - 2] == '\\' as u8)
}

/// Determines whether the delimiter run starting at `ix` is left-flanking
/// as the CommonMark spec defines it (and not intraword for `_`), with the
/// refinements of each delimiter; `suffix` is `&s[ix..]`.
pub fn delim_run_can_open<P: Fn(char) -> bool>(
    s: &str,
    suffix: &str,
    run_len: usize,
    ix: usize,
    mode: TableParseMode,
    options: Options,
    is_punct: &P,
) -> (r: bool)
    requires
        run_args_ok(s, suffix, run_len, ix),
        punct_ok(is_punct),
    ensures
        r == can_open(
            s.spec_bytes(),
            run_len as int,
            ix as int,
            mode,
            options,
            |c: char| punct_answer(is_punct, c),
        ),
{
    let ghost pu = |c: char| punct_answer(is_punct, c);
    let next_char = match next_char_after_run(s, suffix, run_len, ix) {
        Some(c) => c,
        None => {
            return false;
        },
    };
    if is_whitespace_char(next_char) {
        return false;
    }
    if ix == 0 {
        return true;
    }
    let bytes = s.as_bytes();
    if mode == TableParseMode::Active {
        if pipe_before_exec(bytes, ix) {
            return true;
        }
        if next_char == '|' {
            return false;
        }
    }
    let delim = bytes[ix];
    if delim == '*' as u8 && (next_char == '*' || next_char == '_' || next_char == '~') {
        return true;
    }
    let next_punct = is_punct(next_char);
    proof {
        assert(pu(next_char) == next_punct);
    }
    if (delim == '*' as u8 || delim == '^' as u8) && !next_punct {
        return true;
    }
    if delim == '~' as u8 && run_len > 1 && !next_punct {
        return true;
    }
    let prev_char = char_before_run(s, ix);
    if delim == '~' as u8 && options.contains(Options::ENABLE_SUBSCRIPT) && !next_punct {
        return true;
    }
    let prev_punct = is_punct(prev_char);
    proof {
        assert(pu(prev_char) == prev_punct);
    }
    if delim == '~' as u8 && options.contains(Options::ENABLE_STRIKETHROUGH) && run_len == 1 {
        return !next_punct || (next_punct && (is_whitespace_char(prev_char) || prev_punct));
    }
    if delim == '"' as u8 {
        return !next_punct || is_whitespace_char(prev_char) || prev_punct;
    }
    is_whitespace_char(prev_char) || prev_punct && (delim != '\'' as u8 || !(prev_char == ']'
        || prev_char == ')'))
}

/// Determines whether the delimiter run starting at `ix` is
/// right-flanking, with the refinements of each delimiter; `suffix` is
/// `&s[ix..]`.
pub fn delim_run_can_close<P: Fn(char) -> bool>(
    s: &str,
    suffix: &str,
    run_len: usize,
    ix: usize,
    mode: TableParseMode,
    options: Options,
    is_punct: &P,
) -> (r: bool)
    requires
        run_args_ok(s, suffix, run_len, ix),
        punct_ok(is_punct),
    ensures
        r == can_close(
            s.spec_bytes(),
            run_len as int,
            ix as int,
            mode,
            options,
            |c: char| punct_answer(is_punct, c),
        ),
{
    let ghost pu = |c: char| punct_answer(is_punct, c);
    if ix == 0 {
        return false;
    }
    let prev_char = char_before_run(s, ix);
    if is_whitespace_char(prev_char) {
        return false;
    }
    let next_char = match next_char_after_run(s, suffix, run_len, ix) {
        Some(c) => c,
        None => {
            return true;
        },
    };
    let bytes = s.as_bytes();
    if mode == TableParseMode::Active {
        if pipe_before_exec(bytes, ix) {
            return false;
        }
        if next_char == '|' {
            return true;
        }
    }
    let delim = bytes[ix];
    if delim == '*' as u8 && (prev_char == '*' || prev_char == '_' || prev_char == '~') {
        return true;
    }
    let prev_punct = is_punct(prev_char);
    proof {
        assert(pu(prev_char) == prev_punct);
    }
    if (delim == '*' as u8 || delim == '^' as u8) && !prev_punct {
        return true;
    }
    if delim == '~' as u8 && run_len > 1 && !prev_punct {
        return true;
    }
    if delim == '~' as u8 && options.contains(Options::ENABLE_SUBSCRIPT) {
        return true;
    }
    let next_punct = is_punct(next_char);
    proof {
        assert(pu(next_char) == next_punct);
    }
    if delim == '~' as u8 && options.contains(Options::ENABLE_STRIKETHROUGH) && run_len == 1 {
        return !prev_punct || (prev_punct && (is_whitespace_char(next_char) || next_punct));
    }
    if delim == '"' as u8 {
        return !prev_punct || is_whitespace_char(next_char) || next_punct;
    }
    is_whitespace_char(next_char) || next_punct
}

/// CommonMark's right-flanking rule, for every delimiter: a run that
/// neither starts the text nor follows whitespace, and that is followed by
/// whitespace, can close, unless a table cell's `|` comes just before it.
pub proof fn lemma_close_before_whitespace(
    b: Seq<u8>,
    run_len: int,
    ix: int,
    mode: TableParseMode,
    o: Options,
    pu: spec_fn(char) -> bool,
    nc: char,
)
    requires
        ix > 0,
        !char_is_whitespace(char_before(b, ix)),
        char_after(b, ix + run_len) == Some(nc),
        char_is_whitespace(nc),
        !(mode == TableParseMode::Active && pipe_before(b, ix)),
    ensures
        can_close(b, run_len, ix, mode, o, pu),
{
}

/// A run at the end of the text (nothing after it) that neither starts the
/// text nor follows whitespace can close.
pub proof fn lemma_close_at_end(
    b: Seq<u8>,
    run_len: int,
    ix: int,
    mode: TableParseMode,
    o: Options,
    pu: spec_fn(char) -> bool,
)
    requires
        ix > 0,
        !char_is_whitespace(char_before(b, ix)),
        char_after(b, ix + run_len) is None,
    ensures
        can_close(b, run_len, ix, mode, o, pu),
{
}

/// Nothing closes at the start of the text or after whitespace, and
/// nothing opens before whitespace or at the end of the text.
pub proof fn lemma_flanking_blocks(
    b: Seq<u8>,
    run_len: int,
    ix: int,
    mode: TableParseMode,
    o: Options,
    pu: spec_fn(char) -> bool,
)
    ensures
        (ix == 0 || char_is_whitespace(char_before(b, ix))) ==> !can_close(
            b,
            run_len,
            ix,
            mode,
            o,
            pu,
        ),
        (char_after(b, ix + run_len) matches Some(nc) && char_is_whitespace(nc)) ==> !can_open(
            b,
            run_len,
            ix,
            mode,
            o,
            pu,
        ),
        char_after(b, ix + run_len) is None ==> !can_open(b, run_len, ix, mode, o, pu),
{
}

/// CommonMark's left-flanking rule, for every delimiter: a run followed by
/// a character that is not whitespace can open when it starts the text or
/// follows whitespace, unless in a table the next character is a `|`.
pub proof fn lemma_open_after_whitespace(
    b: Seq<u8>,
    run_len: int,
    ix: int,
    mode: TableParseMode,
    o: Options,
    pu: spec_fn(char) -> bool,
    nc: char,
)
    requires
        char_after(b, ix + run_len) == Some(nc),
        !char_is_whitespace(nc),
        ix == 0 || char_is_whitespace(char_before(b, ix)),
        !(mode == TableParseMode::Active && nc == '|'),
    ensures
        can_open(b, run_len, ix, mode, o, pu),
{
}

/// Inside a word (neither whitespace nor punctuation on either side,
/// outside tables), a `*` run can both open and close, and a `_` run can do
/// neither.
pub proof fn lemma_intraword_runs(
    b: Seq<u8>,
    run_len: int,
    ix: int,
    mode: TableParseMode,
    o: Options,
    pu: spec_fn(char) -> bool,
    nc: char,
)
    requires
        0 < ix < b.len(),
        mode != TableParseMode::Active,
        char_after(b, ix + run_len) == Some(nc),
        !char_is_whitespace(nc) && !pu(nc),
        !char_is_whitespace(char_before(b, ix)) && !pu(char_before(b, ix)),
    ensures
        b[ix] == 42 ==> can_open(b, run_len, ix, mode, o, pu) && can_close(b, run_len, ix, mode, o, pu),
        b[ix] == 95 ==> !can_open(b, run_len, ix, mode, o, pu) && !can_close(b, run_len, ix, mode, o, pu),
{
}

} // verus!
