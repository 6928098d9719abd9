//! Literal-autolink recognition (bare URLs and emails inside text), as
//! `mdast-util-gfm-autolink-literal` and micromark's autolink-literal
//! construct define it.

use vstd::prelude::*;
use vstd::string::*;
use vstd::utf8::*;
use crate::ascii::{
    spec_is_alnum, spec_is_alpha, spec_is_digit, spec_is_ws, spec_is_punct, is_alnum, is_alpha,
    is_digit, is_ws, is_punct, count_byte,
    count_in, has_byte,
};
use crate::text::{
    all_ascii, str_from_utf8, concat_str, str_to_string, str_last_char, lemma_ascii_valid_utf8,
    char_is_whitespace, char_is_alphanumeric, is_whitespace_char, is_alphanumeric_char,
};

verus! {

// ---------------------------------------------------------------------
// Email local-part characters
// ---------------------------------------------------------------------

/// Alphanumeric, `.`, `+`, `-` or `_`.
pub open spec fn spec_is_email_local_char(b: u8) -> bool {
    spec_is_alnum(b) || b == 46 || b == 43 || b == 45 || b == 95
}

pub fn is_email_local_char(b: u8) -> (r: bool)
    ensures
        r == spec_is_email_local_char(b),
{
    is_alnum(b) || b == '.' as u8 || b == '+' as u8 || b == '-' as u8 || b == '_' as u8
}

// ---------------------------------------------------------------------
// Bracket depth
// ---------------------------------------------------------------------

/// The `[`-nesting depth after reading `b[i..]` from depth `d`: `\` skips
/// the byte after it, `[` opens, `]` closes an open bracket.
pub open spec fn bracket_depth_from(b: Seq<u8>, i: int, d: nat) -> nat
    decreases b.len() - i,
{
    if i >= b.len() || i < 0 {
        d
    } else if b[i] == 92 {
        if i + 2 >= b.len() {
            d
        } else {
            bracket_depth_from(b, i + 2, d)
        }
    } else if b[i] == 91 {
        bracket_depth_from(b, i + 1, d + 1)
    } else if b[i] == 93 && d > 0 {
        bracket_depth_from(b, i + 1, (d - 1) as nat)
    } else {
        bracket_depth_from(b, i + 1, d)
    }
}

/// Folds the bracket depth over `s`: returns whether a `[` is still open
/// after `s`, given whether one was open before it.
pub fn update_bracket_depth(was_open: bool, s: &str) -> (r: bool)
    requires
        s.spec_bytes().len() < usize::MAX,
    ensures
        r == (bracket_depth_from(s.spec_bytes(), 0, if was_open {
            1nat
        } else {
            0nat
        }) > 0),
{
    let bytes = s.as_bytes();
    let mut depth: usize = if was_open {
        1
    } else {
        0
    };
    let ghost d0: nat = depth as nat;
    let mut i: usize = 0;
    while i < bytes.len()
        invariant
            bytes@ == s.spec_bytes(),
            bytes@.len() < usize::MAX,
            d0 == if was_open {
                1nat
            } else {
                0nat
            },
            depth <= i + 1,
            bracket_depth_from(bytes@, i as int, depth as nat) == bracket_depth_from(
                bytes@,
                0,
                d0,
            ),
        decreases bytes@.len() - i,
    {
        let c = bytes[i];
        if c == '\\' as u8 {
            if bytes.len() - i <= 2 {
                assert(bytes@[i as int] == 92);
                assert(bracket_depth_from(bytes@, i as int, depth as nat) == depth as nat);
                return depth > 0;
            }
            i = i + 2;
            continue;
        }
        if c == '[' as u8 {
            depth = depth + 1;
        } else if c == ']' as u8 && depth > 0 {
            depth = depth - 1;
        }
        i = i + 1;
    }
    depth > 0
}

// ---------------------------------------------------------------------
// Domains
// ---------------------------------------------------------------------

/// The last index in `[lo, hi)` holding `c`, or -1.
pub open spec fn rfind_from(b: Seq<u8>, lo: int, hi: int, c: u8) -> int
    decreases hi - lo,
{
    if hi <= lo {
        -1
    } else if b[hi - 1] == c {
        hi - 1
    } else {
        rfind_from(b, lo, hi - 1, c)
    }
}

/// A dot-separated domain part passes: empty, or free of `_` with at least
/// one ASCII alphanumeric.
pub open spec fn domain_part_ok(b: Seq<u8>, lo: int, hi: int) -> bool {
    lo >= hi || (!has_byte(b, lo, hi, 95) && exists|i: int|
        lo <= i < hi && #[trigger] spec_is_alnum(b[i]))
}

/// `isCorrectDomain`: at least two dot-separated parts, and the last and
/// the one before it pass `domain_part_ok`.
pub open spec fn spec_is_correct_domain(d: Seq<u8>) -> bool {
    let last = rfind_from(d, 0, d.len() as int, 46);
    let penult = rfind_from(d, 0, last, 46);
    &&& last >= 0
    &&& domain_part_ok(d, last + 1, d.len() as int)
    &&& domain_part_ok(d, penult + 1, last)
}

proof fn lemma_rfind_bounds(b: Seq<u8>, lo: int, hi: int, c: u8)
    requires
        0 <= lo,
        hi <= b.len(),
    ensures
        rfind_from(b, lo, hi, c) == -1 || (lo <= rfind_from(b, lo, hi, c) < hi && b[rfind_from(
            b,
            lo,
            hi,
            c,
        )] == c),
        rfind_from(b, lo, hi, c) == -1 ==> forall|i: int| lo <= i < hi ==> #[trigger] b[i] != c,
        rfind_from(b, lo, hi, c) >= 0 ==> forall|i: int|
            rfind_from(b, lo, hi, c) < i < hi ==> #[trigger] b[i] != c,
    decreases hi - lo,
{
    if hi > lo && b[hi - 1] != c {
        lemma_rfind_bounds(b, lo, hi - 1, c);
        assert(rfind_from(b, lo, hi, c) == rfind_from(b, lo, hi - 1, c));
        assert forall|i: int|
            rfind_from(b, lo, hi, c) >= 0 && rfind_from(b, lo, hi, c) < i < hi implies #[trigger] b[i]
            != c by {
            if i < hi - 1 {
                assert(rfind_from(b, lo, hi - 1, c) < i < hi - 1);
            }
        }
    }
}

/// The last index in `[lo, hi)` of `c`, or -1.
fn rfind_byte(b: &[u8], lo: usize, hi: usize, c: u8) -> (r: i64)
    requires
        lo <= hi <= b@.len(),
        b@.len() < i64::MAX,
    ensures
        r == rfind_from(b@, lo as int, hi as int, c),
{
    let mut j = hi;
    while j > lo
        invariant
            lo <= j <= hi <= b@.len(),
            b@.len() < i64::MAX,
            rfind_from(b@, lo as int, j as int, c) == rfind_from(b@, lo as int, hi as int, c),
        decreases j - lo,
    {
        if b[j - 1] == c {
            return (j - 1) as i64;
        }
        j = j - 1;
    }
    -1
}

fn domain_part_check(d: &[u8], lo: usize, hi: usize) -> (r: bool)
    requires
        lo <= hi <= d@.len(),
    ensures
        r == domain_part_ok(d@, lo as int, hi as int),
{
    if lo >= hi {
        return true;
    }
    let mut any_alnum = false;
    let mut i = lo;
    while i < hi
        invariant
            lo <= i <= hi <= d@.len(),
            !has_byte(d@, lo as int, i as int, 95),
            any_alnum == exists|k: int| lo <= k < i && #[trigger] spec_is_alnum(d@[k]),
        decreases hi - i,
    {
        if d[i] == '_' as u8 {
            return false;
        }
        if is_alnum(d[i]) {
            any_alnum = true;
        }
        i = i + 1;
    }
    any_alnum
}

/// Mirrors `mdast-util-gfm-autolink-literal`'s `isCorrectDomain`.
pub fn is_correct_domain_for_fnr(domain: &[u8]) -> (r: bool)
    requires
        domain@.len() < i64::MAX,
    ensures
        r == spec_is_correct_domain(domain@),
{
    let n = domain.len();
    let last = rfind_byte(domain, 0, n, '.' as u8);
    proof {
        lemma_rfind_bounds(domain@, 0, n as int, 46);
    }
    if last < 0 {
        return false;
    }
    let last = last as usize;
    let penult = rfind_byte(domain, 0, last, '.' as u8);
    proof {
        lemma_rfind_bounds(domain@, 0, last as int, 46);
    }
    let penult_start = (penult + 1) as usize;
    domain_part_check(domain, last + 1, n) && domain_part_check(domain, penult_start, last)
}

// ---------------------------------------------------------------------
// splitUrl
// ---------------------------------------------------------------------

/// Trailing characters that `splitUrl` strips: ``!"&'),.:;<>?]}``.
pub open spec fn is_fnr_trail(b: u8) -> bool {
    b == 33 || b == 34 || b == 38 || b == 39 || b == 41 || b == 44 || b == 46 || b == 58 || b
        == 59 || b == 60 || b == 62 || b == 63 || b == 93 || b == 125
}

fn is_fnr_trail_byte(b: u8) -> (r: bool)
    ensures
        r == is_fnr_trail(b),
{
    b == '!' as u8 || b == '"' as u8 || b == '&' as u8 || b == '\'' as u8 || b == ')' as u8 || b
        == ',' as u8 || b == '.' as u8 || b == ':' as u8 || b == ';' as u8 || b == '<' as u8 || b
        == '>' as u8 || b == '?' as u8 || b == ']' as u8 || b == '}' as u8
}

/// Start of the longest run of trail characters that ends at `hi`, not
/// before `lo`.
pub open spec fn trail_start(b: Seq<u8>, lo: int, hi: int) -> int
    decreases hi - lo,
{
    if hi > lo && is_fnr_trail(b[hi - 1]) {
        trail_start(b, lo, hi - 1)
    } else {
        hi
    }
}

/// The position just after the `k`-th `)` of `b[from..to]`, or after the
/// last `)` there if it has fewer, or `dflt` if it has none (or `k` is 0).
pub open spec fn after_closes(b: Seq<u8>, from: int, to: int, k: int, dflt: int) -> int
    decreases to - from,
{
    if k <= 0 || from >= to {
        dflt
    } else if b[from] == 41 {
        after_closes(b, from + 1, to, k - 1, from + 1)
    } else {
        after_closes(b, from + 1, to, k, dflt)
    }
}

/// `splitUrl`'s end: strip the trail, then take back from it as many `)` as
/// the URL has unmatched `(`.
pub open spec fn spec_split_url_end(b: Seq<u8>, min_end: int, raw_end: int) -> int {
    let t = trail_start(b, min_end, raw_end);
    let opens = count_byte(b.subrange(min_end, t), 40) as int;
    let closes = count_byte(b.subrange(min_end, t), 41) as int;
    if t == raw_end {
        raw_end
    } else {
        after_closes(b, t, raw_end, opens - closes, t)
    }
}

proof fn lemma_trail_start_bounds(b: Seq<u8>, lo: int, hi: int)
    requires
        lo <= hi,
    ensures
        lo <= trail_start(b, lo, hi) <= hi,
    decreases hi - lo,
{
    if hi > lo && is_fnr_trail(b[hi - 1]) {
        lemma_trail_start_bounds(b, lo, hi - 1);
    }
}

proof fn lemma_after_closes_bounds(b: Seq<u8>, from: int, to: int, k: int, dflt: int)
    requires
        from <= to,
        dflt <= to,
    ensures
        after_closes(b, from, to, k, dflt) <= to,
        after_closes(b, from, to, k, dflt) >= dflt || after_closes(b, from, to, k, dflt) > from,
    decreases to - from,
{
    if k > 0 && from < to {
        if b[from] == 41 {
            lemma_after_closes_bounds(b, from + 1, to, k - 1, from + 1);
        } else {
            lemma_after_closes_bounds(b, from + 1, to, k, dflt);
        }
    }
}

/// Mirrors `splitUrl`: trims trailing ``[!"&'),.:;<>?\]}]+`` from `raw_end`
/// while balancing `(`/`)`. Returns the new end (at least `min_end`).
pub fn split_url_trim_end(bytes: &[u8], min_end: usize, raw_end: usize) -> (r: usize)
    requires
        min_end <= raw_end <= bytes@.len(),
    ensures
        r == spec_split_url_end(bytes@, min_end as int, raw_end as int),
        min_end <= r <= raw_end,
{
    let mut t = raw_end;
    while t > min_end && is_fnr_trail_byte(bytes[t - 1])
        invariant
            min_end <= t <= raw_end <= bytes@.len(),
            trail_start(bytes@, min_end as int, t as int) == trail_start(
                bytes@,
                min_end as int,
                raw_end as int,
            ),
        decreases t - min_end,
    {
        t = t - 1;
    }
    proof {
        lemma_trail_start_bounds(bytes@, min_end as int, raw_end as int);
    }
    if t == raw_end {
        return raw_end;
    }
    let opens = count_in(bytes, min_end, t, '(' as u8);
    let closes = count_in(bytes, min_end, t, ')' as u8);
    if opens <= closes {
        return t;
    }
    // Take back `)`s from the trail, one per unmatched `(`.
    let mut need = opens - closes;
    let mut url_end = t;
    let mut p = t;
    while need > 0 && p < raw_end
        invariant
            t <= p <= raw_end <= bytes@.len(),
            t <= url_end <= p,
            need > 0 ==> after_closes(bytes@, p as int, raw_end as int, need as int, url_end as int)
                == after_closes(bytes@, t as int, raw_end as int, opens - closes, t as int),
            need == 0 ==> url_end == after_closes(
                bytes@,
                t as int,
                raw_end as int,
                opens - closes,
                t as int,
            ),
        decreases raw_end - p,
    {
        if bytes[p] == ')' as u8 {
            proof {
                assert(after_closes(bytes@, p + 1, raw_end as int, need - 1, p + 1)
                    == after_closes(bytes@, p as int, raw_end as int, need as int, url_end as int));
                if need == 1 {
                    assert(after_closes(bytes@, p + 1, raw_end as int, 0, p + 1) == p + 1);
                }
            }
            need = need - 1;
            url_end = p + 1;
        }
        p = p + 1;
    }
    url_end
}

// ---------------------------------------------------------------------
// Previous-character rules
// ---------------------------------------------------------------------

/// The up-to-four bytes before `ix`.
pub open spec fn prev_window(b: Seq<u8>, ix: int) -> Seq<u8> {
    b.subrange(if ix >= 4 {
        ix - 4
    } else {
        0
    }, ix)
}

/// The non-ASCII branch of `previous()`: decode the bytes before `ix`; the
/// last character must be whitespace or not alphanumeric (bytes that do not
/// decode pass).
pub open spec fn unicode_prev_ok(b: Seq<u8>, ix: int) -> bool {
    let w = prev_window(b, ix);
    if valid_utf8(w) {
        let cs = decode_utf8(w);
        let c = if cs.len() > 0 {
            cs.last()
        } else {
            ' '
        };
        char_is_whitespace(c) || !char_is_alphanumeric(c)
    } else {
        true
    }
}

/// `previous()` of `mdast-util-gfm-autolink-literal`: start of input, or
/// a previous character that is whitespace or punctuation.
pub open spec fn spec_fnr_prev_ok(b: Seq<u8>, ix: int) -> bool {
    if ix == 0 {
        true
    } else if b[ix - 1] < 128 {
        spec_is_ws(b[ix - 1]) || spec_is_punct(b[ix - 1])
    } else {
        unicode_prev_ok(b, ix)
    }
}

fn unicode_prev_check(bytes: &[u8], ix: usize) -> (r: bool)
    requires
        ix <= bytes@.len(),
    ensures
        r == unicode_prev_ok(bytes@, ix as int),
{
    let lo = if ix >= 4 {
        ix - 4
    } else {
        0
    };
    let w = vstd::slice::slice_subrange(bytes, lo, ix);
    match str_from_utf8(w) {
        Some(s) => {
            proof {
                crate::text::lemma_str_decodes(s);
            }
            let c = match str_last_char(s) {
                Some(c) => c,
                None => ' ',
            };
            is_whitespace_char(c) || !is_alphanumeric_char(c)
        },
        None => true,
    }
}

/// Mirrors `previous()` in `mdast-util-gfm-autolink-literal`: the previous
/// character must be whitespace, punctuation, or the start of the input.
pub fn fnr_prev_ok(bytes: &[u8], ix: usize) -> (r: bool)
    requires
        ix <= bytes@.len(),
    ensures
        r == spec_fnr_prev_ok(bytes@, ix as int),
{
    if ix == 0 {
        return true;
    }
    let prev = bytes[ix - 1];
    if prev < 0x80 {
        return is_ws(prev) || is_punct(prev);
    }
    unicode_prev_check(bytes, ix)
}

// ---------------------------------------------------------------------
// Literal URLs
// ---------------------------------------------------------------------

/// `b[ix..]` starts with `p`.
pub open spec fn starts_with_at(b: Seq<u8>, ix: int, p: Seq<u8>) -> bool {
    ix + p.len() <= b.len() && b.subrange(ix, ix + p.len()) == p
}

pub open spec fn http_prefix() -> Seq<u8> {
    seq![104u8, 116, 116, 112, 58, 47, 47]
}

pub open spec fn https_prefix() -> Seq<u8> {
    seq![104u8, 116, 116, 112, 115, 58, 47, 47]
}

pub open spec fn www_prefix() -> Seq<u8> {
    seq![119u8, 119, 119, 46]
}

fn starts_with_bytes(b: &[u8], ix: usize, p: &[u8]) -> (r: bool)
    requires
        ix <= b@.len(),
    ensures
        r == starts_with_at(b@, ix as int, p@),
{
    if b.len() - ix < p.len() {
        return false;
    }
    let mut k: usize = 0;
    while k < p.len()
        invariant
            ix + p@.len() <= b@.len(),
            b@.len() <= usize::MAX,
            0 <= k <= p@.len(),
            forall|j: int| 0 <= j < k ==> b@[ix + j] == p@[j],
        decreases p@.len() - k,
    {
        if b[ix + k] != p[k] {
            proof {
                assert(b@.subrange(ix as int, ix + p@.len())[k as int] != p@[k as int]);
            }
            return false;
        }
        k = k + 1;
    }
    proof {
        assert(b@.subrange(ix as int, ix + p@.len()) =~= p@);
    }
    true
}

/// The scheme of a literal URL at `ix`: its length and whether it is `www.`.
pub open spec fn url_scheme(b: Seq<u8>, ix: int) -> Option<(int, bool)> {
    if starts_with_at(b, ix, http_prefix()) {
        Some((7, false))
    } else if starts_with_at(b, ix, https_prefix()) {
        Some((8, false))
    } else if starts_with_at(b, ix, www_prefix()) {
        Some((4, true))
    } else {
        None
    }
}

/// A byte that ends the URL body: ASCII control, space, DEL or `<`.
pub open spec fn ends_url(c: u8) -> bool {
    c <= 32 || c == 127 || c == 60
}

/// After `]`, a byte (or the end) that starts a CommonMark resource or
/// reference: `(`, `[`, space, tab, line feed, carriage return.
pub open spec fn resource_follows(b: Seq<u8>, i: int) -> bool {
    i >= b.len() || b[i] == 40 || b[i] == 91 || b[i] == 32 || b[i] == 9 || b[i] == 10 || b[i]
        == 13
}

/// End of the URL body that starts at `i`.
pub open spec fn url_body_end(b: Seq<u8>, i: int) -> int
    decreases b.len() - i,
{
    if 0 <= i < b.len() && !ends_url(b[i]) && !(b[i] == 93 && resource_follows(b, i + 1)) {
        url_body_end(b, i + 1)
    } else {
        i
    }
}

/// Trailing characters that micromark's `trail` strips: ``!"'*,.:;<?]_~``.
pub open spec fn is_construct_trail(c: u8) -> bool {
    c == 33 || c == 34 || c == 39 || c == 42 || c == 44 || c == 46 || c == 58 || c == 59 || c
        == 60 || c == 63 || c == 93 || c == 95 || c == 126
}

/// Walking back from `j` (down to just after `ix`) over alphanumerics and
/// `#`: the position of an `&`, or -1.
pub open spec fn entity_amp(b: Seq<u8>, ix: int, j: int) -> int
    decreases j - ix,
{
    if j <= ix {
        -1
    } else if b[j] == 38 {
        j
    } else if !(spec_is_alnum(b[j]) || b[j] == 35) {
        -1
    } else {
        entity_amp(b, ix, j - 1)
    }
}

/// Trims the trail from `end` while it stays above `lo`: an entity-like
/// tail `&...;` as a whole, trail characters, and a `)` while `b[ix..end]`
/// has more `)` than `(`.
pub open spec fn construct_trim(b: Seq<u8>, ix: int, lo: int, end: int) -> int
    decreases end - ix,
{
    if end <= lo || end <= ix {
        end
    } else if b[end - 1] == 59 && ix < entity_amp(b, ix, end - 2) < end {
        construct_trim(b, ix, lo, entity_amp(b, ix, end - 2))
    } else if is_construct_trail(b[end - 1]) {
        construct_trim(b, ix, lo, end - 1)
    } else if b[end - 1] == 41 && count_byte(b.subrange(ix, end), 41) > count_byte(
        b.subrange(ix, end),
        40,
    ) {
        construct_trim(b, ix, lo, end - 1)
    } else {
        end
    }
}

/// The first index in `[lo, hi)` whose byte satisfies `p`, or `hi`.
pub open spec fn find_first(b: Seq<u8>, lo: int, hi: int, p: spec_fn(u8) -> bool) -> int
    decreases hi - lo,
{
    if lo >= hi {
        hi
    } else if p(b[lo]) {
        lo
    } else {
        find_first(b, lo + 1, hi, p)
    }
}

/// `/`, `?` or `#`: the end of a `www.` domain.
pub open spec fn ends_www_domain(c: u8) -> bool {
    c == 47 || c == 63 || c == 35
}

/// A byte outside micromark's domain: not alphanumeric, `-`, `_`, `.`, or
/// non-ASCII.
pub open spec fn ends_construct_domain(c: u8) -> bool {
    !(spec_is_alnum(c) || c == 45 || c == 95 || c == 46 || c >= 128)
}

/// A byte outside `[-.\w]`.
pub open spec fn ends_fnr_domain(c: u8) -> bool {
    !(c == 46 || c == 95 || c == 45 || spec_is_alnum(c))
}

/// micromark's domain checks: something alphanumeric, `-` or non-ASCII,
/// and no `_` in the last two dot-segments.
pub open spec fn construct_domain_ok(b: Seq<u8>, lo: int, hi: int) -> bool {
    let last = rfind_from(b, lo, hi, 46);
    let penult = if last >= 0 {
        rfind_from(b, lo, last, 46)
    } else {
        -1
    };
    let seen = exists|k: int|
        lo <= k < hi && (spec_is_alnum(#[trigger] b[k]) || b[k] == 45 || b[k] >= 128);
    let last_us = if last >= 0 {
        has_byte(b, last + 1, hi, 95)
    } else {
        has_byte(b, lo, hi, 95)
    };
    let penult_us = last >= 0 && has_byte(b, if penult >= 0 {
        penult + 1
    } else {
        lo
    }, last, 95);
    seen && !last_us && !penult_us
}

/// The literal autolink at `ix`: `(raw_end, end, is_www, fnr_only)` where
/// `b[ix..end]` is the URL, `raw_end` the end of the untrimmed body, and
/// `fnr_only` tells that only the find-and-replace path accepted it.
pub open spec fn spec_autolink(b: Seq<u8>, ix: int) -> Option<(int, int, bool, bool)> {
    match url_scheme(b, ix) {
        None => None,
        Some((plen, is_www)) => {
            let lo = ix + plen;
            let loose_ok = ix == 0 || b[ix - 1] >= 128 || !spec_is_alpha(b[ix - 1]);
            let prev_loose_only = ix > 0 && !spec_fnr_prev_ok(b, ix);
            let first_ok = is_www || (lo < b.len() && !(b[lo] <= 32 || b[lo] == 127) && !(b[lo]
                < 128 && spec_is_punct(b[lo])));
            let raw_end = url_body_end(b, lo);
            let e2 = construct_trim(b, ix, lo, raw_end);
            let wd = find_first(b, lo, e2, |c: u8| ends_www_domain(c));
            let cd = find_first(b, lo, e2, |c: u8| ends_construct_domain(c));
            let construct_ok = first_ok && construct_domain_ok(b, lo, cd);
            let fd = find_first(b, lo, raw_end, |c: u8| ends_fnr_domain(c));
            let e3 = spec_split_url_end(b, lo, raw_end);
            if !loose_ok || raw_end == lo || e2 <= lo {
                None
            } else if is_www && !has_byte(b, lo, wd, 46) {
                None
            } else if !construct_ok && (prev_loose_only || !spec_is_correct_domain(
                b.subrange(lo, fd),
            ) || e3 <= lo) {
                None
            } else {
                Some((raw_end, if construct_ok {
                    e2
                } else {
                    e3
                }, is_www, !construct_ok))
            }
        },
    }
}

/// The raw end of the literal autolink at `ix` when the scanner hands one
/// back (its URL must also be valid UTF-8), else `None`.
pub open spec fn autolink_raw_end(b: Seq<u8>, ix: int) -> Option<int> {
    match spec_autolink(b, ix) {
        Some((raw_end, end, _, _)) => if valid_utf8(b.subrange(ix, end)) {
            Some(raw_end)
        } else {
            None
        },
        None => None,
    }
}

/// A literal autolink ends after the byte it starts at.
pub proof fn lemma_autolink_advances(b: Seq<u8>, ix: int)
    requires
        0 <= ix <= b.len(),
    ensures
        autolink_raw_end(b, ix) matches Some(re) ==> ix < re <= b.len(),
{
    if let Some((plen, _)) = url_scheme(b, ix) {
        lemma_url_body_end(b, ix + plen);
    }
}

/// Whether `http://`, `https://` or `www.` starts at `ix`.
pub fn has_url_scheme(bytes: &[u8], ix: usize) -> (r: bool)
    requires
        ix <= bytes@.len(),
    ensures
        r == url_scheme(bytes@, ix as int) is Some,
{
    let http: [u8; 7] = ['h' as u8, 't' as u8, 't' as u8, 'p' as u8, ':' as u8, '/' as u8, '/' as u8];
    let https: [u8; 8] = [
        'h' as u8,
        't' as u8,
        't' as u8,
        'p' as u8,
        's' as u8,
        ':' as u8,
        '/' as u8,
        '/' as u8,
    ];
    let www: [u8; 4] = ['w' as u8, 'w' as u8, 'w' as u8, '.' as u8];
    proof {
        assert(http@ == http_prefix());
        assert(https@ == https_prefix());
        assert(www@ == www_prefix());
    }
    starts_with_bytes(bytes, ix, http.as_slice()) || starts_with_bytes(bytes, ix, https.as_slice())
        || starts_with_bytes(bytes, ix, www.as_slice())
}

proof fn lemma_url_body_end(b: Seq<u8>, i: int)
    requires
        0 <= i <= b.len(),
    ensures
        i <= url_body_end(b, i) <= b.len(),
    decreases b.len() - i,
{
    if i < b.len() && !ends_url(b[i]) && !(b[i] == 93 && resource_follows(b, i + 1)) {
        lemma_url_body_end(b, i + 1);
    }
}

proof fn lemma_construct_trim(b: Seq<u8>, ix: int, lo: int, end: int)
    requires
        ix <= lo,
        ix <= end,
    ensures
        ix <= construct_trim(b, ix, lo, end) <= end,
        end <= lo ==> construct_trim(b, ix, lo, end) == end,
    decreases end - ix,
{
    if end > lo && end > ix {
        if b[end - 1] == 59 && ix < entity_amp(b, ix, end - 2) < end {
            lemma_construct_trim(b, ix, lo, entity_amp(b, ix, end - 2));
        } else if is_construct_trail(b[end - 1]) || (b[end - 1] == 41 && count_byte(
            b.subrange(ix, end),
            41,
        ) > count_byte(b.subrange(ix, end), 40)) {
            lemma_construct_trim(b, ix, lo, end - 1);
        }
    }
}

proof fn lemma_entity_amp(b: Seq<u8>, ix: int, j: int)
    ensures
        entity_amp(b, ix, j) == -1 || (ix < entity_amp(b, ix, j) <= j),
    decreases j - ix,
{
    if j > ix && b[j] != 38 && (spec_is_alnum(b[j]) || b[j] == 35) {
        lemma_entity_amp(b, ix, j - 1);
    }
}

proof fn lemma_find_first(b: Seq<u8>, lo: int, hi: int, p: spec_fn(u8) -> bool)
    requires
        lo <= hi,
    ensures
        lo <= find_first(b, lo, hi, p) <= hi,
        forall|k: int| lo <= k < find_first(b, lo, hi, p) ==> !p(#[trigger] b[k]),
        find_first(b, lo, hi, p) < hi ==> p(b[find_first(b, lo, hi, p)]),
    decreases hi - lo,
{
    if lo < hi && !p(b[lo]) {
        lemma_find_first(b, lo + 1, hi, p);
    }
}

fn resource_follows_exec(bytes: &[u8], i: usize) -> (r: bool)
    ensures
        r == resource_follows(bytes@, i as int),
{
    if i >= bytes.len() {
        return true;
    }
    let next = bytes[i];
    next == '(' as u8 || next == '[' as u8 || next == ' ' as u8 || next == '\t' as u8 || next
        == '\n' as u8 || next == '\r' as u8
}

fn url_body_end_exec(bytes: &[u8], start: usize) -> (e: usize)
    requires
        start <= bytes@.len(),
    ensures
        e == url_body_end(bytes@, start as int),
        start <= e <= bytes@.len(),
{
    let mut end = start;
    while end < bytes.len()
        invariant
            start <= end <= bytes@.len(),
            url_body_end(bytes@, end as int) == url_body_end(bytes@, start as int),
        ensures
            url_body_end(bytes@, end as int) == url_body_end(bytes@, start as int),
            url_body_end(bytes@, end as int) == end,
            start <= end <= bytes@.len(),
        decreases bytes@.len() - end,
    {
        let b = bytes[end];
        let stop = b <= ' ' as u8 || b == 0x7F || b == '<' as u8 || (b == ']' as u8
            && resource_follows_exec(bytes, end + 1));
        if stop {
            break;
        }
        end = end + 1;
    }
    end
}

fn construct_trim_exec(bytes: &[u8], ix: usize, lo: usize, raw_end: usize) -> (e: usize)
    requires
        ix + 4 <= lo <= raw_end <= bytes@.len(),
        bytes@.len() < i64::MAX,
    ensures
        e == construct_trim(bytes@, ix as int, lo as int, raw_end as int),
        ix <= e <= raw_end,
{
    let mut end = raw_end;
    proof {
        lemma_construct_trim(bytes@, ix as int, lo as int, raw_end as int);
    }
    loop
        invariant
            ix + 4 <= lo <= raw_end <= bytes@.len(),
            bytes@.len() < i64::MAX,
            ix <= end <= raw_end,
            construct_trim(bytes@, ix as int, lo as int, end as int) == construct_trim(
                bytes@,
                ix as int,
                lo as int,
                raw_end as int,
            ),
        ensures
            construct_trim(bytes@, ix as int, lo as int, end as int) == end,
            ix <= end <= raw_end,
            construct_trim(bytes@, ix as int, lo as int, end as int) == construct_trim(
                bytes@,
                ix as int,
                lo as int,
                raw_end as int,
            ),
        decreases end,
    {
        if end <= lo {
            break;
        }
        let last = bytes[end - 1];
        if last == ';' as u8 {
            let amp = entity_amp_exec(bytes, ix, end - 2);
            proof {
                lemma_entity_amp(bytes@, ix as int, end - 2);
            }
            if amp >= 0 {
                end = amp as usize;
                continue;
            }
        }
        if last == '!' as u8 || last == '"' as u8 || last == '\'' as u8 || last == '*' as u8
            || last == ',' as u8 || last == '.' as u8 || last == ':' as u8 || last == ';' as u8
            || last == '<' as u8 || last == '?' as u8 || last == ']' as u8 || last == '_' as u8
            || last == '~' as u8 {
            end = end - 1;
            continue;
        }
        if last == ')' as u8 {
            let opens = count_in(bytes, ix, end, '(' as u8);
            let closes = count_in(bytes, ix, end, ')' as u8);
            if closes > opens {
                end = end - 1;
                continue;
            }
        }
        break;
    }
    end
}

fn entity_amp_exec(bytes: &[u8], ix: usize, j0: usize) -> (r: i64)
    requires
        ix <= j0 < bytes@.len(),
        bytes@.len() < i64::MAX,
    ensures
        r == entity_amp(bytes@, ix as int, j0 as int),
{
    let mut j = j0;
    while j > ix
        invariant
            ix <= j <= j0 < bytes@.len(),
            bytes@.len() < i64::MAX,
            entity_amp(bytes@, ix as int, j as int) == entity_amp(bytes@, ix as int, j0 as int),
        decreases j,
    {
        let c = bytes[j];
        if c == '&' as u8 {
            return j as i64;
        }
        if !(is_alnum(c) || c == '#' as u8) {
            return -1;
        }
        j = j - 1;
    }
    -1
}

fn find_first_www_domain_end(bytes: &[u8], lo: usize, hi: usize) -> (r: usize)
    requires
        lo <= hi <= bytes@.len(),
    ensures
        lo <= r <= hi,
        r == find_first(bytes@, lo as int, hi as int, |c: u8| ends_www_domain(c)),
{
    let mut k = lo;
    while k < hi
        invariant
            lo <= k <= hi <= bytes@.len(),
            find_first(bytes@, k as int, hi as int, |c: u8| ends_www_domain(c)) == find_first(
                bytes@,
                lo as int,
                hi as int,
                |c: u8| ends_www_domain(c),
            ),
        decreases hi - k,
    {
        let c = bytes[k];
        if c == '/' as u8 || c == '?' as u8 || c == '#' as u8 {
            return k;
        }
        k = k + 1;
    }
    k
}

fn find_first_construct_domain_end(bytes: &[u8], lo: usize, hi: usize) -> (r: usize)
    requires
        lo <= hi <= bytes@.len(),
    ensures
        lo <= r <= hi,
        r == find_first(bytes@, lo as int, hi as int, |c: u8| ends_construct_domain(c)),
{
    let mut k = lo;
    while k < hi
        invariant
            lo <= k <= hi <= bytes@.len(),
            find_first(bytes@, k as int, hi as int, |c: u8| ends_construct_domain(c))
                == find_first(bytes@, lo as int, hi as int, |c: u8| ends_construct_domain(c)),
        decreases hi - k,
    {
        let c = bytes[k];
        if !(is_alnum(c) || c == '-' as u8 || c == '_' as u8 || c == '.' as u8 || c >= 0x80) {
            return k;
        }
        k = k + 1;
    }
    k
}

fn find_first_fnr_domain_end(bytes: &[u8], lo: usize, hi: usize) -> (r: usize)
    requires
        lo <= hi <= bytes@.len(),
    ensures
        lo <= r <= hi,
        r == find_first(bytes@, lo as int, hi as int, |c: u8| ends_fnr_domain(c)),
{
    let mut k = lo;
    while k < hi
        invariant
            lo <= k <= hi <= bytes@.len(),
            find_first(bytes@, k as int, hi as int, |c: u8| ends_fnr_domain(c)) == find_first(
                bytes@,
                lo as int,
                hi as int,
                |c: u8| ends_fnr_domain(c),
            ),
        decreases hi - k,
    {
        let c = bytes[k];
        if !(c == '.' as u8 || c == '_' as u8 || c == '-' as u8 || is_alnum(c)) {
            return k;
        }
        k = k + 1;
    }
    k
}

fn has_byte_in(bytes: &[u8], lo: usize, hi: usize, c: u8) -> (r: bool)
    requires
        lo <= hi <= bytes@.len(),
    ensures
        r == has_byte(bytes@, lo as int, hi as int, c),
{
    let mut k = lo;
    while k < hi
        invariant
            lo <= k <= hi <= bytes@.len(),
            !has_byte(bytes@, lo as int, k as int, c),
        decreases hi - k,
    {
        if bytes[k] == c {
            return true;
        }
        k = k + 1;
    }
    false
}

fn construct_domain_check(bytes: &[u8], lo: usize, hi: usize) -> (r: bool)
    requires
        lo <= hi <= bytes@.len(),
        bytes@.len() < i64::MAX,
    ensures
        r == construct_domain_ok(bytes@, lo as int, hi as int),
{
    let mut seen = false;
    let mut k = lo;
    while k < hi
        invariant
            lo <= k <= hi <= bytes@.len(),
            seen == exists|j: int|
                lo <= j < k && (spec_is_alnum(#[trigger] bytes@[j]) || bytes@[j] == 45 || bytes@[j]
                    >= 128),
        decreases hi - k,
    {
        let c = bytes[k];
        if is_alnum(c) || c == '-' as u8 || c >= 0x80 {
            seen = true;
        }
        k = k + 1;
    }
    let last = rfind_byte(bytes, lo, hi, '.' as u8);
    proof {
        lemma_rfind_bounds(bytes@, lo as int, hi as int, 46);
    }
    if last >= 0 {
        let last = last as usize;
        let penult = rfind_byte(bytes, lo, last, '.' as u8);
        proof {
            lemma_rfind_bounds(bytes@, lo as int, last as int, 46);
        }
        let pstart = if penult >= 0 {
            (penult + 1) as usize
        } else {
            lo
        };
        seen && !has_byte_in(bytes, last + 1, hi, '_' as u8) && !has_byte_in(
            bytes,
            pstart,
            last,
            '_' as u8,
        )
    } else {
        seen && !has_byte_in(bytes, lo, hi, '_' as u8)
    }
}

/// The `http://`, `https://` or `www.` literal autolink starting at `ix`.
/// Returns `(ix, raw_end, end, url, fnr_only)`: `bytes[ix..end]` is the URL
/// (with `http://` put in front of a `www.` one), `raw_end` the end of the
/// body before trailing punctuation was trimmed, and `fnr_only` tells that
/// micromark's construct rejected the URL and only the find-and-replace
/// fallback accepted it.
pub fn scan_autolink_literal(bytes: &[u8], ix: usize) -> (r: Option<
    (usize, usize, usize, String, bool),
>)
    requires
        ix <= bytes@.len(),
        bytes@.len() < i64::MAX,
    ensures
        match spec_autolink(bytes@, ix as int) {
            None => r is None,
            Some((raw_end, end, is_www, fnr)) => {
                if valid_utf8(bytes@.subrange(ix as int, end)) {
                    r matches Some((s, re, e, url, f)) && s == ix && re == raw_end && e == end
                        && f == fnr && url@ == (if is_www {
                        "http://"@
                    } else {
                        Seq::<char>::empty()
                    }) + decode_utf8(bytes@.subrange(ix as int, end))
                } else {
                    r is None
                }
            },
        },
{
    let http: [u8; 7] = ['h' as u8, 't' as u8, 't' as u8, 'p' as u8, ':' as u8, '/' as u8, '/' as u8];
    let https: [u8; 8] = [
        'h' as u8,
        't' as u8,
        't' as u8,
        'p' as u8,
        's' as u8,
        ':' as u8,
        '/' as u8,
        '/' as u8,
    ];
    let www: [u8; 4] = ['w' as u8, 'w' as u8, 'w' as u8, '.' as u8];
    proof {
        assert(http@ == http_prefix());
        assert(https@ == https_prefix());
        assert(www@ == www_prefix());
    }
    let is_http = starts_with_bytes(bytes, ix, http.as_slice());
    let is_https = !is_http && starts_with_bytes(bytes, ix, https.as_slice());
    let is_www = !is_http && !is_https && starts_with_bytes(bytes, ix, www.as_slice());
    if !is_http && !is_https && !is_www {
        return None;
    }
    let n = bytes.len();
    let proto_len: usize = if is_http {
        7
    } else if is_https {
        8
    } else {
        4
    };
    let lo = ix + proto_len;
    // micromark's `previousProtocol` rejects only an ASCII letter before
    // the URL; find-and-replace's `previous` is stricter.
    let prev_loose_only = if ix > 0 {
        let prev = bytes[ix - 1];
        let prev_loose_ok = if prev < 0x80 {
            !is_alpha(prev)
        } else {
            true
        };
        if !prev_loose_ok {
            return None;
        }
        !fnr_prev_ok(bytes, ix)
    } else {
        false
    };
    // micromark's `afterProtocol` verdict on the first byte past the scheme.
    let construct_first_ok = if is_www {
        true
    } else if lo >= bytes.len() {
        false
    } else {
        let b = bytes[lo];
        if b <= ' ' as u8 || b == 0x7F {
            false
        } else if b < 0x80 && is_punct(b) {
            false
        } else {
            true
        }
    };
    let raw_end = url_body_end_exec(bytes, lo);
    if raw_end == lo {
        return None;
    }
    let mut end = construct_trim_exec(bytes, ix, lo, raw_end);
    if end <= lo {
        return None;
    }
    if is_www {
        let domain_end = find_first_www_domain_end(bytes, lo, end);
        if !has_byte_in(bytes, lo, domain_end, '.' as u8) {
            return None;
        }
    }
    let construct_domain_end = find_first_construct_domain_end(bytes, lo, end);
    let construct_ok = construct_first_ok && construct_domain_check(
        bytes,
        lo,
        construct_domain_end,
    );
    if !construct_ok {
        if prev_loose_only {
            return None;
        }
        let fnr_domain_end = find_first_fnr_domain_end(bytes, lo, raw_end);
        proof {
            lemma_find_first(bytes@, lo as int, raw_end as int, |c: u8| ends_fnr_domain(c));
        }
        let fnr_domain = vstd::slice::slice_subrange(bytes, lo, fnr_domain_end);
        if !is_correct_domain_for_fnr(fnr_domain) {
            return None;
        }
        end = split_url_trim_end(bytes, lo, raw_end);
        if end <= lo {
            return None;
        }
    }
    let url_bytes = vstd::slice::slice_subrange(bytes, ix, end);
    let url_str = match str_from_utf8(url_bytes) {
        Some(s) => s,
        None => {
            return None;
        },
    };
    proof {
        crate::text::lemma_str_decodes(url_str);
        reveal_strlit("http://");
    }
    let full_url = if is_www {
        concat_str("http://", url_str)
    } else {
        str_to_string(url_str)
    };
    Some((ix, raw_end, end, full_url, !construct_ok))
}

/// Space, tab, carriage return or line feed: the end of a `findUrl` path.
pub open spec fn ends_fnr_path(c: u8) -> bool {
    c == 32 || c == 9 || c == 13 || c == 10
}

/// `findUrl`'s match at `ix`: `(url_end, raw_end, is_www)`.
pub open spec fn spec_fnr_url(b: Seq<u8>, ix: int) -> Option<(int, int, bool)> {
    match url_scheme(b, ix) {
        None => None,
        Some((plen, is_www)) => {
            let lo = ix + plen;
            let domain_end = find_first(b, lo, b.len() as int, |c: u8| ends_fnr_domain(c));
            let raw_end = find_first(b, domain_end, b.len() as int, |c: u8| ends_fnr_path(c));
            let url_end = spec_split_url_end(b, lo, raw_end);
            if !spec_fnr_prev_ok(b, ix) || domain_end == lo || !spec_is_correct_domain(
                b.subrange(lo, domain_end),
            ) || url_end <= lo {
                None
            } else {
                Some((url_end, raw_end, is_www))
            }
        },
    }
}

fn find_first_fnr_path_end(bytes: &[u8], lo: usize, hi: usize) -> (r: usize)
    requires
        lo <= hi <= bytes@.len(),
    ensures
        lo <= r <= hi,
        r == find_first(bytes@, lo as int, hi as int, |c: u8| ends_fnr_path(c)),
{
    let mut k = lo;
    while k < hi
        invariant
            lo <= k <= hi <= bytes@.len(),
            find_first(bytes@, k as int, hi as int, |c: u8| ends_fnr_path(c)) == find_first(
                bytes@,
                lo as int,
                hi as int,
                |c: u8| ends_fnr_path(c),
            ),
        decreases hi - k,
    {
        let c = bytes[k];
        if c == ' ' as u8 || c == '\t' as u8 || c == '\r' as u8 || c == '\n' as u8 {
            return k;
        }
        k = k + 1;
    }
    k
}

/// `findUrl` of find-and-replace: the `(https?://|www(?=\.))([-.\w]+)([^ \t\r\n]*)`
/// match at `ix`, checked with `previous`, `isCorrectDomain` and trimmed
/// with `splitUrl`. Returns `(start, url_end, url, raw_end)`; the bytes
/// from `url_end` to `raw_end` are the trimmed trail.
pub fn fnr_find_url(bytes: &[u8], ix: usize) -> (r: Option<(usize, usize, String, usize)>)
    requires
        ix <= bytes@.len(),
        bytes@.len() < i64::MAX,
    ensures
        match spec_fnr_url(bytes@, ix as int) {
            None => r is None,
            Some((url_end, raw_end, is_www)) => {
                if valid_utf8(bytes@.subrange(ix as int, url_end)) {
                    r matches Some((s, e, url, re)) && s == ix && e == url_end && re == raw_end
                        && url@ == (if is_www {
                        "http://"@
                    } else {
                        Seq::<char>::empty()
                    }) + decode_utf8(bytes@.subrange(ix as int, url_end))
                } else {
                    r is None
                }
            },
        },
{
    let http: [u8; 7] = ['h' as u8, 't' as u8, 't' as u8, 'p' as u8, ':' as u8, '/' as u8, '/' as u8];
    let https: [u8; 8] = [
        'h' as u8,
        't' as u8,
        't' as u8,
        'p' as u8,
        's' as u8,
        ':' as u8,
        '/' as u8,
        '/' as u8,
    ];
    let www: [u8; 4] = ['w' as u8, 'w' as u8, 'w' as u8, '.' as u8];
    proof {
        assert(http@ == http_prefix());
        assert(https@ == https_prefix());
        assert(www@ == www_prefix());
    }
    let is_http = starts_with_bytes(bytes, ix, http.as_slice());
    let is_https = !is_http && starts_with_bytes(bytes, ix, https.as_slice());
    let is_www = !is_http && !is_https && starts_with_bytes(bytes, ix, www.as_slice());
    if !is_http && !is_https && !is_www {
        return None;
    }
    let n = bytes.len();
    let proto_len: usize = if is_http {
        7
    } else if is_https {
        8
    } else {
        4
    };
    let s = ix;
    if !fnr_prev_ok(bytes, s) {
        return None;
    }
    let domain_start = s + proto_len;
    let domain_end = find_first_fnr_domain_end(bytes, domain_start, n);
    if domain_end == domain_start {
        return None;
    }
    let raw_end = find_first_fnr_path_end(bytes, domain_end, n);
    let domain = vstd::slice::slice_subrange(bytes, domain_start, domain_end);
    if !is_correct_domain_for_fnr(domain) {
        return None;
    }
    let url_end = split_url_trim_end(bytes, domain_start, raw_end);
    if url_end <= domain_start {
        return None;
    }
    let url_bytes = vstd::slice::slice_subrange(bytes, s, url_end);
    let url_str = match str_from_utf8(url_bytes) {
        Some(u) => u,
        None => {
            return None;
        },
    };
    proof {
        crate::text::lemma_str_decodes(url_str);
        reveal_strlit("http://");
    }
    let full_url = if is_www {
        concat_str("http://", url_str)
    } else {
        str_to_string(url_str)
    };
    Some((s, url_end, full_url, raw_end))
}

/// `findEmail` of find-and-replace: the email around the `@` at `ix`,
/// whose first domain byte must be `[-\w]` and whose start must pass
/// `previous`. Returns `(start, end, "mailto:...", end)`.
pub fn fnr_find_email(bytes: &[u8], ix: usize) -> (r: Option<(usize, usize, String, usize)>)
    requires
        bytes@.len() < i64::MAX,
    ensures
        match spec_email_span(bytes@, ix as int) {
            None => r is None,
            Some((s, e, retry)) => {
                let first = bytes@[ix + 1];
                if (spec_is_alnum(first) || first == 45 || first == 95) && spec_fnr_prev_ok(
                    bytes@,
                    s,
                ) {
                    r matches Some((rs, re, url, rr)) && rs == s && re == e && rr == e && url@
                        == mailto_url(bytes@, s, e)
                } else {
                    r is None
                }
            },
        },
{
    let (s, e, url, _retry) = match scan_email_autolink(bytes, ix) {
        Some(t) => t,
        None => {
            return None;
        },
    };
    if ix + 1 >= bytes.len() {
        return None;
    }
    let first_domain = bytes[ix + 1];
    if !(is_alnum(first_domain) || first_domain == '-' as u8 || first_domain == '_' as u8) {
        return None;
    }
    if !fnr_prev_ok(bytes, s) {
        return None;
    }
    Some((s, e, url, e))
}

// ---------------------------------------------------------------------
// Emails
// ---------------------------------------------------------------------

/// Start of the longest run of local-part characters that ends at `at`.
pub open spec fn local_run_start(b: Seq<u8>, at: int) -> int
    decreases at,
{
    if at > 0 && spec_is_email_local_char(b[at - 1]) {
        local_run_start(b, at - 1)
    } else {
        at
    }
}

/// The find-and-replace retry: the first start in `[s, at)` whose previous
/// byte is neither `/` nor ASCII alphanumeric (or that is 0), else `at`.
pub open spec fn retry_start(b: Seq<u8>, s: int, at: int) -> int
    decreases at - s,
{
    if s >= at {
        at
    } else if s == 0 || (b[s - 1] != 47 && !spec_is_alnum(b[s - 1])) {
        s
    } else {
        retry_start(b, s + 1, at)
    }
}

/// A byte that an email domain may hold: alphanumeric, `.`, `-`, `_`.
pub open spec fn is_email_domain_char(c: u8) -> bool {
    spec_is_alnum(c) || c == 46 || c == 45 || c == 95
}

/// End of the longest run of domain characters that starts at `i`.
pub open spec fn domain_run_end(b: Seq<u8>, i: int) -> int
    decreases b.len() - i,
{
    if 0 <= i < b.len() && is_email_domain_char(b[i]) {
        domain_run_end(b, i + 1)
    } else {
        i
    }
}

/// `end` with trailing dots removed, not below `lo`.
pub open spec fn trim_dots(b: Seq<u8>, lo: int, end: int) -> int
    decreases end - lo,
{
    if end > lo && b[end - 1] == 46 {
        trim_dots(b, lo, end - 1)
    } else {
        end
    }
}

/// The email around the `@` at `at`: `(start, end, retry_needed)`.
pub open spec fn spec_email_span(b: Seq<u8>, at: int) -> Option<(int, int, bool)> {
    if at < 0 || at >= b.len() || b[at] != 64 {
        None
    } else {
        let s0 = local_run_start(b, at);
        let bad = s0 > 0 && b[s0 - 1] == 47;
        let s = if bad {
            retry_start(b, s0, at)
        } else {
            s0
        };
        let e0 = domain_run_end(b, at + 1);
        let e = trim_dots(b, at + 1, e0);
        let d = rfind_from(b, at + 1, e, 46);
        if s0 == at {
            None
        } else if bad && s >= at {
            None
        } else if at + 1 >= b.len() || e0 == at + 1 || e == at + 1 {
            None
        } else if b[e - 1] == 45 || b[e - 1] == 95 || spec_is_digit(b[e - 1]) {
            None
        } else if d < 0 || !(exists|k: int| d + 1 <= k < e && #[trigger] spec_is_alpha(b[k])) {
            None
        } else {
            Some((s, e, bad))
        }
    }
}

proof fn lemma_local_run_start(b: Seq<u8>, at: int)
    requires
        0 <= at <= b.len(),
    ensures
        0 <= local_run_start(b, at) <= at,
        forall|k: int| local_run_start(b, at) <= k < at ==> #[trigger] spec_is_email_local_char(b[k]),
        local_run_start(b, at) > 0 ==> !spec_is_email_local_char(b[local_run_start(b, at) - 1]),
    decreases at,
{
    if at > 0 && spec_is_email_local_char(b[at - 1]) {
        lemma_local_run_start(b, at - 1);
    }
}

proof fn lemma_retry_start(b: Seq<u8>, s: int, at: int)
    requires
        0 <= s <= at,
    ensures
        s <= retry_start(b, s, at) <= at,
    decreases at - s,
{
    if s < at && !(s == 0 || (b[s - 1] != 47 && !spec_is_alnum(b[s - 1]))) {
        lemma_retry_start(b, s + 1, at);
    }
}

proof fn lemma_domain_run_end(b: Seq<u8>, i: int)
    requires
        0 <= i <= b.len(),
    ensures
        i <= domain_run_end(b, i) <= b.len(),
        forall|k: int| i <= k < domain_run_end(b, i) ==> #[trigger] is_email_domain_char(b[k]),
    decreases b.len() - i,
{
    if i < b.len() && is_email_domain_char(b[i]) {
        lemma_domain_run_end(b, i + 1);
    }
}

proof fn lemma_trim_dots(b: Seq<u8>, lo: int, end: int)
    requires
        lo <= end,
    ensures
        lo <= trim_dots(b, lo, end) <= end,
    decreases end - lo,
{
    if end > lo && b[end - 1] == 46 {
        lemma_trim_dots(b, lo, end - 1);
    }
}

/// The `mailto:` URL of the email `b[s..e]`.
pub open spec fn mailto_url(b: Seq<u8>, s: int, e: int) -> Seq<char> {
    "mailto:"@ + decode_utf8(b.subrange(s, e))
}

/// GFM extended email autolink. Given `@` at `at_ix`, walks backward for
/// the local part and forward for the domain. Returns
/// `(start, end, "mailto:...", retry_needed)`: the domain needs a `.`, its
/// last dot-segment needs an ASCII letter, trailing `.` are trimmed, and a
/// domain ending in `-`, `_` or a digit is rejected. `retry_needed` is set
/// when the byte before the longest local part is `/`, so that the start
/// moved forward to the first position whose previous byte is neither `/`
/// nor alphanumeric.
pub fn scan_email_autolink(bytes: &[u8], at_ix: usize) -> (r: Option<(usize, usize, String, bool)>)
    requires
        bytes@.len() < i64::MAX,
    ensures
        match spec_email_span(bytes@, at_ix as int) {
            None => r is None,
            Some((s, e, retry)) => r matches Some((rs, re, url, rr)) && rs == s && re == e && rr
                == retry && url@ == mailto_url(bytes@, s, e),
        },
        r matches Some((s, e, _, _)) ==> s < at_ix && at_ix + 1 < e <= bytes@.len(),
{
    let ghost b = bytes@;
    if at_ix >= bytes.len() || bytes[at_ix] != '@' as u8 {
        return None;
    }
    // Walk backward to the longest local part.
    let mut start = at_ix;
    while start > 0 && is_email_local_char(bytes[start - 1])
        invariant
            0 <= start <= at_ix < bytes@.len(),
            local_run_start(b, start as int) == local_run_start(b, at_ix as int),
            b == bytes@,
        decreases start,
    {
        start = start - 1;
    }
    proof {
        lemma_local_run_start(b, at_ix as int);
    }
    if start == at_ix {
        return None;
    }
    let max_walkback_ok = start == 0 || bytes[start - 1] != '/' as u8;
    let mut retry_needed = !max_walkback_ok;
    if !max_walkback_ok {
        let ghost s0 = start;
        while start < at_ix && !(start == 0 || (bytes[start - 1] != '/' as u8 && !is_alnum(
            bytes[start - 1],
        )))
            invariant
                s0 <= start <= at_ix < bytes@.len(),
                retry_start(b, start as int, at_ix as int) == retry_start(
                    b,
                    s0 as int,
                    at_ix as int,
                ),
                b == bytes@,
            decreases at_ix - start,
        {
            start = start + 1;
        }
        proof {
            lemma_retry_start(b, s0 as int, at_ix as int);
        }
        if start >= at_ix {
            return None;
        }
        retry_needed = true;
    }
    // Forward: the domain.

    if at_ix + 1 >= bytes.len() {
        return None;
    }
    let mut end = at_ix + 1;
    while end < bytes.len() && (is_alnum(bytes[end]) || bytes[end] == '.' as u8 || bytes[end]
        == '-' as u8 || bytes[end] == '_' as u8)
        invariant
            at_ix + 1 <= end <= bytes@.len(),
            domain_run_end(b, end as int) == domain_run_end(b, at_ix + 1),
            b == bytes@,
        decreases bytes@.len() - end,
    {
        end = end + 1;
    }
    proof {
        lemma_domain_run_end(b, at_ix + 1);
    }
    if end == at_ix + 1 {
        return None;
    }
    let ghost e0 = end;
    // Trim trailing `.`.
    while end > at_ix + 1 && bytes[end - 1] == '.' as u8
        invariant
            at_ix + 1 <= end <= e0 <= bytes@.len(),
            trim_dots(b, at_ix + 1, end as int) == trim_dots(b, at_ix + 1, e0 as int),
            b == bytes@,
        decreases end,
    {
        end = end - 1;
    }
    proof {
        lemma_trim_dots(b, at_ix + 1, e0 as int);
    }
    if end == at_ix + 1 {
        return None;
    }
    let last = bytes[end - 1];
    if last == '-' as u8 || last == '_' as u8 || is_digit(last) {
        return None;
    }
    // The domain needs a `.`; its last segment needs an ASCII letter.
    let last_dot = rfind_byte(bytes, at_ix + 1, end, '.' as u8);
    proof {
        lemma_rfind_bounds(b, at_ix + 1, end as int, 46);
    }
    if last_dot < 0 {
        return None;
    }
    let mut k = (last_dot + 1) as usize;
    let mut has_letter = false;
    while k < end
        invariant
            last_dot + 1 <= k <= end <= bytes@.len(),
            has_letter == exists|j: int| last_dot + 1 <= j < k && #[trigger] spec_is_alpha(b[j]),
            b == bytes@,
        decreases end - k,
    {
        if is_alpha(bytes[k]) {
            has_letter = true;
        }
        k = k + 1;
    }
    if !has_letter {
        return None;
    }
    let email = vstd::slice::slice_subrange(bytes, start, end);
    proof {
        assert forall|i: int| 0 <= i < email@.len() implies #[trigger] email@[i] < 128 by {
            let j = start + i;
            if j < at_ix {
                assert(spec_is_email_local_char(b[j]));
            } else if j > at_ix {
                assert(is_email_domain_char(b[j]));
            }
        }
        lemma_ascii_valid_utf8(email@);
    }
    let email_str = match str_from_utf8(email) {
        Some(s) => s,
        None => {
            return None;
        },
    };
    proof {
        reveal_strlit("mailto:");
        crate::text::lemma_str_decodes(email_str);
    }
    let url = concat_str("mailto:", email_str);
    Some((start, end, url, retry_needed))
}

// ---------------------------------------------------------------------
// Laws of literal autolinks
// ---------------------------------------------------------------------

/// Trimming never takes off a `)` that closes a balanced pair: when the
/// text from `ix` to `end` ends in `)` and holds no more `)` than `(`, the
/// trim keeps `end`.
pub proof fn lemma_trim_keeps_balanced_paren(b: Seq<u8>, ix: int, lo: int, end: int)
    requires
        ix <= lo < end <= b.len(),
        b[end - 1] == 41,
        count_byte(b.subrange(ix, end), 41) <= count_byte(b.subrange(ix, end), 40),
    ensures
        construct_trim(b, ix, lo, end) == end,
{
}

/// A literal autolink whose body ends in a `)` that closes a balanced pair
/// keeps that `)`: the link ends where its body does.
pub proof fn lemma_autolink_keeps_balanced_paren(b: Seq<u8>, ix: int, raw_end: int, end: int, is_www: bool)
    requires
        0 <= ix <= b.len(),
        spec_autolink(b, ix) == Some((raw_end, end, is_www, false)),
        0 < raw_end <= b.len(),
        b[raw_end - 1] == 41,
        count_byte(b.subrange(ix, raw_end), 41) <= count_byte(b.subrange(ix, raw_end), 40),
    ensures
        end == raw_end,
{
    let (plen, w) = url_scheme(b, ix).unwrap();
    let lo = ix + plen;
    lemma_url_body_end(b, lo);
    lemma_trim_keeps_balanced_paren(b, ix, lo, raw_end);
}

/// The local part of an email reaches back over every ASCII letter, digit,
/// `.`, `+`, `-` and `_` before the `@`, and no further: when no retry was
/// needed, each byte from its start to the `@` is one of these, and the
/// byte before its start is not.
pub proof fn lemma_email_local_part_maximal(b: Seq<u8>, at: int, s: int, e: int)
    requires
        spec_email_span(b, at) == Some((s, e, false)),
    ensures
        0 <= s < at,
        forall|k: int|
            s <= k < at ==> {
                let c = #[trigger] b[k];
                (48 <= c <= 57) || (65 <= c <= 90) || (97 <= c <= 122) || c == 46 || c == 43 || c
                    == 45 || c == 95
            },
        s > 0 ==> {
            let c = b[s - 1];
            !((48 <= c <= 57) || (65 <= c <= 90) || (97 <= c <= 122) || c == 46 || c == 43 || c
                == 45 || c == 95)
        },
{
    lemma_local_run_start(b, at);
    let s0 = local_run_start(b, at);
    assert(s == s0);
    assert forall|k: int| s <= k < at implies {
        let c = #[trigger] b[k];
        (48 <= c <= 57) || (65 <= c <= 90) || (97 <= c <= 122) || c == 46 || c == 43 || c == 45
            || c == 95
    } by {
        assert(spec_is_email_local_char(b[k]));
    }
    if s > 0 {
        assert(!spec_is_email_local_char(b[s - 1]));
    }
}

/// Trailing punctuation leaves a literal autolink: a body that ends in one
/// of ``!"'*,.:;<?]_~``, or in a `)` with more `)` than `(` before it,
/// gets shorter; one that ends in an ASCII letter, digit or `/` keeps its
/// end.
pub proof fn lemma_trim_trailing_punctuation(b: Seq<u8>, ix: int, lo: int, end: int)
    requires
        ix <= lo < end <= b.len(),
    ensures
        ({
            let c = b[end - 1];
            c == 33 || c == 34 || c == 39 || c == 42 || c == 44 || c == 46 || c == 58 || c == 59
                || c == 60 || c == 63 || c == 93 || c == 95 || c == 126
        }) ==> construct_trim(b, ix, lo, end) < end,
        b[end - 1] == 41 && count_byte(b.subrange(ix, end), 41) > count_byte(
            b.subrange(ix, end),
            40,
        ) ==> construct_trim(b, ix, lo, end) < end,
        ({
            let c = b[end - 1];
            (48 <= c <= 57) || (65 <= c <= 90) || (97 <= c <= 122) || c == 47
        }) ==> construct_trim(b, ix, lo, end) == end,
{
    lemma_entity_amp(b, ix, end - 2);
    if b[end - 1] == 59 && ix < entity_amp(b, ix, end - 2) < end {
        lemma_construct_trim(b, ix, lo, entity_amp(b, ix, end - 2));
    } else {
        lemma_construct_trim(b, ix, lo, end - 1);
    }
}

proof fn lemma_rfind_from(b: Seq<u8>, lo: int, hi: int, c: u8)
    ensures
        rfind_from(b, lo, hi, c) == -1 || (lo <= rfind_from(b, lo, hi, c) < hi && b[rfind_from(
            b,
            lo,
            hi,
            c,
        )] == c),
    decreases hi - lo,
{
    if hi > lo && b[hi - 1] != c {
        lemma_rfind_from(b, lo, hi - 1, c);
    }
}

/// An email autolink ends in an ASCII letter, holds only letters, digits,
/// `.`, `-` and `_` between the `@` and its end, and has a `.` there.
pub proof fn lemma_email_domain_shape(b: Seq<u8>, at: int, s: int, e: int, retry: bool)
    requires
        spec_email_span(b, at) == Some((s, e, retry)),
    ensures
        b[at] == 64,
        at + 1 < e <= b.len(),
        ({
            let c = b[e - 1];
            (65 <= c <= 90) || (97 <= c <= 122)
        }),
        forall|k: int|
            at < k < e ==> {
                let c = #[trigger] b[k];
                (48 <= c <= 57) || (65 <= c <= 90) || (97 <= c <= 122) || c == 46 || c == 45 || c
                    == 95
            },
        exists|k: int| at < k < e && b[k] == 46,
{
    lemma_domain_run_end(b, at + 1);
    let e0 = domain_run_end(b, at + 1);
    lemma_trim_dots(b, at + 1, e0);
    assert forall|k: int| at < k < e implies {
        let c = #[trigger] b[k];
        (48 <= c <= 57) || (65 <= c <= 90) || (97 <= c <= 122) || c == 46 || c == 45 || c == 95
    } by {
        assert(is_email_domain_char(b[k]));
    }
    let d = rfind_from(b, at + 1, e, 46);
    lemma_rfind_from(b, at + 1, e, 46);
    assert(at < d < e && b[d] == 46);
}

proof fn lemma_entity_amp_at(b: Seq<u8>, ix: int, p: int, j: int)
    requires
        ix < p <= j < b.len(),
        b[p] == 38,
        forall|k: int| p < k <= j ==> spec_is_alnum(b[k]),
    ensures
        entity_amp(b, ix, j) == p,
    decreases j - p,
{
    if j > p {
        lemma_entity_amp_at(b, ix, p, j - 1);
    }
}

/// An entity-like tail `&name;` (ASCII letters and digits between `&` and
/// `;`) is left out of a literal autolink as a whole: the trimmed end is at
/// or before the `&`.
pub proof fn lemma_trim_drops_entity_tail(b: Seq<u8>, ix: int, lo: int, end: int, p: int)
    requires
        ix <= lo < end <= b.len(),
        ix < p < end - 1,
        b[p] == 38,
        b[end - 1] == 59,
        forall|k: int|
            p < k < end - 1 ==> {
                let c = #[trigger] b[k];
                (48 <= c <= 57) || (65 <= c <= 90) || (97 <= c <= 122)
            },
    ensures
        construct_trim(b, ix, lo, end) <= p,
{
    assert forall|k: int| p < k <= end - 2 implies spec_is_alnum(b[k]) by {
        assert(p < k < end - 1);
    }
    lemma_entity_amp_at(b, ix, p, end - 2);
    lemma_construct_trim(b, ix, lo, p);
}

} // verus!
