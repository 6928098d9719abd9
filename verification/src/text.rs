//! Strings: conversions from bytes and the string and character operations
//! that the library uses. Those written here are verified; those that stay
//! calls into std (UTF-8 checks, Unicode case mapping and tables, trimming,
//! `String::push`/`pop`) carry what std's documentation promises.

use vstd::prelude::*;
use vstd::string::*;
use vstd::utf8::*;

verus! {

/// Every byte is ASCII.
pub open spec fn all_ascii(s: Seq<u8>) -> bool {
    forall|i: int| 0 <= i < s.len() ==> #[trigger] s[i] < 128
}

/// `std::str::from_utf8`: `Ok` exactly when the bytes are valid UTF-8, and
/// then the `str` has exactly those bytes.
#[verifier::external_body]
pub fn str_from_utf8(bytes: &[u8]) -> (r: Option<&str>)
    ensures
        r is Some <==> valid_utf8(bytes@),
        r matches Some(s) ==> s.spec_bytes() == bytes@,
{
    std::str::from_utf8(bytes).ok()
}

/// The characters of `a`, then those of `b`.
pub fn concat_str(a: &str, b: &str) -> (r: String)
    ensures
        r@ == a@ + b@,
{
    let mut r = String::from_str(a);
    r.append(b);
    r
}

/// A `String` with the characters of `s`.
pub fn str_to_string(s: &str) -> (r: String)
    ensures
        r@ == s@,
{
    s.to_owned()
}

/// The last character of `s`.
pub fn str_last_char(s: &str) -> (r: Option<char>)
    ensures
        r == (if s@.len() > 0 {
            Some(s@.last())
        } else {
            None
        }),
{
    let mut last: Option<char> = None;
    for c in it: s.chars()
        invariant
            it.seq() == s@,
            last == (if it.index() > 0 {
                Some(s@[it.index() - 1])
            } else {
                None
            }),
    {
        last = Some(c);
    }
    last
}

/// The first character of `s`.
pub fn str_first_char(s: &str) -> (r: Option<char>)
    ensures
        r == (if s@.len() > 0 {
            Some(s@[0])
        } else {
            None
        }),
{
    let mut it = s.chars();
    it.next()
}

/// What `char::is_whitespace` answers: the Unicode `White_Space` property,
/// U+0009 to U+000D, U+0020, U+0085, U+00A0, U+1680, U+2000 to U+200A,
/// U+2028, U+2029, U+202F, U+205F and U+3000.
pub open spec fn char_is_whitespace(c: char) -> bool {
    let v = c as u32;
    ||| 0x9 <= v <= 0xD
    ||| v == 0x20
    ||| v == 0x85
    ||| v == 0xA0
    ||| v == 0x1680
    ||| 0x2000 <= v <= 0x200A
    ||| v == 0x2028
    ||| v == 0x2029
    ||| v == 0x202F
    ||| v == 0x205F
    ||| v == 0x3000
}

/// What `char::is_alphanumeric` answers: the Unicode `Alphabetic` or
/// `Numeric` property.
pub uninterp spec fn char_is_alphanumeric(c: char) -> bool;

/// Whether `c` is Unicode whitespace.
pub fn is_whitespace_char(c: char) -> (r: bool)
    ensures
        r == char_is_whitespace(c),
{
    let v = c as u32;
    (0x9 <= v && v <= 0xD) || v == 0x20 || v == 0x85 || v == 0xA0 || v == 0x1680 || (0x2000 <= v
        && v <= 0x200A) || v == 0x2028 || v == 0x2029 || v == 0x202F || v == 0x205F || v == 0x3000
}

/// `char::is_alphanumeric`.
#[verifier::external_body]
pub fn is_alphanumeric_char(c: char) -> (r: bool)
    ensures
        r == char_is_alphanumeric(c),
{
    c.is_alphanumeric()
}

/// `String::push`: the character goes on the end.
#[verifier::external_body]
pub fn push_char(s: &mut String, c: char)
    ensures
        final(s)@ == old(s)@.push(c),
{
    s.push(c);
}

/// `needle` occurs in `hay` as a run of bytes.
pub open spec fn contains_bytes(hay: Seq<u8>, needle: Seq<u8>) -> bool {
    exists|i: int|
        0 <= i && i + needle.len() <= hay.len() && #[trigger] hay.subrange(i, i + needle.len())
            == needle
}

/// Whether `h[at..at + n.len()]` is `n`.
fn window_matches(h: &[u8], n: &[u8], at: usize) -> (r: bool)
    requires
        at + n@.len() <= h@.len(),
    ensures
        r == (h@.subrange(at as int, at + n@.len()) == n@),
{
    let hl = h.len();
    let mut k: usize = 0;
    while k < n.len()
        invariant
            at + n@.len() <= h@.len(),
            k <= n@.len(),
            hl == h@.len(),
            forall|j: int| 0 <= j < k ==> h@[at + j] == n@[j],
        decreases n@.len() - k,
    {
        if h[at + k] != n[k] {
            proof {
                assert(h@.subrange(at as int, at + n@.len())[k as int] != n@[k as int]);
            }
            return false;
        }
        k += 1;
    }
    proof {
        assert(h@.subrange(at as int, at + n@.len()) =~= n@);
    }
    true
}

/// Whether `needle` occurs in `hay` (an empty needle always does).
pub fn str_contains(hay: &str, needle: &str) -> (r: bool)
    ensures
        r == contains_bytes(hay.spec_bytes(), needle.spec_bytes()),
{
    let h = hay.as_bytes();
    let n = needle.as_bytes();
    if n.len() > h.len() {
        return false;
    }
    let last = h.len() - n.len();
    let mut i: usize = 0;
    loop
        invariant
            h@ == hay.spec_bytes(),
            n@ == needle.spec_bytes(),
            last + n@.len() == h@.len(),
            i <= last,
            forall|j: int| 0 <= j < i ==> #[trigger] h@.subrange(j, j + n@.len()) != n@,
        decreases last - i,
    {
        if window_matches(h, n, i) {
            return true;
        }
        if i == last {
            return false;
        }
        i += 1;
    }
}

/// `String::pop`: the last character taken off, `None` on an empty string.
#[verifier::external_body]
pub fn pop_char(s: &mut String) -> (r: Option<char>)
    ensures
        old(s)@.len() == 0 ==> r is None && final(s)@ == old(s)@,
        old(s)@.len() > 0 ==> r == Some(old(s)@.last()) && final(s)@ == old(s)@.drop_last(),
{
    s.pop()
}

/// The number of whitespace characters (`char::is_whitespace`) at the start.
pub open spec fn leading_ws(cs: Seq<char>) -> nat
    decreases cs.len(),
{
    if cs.len() > 0 && char_is_whitespace(cs[0]) {
        1 + leading_ws(cs.drop_first())
    } else {
        0
    }
}

pub proof fn lemma_leading_ws(cs: Seq<char>)
    ensures
        leading_ws(cs) <= cs.len(),
    decreases cs.len(),
{
    if cs.len() > 0 && char_is_whitespace(cs[0]) {
        lemma_leading_ws(cs.drop_first());
    }
}

/// The number of whitespace characters at the end.
pub open spec fn trailing_ws(cs: Seq<char>) -> nat
    decreases cs.len(),
{
    if cs.len() > 0 && char_is_whitespace(cs.last()) {
        1 + trailing_ws(cs.drop_last())
    } else {
        0
    }
}

/// The characters with leading and trailing whitespace removed.
pub open spec fn trim_chars(cs: Seq<char>) -> Seq<char> {
    if leading_ws(cs) >= cs.len() {
        Seq::empty()
    } else {
        cs.subrange(leading_ws(cs) as int, cs.len() - trailing_ws(cs))
    }
}

/// `str::trim`: leading and trailing whitespace removed, whitespace being
/// what `char::is_whitespace` accepts (the Unicode `White_Space` property).
/// The result is a slice of `s`, so no longer than it.
#[verifier::external_body]
pub fn str_trim(s: &str) -> (r: &str)
    ensures
        r@ == trim_chars(s@),
        r.spec_bytes().len() <= s.spec_bytes().len(),
{
    s.trim()
}

/// `str::trim_start`: leading whitespace removed. The result is a slice of
/// `s`, so no longer than it.
#[verifier::external_body]
pub fn str_trim_start(s: &str) -> (r: &str)
    ensures
        r@ == s@.subrange(leading_ws(s@) as int, s@.len() as int),
        r.spec_bytes().len() <= s.spec_bytes().len(),
{
    s.trim_start()
}

/// What `str::to_lowercase` makes of a string (Unicode `Lowercase_Mapping`).
pub uninterp spec fn lowercase_chars(s: Seq<char>) -> Seq<char>;

/// What `str::to_uppercase` makes of a string (Unicode `Uppercase_Mapping`).
pub uninterp spec fn uppercase_chars(s: Seq<char>) -> Seq<char>;

/// `str::to_lowercase`.
#[verifier::external_body]
pub fn str_to_lowercase(s: &str) -> (r: String)
    ensures
        r@ == lowercase_chars(s@),
{
    s.to_lowercase()
}

/// `str::to_uppercase`.
#[verifier::external_body]
pub fn str_to_uppercase(s: &str) -> (r: String)
    ensures
        r@ == uppercase_chars(s@),
{
    s.to_uppercase()
}

/// ASCII bytes are valid UTF-8.
pub proof fn lemma_ascii_valid_utf8(s: Seq<u8>)
    requires
        all_ascii(s),
    ensures
        valid_utf8(s),
{
    assert(s.subrange(0, 0) =~= Seq::<u8>::empty());
    assert(valid_utf8(Seq::<u8>::empty()));
    assert forall|i: int| 0 <= 0 <= i < s.len() <= s.len() implies #[trigger] is_leading_byte_width_1(
        s[i],
    ) by {}
    partial_valid_utf8_extend_ascii_block(s, 0, s.len() as int);
    assert(s.subrange(0, s.len() as int) =~= s);
}

/// The characters that a `str`'s bytes decode to are the `str` itself.
pub proof fn lemma_str_decodes(s: &str)
    ensures
        valid_utf8(s.spec_bytes()),
        decode_utf8(s.spec_bytes()) == s@,
{
    encode_utf8_valid_utf8(s@);
    encode_utf8_decode_utf8(s@);
}

} // verus!
