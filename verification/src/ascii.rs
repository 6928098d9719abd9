//! ASCII byte classes used by the scanners.

use vstd::prelude::*;

verus! {

pub open spec fn spec_is_digit(b: u8) -> bool {
    48 <= b <= 57
}

pub open spec fn spec_is_alpha(b: u8) -> bool {
    (65 <= b <= 90) || (97 <= b <= 122)
}

pub open spec fn spec_is_alnum(b: u8) -> bool {
    spec_is_digit(b) || spec_is_alpha(b)
}

/// Space, tab, line feed, form feed, carriage return.
pub open spec fn spec_is_ws(b: u8) -> bool {
    b == 32 || b == 9 || b == 10 || b == 12 || b == 13
}

/// ASCII punctuation: ``!"#$%&'()*+,-./:;<=>?@[\]^_`{|}~``.
pub open spec fn spec_is_punct(b: u8) -> bool {
    (33 <= b <= 47) || (58 <= b <= 64) || (91 <= b <= 96) || (123 <= b <= 126)
}

/// Line feed or carriage return.
pub open spec fn spec_is_eol(b: u8) -> bool {
    b == 10 || b == 13
}

/// Space or tab.
pub open spec fn spec_is_blank(b: u8) -> bool {
    b == 32 || b == 9
}

pub fn is_digit(b: u8) -> (r: bool)
    ensures
        r == spec_is_digit(b),
{
    b >= '0' as u8 && b <= '9' as u8
}

pub fn is_alpha(b: u8) -> (r: bool)
    ensures
        r == spec_is_alpha(b),
{
    (b >= 'A' as u8 && b <= 'Z' as u8) || (b >= 'a' as u8 && b <= 'z' as u8)
}

pub fn is_alnum(b: u8) -> (r: bool)
    ensures
        r == spec_is_alnum(b),
{
    is_digit(b) || is_alpha(b)
}

pub fn is_ws(b: u8) -> (r: bool)
    ensures
        r == spec_is_ws(b),
{
    b == ' ' as u8 || b == '\t' as u8 || b == '\n' as u8 || b == 12u8 || b == '\r' as u8
}

pub fn is_punct(b: u8) -> (r: bool)
    ensures
        r == spec_is_punct(b),
{
    (b >= 33 && b <= 47) || (b >= 58 && b <= 64) || (b >= 91 && b <= 96) || (b >= 123 && b <= 126)
}

pub fn is_eol(b: u8) -> (r: bool)
    ensures
        r == spec_is_eol(b),
{
    b == '\n' as u8 || b == '\r' as u8
}

pub fn is_blank(b: u8) -> (r: bool)
    ensures
        r == spec_is_blank(b),
{
    b == ' ' as u8 || b == '\t' as u8
}

/// Number of occurrences of `c` in `s`.
pub open spec fn count_byte(s: Seq<u8>, c: u8) -> nat
    decreases s.len(),
{
    if s.len() == 0 {
        0
    } else {
        count_byte(s.drop_last(), c) + if s.last() == c {
            1nat
        } else {
            0nat
        }
    }
}

pub proof fn lemma_count_byte_push(s: Seq<u8>, x: u8, c: u8)
    ensures
        count_byte(s.push(x), c) == count_byte(s, c) + if x == c {
            1nat
        } else {
            0nat
        },
{
    assert(s.push(x).drop_last() =~= s);
}

/// `count_byte` of a prefix, extended by one element.
pub proof fn lemma_count_byte_prefix_step(s: Seq<u8>, i: int, c: u8)
    requires
        0 <= i < s.len(),
    ensures
        count_byte(s.subrange(0, i + 1), c) == count_byte(s.subrange(0, i), c) + if s[i] == c {
            1nat
        } else {
            0nat
        },
{
    assert(s.subrange(0, i + 1) =~= s.subrange(0, i).push(s[i]));
    lemma_count_byte_push(s.subrange(0, i), s[i], c);
}

/// Counts `c` in `s[lo..hi]`.
pub fn count_in(s: &[u8], lo: usize, hi: usize, c: u8) -> (n: usize)
    requires
        lo <= hi <= s@.len(),
    ensures
        n == count_byte(s@.subrange(lo as int, hi as int), c),
{
    let mut n: usize = 0;
    let mut i = lo;
    while i < hi
        invariant
            lo <= i <= hi <= s@.len(),
            n == count_byte(s@.subrange(lo as int, i as int), c),
            n <= i - lo,
        decreases hi - i,
    {
        proof {
            let t = s@.subrange(lo as int, hi as int);
            assert(s@.subrange(lo as int, i as int) =~= t.subrange(0, i - lo));
            assert(s@.subrange(lo as int, i + 1) =~= t.subrange(0, i - lo + 1));
            lemma_count_byte_prefix_step(t, i - lo, c);
        }
        if s[i] == c {
            n = n + 1;
        }
        i = i + 1;
    }
    n
}

/// `s` has `c` somewhere in `[lo, hi)`.
pub open spec fn has_byte(s: Seq<u8>, lo: int, hi: int, c: u8) -> bool {
    exists|i: int| lo <= i < hi && s[i] == c
}

} // verus!
