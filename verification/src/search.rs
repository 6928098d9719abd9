//! Byte searches, done by the `memchr` crate.

use vstd::prelude::*;

verus! {

/// `memchr::memchr`: the index of the first occurrence of `needle`.
#[verifier::external_body]
pub fn find_byte(needle: u8, haystack: &[u8]) -> (r: Option<usize>)
    ensures
        r matches Some(i) ==> i < haystack@.len() && haystack@[i as int] == needle && forall|j: int|
            0 <= j < i ==> haystack@[j] != needle,
        r is None ==> forall|j: int| 0 <= j < haystack@.len() ==> haystack@[j] != needle,
{
    memchr::memchr(needle, haystack)
}

/// `memchr::memchr2`: the index of the first byte that is `n1` or `n2`.
#[verifier::external_body]
pub fn find_either(n1: u8, n2: u8, haystack: &[u8]) -> (r: Option<usize>)
    ensures
        r matches Some(i) ==> i < haystack@.len() && (haystack@[i as int] == n1 || haystack@[i as int]
            == n2) && forall|j: int| 0 <= j < i ==> haystack@[j] != n1 && haystack@[j] != n2,
        r is None ==> forall|j: int|
            0 <= j < haystack@.len() ==> haystack@[j] != n1 && haystack@[j] != n2,
{
    memchr::memchr2(n1, n2, haystack)
}

/// `memchr::memrchr2`: the index of the last byte that is `n1` or `n2`.
#[verifier::external_body]
pub fn rfind_either(n1: u8, n2: u8, haystack: &[u8]) -> (r: Option<usize>)
    ensures
        r matches Some(i) ==> i < haystack@.len() && (haystack@[i as int] == n1 || haystack@[i as int]
            == n2) && forall|j: int|
            i < j < haystack@.len() ==> haystack@[j] != n1 && haystack@[j] != n2,
        r is None ==> forall|j: int|
            0 <= j < haystack@.len() ==> haystack@[j] != n1 && haystack@[j] != n2,
{
    memchr::memrchr2(n1, n2, haystack)
}

} // verus!
