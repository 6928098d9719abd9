//! Type-data encoding of a `StringRef`: its offset, then its length, each
//! as four little-endian bytes.

use vstd::prelude::*;
use crate::arena::StringRef;

verus! {

/// The four little-endian bytes of `x`.
pub open spec fn u32_le_bytes(x: u32) -> Seq<u8> {
    seq![(x & 0xff) as u8, ((x >> 8u32) & 0xff) as u8, ((x >> 16u32) & 0xff) as u8, (x >> 24u32) as u8]
}

/// The `u32` whose little-endian bytes start at `b[i]`.
pub open spec fn le_u32_at(b: Seq<u8>, i: int) -> u32 {
    (b[i] as u32) | ((b[i + 1] as u32) << 8u32) | ((b[i + 2] as u32) << 16u32) | ((b[i + 3] as u32)
        << 24u32)
}

/// The encoding of a `StringRef`.
pub open spec fn string_ref_bytes(sr: StringRef) -> Seq<u8> {
    u32_le_bytes(sr.offset) + u32_le_bytes(sr.len)
}

fn push_u32_le(out: &mut Vec<u8>, x: u32)
    ensures
        final(out)@ == old(out)@ + u32_le_bytes(x),
{
    out.push((x & 0xff) as u8);
    out.push(((x >> 8u32) & 0xff) as u8);
    out.push(((x >> 16u32) & 0xff) as u8);
    out.push((x >> 24u32) as u8);
    assert(final(out)@ =~= old(out)@ + u32_le_bytes(x));
}

fn read_u32_le(bytes: &[u8], i: usize) -> (x: u32)
    requires
        i + 4 <= bytes@.len(),
    ensures
        x == le_u32_at(bytes@, i as int),
{
    (bytes[i] as u32) | ((bytes[i + 1] as u32) << 8u32) | ((bytes[i + 2] as u32) << 16u32) | ((
    bytes[i + 3] as u32) << 24u32)
}

pub fn encode_string_ref_data(sr: StringRef) -> (v: Vec<u8>)
    ensures
        v@ == string_ref_bytes(sr),
{
    let mut out: Vec<u8> = Vec::with_capacity(8);
    push_u32_le(&mut out, sr.offset);
    push_u32_le(&mut out, sr.len);
    assert(out@ =~= string_ref_bytes(sr));
    out
}

/// Reads a `StringRef` back from the first eight bytes of `bytes`.
pub fn decode_string_ref_data(bytes: &[u8]) -> (sr: StringRef)
    requires
        bytes@.len() >= 8,
    ensures
        sr.offset == le_u32_at(bytes@, 0),
        sr.len == le_u32_at(bytes@, 4),
{
    StringRef { offset: read_u32_le(bytes, 0), len: read_u32_le(bytes, 4) }
}

proof fn lemma_u32_le_roundtrip(x: u32)
    ensures
        le_u32_at(u32_le_bytes(x), 0) == x,
{
    let b = u32_le_bytes(x);
    let b0 = (x & 0xff) as u8;
    let b1 = ((x >> 8u32) & 0xff) as u8;
    let b2 = ((x >> 16u32) & 0xff) as u8;
    let b3 = (x >> 24u32) as u8;
    assert(b[0] == b0 && b[1] == b1 && b[2] == b2 && b[3] == b3);
    assert((b0 as u32) | ((b1 as u32) << 8u32) | ((b2 as u32) << 16u32) | ((b3 as u32) << 24u32)
        == x) by (bit_vector)
        requires
            b0 == (x & 0xff) as u8,
            b1 == ((x >> 8u32) & 0xff) as u8,
            b2 == ((x >> 16u32) & 0xff) as u8,
            b3 == (x >> 24u32) as u8,
    ;
}

proof fn lemma_le_u32_bytes_roundtrip(b: Seq<u8>, i: int)
    requires
        0 <= i,
        i + 4 <= b.len(),
    ensures
        u32_le_bytes(le_u32_at(b, i)) == b.subrange(i, i + 4),
{
    let b0 = b[i];
    let b1 = b[i + 1];
    let b2 = b[i + 2];
    let b3 = b[i + 3];
    let x = le_u32_at(b, i);
    assert(x == (b0 as u32) | ((b1 as u32) << 8u32) | ((b2 as u32) << 16u32) | ((b3 as u32)
        << 24u32));
    assert((x & 0xff) as u8 == b0 && ((x >> 8u32) & 0xff) as u8 == b1 && ((x >> 16u32) & 0xff) as u8
        == b2 && (x >> 24u32) as u8 == b3) by (bit_vector)
        requires
            x == (b0 as u32) | ((b1 as u32) << 8u32) | ((b2 as u32) << 16u32) | ((b3 as u32)
                << 24u32),
    ;
    assert(u32_le_bytes(x) =~= b.subrange(i, i + 4));
}

/// Decoding what was encoded gives back the same reference.
pub proof fn lemma_string_ref_decode_encode(sr: StringRef)
    ensures
        le_u32_at(string_ref_bytes(sr), 0) == sr.offset,
        le_u32_at(string_ref_bytes(sr), 4) == sr.len,
{
    let e = string_ref_bytes(sr);
    lemma_u32_le_roundtrip(sr.offset);
    lemma_u32_le_roundtrip(sr.len);
    assert(e.subrange(4, 8) =~= u32_le_bytes(sr.len));
    assert(le_u32_at(e, 4) == le_u32_at(e.subrange(4, 8), 0));
    assert(le_u32_at(e, 0) == le_u32_at(u32_le_bytes(sr.offset), 0));
}

/// Encoding a decoded reference gives back the eight bytes it was read from.
pub proof fn lemma_string_ref_encode_decode(b: Seq<u8>)
    requires
        b.len() >= 8,
    ensures
        string_ref_bytes(StringRef { offset: le_u32_at(b, 0), len: le_u32_at(b, 4) })
            == b.subrange(0, 8),
{
    lemma_le_u32_bytes_roundtrip(b, 0);
    lemma_le_u32_bytes_roundtrip(b, 4);
    assert(b.subrange(0, 4) + b.subrange(4, 8) =~= b.subrange(0, 8));
}

} // verus!
