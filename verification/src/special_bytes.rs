//! The bytes that inline parsing must stop at, as a 256-entry table and as
//! the nibble-indexed bitmap that a 16-byte-lane scan uses, and the walk that
//! visits them.

use vstd::prelude::*;
use crate::options::Options;

verus! {

/// Bytes that are always special: `\n \r * _ & \ [ ] < ! `` `.
pub open spec fn is_standard_special(b: u8) -> bool {
    b == 10 || b == 13 || b == 42 || b == 95 || b == 38 || b == 92 || b == 91 || b == 93 || b
        == 60 || b == 33 || b == 96
}

/// The bytes that the bitmap covers: the standard ones and those that the
/// table, strikethrough/subscript, superscript, math and smart punctuation
/// options add.
pub open spec fn is_lane_special(o: Options, b: u8) -> bool {
    ||| is_standard_special(b)
    ||| o.spec_contains(Options::ENABLE_TABLES) && b == 124
    ||| (o.spec_contains(Options::ENABLE_STRIKETHROUGH) || o.spec_contains(
        Options::ENABLE_SUBSCRIPT,
    )) && b == 126
    ||| o.spec_contains(Options::ENABLE_SUPERSCRIPT) && b == 94
    ||| o.spec_has_math() && (b == 36 || b == 123 || b == 125)
    ||| o.spec_has_smart_ellipses() && b == 46
    ||| o.spec_has_smart_dashes() && b == 45
    ||| o.spec_has_smart_quotes() && (b == 34 || b == 39)
}

/// The bytes that the table covers: those of the bitmap, plus `{ }` for MDX,
/// `:` for directives, and `h H w W @` for GFM literal autolinks.
pub open spec fn is_special_byte(o: Options, b: u8) -> bool {
    ||| is_lane_special(o, b)
    ||| o.spec_contains(Options::ENABLE_MDX) && (b == 123 || b == 125)
    ||| o.spec_contains(Options::ENABLE_DIRECTIVE) && b == 58
    ||| o.spec_contains(Options::ENABLE_GFM) && (b == 104 || b == 72 || b == 119 || b == 87 || b
        == 64)
}

/// Byte `b` is marked in the bitmap: bit `b >> 4` of entry `b & 0x0f`.
pub open spec fn lookup_has(lookup: [u8; 16], b: u8) -> bool {
    b < 128 && (lookup[(b & 15u8) as int] >> (b >> 4u8)) & 1u8 == 1u8
}

/// Both representations the scanner uses.
pub struct LookupTable {
    pub simd: [u8; 16],
    pub scalar: [bool; 256],
}

pub enum LoopInstruction<T> {
    /// Continue looking for more special bytes, but skip next few bytes.
    ContinueAndSkip(usize),
    /// Break looping immediately, returning with the given index and value.
    BreakAtWith(usize, T),
}

fn mark(table: &mut [bool; 256], b: u8)
    ensures
        final(table)@ == old(table)@.update(b as int, true),
{
    table[b as usize] = true;
}

pub fn special_bytes(options: &Options) -> (t: [bool; 256])
    ensures
        forall|b: u8| #[trigger] t@[b as int] == is_special_byte(*options, b),
{
    let mut bytes = [false;256];
    // The standard bytes: `\n \r * _ & \ [ ] < ! ``.
    mark(&mut bytes, '\n' as u8);
    mark(&mut bytes, '\r' as u8);
    mark(&mut bytes, '*' as u8);
    mark(&mut bytes, '_' as u8);
    mark(&mut bytes, '&' as u8);
    mark(&mut bytes, '\\' as u8);
    mark(&mut bytes, '[' as u8);
    mark(&mut bytes, ']' as u8);
    mark(&mut bytes, '<' as u8);
    mark(&mut bytes, '!' as u8);
    mark(&mut bytes, '`' as u8);
    if options.contains(Options::ENABLE_TABLES) {
        mark(&mut bytes, '|' as u8);
    }
    if options.contains(Options::ENABLE_STRIKETHROUGH) || options.contains(
        Options::ENABLE_SUBSCRIPT,
    ) {
        mark(&mut bytes, '~' as u8);
    }
    if options.contains(Options::ENABLE_SUPERSCRIPT) {
        mark(&mut bytes, '^' as u8);
    }
    if options.has_math() {
        mark(&mut bytes, '$' as u8);
        mark(&mut bytes, '{' as u8);
        mark(&mut bytes, '}' as u8);
    }
    if options.contains(Options::ENABLE_MDX) {
        mark(&mut bytes, '{' as u8);
        mark(&mut bytes, '}' as u8);
    }
    if options.has_smart_ellipses() {
        mark(&mut bytes, '.' as u8);
    }
    if options.has_smart_dashes() {
        mark(&mut bytes, '-' as u8);
    }
    if options.has_smart_quotes() {
        mark(&mut bytes, '"' as u8);
        mark(&mut bytes, '\'' as u8);
    }
    if options.contains(Options::ENABLE_DIRECTIVE) {
        mark(&mut bytes, ':' as u8);
    }
    if options.contains(Options::ENABLE_GFM) {
        // GFM literal autolinks: protocol (h/H), www (w/W), email (@).
        mark(&mut bytes, 'h' as u8);
        mark(&mut bytes, 'H' as u8);
        mark(&mut bytes, 'w' as u8);
        mark(&mut bytes, 'W' as u8);
        mark(&mut bytes, '@' as u8);
    }
    bytes
}

/// Marks `byte` in the bitmap.
pub fn add_lookup_byte(lookup: &mut [u8; 16], byte: u8)
    requires
        byte < 128,
    ensures
        forall|x: u8| #[trigger]
            lookup_has(*final(lookup), x) == (lookup_has(*old(lookup), x) || x == byte),
{
    assert(byte & 0x0fu8 < 16u8 && byte >> 4u8 < 8u8) by (bit_vector)
        requires
            byte < 128u8,
    ;
    let i = (byte & 0x0f) as usize;
    let bit: u8 = 1u8 << (byte >> 4u8);
    let v = lookup[i];
    lookup[i] = v | bit;
    proof {
        assert(lookup@ == old(lookup)@.update(i as int, v | bit));
        assert forall|x: u8| #[trigger]
            lookup_has(*final(lookup), x) == (lookup_has(*old(lookup), x) || x == byte) by {
            if x < 128 {
                let j8 = x & 15u8;
                let j = j8 as int;
                assert(j8 < 16u8) by (bit_vector)
                    requires
                        j8 == x & 15u8,
                ;
                if j == i {
                    let w = old(lookup)[j];
                    assert(lookup[j] == w | bit);
                    assert(((w | bit) >> (x >> 4u8)) & 1u8 == 1u8 <==> (((w >> (x >> 4u8)) & 1u8
                        == 1u8) || x == byte)) by (bit_vector)
                        requires
                            byte < 128u8,
                            x < 128u8,
                            (x & 15u8) == (byte & 15u8),
                            bit == 1u8 << (byte >> 4u8),
                    ;
                } else {
                    assert(lookup[j] == old(lookup)[j]);
                    assert(x != byte);
                }
            }
        }
    }
}

/// The bitmap: every byte of `is_lane_special` and no other.
pub fn compute_lookup(options: &Options) -> (lookup: [u8; 16])
    ensures
        forall|b: u8| #[trigger] lookup_has(lookup, b) == is_lane_special(*options, b),
{
    let mut lookup = [0u8;16];
    proof {
        assert forall|x: u8| !#[trigger] lookup_has(lookup, x) by {
            let j8 = x & 15u8;
            assert(j8 < 16u8) by (bit_vector)
                requires
                    j8 == x & 15u8,
            ;
            assert(lookup[j8 as int] == 0);
            assert((0u8 >> (x >> 4u8)) & 1u8 == 0u8) by (bit_vector);
        }
    }
    add_lookup_byte(&mut lookup, '\n' as u8);
    add_lookup_byte(&mut lookup, '\r' as u8);
    add_lookup_byte(&mut lookup, '*' as u8);
    add_lookup_byte(&mut lookup, '_' as u8);
    add_lookup_byte(&mut lookup, '&' as u8);
    add_lookup_byte(&mut lookup, '\\' as u8);
    add_lookup_byte(&mut lookup, '[' as u8);
    add_lookup_byte(&mut lookup, ']' as u8);
    add_lookup_byte(&mut lookup, '<' as u8);
    add_lookup_byte(&mut lookup, '!' as u8);
    add_lookup_byte(&mut lookup, '`' as u8);
    if options.contains(Options::ENABLE_TABLES) {
        add_lookup_byte(&mut lookup, '|' as u8);
    }
    if options.contains(Options::ENABLE_STRIKETHROUGH) || options.contains(
        Options::ENABLE_SUBSCRIPT,
    ) {
        add_lookup_byte(&mut lookup, '~' as u8);
    }
    if options.contains(Options::ENABLE_SUPERSCRIPT) {
        add_lookup_byte(&mut lookup, '^' as u8);
    }
    if options.has_math() {
        add_lookup_byte(&mut lookup, '$' as u8);
        add_lookup_byte(&mut lookup, '{' as u8);
        add_lookup_byte(&mut lookup, '}' as u8);
    }
    if options.has_smart_ellipses() {
        add_lookup_byte(&mut lookup, '.' as u8);
    }
    if options.has_smart_dashes() {
        add_lookup_byte(&mut lookup, '-' as u8);
    }
    if options.has_smart_quotes() {
        add_lookup_byte(&mut lookup, '"' as u8);
        add_lookup_byte(&mut lookup, '\'' as u8);
    }
    lookup
}

pub fn create_lut(options: &Options) -> (lut: LookupTable)
    ensures
        forall|b: u8| #[trigger] lookup_has(lut.simd, b) == is_lane_special(*options, b),
        forall|b: u8| #[trigger] lut.scalar@[b as int] == is_special_byte(*options, b),
{
    LookupTable { simd: compute_lookup(options), scalar: special_bytes(options) }
}

/// The first index at or after `p` whose byte `lut` marks; `bytes.len()`
/// when there is none before the end, and `p` itself when `p` is past it.
pub open spec fn next_marked(lut: Seq<bool>, bytes: Seq<u8>, p: int) -> int
    decreases bytes.len() - p,
{
    if p >= bytes.len() {
        p
    } else if 0 <= p && lut[bytes[p] as int] {
        p
    } else {
        next_marked(lut, bytes, p + 1)
    }
}

/// Where the walk from `start` stands after the callback answered `calls`
/// in turn: each call went to the next marked byte at or after the position
/// reached (with that index and byte), the callback can give that answer,
/// and each answer was `ContinueAndSkip(n)`, which moves the walk to the
/// index after the call plus `n + 1`. `None` when `calls` is no such run.
pub open spec fn walk_pos<F, T>(
    lut: Seq<bool>,
    bytes: Seq<u8>,
    start: int,
    calls: Seq<(usize, LoopInstruction<Option<T>>)>,
    callback: F,
) -> Option<int> where F: FnMut(usize, u8) -> LoopInstruction<Option<T>>
    decreases calls.len(),
{
    if calls.len() == 0 {
        Some(start)
    } else {
        match walk_pos(lut, bytes, start, calls.drop_last(), callback) {
            Some(q) => {
                let j = next_marked(lut, bytes, q);
                let c = calls.last();
                if j < bytes.len() && c.0 == j && call_ensures(callback, (c.0, bytes[j]), c.1) {
                    match c.1 {
                        LoopInstruction::ContinueAndSkip(n) => Some(j + n + 1),
                        LoopInstruction::BreakAtWith(_, _) => None,
                    }
                } else {
                    None
                }
            },
            None => None,
        }
    }
}

/// What a walk from `start` may hand back: after some run of
/// `ContinueAndSkip` answers, either no marked byte is left and the result
/// is `(position, None)`, or the next marked byte gets a call that answers
/// `BreakAtWith(r.0, r.1)`.
pub open spec fn walk_result<F, T>(
    lut: Seq<bool>,
    bytes: Seq<u8>,
    start: int,
    callback: F,
    r: (usize, Option<T>),
) -> bool where F: FnMut(usize, u8) -> LoopInstruction<Option<T>> {
    exists|calls: Seq<(usize, LoopInstruction<Option<T>>)>|
        #[trigger] walk_pos(lut, bytes, start, calls, callback) matches Some(q) && {
            let j = next_marked(lut, bytes, q);
            ||| j >= bytes.len() && r.0 == j && r.1 is None
            ||| j < bytes.len() && call_ensures(
                callback,
                (j as usize, bytes[j]),
                LoopInstruction::BreakAtWith(r.0, r.1),
            )
        }
}

/// Walks `bytes` from `ix` and calls `callback(i, bytes[i])` on every byte
/// that `lut` marks, in increasing order of `i`. After `ContinueAndSkip(n)`
/// the walk resumes at `i + n + 1`; `BreakAtWith(end, val)` ends the walk with
/// `(end, val)`. Without a break the walk ends past the last byte, with
/// `None`.
///
/// The callback may only be called on marked bytes: that is its
/// precondition.
pub fn scalar_iterate_special_bytes<F, T>(
    lut: &[bool; 256],
    bytes: &[u8],
    ix: usize,
    callback: F,
) -> (r: (usize, Option<T>)) where F: FnMut(usize, u8) -> LoopInstruction<Option<T>>
    requires
        forall|i: usize, b: u8|
            i < bytes@.len() && bytes@[i as int] == b && lut@[b as int] ==> call_requires(
                callback,
                (i, b),
            ),
        forall|i: usize, b: u8, res: LoopInstruction<Option<T>>|
            call_ensures(callback, (i, b), res) ==> (res matches LoopInstruction::ContinueAndSkip(
                s,
            ) ==> i + s + 1 <= usize::MAX),
    ensures
        walk_result(lut@, bytes@, ix as int, callback, r),
{
    let mut cb = callback;
    let mut pos = ix;
    let ghost start = ix;
    let ghost mut calls: Seq<(usize, LoopInstruction<Option<T>>)> = Seq::empty();
    let ghost mut q: int = ix as int;
    proof {
        assert(lut@.len() == 256);
    }
    while pos < bytes.len()
        invariant
            pos >= start,
            start == ix,
            cb == callback,
            lut@.len() == 256,
            start <= q <= pos,
            walk_pos(lut@, bytes@, start as int, calls, callback) == Some(q),
            next_marked(lut@, bytes@, q) == next_marked(lut@, bytes@, pos as int),
            forall|i: usize, b: u8|
                i < bytes@.len() && bytes@[i as int] == b && lut@[b as int] ==> call_requires(
                    callback,
                    (i, b),
                ),
            forall|i: usize, b: u8, res: LoopInstruction<Option<T>>|
                call_ensures(callback, (i, b), res) ==> (res matches LoopInstruction::ContinueAndSkip(
                    s,
                ) ==> i + s + 1 <= usize::MAX),
        decreases usize::MAX - pos,
    {
        let b = bytes[pos];
        if lut[b as usize] {
            let res = cb(pos, b);
            proof {
                assert(next_marked(lut@, bytes@, pos as int) == pos);
            }
            match res {
                LoopInstruction::ContinueAndSkip(skip) => {
                    proof {
                        let calls2 = calls.push((pos, res));
                        assert(calls2.drop_last() =~= calls);
                        calls = calls2;
                        q = pos + skip + 1;
                    }
                    pos = pos + skip;
                },
                LoopInstruction::BreakAtWith(end, val) => {
                    let r = (end, val);
                    proof {
                        let j = next_marked(lut@, bytes@, q);
                        assert(j == pos);
                        assert(bytes@[j] == b);
                        assert(call_ensures(
                            callback,
                            (j as usize, bytes@[j]),
                            LoopInstruction::BreakAtWith(r.0, r.1),
                        ));
                        assert(walk_pos(lut@, bytes@, start as int, calls, callback) matches Some(
                            qq,
                        ) && qq == q);
                        assert(walk_result(lut@, bytes@, start as int, callback, r));
                    }
                    return r;
                },
            }
        } else {
            proof {
                assert(next_marked(lut@, bytes@, pos as int) == next_marked(
                    lut@,
                    bytes@,
                    pos + 1,
                ));
            }
        }
        pos = pos + 1;
    }
    proof {
        assert(walk_pos(lut@, bytes@, start as int, calls, callback) matches Some(qq) && qq == q);
    }
    (pos, None)
}

/// The walk of `scalar_iterate_special_bytes` over the table part of `lut`.
pub fn iterate_special_bytes<F, T>(lut: &LookupTable, bytes: &[u8], ix: usize, callback: F) -> (r: (
    usize,
    Option<T>,
)) where F: FnMut(usize, u8) -> LoopInstruction<Option<T>>
    requires
        forall|i: usize, b: u8|
            i < bytes@.len() && bytes@[i as int] == b && lut.scalar@[b as int] ==> call_requires(
                callback,
                (i, b),
            ),
        forall|i: usize, b: u8, res: LoopInstruction<Option<T>>|
            call_ensures(callback, (i, b), res) ==> (res matches LoopInstruction::ContinueAndSkip(
                s,
            ) ==> i + s + 1 <= usize::MAX),
    ensures
        walk_result(lut.scalar@, bytes@, ix as int, callback, r),
{
    scalar_iterate_special_bytes(&lut.scalar, bytes, ix, callback)
}

/// Without the MDX, directive and GFM options the bitmap and the table mark
/// the same bytes.
pub proof fn lemma_bitmap_matches_table(o: Options, b: u8)
    requires
        !o.spec_intersects(Options::ENABLE_MDX),
        !o.spec_intersects(Options::ENABLE_DIRECTIVE),
        !o.spec_intersects(Options::ENABLE_GFM),
    ensures
        is_lane_special(o, b) == is_special_byte(o, b),
{
    let v = o.bits;
    assert(v & 0x2_0000u32 != 0x2_0000u32) by (bit_vector)
        requires
            v & 0x2_0000u32 == 0,
    ;
    assert(v & 0x4_0000u32 != 0x4_0000u32) by (bit_vector)
        requires
            v & 0x4_0000u32 == 0,
    ;
    assert(v & 0x800u32 != 0x800u32) by (bit_vector)
        requires
            v & 0x800u32 == 0,
    ;
}

} // verus!
