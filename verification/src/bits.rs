//! Facts about the bit fields of 64-bit words, proved by bit-blasting.
use vstd::prelude::*;
use crate::format::{all_15_bit, decode_word, extra_word, le_word, next_extras, word_bytes, word_units};

verus! {

/// The low nibble and the four 15-bit fields of a word put it back together.
pub(crate) proof fn lemma_word_fields(w: u64)
    ensures
        (w & 0xFu64) | ((((w >> 4u64) & 0x7FFFu64) as u16 as u64) << 4u64) | ((((w >> 19u64)
            & 0x7FFFu64) as u16 as u64) << 19u64) | ((((w >> 34u64) & 0x7FFFu64) as u16 as u64)
            << 34u64) | ((((w >> 49u64) & 0x7FFFu64) as u16 as u64) << 49u64) == w,
{
    assert((w & 0xFu64) | ((((w >> 4u64) & 0x7FFFu64) as u16 as u64) << 4u64) | ((((w >> 19u64)
        & 0x7FFFu64) as u16 as u64) << 19u64) | ((((w >> 34u64) & 0x7FFFu64) as u16 as u64)
        << 34u64) | ((((w >> 49u64) & 0x7FFFu64) as u16 as u64) << 49u64) == w) by (bit_vector);
}

/// Rebuilding a word from its code units and its low nibble gives the word back.
pub(crate) proof fn lemma_decode_word_units(u: Seq<u16>, base: int, w: u64)
    requires
        0 <= base,
        base + 4 <= u.len(),
        u.subrange(base, base + 4) == word_units(w),
    ensures
        decode_word(u, base, w & 0xFu64) == w,
{
    assert(u[base] == word_units(w)[0]);
    assert(u[base + 1] == word_units(w)[1]);
    assert(u[base + 2] == word_units(w)[2]);
    assert(u[base + 3] == word_units(w)[3]);
    lemma_word_fields(w);
}

/// Every code unit that carries a word fits in 15 bits.
pub(crate) proof fn lemma_word_units_15_bit(w: u64)
    ensures
        all_15_bit(word_units(w)),
{
    assert(((w >> 4u64) & 0x7FFFu64) as u16 <= 0x7FFF) by (bit_vector);
    assert(((w >> 19u64) & 0x7FFFu64) as u16 <= 0x7FFF) by (bit_vector);
    assert(((w >> 34u64) & 0x7FFFu64) as u16 <= 0x7FFF) by (bit_vector);
    assert(((w >> 49u64) & 0x7FFFu64) as u16 <= 0x7FFF) by (bit_vector);
}

/// The bytes of a little-endian word are the bytes it was read from.
pub(crate) proof fn lemma_le_word_bytes(b: Seq<u8>, pos: int)
    requires
        0 <= pos,
        pos + 8 <= b.len(),
    ensures
        word_bytes(le_word(b, pos)) == b.subrange(pos, pos + 8),
{
    let b0 = b[pos];
    let b1 = b[pos + 1];
    let b2 = b[pos + 2];
    let b3 = b[pos + 3];
    let b4 = b[pos + 4];
    let b5 = b[pos + 5];
    let b6 = b[pos + 6];
    let b7 = b[pos + 7];
    let w = le_word(b, pos);
    assert(w == (b0 as u64) | ((b1 as u64) << 8u64) | ((b2 as u64) << 16u64) | ((b3 as u64)
        << 24u64) | ((b4 as u64) << 32u64) | ((b5 as u64) << 40u64) | ((b6 as u64) << 48u64) | ((
    b7 as u64) << 56u64));
    assert({
        &&& w as u8 == b0
        &&& (w >> 8u64) as u8 == b1
        &&& (w >> 16u64) as u8 == b2
        &&& (w >> 24u64) as u8 == b3
        &&& (w >> 32u64) as u8 == b4
        &&& (w >> 40u64) as u8 == b5
        &&& (w >> 48u64) as u8 == b6
        &&& (w >> 56u64) as u8 == b7
    }) by (bit_vector)
        requires
            w == (b0 as u64) | ((b1 as u64) << 8u64) | ((b2 as u64) << 16u64) | ((b3 as u64)
                << 24u64) | ((b4 as u64) << 32u64) | ((b5 as u64) << 40u64) | ((b6 as u64)
                << 48u64) | ((b7 as u64) << 56u64),
    ;
    assert(word_bytes(w) =~= b.subrange(pos, pos + 8));
}

/// One step of gathering low nibbles: the new nibble lands in bits 4 to 7, the low
/// nibble stays clear, and the word stays below `2^(4(k+1)+4)`.
pub(crate) proof fn lemma_extras_step(e: u64, w: u64, k: u64)
    requires
        k <= 14,
        e >> (4 * k + 4) == 0,
        e & 0xFu64 == 0,
    ensures
        next_extras(e, w) >> (4 * (k + 1) + 4) == 0,
        next_extras(e, w) & 0xFu64 == 0,
        (next_extras(e, w) >> 4u64) & 0xFu64 == w & 0xFu64,
{
    assert(((e | (w & 0xFu64)) << 4u64) >> (4 * (k + 1) + 4) == 0) by (bit_vector)
        requires
            k <= 14,
            e >> (4 * k + 4) == 0,
    ;
    assert(((e | (w & 0xFu64)) << 4u64) & 0xFu64 == 0) by (bit_vector);
    assert((((e | (w & 0xFu64)) << 4u64) >> 4u64) & 0xFu64 == w & 0xFu64) by (bit_vector)
        requires
            k <= 14,
            e >> (4 * k + 4) == 0,
            e & 0xFu64 == 0,
    ;
}

/// One step of gathering low nibbles keeps every nibble gathered before, four bits higher.
pub(crate) proof fn lemma_extras_keep(e: u64, w: u64, k: u64, s: u64)
    requires
        k <= 14,
        e >> (4 * k + 4) == 0,
        4 <= s <= 4 * k,
    ensures
        (next_extras(e, w) >> (s + 4)) & 0xFu64 == (e >> s) & 0xFu64,
{
    assert((((e | (w & 0xFu64)) << 4u64) >> (s + 4)) & 0xFu64 == (e >> s) & 0xFu64)
        by (bit_vector)
        requires
            k <= 14,
            e >> (4 * k + 4) == 0,
            4 <= s <= 4 * k,
    ;
}

/// The four code units of a word with a clear low nibble give back the word shifted down
/// by four bits.
pub(crate) proof fn lemma_extra_word_units(u: Seq<u16>, base: int, e: u64)
    requires
        0 <= base,
        base + 4 <= u.len(),
        u.subrange(base, base + 4) == word_units(e),
    ensures
        extra_word(u, base) == e >> 4u64,
{
    assert(u[base] == word_units(e)[0]);
    assert(u[base + 1] == word_units(e)[1]);
    assert(u[base + 2] == word_units(e)[2]);
    assert(u[base + 3] == word_units(e)[3]);
    assert((((e >> 4u64) & 0x7FFFu64) as u16 as u64) | ((((e >> 19u64) & 0x7FFFu64) as u16
        as u64) << 15u64) | ((((e >> 34u64) & 0x7FFFu64) as u16 as u64) << 30u64) | ((((e
        >> 49u64) & 0x7FFFu64) as u16 as u64) << 45u64) == e >> 4u64) by (bit_vector);
}

/// Shifting down by four and then by `t` is shifting down by `t + 4`.
pub(crate) proof fn lemma_shift_down_twice(x: u64, t: u64)
    requires
        t <= 56,
    ensures
        (x >> 4u64) >> t == x >> (t + 4),
        (x >> t) >> 4u64 == x >> (t + 4),
{
    assert((x >> 4u64) >> t == x >> (t + 4)) by (bit_vector)
        requires
            t <= 56,
    ;
    assert((x >> t) >> 4u64 == x >> (t + 4)) by (bit_vector)
        requires
            t <= 56,
    ;
}

/// The nibble of the first word of a block sits in bits 11 to 14 of its last code unit.
pub(crate) proof fn lemma_first_nibble(u0: u16, u1: u16, u2: u16, u3: u16)
    ensures
        (((u0 as u64) | ((u1 as u64) << 15u64) | ((u2 as u64) << 30u64) | ((u3 as u64)
            << 45u64)) >> 56u64) & 0xFu64 == ((u3 >> 11u16) as u64) & 0xFu64,
{
    assert((((u0 as u64) | ((u1 as u64) << 15u64) | ((u2 as u64) << 30u64) | ((u3 as u64)
        << 45u64)) >> 56u64) & 0xFu64 == ((u3 >> 11u16) as u64) & 0xFu64) by (bit_vector);
}

} // verus!
