//! The encoding and its inverse, as mathematical functions on sequences.
use vstd::prelude::*;

verus! {

/// The little-endian 64-bit word made of the eight bytes of `b` from `pos` on.
pub open spec fn le_word(b: Seq<u8>, pos: int) -> u64 {
    (b[pos] as u64) | ((b[pos + 1] as u64) << 8u64) | ((b[pos + 2] as u64) << 16u64) | ((b[pos
        + 3] as u64) << 24u64) | ((b[pos + 4] as u64) << 32u64) | ((b[pos + 5] as u64) << 40u64)
        | ((b[pos + 6] as u64) << 48u64) | ((b[pos + 7] as u64) << 56u64)
}

/// The eight bytes of `w`, least significant first.
pub open spec fn word_bytes(w: u64) -> Seq<u8> {
    seq![
        w as u8,
        (w >> 8u64) as u8,
        (w >> 16u64) as u8,
        (w >> 24u64) as u8,
        (w >> 32u64) as u8,
        (w >> 40u64) as u8,
        (w >> 48u64) as u8,
        (w >> 56u64) as u8,
    ]
}

/// The four 15-bit code units that carry bits 4 to 63 of `w`, lowest bits first.
pub open spec fn word_units(w: u64) -> Seq<u16> {
    seq![
        ((w >> 4u64) & 0x7FFFu64) as u16,
        ((w >> 19u64) & 0x7FFFu64) as u16,
        ((w >> 34u64) & 0x7FFFu64) as u16,
        ((w >> 49u64) & 0x7FFFu64) as u16,
    ]
}

/// The word of low nibbles after one more word `w` of a block: the nibbles gathered
/// so far move up by four bits and the low nibble of `w` comes in below them.
pub open spec fn next_extras(extras: u64, w: u64) -> u64 {
    (extras | (w & 0xFu64)) << 4u64
}

/// The word of low nibbles of the first `k` words of the block of `b` at `start`.
pub open spec fn block_extras(b: Seq<u8>, start: int, k: nat) -> u64
    decreases k,
{
    if k == 0 {
        0u64
    } else {
        next_extras(block_extras(b, start, (k - 1) as nat), le_word(b, start + 8 * (k - 1)))
    }
}

/// The code units of the first `k` words of the block of `b` at `start`.
pub open spec fn block_word_units(b: Seq<u8>, start: int, k: nat) -> Seq<u16>
    decreases k,
{
    if k == 0 {
        seq![]
    } else {
        block_word_units(b, start, (k - 1) as nat) + word_units(le_word(b, start + 8 * (k - 1)))
    }
}

/// The 64 code units of the 120-byte block of `b` at `start`: four per data word,
/// then four for the word of gathered low nibbles.
pub open spec fn encode_block(b: Seq<u8>, start: int) -> Seq<u16> {
    block_word_units(b, start, 15) + word_units(block_extras(b, start, 15))
}

/// The code units of the first `k` full blocks of `b`.
pub open spec fn encode_blocks(b: Seq<u8>, k: nat) -> Seq<u16>
    decreases k,
{
    if k == 0 {
        seq![]
    } else {
        encode_blocks(b, (k - 1) as nat) + encode_block(b, 120 * (k - 1))
    }
}

/// The last, partial block of `b`, padded to 120 bytes: its length, its bytes, zeros.
pub open spec fn remainder_block(b: Seq<u8>) -> Seq<u8> {
    seq![(b.len() % 120) as u8] + b.subrange(120 * (b.len() / 120) as int, b.len() as int)
        + Seq::new((119 - b.len() % 120) as nat, |i: int| 0u8)
}

/// The encoding of the byte string `b`.
pub open spec fn utf15_encode(b: Seq<u8>) -> Seq<u16> {
    if b.len() == 0 {
        seq![]
    } else if b.len() % 120 == 0 {
        seq![0x30u16] + encode_blocks(b, b.len() / 120)
    } else {
        seq![0x31u16] + encode_blocks(b, b.len() / 120) + encode_block(remainder_block(b), 0)
    }
}

/// What the block loop of `bytestring_to_utf15` produces: the encoding of `b`, except
/// that a string of exactly one full block, which that loop never enters, comes out as
/// its header followed by 64 zero code units.
pub open spec fn utf15_encode_block_loop(b: Seq<u8>) -> Seq<u16> {
    if b.len() == 120 {
        seq![0x30u16] + Seq::new(64, |i: int| 0u16)
    } else {
        utf15_encode(b)
    }
}

/// Whether every code unit of `u` fits in 15 bits.
pub open spec fn all_15_bit(u: Seq<u16>) -> bool {
    forall|i: int| 0 <= i < u.len() ==> #[trigger] u[i] <= 0x7FFF
}

/// The word rebuilt from the four code units of `u` at `base`, with `nib` as its low nibble.
pub open spec fn decode_word(u: Seq<u16>, base: int, nib: u64) -> u64 {
    nib | ((u[base] as u64) << 4u64) | ((u[base + 1] as u64) << 19u64) | ((u[base + 2] as u64)
        << 34u64) | ((u[base + 3] as u64) << 49u64)
}

/// The word of gathered low nibbles, shifted down by four bits, rebuilt from the
/// four code units of `u` at `base`.
pub open spec fn extra_word(u: Seq<u16>, base: int) -> u64 {
    (u[base] as u64) | ((u[base + 1] as u64) << 15u64) | ((u[base + 2] as u64) << 30u64) | ((
    u[base + 3] as u64) << 45u64)
}

/// The low nibble of data word `i` of a block, taken from its word of low nibbles `x`.
pub open spec fn word_nibble(x: u64, i: int) -> u64 {
    (x >> ((56 - 4 * i) as u64)) & 0xFu64
}

/// The bytes of the first `k` words of the block of `u` at `base`, whose word of low
/// nibbles is `x`.
pub open spec fn decode_block_words(u: Seq<u16>, base: int, x: u64, k: nat) -> Seq<u8>
    decreases k,
{
    if k == 0 {
        seq![]
    } else {
        decode_block_words(u, base, x, (k - 1) as nat) + word_bytes(
            decode_word(u, base + 4 * (k - 1), word_nibble(x, k - 1)),
        )
    }
}

/// The 120 bytes of the block of 64 code units of `u` at `base`.
pub open spec fn decode_block(u: Seq<u16>, base: int) -> Seq<u8> {
    decode_block_words(u, base, extra_word(u, base + 60), 15)
}

/// The bytes of the first `k` blocks of the encoding `u` (after its header).
pub open spec fn decode_blocks(u: Seq<u16>, k: nat) -> Seq<u8>
    decreases k,
{
    if k == 0 {
        seq![]
    } else {
        decode_blocks(u, (k - 1) as nat) + decode_block(u, 1 + 64 * (k - 1))
    }
}

/// The number of blocks of the encoding `u`.
pub open spec fn block_count(u: Seq<u16>) -> nat {
    ((u.len() - 1) / 64) as nat
}

/// The number of blocks of `u` that are decoded whole.
pub open spec fn full_block_count(u: Seq<u16>) -> nat {
    if u[0] == 0x31 {
        (block_count(u) - 1) as nat
    } else {
        block_count(u)
    }
}

/// The length that the last block of `u` states in its first byte.
pub open spec fn remainder_size(u: Seq<u16>) -> nat {
    decode_block(u, 1 + 64 * (block_count(u) - 1))[0] as nat
}

/// Whether `u` has the shape of an encoding: empty, or a header and whole blocks,
/// where a last block announced by the header `0x31` states a length below 120.
pub open spec fn utf15_decodable(u: Seq<u16>) -> bool {
    u.len() == 0 || (u.len() % 64 == 1 && (u[0] == 0x30 || (u[0] == 0x31 && u.len() > 1
        && remainder_size(u) <= 119)))
}

/// The bytes that the encoding `u` carries.
pub open spec fn utf15_decode(u: Seq<u16>) -> Seq<u8> {
    if u.len() == 0 {
        seq![]
    } else if u[0] == 0x31 {
        decode_blocks(u, full_block_count(u)) + decode_block(
            u,
            1 + 64 * full_block_count(u) as int,
        ).subrange(1, 1 + remainder_size(u) as int)
    } else {
        decode_blocks(u, block_count(u))
    }
}

} // verus!
