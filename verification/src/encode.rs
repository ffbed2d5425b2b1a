//! Encoding byte strings into 15-bit code units.
use vstd::prelude::*;
use vstd::slice::slice_subrange;
use crate::format::{
    block_extras, block_word_units, encode_block, encode_blocks, le_word, next_extras,
    remainder_block, utf15_encode, utf15_encode_block_loop, word_units,
};
use crate::{
    HEADER_FULL_BLOCKS, HEADER_WITH_REMAINDER, INPUT_BLOCK_SIZE, LOW_FIFTEEN_BITS, LOW_FOUR_BITS,
    OUTPUT_BLOCK_SIZE,
};
use crate::pieces::{lemma_encode_block_len, lemma_encode_block_shift, lemma_encode_blocks_len};

verus! {

/// Reads the eight bytes of `bytes` from `start` on as a little-endian word.
fn to_u64(bytes: &[u8], start: usize) -> (w: u64)
    requires
        start + 8 <= bytes@.len(),
    ensures
        w == le_word(bytes@, start as int),
{
    (bytes[start] as u64) | ((bytes[start + 1] as u64) << 8u64) | ((bytes[start + 2] as u64)
        << 16u64) | ((bytes[start + 3] as u64) << 24u64) | ((bytes[start + 4] as u64) << 32u64)
        | ((bytes[start + 5] as u64) << 40u64) | ((bytes[start + 6] as u64) << 48u64) | ((
    bytes[start + 7] as u64) << 56u64)
}

/// Appends the four code units of the word `w`.
fn push_word_units(w: u64, output: &mut Vec<u16>)
    ensures
        final(output)@ == old(output)@ + word_units(w),
{
    output.push(((w >> 4u64) & LOW_FIFTEEN_BITS) as u16);
    output.push(((w >> 19u64) & LOW_FIFTEEN_BITS) as u16);
    output.push(((w >> 34u64) & LOW_FIFTEEN_BITS) as u16);
    output.push(((w >> 49u64) & LOW_FIFTEEN_BITS) as u16);
    assert(output@ =~= old(output)@ + word_units(w));
}

/// Appends the code units of the word of `bytes` at `start`, and gathers its low nibble
/// into `extras`.
fn write_byte_chunk(bytes: &[u8], start: usize, extras: &mut u64, output_chunk: &mut Vec<u16>)
    requires
        start + 8 <= bytes@.len(),
    ensures
        final(output_chunk)@ == old(output_chunk)@ + word_units(le_word(bytes@, start as int)),
        *final(extras) == next_extras(*old(extras), le_word(bytes@, start as int)),
{
    let byte_u64 = to_u64(bytes, start);
    *extras = (*extras | (byte_u64 & LOW_FOUR_BITS)) << 4u64;
    push_word_units(byte_u64, output_chunk);
}

/// Appends the 64 code units of the block of `bytes` at `start`.
fn encode_block_into(bytes: &[u8], start: usize, output: &mut Vec<u16>)
    requires
        start + 120 <= bytes@.len(),
    ensures
        final(output)@ == old(output)@ + encode_block(bytes@, start as int),
{
    let ghost prefix = output@;
    let mut extras: u64 = 0;
    let mut i: usize = 0;
    while i < 15
        invariant
            i <= 15,
            start + 120 <= bytes.len(),
            output@ == prefix + block_word_units(bytes@, start as int, i as nat),
            extras == block_extras(bytes@, start as int, i as nat),
        decreases 15 - i,
    {
        write_byte_chunk(bytes, start + 8 * i, &mut extras, output);
        assert(output@ =~= prefix + block_word_units(bytes@, start as int, (i + 1) as nat));
        i += 1;
    }
    push_word_units(extras, output);
    assert(output@ =~= prefix + encode_block(bytes@, start as int));
}

/// The last, partial block of `bytes`, which starts at `from`: its length, its bytes, and
/// zeros up to 120 bytes.
fn remainder_chunk(bytes: &[u8], from: usize) -> (chunk: Vec<u8>)
    requires
        bytes@.len() % 120 != 0,
        from == 120 * (bytes@.len() / 120),
    ensures
        chunk@ == remainder_block(bytes@),
{
    let len = bytes.len();
    let mut chunk: Vec<u8> = Vec::new();
    chunk.push((len - from) as u8);
    let mut j: usize = from;
    while j < len
        invariant
            from <= j <= len,
            len == bytes@.len(),
            chunk@ == seq![(len - from) as u8] + bytes@.subrange(from as int, j as int),
        decreases len - j,
    {
        chunk.push(bytes[j]);
        assert(chunk@ =~= seq![(len - from) as u8] + bytes@.subrange(from as int, j + 1));
        j += 1;
    }
    let ghost filled = chunk@;
    while chunk.len() < INPUT_BLOCK_SIZE
        invariant
            filled.len() <= chunk@.len() <= 120,
            chunk@ == filled + Seq::new((chunk@.len() - filled.len()) as nat, |i: int| 0u8),
        decreases 120 - chunk@.len(),
    {
        chunk.push(0);
        assert(chunk@ =~= filled + Seq::new((chunk@.len() - filled.len()) as nat, |i: int| 0u8));
    }
    assert(chunk@ =~= remainder_block(bytes@));
    chunk
}

/// Encodes `bytes` into 15-bit code units, block by block while a full block remains
/// beyond the first 120 bytes.
///
/// That loop never runs on a string of exactly 120 bytes, whose encoding therefore comes
/// out as the header and 64 zero code units; every other string gets its encoding.
pub fn bytestring_to_utf15(bytes: &[u8]) -> (output: Vec<u16>)
    ensures
        output@ == utf15_encode_block_loop(bytes@),
{
    if bytes.len() == 0 {
        return Vec::new();
    }
    let len = bytes.len();
    let remainder = len % INPUT_BLOCK_SIZE;
    let num_blocks = len / INPUT_BLOCK_SIZE + (if remainder != 0 {
        1
    } else {
        0
    });
    assert(120 * (len / 120) <= len);
    let encoded_len = OUTPUT_BLOCK_SIZE * num_blocks + 1;
    let has_remainder = remainder != 0;
    let mut output: Vec<u16> = Vec::new();
    if has_remainder {
        output.push(HEADER_WITH_REMAINDER);
    } else {
        output.push(HEADER_FULL_BLOCKS);
    }
    let ghost header = output@;
    let mut input_index: usize = 0;
    let last_fast_index = len.saturating_sub(INPUT_BLOCK_SIZE);
    let ghost mut k: nat = 0;
    if last_fast_index > 0 {
        while input_index <= last_fast_index
            invariant
                len == bytes@.len(),
                last_fast_index == len - 120,
                input_index == 120 * k,
                input_index <= len,
                output@ == header + encode_blocks(bytes@, k),
            decreases len - input_index,
        {
            encode_block_into(bytes, input_index, &mut output);
            input_index += INPUT_BLOCK_SIZE;
            proof {
                k = k + 1;
            }
        }
    }
    proof {
        lemma_encode_blocks_len(bytes@, k);
    }
    assert(len != 120 ==> k == len / 120);
    if has_remainder {
        let chunk = remainder_chunk(bytes, input_index);
        encode_block_into(chunk.as_slice(), 0, &mut output);
        proof {
            lemma_encode_block_len(chunk@, 0);
        }
    }
    let ghost encoded = output@;
    while output.len() < encoded_len
        invariant
            encoded.len() <= output@.len() <= encoded_len,
            output@ == encoded + Seq::new((output@.len() - encoded.len()) as nat, |i: int| 0u16),
        decreases encoded_len - output@.len(),
    {
        output.push(0);
        assert(output@ =~= encoded + Seq::new(
            (output@.len() - encoded.len()) as nat,
            |i: int| 0u16,
        ));
    }
    assert(output@ =~= utf15_encode_block_loop(bytes@));
    output
}

/// Appends the code units of the eight-byte group `bytes`, and returns the word of low
/// nibbles `extras` with the group's low nibble gathered into it.
fn faster_write_chunk(bytes: &[u8], extras: u64, output_chunk: &mut Vec<u16>) -> (next: u64)
    requires
        bytes@.len() == 8,
    ensures
        final(output_chunk)@ == old(output_chunk)@ + word_units(le_word(bytes@, 0)),
        next == next_extras(extras, le_word(bytes@, 0)),
{
    let byte_u64 = to_u64(bytes, 0);
    push_word_units(byte_u64, output_chunk);
    (extras | (byte_u64 & LOW_FOUR_BITS)) << 4u64
}

/// Appends the 64 code units of the 120-byte block `input_block`, folding over its
/// eight-byte groups.
fn alt_encode_block(input_block: &[u8], output: &mut Vec<u16>)
    requires
        input_block@.len() == 120,
    ensures
        final(output)@ == old(output)@ + encode_block(input_block@, 0),
{
    let ghost prefix = output@;
    let mut extras: u64 = 0;
    let mut group: usize = 0;
    while group < 15
        invariant
            group <= 15,
            input_block@.len() == 120,
            output@ == prefix + block_word_units(input_block@, 0, group as nat),
            extras == block_extras(input_block@, 0, group as nat),
        decreases 15 - group,
    {
        let input_group = slice_subrange(input_block, 8 * group, 8 * group + 8);
        assert(le_word(input_group@, 0) == le_word(input_block@, 8 * group as int));
        extras = faster_write_chunk(input_group, extras, output);
        assert(output@ =~= prefix + block_word_units(input_block@, 0, (group + 1) as nat));
        group += 1;
    }
    push_word_units(extras, output);
    assert(output@ =~= prefix + encode_block(input_block@, 0));
}

/// Encodes `bytes` into 15-bit code units: its full blocks of 120 bytes, then its padded
/// remainder if there is one.
pub fn alt_bytestring_to_utf15(bytes: &[u8]) -> (output: Vec<u16>)
    ensures
        output@ == utf15_encode(bytes@),
{
    if bytes.len() == 0 {
        return Vec::new();
    }
    let len = bytes.len();
    let fast_input_blocks = len / INPUT_BLOCK_SIZE;
    let has_remainder = len % INPUT_BLOCK_SIZE != 0;
    let mut output: Vec<u16> = Vec::new();
    if has_remainder {
        output.push(HEADER_WITH_REMAINDER);
    } else {
        output.push(HEADER_FULL_BLOCKS);
    }
    let ghost header = output@;
    let maybe_remainder: Option<Vec<u8>> = if has_remainder {
        Some(remainder_chunk(bytes, INPUT_BLOCK_SIZE * fast_input_blocks))
    } else {
        None
    };
    let mut block: usize = 0;
    assert(120 * fast_input_blocks <= len);
    while block < fast_input_blocks
        invariant
            block <= fast_input_blocks,
            120 * fast_input_blocks <= bytes.len(),
            fast_input_blocks == bytes@.len() / 120,
            output@ == header + encode_blocks(bytes@, block as nat),
        decreases fast_input_blocks - block,
    {
        let input_block = slice_subrange(
            bytes,
            INPUT_BLOCK_SIZE * block,
            INPUT_BLOCK_SIZE * block + INPUT_BLOCK_SIZE,
        );
        alt_encode_block(input_block, &mut output);
        proof {
            lemma_encode_block_shift(bytes@, 120 * block as int);
        }
        block += 1;
    }
    match maybe_remainder {
        Some(chunk) => {
            alt_encode_block(chunk.as_slice(), &mut output);
        },
        None => {},
    }
    output
}

} // verus!
