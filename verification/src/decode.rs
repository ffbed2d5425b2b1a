//! Decoding 15-bit code units back into byte strings.
use vstd::prelude::*;
use vstd::slice::slice_subrange;
use crate::format::{
    decode_block_words, decode_blocks, decode_word, extra_word, full_block_count, remainder_size,
    utf15_decodable, utf15_decode, word_bytes, word_nibble,
};
use crate::bits::lemma_first_nibble;
use crate::{
    HEADER_FULL_BLOCKS, HEADER_WITH_REMAINDER, INPUT_BLOCK_SIZE, LOW_FOUR_BITS, OUTPUT_BLOCK_SIZE,
};
use crate::pieces::{
    lemma_decode_block_words_at, lemma_decode_block_words_len, lemma_decode_blocks_len,
    lemma_subrange_split,
};

verus! {

/// Appends the eight bytes of `num`, least significant first.
fn write_u64(num: u64, buf: &mut Vec<u8>)
    ensures
        final(buf)@ == old(buf)@ + word_bytes(num),
{
    buf.push(num as u8);
    buf.push((num >> 8u64) as u8);
    buf.push((num >> 16u64) as u8);
    buf.push((num >> 24u64) as u8);
    buf.push((num >> 32u64) as u8);
    buf.push((num >> 40u64) as u8);
    buf.push((num >> 48u64) as u8);
    buf.push((num >> 56u64) as u8);
    assert(buf@ =~= old(buf)@ + word_bytes(num));
}

/// Rebuilds the word of the four code units of `input` at `base` with `remainder` as its
/// low nibble, and appends its bytes.
fn decode_block(input: &[u16], base: usize, remainder: u64, output: &mut Vec<u8>)
    requires
        base + 4 <= input@.len(),
    ensures
        final(output)@ == old(output)@ + word_bytes(decode_word(input@, base as int, remainder)),
{
    let mut accum = remainder;
    accum = accum | ((input[base] as u64) << 4u64);
    accum = accum | ((input[base + 1] as u64) << 19u64);
    accum = accum | ((input[base + 2] as u64) << 34u64);
    accum = accum | ((input[base + 3] as u64) << 49u64);
    write_u64(accum, output);
}

/// Rebuilds the word of gathered low nibbles, shifted down by four bits, from the four
/// code units of `input` at `base`.
fn decode_extra(input: &[u16], base: usize) -> (accum: u64)
    requires
        base + 4 <= input@.len(),
    ensures
        accum == extra_word(input@, base as int),
{
    let mut accum: u64 = input[base] as u64;
    accum = accum | ((input[base + 1] as u64) << 15u64);
    accum = accum | ((input[base + 2] as u64) << 30u64);
    accum = accum | ((input[base + 3] as u64) << 45u64);
    accum
}

/// Appends the 120 bytes of the block of 64 code units of `utf15` at `base`.
fn decode_full_block(utf15: &[u16], base: usize, output: &mut Vec<u8>)
    requires
        base + 64 <= utf15.len(),
    ensures
        final(output)@ == old(output)@ + crate::format::decode_block(utf15@, base as int),
{
    let ghost prefix = output@;
    let extra = decode_extra(utf15, base + 60);
    let mut i: usize = 0;
    while i < 15
        invariant
            i <= 15,
            base + 64 <= utf15.len(),
            extra == extra_word(utf15@, base + 60),
            output@ == prefix + decode_block_words(utf15@, base as int, extra, i as nat),
        decreases 15 - i,
    {
        decode_block(utf15, base + 4 * i, (extra >> ((56 - 4 * i) as u64)) & LOW_FOUR_BITS, output);
        assert(output@ =~= prefix + decode_block_words(utf15@, base as int, extra, (i + 1) as nat));
        i += 1;
    }
}

/// The length that the block of `utf15` at `base` states in its first byte.
fn remainder_size_at(utf15: &[u16], base: usize) -> (size: usize)
    requires
        base + 64 <= utf15.len(),
    ensures
        size == crate::format::decode_block(utf15@, base as int)[0],
{
    let extra = ((utf15[base + 63] >> 11u16) as u64) & LOW_FOUR_BITS;
    let mut buf: Vec<u8> = Vec::new();
    decode_block(utf15, base, extra, &mut buf);
    proof {
        let x = extra_word(utf15@, base + 60);
        lemma_first_nibble(utf15@[base + 60], utf15@[base + 61], utf15@[base + 62], utf15@[base + 63]);
        assert(word_nibble(x, 0) == extra);
        lemma_decode_block_words_at(utf15@, base as int, x, 15, 0);
        lemma_decode_block_words_len(utf15@, base as int, x, 15);
        assert(crate::format::decode_block(utf15@, base as int)[0] == crate::format::decode_block(
            utf15@,
            base as int,
        ).subrange(0, 8)[0]);
    }
    buf[0] as usize
}

/// Appends bytes `1` to `1 + remainder_size` of the block of `utf15` at `base`, decoding
/// only the words that hold them.
fn decode_remainder(utf15: &[u16], base: usize, remainder_size: usize, output: &mut Vec<u8>)
    requires
        base + 64 <= utf15.len(),
        remainder_size <= 119,
    ensures
        final(output)@ == old(output)@ + crate::format::decode_block(utf15@, base as int).subrange(
            1,
            1 + remainder_size,
        ),
{
    let ghost prefix = output@;
    let ghost d = crate::format::decode_block(utf15@, base as int);
    let extra = decode_extra(utf15, base + 60);
    proof {
        lemma_decode_block_words_len(utf15@, base as int, extra, 15);
    }
    let mut tmp: Vec<u8> = Vec::new();
    decode_block(utf15, base, (extra >> 56u64) & LOW_FOUR_BITS, &mut tmp);
    proof {
        lemma_decode_block_words_at(utf15@, base as int, extra, 15, 0);
    }
    assert(tmp@ == d.subrange(0, 8));
    let first_count = if remainder_size < 7 {
        remainder_size
    } else {
        7
    };
    let mut j: usize = 0;
    while j < first_count
        invariant
            j <= first_count <= 7,
            tmp@ == d.subrange(0, 8),
            d.len() == 120,
            output@ == prefix + d.subrange(1, 1 + j),
        decreases first_count - j,
    {
        output.push(tmp[1 + j]);
        assert(output@ =~= prefix + d.subrange(1, 2 + j));
        j += 1;
    }
    if remainder_size <= 7 {
        return;
    }
    let semi_fast_blocks = (remainder_size - 7) / 8;
    let annoying_bytes = (remainder_size - 7) % 8;
    let mut inner: usize = 0;
    while inner < semi_fast_blocks
        invariant
            inner <= semi_fast_blocks,
            semi_fast_blocks <= 14,
            base + 64 <= utf15.len(),
            extra == extra_word(utf15@, base + 60),
            d == decode_block_words(utf15@, base as int, extra, 15),
            d.len() == 120,
            output@ == prefix + d.subrange(1, 8 + 8 * inner),
        decreases semi_fast_blocks - inner,
    {
        let ghost before = output@;
        decode_block(
            utf15,
            base + 4 + 4 * inner,
            (extra >> ((52 - 4 * inner) as u64)) & LOW_FOUR_BITS,
            output,
        );
        proof {
            lemma_decode_block_words_at(utf15@, base as int, extra, 15, inner + 1);
            lemma_subrange_split(d, 1, 8 + 8 * inner, 16 + 8 * inner);
        }
        assert(output@ =~= prefix + d.subrange(1, 16 + 8 * inner));
        inner += 1;
    }
    if annoying_bytes > 0 {
        let mut tmp2: Vec<u8> = Vec::new();
        decode_block(
            utf15,
            base + 4 + 4 * semi_fast_blocks,
            (extra >> ((52 - 4 * semi_fast_blocks) as u64)) & LOW_FOUR_BITS,
            &mut tmp2,
        );
        proof {
            lemma_decode_block_words_at(utf15@, base as int, extra, 15, semi_fast_blocks + 1);
        }
        let ghost start = 8 + 8 * semi_fast_blocks;
        assert(tmp2@ == d.subrange(start, start + 8));
        let mut j: usize = 0;
        while j < annoying_bytes
            invariant
                j <= annoying_bytes < 8,
                start == 8 + 8 * semi_fast_blocks,
                start + annoying_bytes == 1 + remainder_size,
                1 + remainder_size <= 120,
                tmp2@ == d.subrange(start, start + 8),
                d.len() == 120,
                output@ == prefix + d.subrange(1, start + j),
            decreases annoying_bytes - j,
        {
            output.push(tmp2[j]);
            assert(output@ =~= prefix + d.subrange(1, start + j + 1));
            j += 1;
        }
    }
}

/// Whether `utf15` has the shape of an encoding that can be decoded.
pub fn is_utf15_decodable(utf15: &[u16]) -> (ok: bool)
    ensures
        ok == utf15_decodable(utf15@),
{
    let len = utf15.len();
    if len == 0 {
        return true;
    }
    if len % OUTPUT_BLOCK_SIZE != 1 {
        return false;
    }
    let first = utf15[0];
    if first == HEADER_FULL_BLOCKS {
        return true;
    }
    if first != HEADER_WITH_REMAINDER || len == 1 {
        return false;
    }
    let size = remainder_size_at(utf15, len - OUTPUT_BLOCK_SIZE);
    size <= 119
}

/// Decodes the code units `utf15` back into the bytes that they encode, block by block,
/// writing the bytes of each word in turn.
pub fn utf15_to_bytestring(utf15: &[u16]) -> (output: Vec<u8>)
    requires
        utf15_decodable(utf15@),
    ensures
        output@ == utf15_decode(utf15@),
{
    if utf15.len() == 0 {
        return Vec::new();
    }
    let first = utf15[0];
    let has_remainder = first == HEADER_WITH_REMAINDER;
    let rest_len = utf15.len() - 1;
    let (fast_blocks, rem_size): (usize, usize) = if has_remainder {
        let remainder_start = 1 + (rest_len - OUTPUT_BLOCK_SIZE);
        (rest_len / OUTPUT_BLOCK_SIZE - 1, remainder_size_at(utf15, remainder_start))
    } else {
        (rest_len / OUTPUT_BLOCK_SIZE, 0)
    };
    assert(fast_blocks == full_block_count(utf15@));
    let mut output: Vec<u8> = Vec::new();
    let mut utf15_index: usize = 1;
    let mut block: usize = 0;
    while block < fast_blocks
        invariant
            block <= fast_blocks,
            fast_blocks == full_block_count(utf15@),
            1 + 64 * fast_blocks <= utf15.len(),
            utf15_index == 1 + 64 * block,
            output@ == decode_blocks(utf15@, block as nat),
        decreases fast_blocks - block,
    {
        decode_full_block(utf15, utf15_index, &mut output);
        utf15_index += OUTPUT_BLOCK_SIZE;
        block += 1;
    }
    if has_remainder {
        assert(rem_size == remainder_size(utf15@));
        decode_remainder(utf15, utf15_index, rem_size, &mut output);
    }
    output
}


/// `n` zero bytes.
spec fn zeros(n: nat) -> Seq<u8> {
    Seq::new(n, |i: int| 0u8)
}

/// `s` with the bytes from `pos` on replaced by `t`.
spec fn spliced(s: Seq<u8>, pos: int, t: Seq<u8>) -> Seq<u8> {
    s.subrange(0, pos) + t + s.subrange(pos + t.len(), s.len() as int)
}

/// Writing into the zeros that follow a prefix extends the prefix.
proof fn lemma_fill_zeros(p: Seq<u8>, t: Seq<u8>, m: nat)
    requires
        t.len() <= m,
    ensures
        spliced(p + zeros(m), p.len() as int, t) == p + t + zeros((m - t.len()) as nat),
{
    assert(spliced(p + zeros(m), p.len() as int, t) =~= p + t + zeros((m - t.len()) as nat));
}

/// Writing `b` right after a written `a` is writing `a + b`.
proof fn lemma_splice_append(s: Seq<u8>, p: int, a: Seq<u8>, b: Seq<u8>)
    requires
        0 <= p,
        p + a.len() + b.len() <= s.len(),
    ensures
        spliced(spliced(s, p, a), p + a.len(), b) == spliced(s, p, a + b),
{
    assert(spliced(spliced(s, p, a), p + a.len(), b) =~= spliced(s, p, a + b));
}

/// Writing `a` right before a written `t` is writing `a + t`.
proof fn lemma_splice_prepend(s: Seq<u8>, q: int, a: Seq<u8>, t: Seq<u8>)
    requires
        0 <= q - a.len(),
        q + t.len() <= s.len(),
    ensures
        spliced(spliced(s, q, t), q - a.len(), a) == spliced(s, q - a.len(), a + t),
{
    assert(spliced(spliced(s, q, t), q - a.len(), a) =~= spliced(s, q - a.len(), a + t));
}

/// Writes the eight bytes of `num`, least significant first, into `buf` at `pos`.
fn alt_write_u64(num: u64, buf: &mut Vec<u8>, pos: usize)
    requires
        pos + 8 <= old(buf).len(),
    ensures
        final(buf)@ == spliced(old(buf)@, pos as int, word_bytes(num)),
{
    buf[pos] = num as u8;
    buf[pos + 1] = (num >> 8u64) as u8;
    buf[pos + 2] = (num >> 16u64) as u8;
    buf[pos + 3] = (num >> 24u64) as u8;
    buf[pos + 4] = (num >> 32u64) as u8;
    buf[pos + 5] = (num >> 40u64) as u8;
    buf[pos + 6] = (num >> 48u64) as u8;
    buf[pos + 7] = (num >> 56u64) as u8;
    assert(buf@ =~= spliced(old(buf)@, pos as int, word_bytes(num)));
}

/// Rebuilds the word of the four code units `input` with `remainder` as its low nibble,
/// and writes its bytes into `output` at `pos`.
fn alt_decode_block(input: &[u16], remainder: u64, output: &mut Vec<u8>, pos: usize)
    requires
        input@.len() == 4,
        pos + 8 <= old(output).len(),
    ensures
        final(output)@ == spliced(
            old(output)@,
            pos as int,
            word_bytes(decode_word(input@, 0, remainder)),
        ),
{
    let mut accum = remainder;
    accum = accum | ((input[0] as u64) << 4u64);
    accum = accum | ((input[1] as u64) << 19u64);
    accum = accum | ((input[2] as u64) << 34u64);
    accum = accum | ((input[3] as u64) << 49u64);
    alt_write_u64(accum, output, pos);
}

/// Rebuilds the word of gathered low nibbles, shifted down by four bits, from the four
/// code units `input`.
fn alt_decode_extra(input: &[u16]) -> (accum: u64)
    requires
        input@.len() == 4,
    ensures
        accum == extra_word(input@, 0),
{
    let mut accum: u64 = input[0] as u64;
    accum = accum | ((input[1] as u64) << 15u64);
    accum = accum | ((input[2] as u64) << 30u64);
    accum = accum | ((input[3] as u64) << 45u64);
    accum
}

/// The group of four code units of `utf15` at `base`.
fn group_at(utf15: &[u16], base: usize) -> (group: &[u16])
    requires
        base + 4 <= utf15.len(),
    ensures
        group@ == utf15@.subrange(base as int, base + 4),
        forall|nib: u64| decode_word(group@, 0, nib) == #[trigger] decode_word(utf15@, base as int, nib),
        extra_word(group@, 0) == extra_word(utf15@, base as int),
{
    slice_subrange(utf15, base, base + 4)
}

/// Writes the 120 bytes of the block of `utf15` at `base` into `output` at `out_pos`,
/// decoding its words from the last one down.
fn alt_decode_full_block(utf15: &[u16], base: usize, output: &mut Vec<u8>, out_pos: usize)
    requires
        base + 64 <= utf15.len(),
        out_pos + 120 <= old(output).len(),
    ensures
        final(output)@ == spliced(
            old(output)@,
            out_pos as int,
            crate::format::decode_block(utf15@, base as int),
        ),
{
    let ghost start = output@;
    let ghost d = crate::format::decode_block(utf15@, base as int);
    let extra = alt_decode_extra(group_at(utf15, base + 60));
    proof {
        lemma_decode_block_words_len(utf15@, base as int, extra, 15);
        assert(spliced(start, out_pos + 120, d.subrange(120, 120)) =~= start);
    }
    let mut cur = extra;
    let mut g: usize = 15;
    assert(extra >> 0u64 == extra) by (bit_vector);
    while g > 0
        invariant
            g <= 15,
            base + 64 <= utf15.len(),
            out_pos + 120 <= output.len(),
            output@.len() == start.len(),
            extra == extra_word(utf15@, base + 60),
            d == decode_block_words(utf15@, base as int, extra, 15),
            d.len() == 120,
            cur == extra >> ((4 * (15 - g)) as u64),
            output@ == spliced(start, out_pos + 8 * g, d.subrange(8 * g as int, 120)),
        decreases g,
    {
        g -= 1;
        proof {
            lemma_decode_block_words_at(utf15@, base as int, extra, 15, g as int);
            crate::bits::lemma_shift_down_twice(extra, (4 * (14 - g)) as u64);
            lemma_splice_prepend(
                start,
                out_pos + 8 * (g + 1),
                d.subrange(8 * g as int, 8 * (g + 1)),
                d.subrange(8 * (g + 1), 120),
            );
            lemma_subrange_split(d, 8 * g as int, 8 * (g + 1), 120);
        }
        alt_decode_block(group_at(utf15, base + 4 * g), cur & LOW_FOUR_BITS, output, out_pos + 8 * g);
        cur = cur >> 4u64;
    }
    assert(d.subrange(0, 120) =~= d);
}

/// Writes bytes `1` to `1 + remainder_size` of the block of `utf15` at `base` into `output`
/// at `out_pos`, decoding only the words that hold them.
fn alt_decode_remainder(
    utf15: &[u16],
    base: usize,
    remainder_size: usize,
    output: &mut Vec<u8>,
    out_pos: usize,
)
    requires
        base + 64 <= utf15.len(),
        remainder_size <= 119,
        out_pos + remainder_size <= old(output).len(),
    ensures
        final(output)@ == spliced(
            old(output)@,
            out_pos as int,
            crate::format::decode_block(utf15@, base as int).subrange(1, 1 + remainder_size),
        ),
{
    let ghost start = output@;
    let ghost d = crate::format::decode_block(utf15@, base as int);
    let extra = alt_decode_extra(group_at(utf15, base + 60));
    proof {
        lemma_decode_block_words_len(utf15@, base as int, extra, 15);
        lemma_decode_block_words_at(utf15@, base as int, extra, 15, 0);
        assert(spliced(start, out_pos as int, d.subrange(1, 1)) =~= start);
    }
    let mut tmp: Vec<u8> = vec![0u8; 8];
    alt_decode_block(group_at(utf15, base), (extra >> 56u64) & LOW_FOUR_BITS, &mut tmp, 0);
    assert(tmp@ =~= d.subrange(0, 8));
    let first_count = if remainder_size < 7 {
        remainder_size
    } else {
        7
    };
    let mut j: usize = 0;
    while j < first_count
        invariant
            j <= first_count <= 7,
            first_count <= remainder_size <= 119,
            out_pos + remainder_size <= output.len(),
            output@.len() == start.len(),
            tmp@ == d.subrange(0, 8),
            d.len() == 120,
            output@ == spliced(start, out_pos as int, d.subrange(1, 1 + j)),
        decreases first_count - j,
    {
        output[out_pos + j] = tmp[1 + j];
        proof {
            lemma_splice_append(start, out_pos as int, d.subrange(1, 1 + j), seq![tmp@[1 + j]]);
            assert(d.subrange(1, 1 + j) + seq![tmp@[1 + j]] =~= d.subrange(1, 2 + j));
        }
        assert(output@ =~= spliced(spliced(start, out_pos as int, d.subrange(1, 1 + j)), out_pos + j, seq![tmp@[1 + j]]));
        j += 1;
    }
    if remainder_size <= 7 {
        return;
    }
    let semi_fast_bytes = (remainder_size - 7) / 8;
    let annoying_bytes = (remainder_size - 7) % 8;
    let mut group: usize = 0;
    while group < semi_fast_bytes
        invariant
            group <= semi_fast_bytes,
            semi_fast_bytes == (remainder_size - 7) / 8,
            7 < remainder_size <= 119,
            base + 64 <= utf15.len(),
            out_pos + remainder_size <= output.len(),
            output@.len() == start.len(),
            extra == extra_word(utf15@, base + 60),
            d == decode_block_words(utf15@, base as int, extra, 15),
            d.len() == 120,
            output@ == spliced(start, out_pos as int, d.subrange(1, 8 + 8 * group)),
        decreases semi_fast_bytes - group,
    {
        proof {
            lemma_decode_block_words_at(utf15@, base as int, extra, 15, group + 1);
            lemma_splice_append(
                start,
                out_pos as int,
                d.subrange(1, 8 + 8 * group),
                d.subrange(8 + 8 * group, 16 + 8 * group),
            );
            lemma_subrange_split(d, 1, 8 + 8 * group, 16 + 8 * group);
        }
        alt_decode_block(
            group_at(utf15, base + 4 + 4 * group),
            (extra >> ((52 - 4 * group) as u64)) & LOW_FOUR_BITS,
            output,
            out_pos + 7 + 8 * group,
        );
        group += 1;
    }
    if annoying_bytes > 0 {
        let mut tmp2: Vec<u8> = vec![0u8; 8];
        alt_decode_block(
            group_at(utf15, base + 4 + 4 * semi_fast_bytes),
            (extra >> ((52 - 4 * semi_fast_bytes) as u64)) & LOW_FOUR_BITS,
            &mut tmp2,
            0,
        );
        proof {
            lemma_decode_block_words_at(utf15@, base as int, extra, 15, semi_fast_bytes + 1);
        }
        let start_byte: usize = 8 + 8 * semi_fast_bytes;
        assert(tmp2@ =~= d.subrange(start_byte as int, start_byte + 8));
        let mut i: usize = 0;
        while i < annoying_bytes
            invariant
                i <= annoying_bytes < 8,
                start_byte == 8 + 8 * semi_fast_bytes,
                start_byte + annoying_bytes == 1 + remainder_size,
                1 + remainder_size <= 120,
                out_pos + remainder_size <= output.len(),
                output@.len() == start.len(),
                tmp2@ == d.subrange(start_byte as int, start_byte + 8),
                d.len() == 120,
                output@ == spliced(start, out_pos as int, d.subrange(1, start_byte + i as int)),
            decreases annoying_bytes - i,
        {
            output[out_pos + start_byte - 1 + i] = tmp2[i];
            proof {
                lemma_splice_append(start, out_pos as int, d.subrange(1, start_byte + i as int), seq![tmp2@[i as int]]);
                assert(d.subrange(1, start_byte + i as int) + seq![tmp2@[i as int]] =~= d.subrange(1, start_byte + i as int + 1));
            }
            assert(output@ =~= spliced(spliced(start, out_pos as int, d.subrange(1, start_byte + i as int)), out_pos + start_byte - 1 + i, seq![tmp2@[i as int]]));
            i += 1;
        }
    }
}

/// Decodes the code units `utf15` back into the bytes that they encode, into an output
/// allocated at its final length, decoding the words of each full block from the last
/// one down.
///
/// The output's length, `120` per full block plus the stated remainder, is computed in a
/// `usize`; a slice of `u16` never holds more than `usize::MAX / 2` elements.
pub fn alt_utf15_to_bytestring(utf15: &[u16]) -> (output: Vec<u8>)
    requires
        utf15_decodable(utf15@),
        utf15@.len() <= usize::MAX / 2,
    ensures
        output@ == utf15_decode(utf15@),
{
    if utf15.len() == 0 {
        return Vec::new();
    }
    let first = utf15[0];
    let has_remainder = first == HEADER_WITH_REMAINDER;
    let chunk_count = (utf15.len() - 1) / OUTPUT_BLOCK_SIZE;
    let (fast_blocks, rem_size): (usize, usize) = if has_remainder {
        let remainder_base = 1 + OUTPUT_BLOCK_SIZE * (chunk_count - 1);
        let mut buf: Vec<u8> = vec![0u8; 8];
        let extra = ((utf15[remainder_base + 63] >> 11u16) as u64) & LOW_FOUR_BITS;
        alt_decode_block(group_at(utf15, remainder_base), extra, &mut buf, 0);
        proof {
            let x = extra_word(utf15@, remainder_base + 60);
            lemma_first_nibble(
                utf15@[remainder_base + 60],
                utf15@[remainder_base + 61],
                utf15@[remainder_base + 62],
                utf15@[remainder_base + 63],
            );
            assert(word_nibble(x, 0) == extra);
            lemma_decode_block_words_at(utf15@, remainder_base as int, x, 15, 0);
            lemma_decode_block_words_len(utf15@, remainder_base as int, x, 15);
            let d = crate::format::decode_block(utf15@, remainder_base as int);
            assert(d[0] == d.subrange(0, 8)[0]);
            assert(buf@[0] == d[0]);
        }
        (chunk_count - 1, buf[0] as usize)
    } else {
        (chunk_count, 0)
    };
    assert(fast_blocks == full_block_count(utf15@));
    assert(has_remainder ==> rem_size == remainder_size(utf15@));
    let total = INPUT_BLOCK_SIZE * fast_blocks + rem_size;
    let mut output: Vec<u8> = vec![0u8; total];
    assert(output@ =~= decode_blocks(utf15@, 0) + zeros(total as nat));
    let mut block: usize = 0;
    while block < fast_blocks
        invariant
            block <= fast_blocks,
            fast_blocks == full_block_count(utf15@),
            1 + 64 * fast_blocks <= utf15.len(),
            total == 120 * fast_blocks + rem_size,
            output@ == decode_blocks(utf15@, block as nat) + zeros((total - 120 * block) as nat),
        decreases fast_blocks - block,
    {
        proof {
            lemma_decode_blocks_len(utf15@, block as nat);
            lemma_decode_block_words_len(utf15@, 1 + 64 * block, extra_word(utf15@, 1 + 64 * block + 60), 15);
            lemma_fill_zeros(
                decode_blocks(utf15@, block as nat),
                crate::format::decode_block(utf15@, 1 + 64 * block),
                (total - 120 * block) as nat,
            );
        }
        alt_decode_full_block(utf15, 1 + 64 * block, &mut output, 120 * block);
        block += 1;
    }
    if has_remainder {
        proof {
            lemma_decode_blocks_len(utf15@, fast_blocks as nat);
            lemma_fill_zeros(
                decode_blocks(utf15@, fast_blocks as nat),
                crate::format::decode_block(utf15@, 1 + 64 * fast_blocks).subrange(1, 1 + rem_size),
                rem_size as nat,
            );
        }
        alt_decode_remainder(utf15, 1 + 64 * fast_blocks, rem_size, &mut output, 120 * fast_blocks);
    }
    assert(zeros(0) =~= Seq::<u8>::empty());
    output
}

} // verus!
