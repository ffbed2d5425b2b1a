//! The format described byte by byte and unit by unit, directly from its layout, and the
//! laws that tie the encoding, the decoding and the shape check to that description.
use vstd::prelude::*;
use crate::format::{
    block_extras, decode_block, decode_block_words, decode_blocks, encode_block, encode_blocks,
    extra_word, le_word, remainder_block, utf15_decodable, utf15_decode, utf15_encode,
    word_bytes, word_units,
};
use crate::bits::{lemma_extra_word_units, lemma_first_nibble, lemma_shift_down_twice};
use crate::pieces::{
    lemma_block_extras_at, lemma_concat_left, lemma_concat_right, lemma_decode_block_words_at,
    lemma_decode_block_words_len, lemma_decode_blocks_len, lemma_encode_block_extras,
    lemma_encode_block_len, lemma_encode_block_word, lemma_encode_blocks_at,
    lemma_encode_blocks_len, lemma_subrange_of_subrange,
};

verus! {

/// Byte `i` (below 120) of block `k` of the byte string `b`: a byte of `b` for a full
/// block; for the last, partial block, first its length, then its bytes in order, then
/// zeros.
pub open spec fn model_block_byte(b: Seq<u8>, k: int, i: int) -> u8 {
    if k < b.len() / 120 {
        b[120 * k + i]
    } else if i == 0 {
        (b.len() % 120) as u8
    } else if i <= b.len() % 120 {
        b[120 * (b.len() / 120) + i - 1]
    } else {
        0u8
    }
}

/// Data word `w` (below 15) of block `k` of `b`: its bytes `8w` to `8w + 7`, least
/// significant first.
pub open spec fn model_word(b: Seq<u8>, k: int, w: int) -> u64 {
    (model_block_byte(b, k, 8 * w) as u64) | ((model_block_byte(b, k, 8 * w + 1) as u64) << 8u64)
        | ((model_block_byte(b, k, 8 * w + 2) as u64) << 16u64) | ((model_block_byte(b, k, 8 * w
        + 3) as u64) << 24u64) | ((model_block_byte(b, k, 8 * w + 4) as u64) << 32u64) | ((
    model_block_byte(b, k, 8 * w + 5) as u64) << 40u64) | ((model_block_byte(b, k, 8 * w + 6)
        as u64) << 48u64) | ((model_block_byte(b, k, 8 * w + 7) as u64) << 56u64)
}

/// The field of 15 low nibbles carried by the last four code units of the block of `u`
/// at `base`: the nibble of data word `w` sits at bits `56 - 4w` to `59 - 4w`.
pub open spec fn model_nibble_field(u: Seq<u16>, base: int) -> u64 {
    (u[base + 60] as u64) | ((u[base + 61] as u64) << 15u64) | ((u[base + 62] as u64) << 30u64)
        | ((u[base + 63] as u64) << 45u64)
}

/// Byte `i` (below 120) that the block of 64 code units of `u` at `base` carries: byte
/// `i % 8` of the word made of the nibble of word `i / 8` and the four 15-bit fields of
/// units `4(i / 8)` to `4(i / 8) + 3`.
pub open spec fn model_unit_byte(u: Seq<u16>, base: int, i: int) -> u8 {
    let w = i / 8;
    let nib = (model_nibble_field(u, base) >> ((56 - 4 * w) as u64)) & 0xFu64;
    let word = nib | ((u[base + 4 * w] as u64) << 4u64) | ((u[base + 4 * w + 1] as u64) << 19u64)
        | ((u[base + 4 * w + 2] as u64) << 34u64) | ((u[base + 4 * w + 3] as u64) << 49u64);
    (word >> ((8 * (i % 8)) as u64)) as u8
}

/// The length that the block of `u` at `base` states: the low byte of its first word,
/// whose nibble sits in bits 11 to 14 of the block's last code unit.
pub open spec fn model_stated_length(u: Seq<u16>, base: int) -> nat {
    ((((u[base + 63] >> 11u16) as u64) & 0xFu64) | ((u[base] as u64) << 4u64) | ((u[base
        + 1] as u64) << 19u64) | ((u[base + 2] as u64) << 34u64) | ((u[base + 3] as u64)
        << 49u64)) as u8 as nat
}

/// The number of blocks of the non-empty sequence `u` that decode whole: all of them,
/// but the last one under the header `0x31`.
pub open spec fn model_full_blocks(u: Seq<u16>) -> int {
    (u.len() - 1) / 64 - (if u[0] == 0x31 {
        1int
    } else {
        0int
    })
}

proof fn lemma_word_units_index(w: u64, j: int)
    requires
        0 <= j < 4,
    ensures
        word_units(w)[j] == ((w >> ((4 + 15 * j) as u64)) & 0x7FFFu64) as u16,
{
}

proof fn lemma_word_bytes_index(w: u64, m: int)
    requires
        0 <= m < 8,
    ensures
        word_bytes(w)[m] == (w >> ((8 * m) as u64)) as u8,
{
    assert(w >> 0u64 == w) by (bit_vector);
}

/// The last block of an encoding is laid out as the model says.
proof fn lemma_remainder_block_bytes(b: Seq<u8>, i: int)
    requires
        b.len() % 120 != 0,
        0 <= i < 120,
    ensures
        remainder_block(b).len() == 120,
        remainder_block(b)[i] == model_block_byte(b, (b.len() / 120) as int, i),
{
    let n = b.len();
    let r = n % 120;
    let tail = b.subrange(120 * (n / 120) as int, n as int);
    let head = seq![r as u8] + tail;
    let pad = Seq::new((119 - r) as nat, |j: int| 0u8);
    assert(n == 120 * (n / 120) + r);
    assert(remainder_block(b) == head + pad);
    if i == 0 {
        assert(head[0] == r as u8);
    } else if i <= r {
        assert(head[i] == tail[i - 1]);
    } else {
        assert((head + pad)[i] == pad[i - head.len()]);
    }
}

/// The bytes behind block `k` of an encoding, seen as a sequence with its start.
proof fn lemma_block_source(b: Seq<u8>, k: int) -> (r: (Seq<u8>, int))
    requires
        b.len() > 0,
        0 <= k < (b.len() + 119) / 120,
    ensures
        0 <= r.1,
        r.1 + 120 <= r.0.len(),
        65 + 64 * k <= utf15_encode(b).len(),
        utf15_encode(b).subrange(1 + 64 * k, 65 + 64 * k) == encode_block(r.0, r.1),
        forall|i: int| 0 <= i < 120 ==> #[trigger] r.0[r.1 + i] == model_block_byte(b, k, i),
{
    let n = b.len();
    let nf = n / 120;
    let u = utf15_encode(b);
    let eb = encode_blocks(b, nf);
    lemma_encode_blocks_len(b, nf);
    crate::laws::law_encoding_shape(b);
    assert(n == 120 * nf + n % 120);
    let hdr: Seq<u16> = if n % 120 == 0 {
        seq![0x30u16]
    } else {
        seq![0x31u16]
    };
    if k < nf {
        lemma_encode_blocks_at(b, nf, k);
        if n % 120 == 0 {
            assert(u == hdr + eb);
            lemma_concat_right(hdr, eb);
        } else {
            let er = encode_block(remainder_block(b), 0);
            assert(u == hdr + eb + er);
            lemma_concat_left(hdr + eb, er, 1, 1 + 64 * nf as int);
            lemma_concat_right(hdr, eb);
        }
        lemma_subrange_of_subrange(u, 1, 1 + 64 * nf as int, 64 * k, 64 * k + 64);
        (b, 120 * k)
    } else {
        let rb = remainder_block(b);
        let er = encode_block(rb, 0);
        lemma_encode_block_len(rb, 0);
        assert(n % 120 != 0);
        assert(k == nf);
        assert(u == hdr + eb + er);
        lemma_concat_right(hdr + eb, er);
        assert forall|i: int| 0 <= i < 120 implies #[trigger] rb[0 + i] == model_block_byte(b, k, i) by {
            lemma_remainder_block_bytes(b, i);
        }
        lemma_remainder_block_bytes(b, 0);
        (rb, 0)
    }
}

/// Data word `w` of block `k` of the model is the word read from the bytes behind the block.
proof fn lemma_model_word(b: Seq<u8>, k: int, d: Seq<u8>, s: int, w: int)
    requires
        0 <= s,
        s + 120 <= d.len(),
        0 <= w < 15,
        forall|i: int| 0 <= i < 120 ==> #[trigger] d[s + i] == model_block_byte(b, k, i),
    ensures
        le_word(d, s + 8 * w) == model_word(b, k, w),
{
    assert(d[s + 8 * w] == model_block_byte(b, k, 8 * w));
    assert(d[s + (8 * w + 1)] == model_block_byte(b, k, 8 * w + 1));
    assert(d[s + (8 * w + 2)] == model_block_byte(b, k, 8 * w + 2));
    assert(d[s + (8 * w + 3)] == model_block_byte(b, k, 8 * w + 3));
    assert(d[s + (8 * w + 4)] == model_block_byte(b, k, 8 * w + 4));
    assert(d[s + (8 * w + 5)] == model_block_byte(b, k, 8 * w + 5));
    assert(d[s + (8 * w + 6)] == model_block_byte(b, k, 8 * w + 6));
    assert(d[s + (8 * w + 7)] == model_block_byte(b, k, 8 * w + 7));
}

/// In every block `k` of an encoding, code unit `4w + j` (for data word `w` below 15 and
/// `j` below 4) holds bits `4 + 15j` to `18 + 15j` of data word `w` of the block: the
/// block's bytes, or, for a partial last block, its length, its bytes in order and zeros.
pub proof fn law_encoding_data_unit(b: Seq<u8>, k: int, w: int, j: int)
    requires
        b.len() > 0,
        0 <= k < (b.len() + 119) / 120,
        0 <= w < 15,
        0 <= j < 4,
    ensures
        utf15_encode(b)[1 + 64 * k + 4 * w + j] == ((model_word(b, k, w) >> ((4 + 15 * j) as u64))
            & 0x7FFFu64) as u16,
{
    let u = utf15_encode(b);
    let (d, s) = lemma_block_source(b, k);
    lemma_model_word(b, k, d, s, w);
    lemma_encode_block_word(d, s, w);
    lemma_encode_block_len(d, s);
    assert(u[1 + 64 * k + 4 * w + j] == u.subrange(1 + 64 * k, 65 + 64 * k)[4 * w + j]);
    assert(encode_block(d, s)[4 * w + j] == encode_block(d, s).subrange(4 * w, 4 * w + 4)[j]);
    lemma_word_units_index(le_word(d, s + 8 * w), j);
}

/// In every block `k` of an encoding, the nibble field of the last four code units holds,
/// at bits `56 - 4w` to `59 - 4w`, the low nibble of data word `w`.
pub proof fn law_encoding_nibble_field(b: Seq<u8>, k: int, w: int)
    requires
        b.len() > 0,
        0 <= k < (b.len() + 119) / 120,
        0 <= w < 15,
    ensures
        (model_nibble_field(utf15_encode(b), 1 + 64 * k) >> ((56 - 4 * w) as u64)) & 0xFu64
            == model_word(b, k, w) & 0xFu64,
{
    let u = utf15_encode(b);
    let (d, s) = lemma_block_source(b, k);
    let e = block_extras(d, s, 15);
    lemma_model_word(b, k, d, s, w);
    lemma_encode_block_len(d, s);
    lemma_encode_block_extras(d, s);
    lemma_subrange_of_subrange(u, 1 + 64 * k, 65 + 64 * k, 60, 64);
    lemma_extra_word_units(u, 1 + 64 * k + 60, e);
    assert(model_nibble_field(u, 1 + 64 * k) == extra_word(u, 1 + 64 * k + 60));
    lemma_shift_down_twice(e, (56 - 4 * w) as u64);
    lemma_block_extras_at(d, s, 15, w);
}

/// Byte `i` of a decoded block is the model's byte `i` of its code units.
proof fn lemma_decode_block_byte(u: Seq<u16>, base: int, i: int)
    requires
        0 <= base,
        base + 64 <= u.len(),
        0 <= i < 120,
    ensures
        decode_block(u, base).len() == 120,
        decode_block(u, base)[i] == model_unit_byte(u, base, i),
{
    let x = extra_word(u, base + 60);
    let w = i / 8;
    let m = i % 8;
    lemma_decode_block_words_len(u, base, x, 15);
    lemma_decode_block_words_at(u, base, x, 15, w);
    assert(decode_block(u, base)[i] == decode_block(u, base).subrange(8 * w, 8 * w + 8)[m]);
    assert(x == model_nibble_field(u, base));
    lemma_word_bytes_index(
        crate::format::decode_word(u, base + 4 * w, crate::format::word_nibble(x, w)),
        m,
    );
}

/// The length a block states is the model's stated length.
proof fn lemma_stated_length(u: Seq<u16>, base: int)
    requires
        0 <= base,
        base + 64 <= u.len(),
    ensures
        decode_block(u, base)[0] == model_stated_length(u, base),
{
    lemma_decode_block_byte(u, base, 0);
    lemma_first_nibble(u[base + 60], u[base + 61], u[base + 62], u[base + 63]);
    let word = ((((u[base + 63] >> 11u16) as u64) & 0xFu64) | ((u[base] as u64) << 4u64) | ((u[base
        + 1] as u64) << 19u64) | ((u[base + 2] as u64) << 34u64) | ((u[base + 3] as u64)
        << 49u64));
    assert(word >> 0u64 == word) by (bit_vector);
}

/// Block `k` of the decoded full blocks stands at bytes `120k` to `120k + 120`.
proof fn lemma_decode_blocks_at(u: Seq<u16>, kk: nat, k: int)
    requires
        0 <= k < kk,
        1 + 64 * kk <= u.len(),
    ensures
        decode_blocks(u, kk).subrange(120 * k, 120 * k + 120) == decode_block(u, 1 + 64 * k),
    decreases kk,
{
    let prev = decode_blocks(u, (kk - 1) as nat);
    let last = decode_block(u, 1 + 64 * (kk - 1));
    lemma_decode_blocks_len(u, (kk - 1) as nat);
    lemma_decode_block_words_len(u, 1 + 64 * (kk - 1), extra_word(u, 1 + 64 * (kk - 1) + 60), 15);
    if k == kk - 1 {
        lemma_concat_right(prev, last);
    } else {
        lemma_decode_blocks_at(u, (kk - 1) as nat, k);
        lemma_concat_left(prev, last, 120 * k, 120 * k + 120);
    }
}

/// A sequence of code units is decodable exactly when it is empty, or has a length of
/// one more than a multiple of 64 and either the header `0x30`, or the header `0x31`,
/// at least one block, and a last block that states a length of at most 119; nothing
/// else about its code units matters.
pub proof fn law_decodable_shape(u: Seq<u16>)
    ensures
        utf15_decodable(u) <==> (u.len() == 0 || (u.len() % 64 == 1 && (u[0] == 0x30u16 || (u[0]
            == 0x31u16 && u.len() > 1 && model_stated_length(u, u.len() - 64) <= 119)))),
{
    if u.len() > 1 && u.len() % 64 == 1 {
        assert(1 + 64 * (crate::format::block_count(u) - 1) == u.len() - 64);
        lemma_stated_length(u, u.len() - 64);
    }
}

/// A decodable, non-empty sequence decodes to 120 bytes per full block, plus, under the
/// header `0x31`, the length that its last block states.
pub proof fn law_decoded_length_by_shape(u: Seq<u16>)
    requires
        utf15_decodable(u),
        u.len() > 0,
    ensures
        utf15_decode(u).len() == 120 * model_full_blocks(u) + (if u[0] == 0x31u16 {
            model_stated_length(u, u.len() - 64) as int
        } else {
            0int
        }),
{
    crate::laws::law_decoded_length(u);
    if u[0] == 0x31u16 {
        assert(1 + 64 * (crate::format::block_count(u) - 1) == u.len() - 64);
        lemma_stated_length(u, u.len() - 64);
    }
}

/// Every byte of the decoding of a decodable sequence: byte `p` of the full blocks is
/// byte `p % 120` carried by block `p / 120`; after them, under the header `0x31`, come
/// bytes 1, 2, ... carried by the last block (its byte 0 being the stated length).
pub proof fn law_decoded_byte(u: Seq<u16>, p: int)
    requires
        utf15_decodable(u),
        u.len() > 0,
        0 <= p < utf15_decode(u).len(),
    ensures
        utf15_decode(u)[p] == (if p < 120 * model_full_blocks(u) {
            model_unit_byte(u, 1 + 64 * (p / 120), p % 120)
        } else {
            model_unit_byte(u, 1 + 64 * model_full_blocks(u), 1 + p - 120 * model_full_blocks(u))
        }),
{
    let nf = crate::format::full_block_count(u);
    assert(nf == model_full_blocks(u));
    lemma_decode_blocks_len(u, nf);
    crate::laws::law_decoded_length(u);
    if p < 120 * nf {
        let k = p / 120;
        assert(utf15_decode(u)[p] == decode_blocks(u, nf)[p]);
        lemma_decode_blocks_at(u, nf, k);
        assert(decode_blocks(u, nf)[p] == decode_blocks(u, nf).subrange(120 * k, 120 * k + 120)[p
            % 120]);
        lemma_decode_block_byte(u, 1 + 64 * k, p % 120);
    } else {
        let base = 1 + 64 * nf as int;
        let q = p - 120 * nf as int;
        assert(u[0] == 0x31u16);
        lemma_decode_block_byte(u, base, 1 + q);
        let tail = decode_block(u, base).subrange(1, 1 + crate::format::remainder_size(u) as int);
        assert(utf15_decode(u) == decode_blocks(u, nf) + tail);
        assert(utf15_decode(u)[p] == tail[q]);
    }
}

} // verus!
