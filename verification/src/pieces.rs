//! Facts about the pieces that encodings and decodings are concatenated from: where each
//! word and each block stands, and how a block of code units decodes.
use vstd::prelude::*;
use crate::format::{
    block_extras, block_word_units, decode_block, decode_block_words, decode_blocks,
    decode_word, encode_block, encode_blocks, extra_word, le_word, word_bytes, word_nibble,
    word_units,
};
use crate::bits::{
    lemma_decode_word_units, lemma_extra_word_units, lemma_extras_keep, lemma_extras_step,
    lemma_le_word_bytes, lemma_shift_down_twice,
};

verus! {

/// A subrange inside the left part of a concatenation is a subrange of that part.
pub(crate) proof fn lemma_concat_left<T>(a: Seq<T>, c: Seq<T>, i: int, j: int)
    requires
        0 <= i <= j <= a.len(),
    ensures
        (a + c).subrange(i, j) == a.subrange(i, j),
{
    assert((a + c).subrange(i, j) =~= a.subrange(i, j));
}

/// The right part of a concatenation is the subrange after the left part.
pub(crate) proof fn lemma_concat_right<T>(a: Seq<T>, c: Seq<T>)
    ensures
        (a + c).subrange(a.len() as int, (a.len() + c.len()) as int) == c,
{
    assert((a + c).subrange(a.len() as int, (a.len() + c.len()) as int) =~= c);
}

/// A subrange of a subrange is a subrange.
pub(crate) proof fn lemma_subrange_of_subrange<T>(s: Seq<T>, i: int, j: int, k: int, l: int)
    requires
        0 <= i <= j <= s.len(),
        0 <= k <= l <= j - i,
    ensures
        s.subrange(i, j).subrange(k, l) == s.subrange(i + k, i + l),
{
    assert(s.subrange(i, j).subrange(k, l) =~= s.subrange(i + k, i + l));
}

/// Two adjacent subranges make up the subrange that spans them.
pub(crate) proof fn lemma_subrange_split<T>(s: Seq<T>, i: int, j: int, k: int)
    requires
        0 <= i <= j <= k <= s.len(),
    ensures
        s.subrange(i, j) + s.subrange(j, k) == s.subrange(i, k),
{
    assert(s.subrange(i, j) + s.subrange(j, k) =~= s.subrange(i, k));
}

pub(crate) proof fn lemma_block_word_units_len(b: Seq<u8>, start: int, k: nat)
    ensures
        block_word_units(b, start, k).len() == 4 * k,
    decreases k,
{
    if k > 0 {
        lemma_block_word_units_len(b, start, (k - 1) as nat);
    }
}

/// Word `i` of a block stands at code units `4i` to `4i + 4`.
pub(crate) proof fn lemma_block_word_units_at(b: Seq<u8>, start: int, k: nat, i: int)
    requires
        0 <= i < k,
    ensures
        block_word_units(b, start, k).subrange(4 * i, 4 * i + 4) == word_units(
            le_word(b, start + 8 * i),
        ),
    decreases k,
{
    let prev = block_word_units(b, start, (k - 1) as nat);
    let last = word_units(le_word(b, start + 8 * (k - 1)));
    lemma_block_word_units_len(b, start, (k - 1) as nat);
    if i == k - 1 {
        lemma_concat_right(prev, last);
    } else {
        lemma_block_word_units_at(b, start, (k - 1) as nat, i);
        lemma_concat_left(prev, last, 4 * i, 4 * i + 4);
    }
}

/// The word of gathered nibbles has its low nibble clear and nothing above bit `4k + 4`.
pub(crate) proof fn lemma_block_extras_bounds(b: Seq<u8>, start: int, k: nat)
    requires
        k <= 15,
    ensures
        block_extras(b, start, k) >> ((4 * k + 4) as u64) == 0,
        block_extras(b, start, k) & 0xFu64 == 0,
    decreases k,
{
    if k == 0 {
        assert(0u64 >> 4u64 == 0) by (bit_vector);
        assert(0u64 & 0xFu64 == 0) by (bit_vector);
    } else {
        lemma_block_extras_bounds(b, start, (k - 1) as nat);
        lemma_extras_step(
            block_extras(b, start, (k - 1) as nat),
            le_word(b, start + 8 * (k - 1)),
            (k - 1) as u64,
        );
    }
}

/// After `k` words, the low nibble of word `i` sits at bit `4(k - i)` of the gathered word.
pub(crate) proof fn lemma_block_extras_at(b: Seq<u8>, start: int, k: nat, i: int)
    requires
        k <= 15,
        0 <= i < k,
    ensures
        (block_extras(b, start, k) >> ((4 * (k - i)) as u64)) & 0xFu64 == le_word(
            b,
            start + 8 * i,
        ) & 0xFu64,
    decreases k,
{
    let e = block_extras(b, start, (k - 1) as nat);
    let w = le_word(b, start + 8 * (k - 1));
    lemma_block_extras_bounds(b, start, (k - 1) as nat);
    if i == k - 1 {
        lemma_extras_step(e, w, (k - 1) as u64);
    } else {
        lemma_block_extras_at(b, start, (k - 1) as nat, i);
        lemma_extras_keep(e, w, (k - 1) as u64, (4 * (k - 1 - i)) as u64);
    }
}

/// The words of a block read the same from the block cut out of its string.
pub(crate) proof fn lemma_block_words_shift(b: Seq<u8>, start: int, k: nat)
    requires
        0 <= start,
        start + 120 <= b.len(),
        k <= 15,
    ensures
        block_word_units(b.subrange(start, start + 120), 0, k) == block_word_units(b, start, k),
        block_extras(b.subrange(start, start + 120), 0, k) == block_extras(b, start, k),
    decreases k,
{
    if k > 0 {
        lemma_block_words_shift(b, start, (k - 1) as nat);
        assert(le_word(b.subrange(start, start + 120), 8 * (k - 1)) == le_word(
            b,
            start + 8 * (k - 1),
        ));
    }
}

/// A block encodes the same once cut out of its string.
pub(crate) proof fn lemma_encode_block_shift(b: Seq<u8>, start: int)
    requires
        0 <= start,
        start + 120 <= b.len(),
    ensures
        encode_block(b.subrange(start, start + 120), 0) == encode_block(b, start),
{
    lemma_block_words_shift(b, start, 15);
}

pub(crate) proof fn lemma_encode_block_len(b: Seq<u8>, start: int)
    ensures
        encode_block(b, start).len() == 64,
{
    lemma_block_word_units_len(b, start, 15);
}

/// Data word `i` of an encoded block stands at code units `4i` to `4i + 4`.
pub(crate) proof fn lemma_encode_block_word(b: Seq<u8>, start: int, i: int)
    requires
        0 <= i < 15,
    ensures
        encode_block(b, start).subrange(4 * i, 4 * i + 4) == word_units(le_word(b, start + 8 * i)),
{
    lemma_block_word_units_len(b, start, 15);
    lemma_block_word_units_at(b, start, 15, i);
    lemma_concat_left(
        block_word_units(b, start, 15),
        word_units(block_extras(b, start, 15)),
        4 * i,
        4 * i + 4,
    );
}

/// The word of gathered nibbles stands at code units 60 to 64 of an encoded block.
pub(crate) proof fn lemma_encode_block_extras(b: Seq<u8>, start: int)
    ensures
        encode_block(b, start).subrange(60, 64) == word_units(block_extras(b, start, 15)),
{
    lemma_block_word_units_len(b, start, 15);
    lemma_concat_right(block_word_units(b, start, 15), word_units(block_extras(b, start, 15)));
}

pub(crate) proof fn lemma_decode_block_words_len(u: Seq<u16>, base: int, x: u64, k: nat)
    ensures
        decode_block_words(u, base, x, k).len() == 8 * k,
    decreases k,
{
    if k > 0 {
        lemma_decode_block_words_len(u, base, x, (k - 1) as nat);
    }
}

/// Decoded word `i` stands at bytes `8i` to `8i + 8`.
pub(crate) proof fn lemma_decode_block_words_at(u: Seq<u16>, base: int, x: u64, k: nat, i: int)
    requires
        0 <= i < k,
    ensures
        decode_block_words(u, base, x, k).subrange(8 * i, 8 * i + 8) == word_bytes(
            decode_word(u, base + 4 * i, word_nibble(x, i)),
        ),
    decreases k,
{
    let prev = decode_block_words(u, base, x, (k - 1) as nat);
    let last = word_bytes(decode_word(u, base + 4 * (k - 1), word_nibble(x, k - 1)));
    lemma_decode_block_words_len(u, base, x, (k - 1) as nat);
    if i == k - 1 {
        lemma_concat_right(prev, last);
    } else {
        lemma_decode_block_words_at(u, base, x, (k - 1) as nat, i);
        lemma_concat_left(prev, last, 8 * i, 8 * i + 8);
    }
}

/// The first `k` words of an encoded block decode to the first `8k` bytes of the block.
pub(crate) proof fn lemma_decode_encoded_words(b: Seq<u8>, start: int, u: Seq<u16>, base: int, k: nat)
    requires
        0 <= start,
        start + 120 <= b.len(),
        0 <= base,
        base + 64 <= u.len(),
        u.subrange(base, base + 64) == encode_block(b, start),
        k <= 15,
    ensures
        decode_block_words(u, base, extra_word(u, base + 60), k) == b.subrange(
            start,
            start + 8 * k,
        ),
    decreases k,
{
    if k == 0 {
        assert(b.subrange(start, start) =~= Seq::<u8>::empty());
    } else {
        lemma_decode_encoded_words(b, start, u, base, (k - 1) as nat);
        let i = k - 1;
        let e = block_extras(b, start, 15);
        let w = le_word(b, start + 8 * i);
        lemma_encode_block_len(b, start);
        lemma_encode_block_extras(b, start);
        lemma_subrange_of_subrange(u, base, base + 64, 60, 64);
        lemma_extra_word_units(u, base + 60, e);
        lemma_shift_down_twice(e, (56 - 4 * i) as u64);
        lemma_block_extras_at(b, start, 15, i);
        assert(word_nibble(extra_word(u, base + 60), i) == w & 0xFu64);
        lemma_encode_block_word(b, start, i);
        lemma_subrange_of_subrange(u, base, base + 64, 4 * i, 4 * i + 4);
        lemma_decode_word_units(u, base + 4 * i, w);
        lemma_le_word_bytes(b, start + 8 * i);
        lemma_subrange_split(b, start, start + 8 * i, start + 8 * k);
    }
}

/// An encoded block decodes to the block.
pub(crate) proof fn lemma_decode_encoded_block(b: Seq<u8>, start: int, u: Seq<u16>, base: int)
    requires
        0 <= start,
        start + 120 <= b.len(),
        0 <= base,
        base + 64 <= u.len(),
        u.subrange(base, base + 64) == encode_block(b, start),
    ensures
        decode_block(u, base) == b.subrange(start, start + 120),
{
    lemma_decode_encoded_words(b, start, u, base, 15);
}

pub(crate) proof fn lemma_encode_blocks_len(b: Seq<u8>, k: nat)
    ensures
        encode_blocks(b, k).len() == 64 * k,
    decreases k,
{
    if k > 0 {
        lemma_encode_blocks_len(b, (k - 1) as nat);
        lemma_encode_block_len(b, 120 * (k - 1));
    }
}

/// Block `i` of the encoded blocks stands at code units `64i` to `64i + 64`.
pub(crate) proof fn lemma_encode_blocks_at(b: Seq<u8>, k: nat, i: int)
    requires
        0 <= i < k,
    ensures
        encode_blocks(b, k).subrange(64 * i, 64 * i + 64) == encode_block(b, 120 * i),
    decreases k,
{
    let prev = encode_blocks(b, (k - 1) as nat);
    let last = encode_block(b, 120 * (k - 1));
    lemma_encode_blocks_len(b, (k - 1) as nat);
    lemma_encode_block_len(b, 120 * (k - 1));
    if i == k - 1 {
        lemma_concat_right(prev, last);
    } else {
        lemma_encode_blocks_at(b, (k - 1) as nat, i);
        lemma_concat_left(prev, last, 64 * i, 64 * i + 64);
    }
}

pub(crate) proof fn lemma_decode_blocks_len(u: Seq<u16>, k: nat)
    ensures
        decode_blocks(u, k).len() == 120 * k,
    decreases k,
{
    if k > 0 {
        lemma_decode_blocks_len(u, (k - 1) as nat);
        lemma_decode_block_words_len(u, 1 + 64 * (k - 1), extra_word(u, 1 + 64 * (k - 1) + 60), 15);
    }
}

/// Code units that hold the encodings of the first `k` full blocks of `b` after a header
/// decode to the first `120k` bytes of `b`.
pub(crate) proof fn lemma_decode_encoded_blocks(b: Seq<u8>, u: Seq<u16>, k: nat)
    requires
        120 * k <= b.len(),
        1 + 64 * k <= u.len(),
        u.subrange(1, 1 + 64 * k as int) == encode_blocks(b, k),
    ensures
        decode_blocks(u, k) == b.subrange(0, 120 * k as int),
    decreases k,
{
    if k == 0 {
        assert(b.subrange(0, 0) =~= Seq::<u8>::empty());
    } else {
        let prev = encode_blocks(b, (k - 1) as nat);
        let last = encode_block(b, 120 * (k - 1));
        lemma_encode_blocks_len(b, (k - 1) as nat);
        lemma_subrange_of_subrange(u, 1, 1 + 64 * k as int, 0, 64 * (k - 1));
        lemma_concat_left(prev, last, 0, 64 * (k - 1));
        assert(prev.subrange(0, 64 * (k - 1)) =~= prev);
        lemma_decode_encoded_blocks(b, u, (k - 1) as nat);
        lemma_subrange_of_subrange(u, 1, 1 + 64 * k as int, 64 * (k - 1), 64 * k as int);
        lemma_encode_blocks_at(b, k, k - 1);
        lemma_decode_encoded_block(b, 120 * (k - 1), u, 1 + 64 * (k - 1));
        lemma_subrange_split(b, 0, 120 * (k - 1), 120 * k as int);
    }
}

} // verus!
