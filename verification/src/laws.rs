//! What holds of the encoding as a whole.
use vstd::prelude::*;
use crate::format::{
    all_15_bit, block_count, block_extras, block_word_units, decode_block, decode_blocks,
    encode_block, encode_blocks, extra_word, full_block_count, remainder_block, remainder_size,
    utf15_decodable, utf15_decode, utf15_encode, utf15_encode_block_loop, word_units,
};
use crate::bits::lemma_word_units_15_bit;
use crate::pieces::{
    lemma_block_word_units_len, lemma_concat_left, lemma_concat_right, lemma_decode_encoded_block,
    lemma_decode_block_words_len, lemma_decode_blocks_len, lemma_decode_encoded_blocks,
    lemma_encode_block_len, lemma_encode_blocks_len,
};

verus! {

proof fn lemma_concat_15_bit(a: Seq<u16>, c: Seq<u16>)
    requires
        all_15_bit(a),
        all_15_bit(c),
    ensures
        all_15_bit(a + c),
{
    assert forall|i: int| 0 <= i < (a + c).len() implies #[trigger] (a + c)[i] <= 0x7FFF by {
        if i < a.len() {
            assert((a + c)[i] == a[i]);
        } else {
            assert((a + c)[i] == c[i - a.len()]);
        }
    }
}

proof fn lemma_block_word_units_15_bit(b: Seq<u8>, start: int, k: nat)
    ensures
        all_15_bit(block_word_units(b, start, k)),
    decreases k,
{
    if k > 0 {
        lemma_block_word_units_15_bit(b, start, (k - 1) as nat);
        lemma_word_units_15_bit(crate::format::le_word(b, start + 8 * (k - 1)));
        lemma_concat_15_bit(
            block_word_units(b, start, (k - 1) as nat),
            word_units(crate::format::le_word(b, start + 8 * (k - 1))),
        );
    }
}

proof fn lemma_encode_block_15_bit(b: Seq<u8>, start: int)
    ensures
        all_15_bit(encode_block(b, start)),
{
    lemma_block_word_units_15_bit(b, start, 15);
    lemma_word_units_15_bit(block_extras(b, start, 15));
    lemma_concat_15_bit(block_word_units(b, start, 15), word_units(block_extras(b, start, 15)));
}

proof fn lemma_encode_blocks_15_bit(b: Seq<u8>, k: nat)
    ensures
        all_15_bit(encode_blocks(b, k)),
    decreases k,
{
    if k > 0 {
        lemma_encode_blocks_15_bit(b, (k - 1) as nat);
        lemma_encode_block_15_bit(b, 120 * (k - 1));
        lemma_concat_15_bit(encode_blocks(b, (k - 1) as nat), encode_block(b, 120 * (k - 1)));
    }
}

/// Every encoding consists of 15-bit code units (so it is valid UTF-16 without any
/// surrogate); it is empty for the empty string and otherwise has a header and 64 units
/// for each started block of 120 bytes; the header is `0x30` exactly when the length is
/// a multiple of 120.
pub proof fn law_encoding_shape(b: Seq<u8>)
    ensures
        all_15_bit(utf15_encode(b)),
        forall|i: int| 0 <= i < utf15_encode(b).len() ==> #[trigger] utf15_encode(b)[i] <= 0x7FFFu16,
        b.len() == 0 ==> utf15_encode(b).len() == 0,
        b.len() > 0 ==> utf15_encode(b).len() == 1 + 64 * ((b.len() + 119) / 120),
        b.len() > 0 ==> (utf15_encode(b)[0] == 0x30u16 <==> b.len() % 120 == 0),
        b.len() > 0 ==> (utf15_encode(b)[0] == 0x31u16 <==> b.len() % 120 != 0),
{
    let n = b.len();
    let nf = n / 120;
    if n > 0 {
        lemma_encode_blocks_len(b, nf);
        lemma_encode_blocks_15_bit(b, nf);
        let hdr: Seq<u16> = if n % 120 == 0 {
            seq![0x30u16]
        } else {
            seq![0x31u16]
        };
        assert(all_15_bit(hdr));
        lemma_concat_15_bit(hdr, encode_blocks(b, nf));
        if n % 120 != 0 {
            lemma_encode_block_len(remainder_block(b), 0);
            lemma_encode_block_15_bit(remainder_block(b), 0);
            lemma_concat_15_bit(hdr + encode_blocks(b, nf), encode_block(remainder_block(b), 0));
            assert((n + 119) / 120 == nf + 1);
        } else {
            assert((n + 119) / 120 == nf);
        }
    }
}

/// An encoding made of full blocks only decodes to the encoded bytes.
proof fn lemma_decode_encode_full_blocks(b: Seq<u8>)
    requires
        b.len() > 0,
        b.len() % 120 == 0,
    ensures
        utf15_decodable(utf15_encode(b)),
        utf15_decode(utf15_encode(b)) == b,
{
    let n = b.len();
    let nf = n / 120;
    let u = utf15_encode(b);
    let eb = encode_blocks(b, nf);
    let hdr = seq![0x30u16];
    lemma_encode_blocks_len(b, nf);
    assert(n == 120 * nf);
    lemma_concat_right(hdr, eb);
    assert(u.len() == 1 + 64 * nf);
    assert(block_count(u) == nf);
    lemma_decode_encoded_blocks(b, u, nf);
    assert(b.subrange(0, 120 * nf as int) =~= b);
}

/// An encoding that ends with a partial block decodes to the encoded bytes.
proof fn lemma_decode_encode_with_remainder(b: Seq<u8>)
    requires
        b.len() % 120 != 0,
    ensures
        utf15_decodable(utf15_encode(b)),
        utf15_decode(utf15_encode(b)) == b,
{
    let n = b.len();
    let nf = n / 120;
    let u = utf15_encode(b);
    let eb = encode_blocks(b, nf);
    let hdr = seq![0x31u16];
    let rb = remainder_block(b);
    let er = encode_block(rb, 0);
    lemma_encode_blocks_len(b, nf);
    assert(n == 120 * nf + n % 120);
    lemma_encode_block_len(rb, 0);
    assert(rb.len() == 120);
    assert(u == hdr + eb + er);
    assert(u.len() == 1 + 64 * nf + 64);
    assert(block_count(u) == nf + 1);
    assert(full_block_count(u) == nf);
    lemma_concat_left(hdr + eb, er, 1, 1 + 64 * nf as int);
    lemma_concat_right(hdr, eb);
    lemma_decode_encoded_blocks(b, u, nf);
    lemma_concat_right(hdr + eb, er);
    lemma_decode_encoded_block(rb, 0, u, 1 + 64 * nf as int);
    assert(rb.subrange(0, 120) =~= rb);
    assert(decode_block(u, 1 + 64 * nf as int) == rb);
    assert(remainder_size(u) == n % 120);
    assert(rb.subrange(1, 1 + (n % 120) as int) =~= b.subrange(120 * nf as int, n as int));
    assert(decode_blocks(u, nf) == b.subrange(0, 120 * nf as int));
    assert(utf15_decode(u) =~= b);
}

/// Every encoding can be decoded, and decoding it gives back the encoded bytes.
pub proof fn law_decode_encode(b: Seq<u8>)
    ensures
        utf15_decodable(utf15_encode(b)),
        utf15_decode(utf15_encode(b)) == b,
{
    if b.len() == 0 {
        assert(b =~= Seq::<u8>::empty());
    } else if b.len() % 120 == 0 {
        lemma_decode_encode_full_blocks(b);
    } else {
        lemma_decode_encode_with_remainder(b);
    }
}

/// What the block loop of `bytestring_to_utf15` produces decodes to the encoded bytes,
/// for every byte string but those of exactly 120 bytes.
pub proof fn law_block_loop_decode(b: Seq<u8>)
    requires
        b.len() != 120,
    ensures
        utf15_decodable(utf15_encode_block_loop(b)),
        utf15_decode(utf15_encode_block_loop(b)) == b,
{
    law_decode_encode(b);
}

/// The block loop of `bytestring_to_utf15` produces the encoding of every byte string
/// whose length is not 120, and for one of 120 bytes the header `0x30` followed by 64
/// zero code units.
pub proof fn law_block_loop_is_encoding(b: Seq<u8>)
    ensures
        b.len() != 120 ==> utf15_encode_block_loop(b) == utf15_encode(b),
        b.len() == 120 ==> utf15_encode_block_loop(b).len() == 65,
        b.len() == 120 ==> utf15_encode_block_loop(b)[0] == 0x30u16,
        b.len() == 120 ==> forall|i: int| 1 <= i < 65 ==> #[trigger] utf15_encode_block_loop(b)[i] == 0u16,
{
}

/// Different byte strings have different encodings.
pub proof fn law_encoding_injective(a: Seq<u8>, b: Seq<u8>)
    requires
        utf15_encode(a) == utf15_encode(b),
    ensures
        a == b,
{
    law_decode_encode(a);
    law_decode_encode(b);
}

/// A decodable, non-empty sequence decodes to 120 bytes per full block, plus, under the
/// header `0x31`, the length that its last block states.
pub proof fn law_decoded_length(u: Seq<u16>)
    requires
        utf15_decodable(u),
        u.len() > 0,
    ensures
        utf15_decode(u).len() == 120 * full_block_count(u) + (if u[0] == 0x31u16 {
            remainder_size(u)
        } else {
            0
        }),
{
    let k = full_block_count(u);
    lemma_decode_blocks_len(u, k);
    if u[0] == 0x31u16 {
        let base = 1 + 64 * k as int;
        lemma_decode_block_words_len(u, base, extra_word(u, base + 60), 15);
        assert(block_count(u) == k + 1);
    }
}

} // verus!
