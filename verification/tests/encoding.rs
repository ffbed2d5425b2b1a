use utf15::decode::{alt_utf15_to_bytestring, is_utf15_decodable, utf15_to_bytestring};
use utf15::encode::{alt_bytestring_to_utf15, bytestring_to_utf15};

/// A bit-by-bit model of the encoding, written independently of the library.
fn model_encode(bytes: &[u8]) -> Vec<u16> {
    if bytes.is_empty() {
        return Vec::new();
    }
    let rem = bytes.len() % 120;
    let mut blocks: Vec<Vec<u8>> = bytes.chunks(120).filter(|c| c.len() == 120).map(|c| c.to_vec()).collect();
    if rem != 0 {
        let mut last = vec![rem as u8];
        last.extend_from_slice(&bytes[bytes.len() - rem..]);
        last.resize(120, 0);
        blocks.push(last);
    }
    let mut out = vec![if rem != 0 { 0x31u16 } else { 0x30u16 }];
    for block in blocks {
        let mut bits: Vec<bool> = Vec::new();
        for w in 0..15 {
            let word_bits: Vec<bool> = (0..64).map(|b| (block[8 * w + b / 8] >> (b % 8)) & 1 == 1).collect();
            bits.extend_from_slice(&word_bits[4..]);
        }
        // the low nibble of word w goes to bits 60 - 4w to 63 - 4w of the sixteenth word
        let mut extra = vec![false; 64];
        for w in 0..15 {
            for b in 0..4 {
                extra[60 - 4 * w + b] = (block[8 * w] >> b) & 1 == 1;
            }
        }
        bits.extend_from_slice(&extra[4..]);
        for u in 0..64 {
            let mut v: u16 = 0;
            for b in 0..15 {
                if bits[15 * u + b] {
                    v |= 1 << b;
                }
            }
            out.push(v);
        }
    }
    out
}

fn sample(len: usize, seed: u32) -> Vec<u8> {
    let mut x = seed.wrapping_mul(2654435761).wrapping_add(12345);
    (0..len)
        .map(|_| {
            x ^= x << 13;
            x ^= x >> 17;
            x ^= x << 5;
            (x >> 8) as u8
        })
        .collect()
}

const LENGTHS: [usize; 22] = [
    0, 1, 2, 7, 8, 9, 15, 16, 100, 118, 119, 121, 126, 127, 200, 239, 240, 241, 359, 360, 361, 1000,
];

#[test]
fn empty_input_encodes_to_nothing() {
    assert_eq!(bytestring_to_utf15(&[]), Vec::<u16>::new());
    assert_eq!(alt_bytestring_to_utf15(&[]), Vec::<u16>::new());
}

#[test]
fn one_byte_encodes_exactly() {
    let mut expected = vec![0u16; 65];
    expected[0] = 0x31;
    expected[1] = 0x0AB0;
    expected[64] = 0x0800;
    assert_eq!(bytestring_to_utf15(&[0xAB]), expected);
    assert_eq!(alt_bytestring_to_utf15(&[0xAB]), expected);
}

#[test]
fn full_block_header_is_0x30() {
    let bytes = sample(240, 3);
    let out = alt_bytestring_to_utf15(&bytes);
    assert_eq!(out.len(), 129);
    assert_eq!(out[0], 0x30);
    let out = bytestring_to_utf15(&bytes);
    assert_eq!(out.len(), 129);
    assert_eq!(out[0], 0x30);
}

#[test]
fn encoders_match_bit_model() {
    for (i, &len) in LENGTHS.iter().enumerate() {
        let bytes = sample(len, i as u32);
        let model = model_encode(&bytes);
        assert_eq!(alt_bytestring_to_utf15(&bytes), model, "alt, length {}", len);
        assert_eq!(bytestring_to_utf15(&bytes), model, "block loop, length {}", len);
    }
}

#[test]
fn all_ones_encode_to_full_units() {
    let bytes = vec![0xFFu8; 120 * 2];
    let out = alt_bytestring_to_utf15(&bytes);
    assert_eq!(out[0], 0x30);
    assert!(out[1..].iter().all(|&u| u == 0x7FFF));
}

#[test]
fn encoded_units_fit_in_15_bits() {
    for (i, &len) in LENGTHS.iter().enumerate() {
        let bytes = sample(len, 100 + i as u32);
        let out = alt_bytestring_to_utf15(&bytes);
        assert!(out.iter().all(|&u| u <= 0x7FFF));
        if len > 0 {
            assert_eq!(out.len(), 1 + 64 * ((len + 119) / 120));
        }
    }
}

#[test]
fn single_full_block_comes_out_as_zeros_from_block_loop() {
    let bytes = sample(120, 7);
    let out = bytestring_to_utf15(&bytes);
    let mut expected = vec![0u16; 65];
    expected[0] = 0x30;
    assert_eq!(out, expected);
    assert_eq!(utf15_to_bytestring(&out), vec![0u8; 120]);
    assert_eq!(alt_bytestring_to_utf15(&bytes), model_encode(&bytes));
}

#[test]
fn roundtrip_all_lengths() {
    for (i, &len) in LENGTHS.iter().enumerate() {
        let bytes = sample(len, 50 + i as u32);
        let enc = alt_bytestring_to_utf15(&bytes);
        assert!(is_utf15_decodable(&enc));
        assert_eq!(utf15_to_bytestring(&enc), bytes, "length {}", len);
        assert_eq!(alt_utf15_to_bytestring(&enc), bytes, "alt, length {}", len);
        let enc = bytestring_to_utf15(&bytes);
        assert_eq!(utf15_to_bytestring(&enc), bytes, "block loop, length {}", len);
    }
}

#[test]
fn roundtrip_every_remainder() {
    for len in 0..=480 {
        let bytes = sample(len, len as u32);
        let enc = alt_bytestring_to_utf15(&bytes);
        assert_eq!(utf15_to_bytestring(&enc), bytes, "length {}", len);
        assert_eq!(alt_utf15_to_bytestring(&enc), bytes, "alt, length {}", len);
    }
}

#[test]
fn roundtrip_one_mebibyte() {
    let bytes = sample(1024 * 1024, 99);
    let enc = bytestring_to_utf15(&bytes);
    assert_eq!(enc.len(), 1 + 64 * 8739);
    assert_eq!(enc[0], 0x31);
    assert_eq!(utf15_to_bytestring(&enc), bytes);
    let enc = alt_bytestring_to_utf15(&bytes);
    assert_eq!(alt_utf15_to_bytestring(&enc), bytes);
}

#[test]
fn decodes_empty_input() {
    assert!(is_utf15_decodable(&[]));
    assert_eq!(utf15_to_bytestring(&[]), Vec::<u8>::new());
    assert_eq!(alt_utf15_to_bytestring(&[]), Vec::<u8>::new());
}

#[test]
fn decodes_lone_header() {
    assert!(is_utf15_decodable(&[0x30]));
    assert_eq!(utf15_to_bytestring(&[0x30]), Vec::<u8>::new());
    assert_eq!(alt_utf15_to_bytestring(&[0x30]), Vec::<u8>::new());
    assert!(!is_utf15_decodable(&[0x31]));
}

#[test]
fn rejects_bad_shapes() {
    assert!(!is_utf15_decodable(&[0x30, 0]));
    let mut units = vec![0u16; 65];
    units[0] = 0x32;
    assert!(!is_utf15_decodable(&units));
    units[0] = 0x30;
    assert!(is_utf15_decodable(&units));
    units[0] = 0x31;
    // stated remainder 0 is accepted and gives no byte
    assert!(is_utf15_decodable(&units));
    assert_eq!(utf15_to_bytestring(&units), Vec::<u8>::new());
    // stated remainder 120: the first byte of the block is (unit 1 << 4) | nibble
    units[1] = 120 >> 4;
    units[64] = (120 & 0xF) << 11;
    assert!(!is_utf15_decodable(&units));
    units[1] = 119 >> 4;
    units[64] = (119 & 0xF) << 11;
    assert!(is_utf15_decodable(&units));
    assert_eq!(utf15_to_bytestring(&units).len(), 119);
    assert_eq!(alt_utf15_to_bytestring(&units).len(), 119);
}

#[test]
fn decoders_agree_on_arbitrary_units() {
    for seed in 0..40u32 {
        let raw = sample(2 * 129, seed);
        let mut units: Vec<u16> = raw.chunks(2).map(|c| u16::from_le_bytes([c[0], c[1]])).collect();
        units[0] = 0x30;
        assert_eq!(utf15_to_bytestring(&units), alt_utf15_to_bytestring(&units));
        assert_eq!(utf15_to_bytestring(&units).len(), 240);
    }
}

#[test]
fn different_inputs_encode_differently() {
    let a = alt_bytestring_to_utf15(&[1, 2, 3]);
    let b = alt_bytestring_to_utf15(&[1, 2, 4]);
    let c = alt_bytestring_to_utf15(&[1, 2, 3, 0]);
    assert_ne!(a, b);
    assert_ne!(a, c);
}
