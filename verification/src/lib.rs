//! Packs byte strings into sequences of 15-bit code units ("UTF-15"), so that any
//! byte string can travel as a JavaScript string of valid UTF-16 code units, and
//! unpacks them again.
//!
//! The format: an empty byte string is encoded as the empty sequence. Otherwise the
//! bytes are cut into blocks of 120; a last, partial block is padded to 120 bytes and
//! carries its real length in its first byte. The encoding starts with a header unit,
//! `0x30` when the length is a multiple of 120 and `0x31` when it is not, followed by
//! 64 units per block. A block is read as 15 little-endian 64-bit words; each word
//! gives the four 15-bit fields of its bits 4 to 63, and the 15 low nibbles of the
//! words are gathered in a sixteenth word that is emitted the same way.
use vstd::prelude::*;

pub mod format;
pub mod bits;
pub mod pieces;
pub mod encode;
pub mod decode;
pub mod laws;
pub mod model;

verus! {

/// The number of input bytes that one encoded block carries.
pub const INPUT_BLOCK_SIZE: usize = 120;

/// The number of code units that one encoded block takes.
pub const OUTPUT_BLOCK_SIZE: usize = 64;

/// The header unit of an encoding whose last block is a partial one.
pub const HEADER_WITH_REMAINDER: u16 = 0x31;

/// The header unit of an encoding made of full blocks only.
pub const HEADER_FULL_BLOCKS: u16 = 0x30;

/// Mask of the 15 bits that one code unit carries.
pub const LOW_FIFTEEN_BITS: u64 = 0x7FFF;

/// Mask of the low nibble of a word.
pub const LOW_FOUR_BITS: u64 = 0xF;

} // verus!
