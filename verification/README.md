# utf15

Packs byte strings into sequences of 15-bit code units, so that arbitrary bytes can be
stored in a JavaScript string of valid UTF-16 (no unit reaches the surrogate range), and
unpacks them again.

- `src/format.rs` defines the encoding and the decoding as functions on sequences.
- `src/encode.rs` and `src/decode.rs` hold the two encoders and the two decoders, each
  proved to compute those functions; `is_utf15_decodable` tests the shape that the
  decoders accept.
- `src/laws.rs` states what holds of the format as a whole: decoding an encoding gives
  the bytes back, encodings are 15-bit and have the stated length, and so on.
- `src/bits.rs` and `src/pieces.rs` hold the bit-level and sequence-level lemmas.
- `app/` is the WebAssembly face: it moves code units in and out of JS strings with
  `wasm-bindgen` and `js-sys`, and benchmarks the conversions against base64.
