# turbo_base64

Encoding and decoding of bytes as standard RFC 4648 base64 (alphabet
`A-Z a-z 0-9 + /`, `=` padding), into caller-supplied buffers, verified with
Verus.

- `src/spec.rs` — the model: `encode_spec` character by character,
  `decode_spec` byte by byte together with the error that each malformed
  input gets, and `decode_into` for a bounded output buffer.
- `src/encode.rs`, `src/decode.rs` — `encoded_len`, `encode`, `decoded_len`,
  `decode`, each proved against the model.
- `src/laws.rs` — decoding an encoding gives the bytes back, the decoder
  accepts exactly the encodings, buffer-size laws, and rejection of foreign
  bytes.
- `src/bits.rs`, `src/groups.rs` — bit-level and position lemmas.
- `tests/` — RFC 4648 vectors, error cases, and randomized parity with the
  `base64` crate.
