//! Mathematical model of standard (RFC 4648) base64 with `=` padding.
//!
//! Encoding is described character by character and decoding byte by byte, so
//! that every position of a result can be read off its definition directly.
use vstd::prelude::*;

use crate::error::Error;

verus! {

/// The padding character `=`.
pub open spec fn pad_char() -> u8 {
    61
}

/// Whether `c` belongs to the standard alphabet
/// `A-Z a-z 0-9 + /`.
pub open spec fn is_alphabet_char(c: u8) -> bool {
    ||| 65 <= c <= 90
    ||| 97 <= c <= 122
    ||| 48 <= c <= 57
    ||| c == 43
    ||| c == 47
}

/// The character that stands for the 6-bit value `v` (`v < 64`).
pub open spec fn char_of(v: u8) -> u8 {
    if v < 26 {
        (v + 65) as u8
    } else if v < 52 {
        (v + 71) as u8
    } else if v < 62 {
        (v - 4) as u8
    } else if v == 62 {
        43
    } else {
        47
    }
}

/// The 6-bit value of an alphabet character, and `0xFF` for every other byte.
pub open spec fn sextet_of(c: u8) -> u8 {
    if 65 <= c <= 90 {
        (c - 65) as u8
    } else if 97 <= c <= 122 {
        (c - 71) as u8
    } else if 48 <= c <= 57 {
        (c + 4) as u8
    } else if c == 43 {
        62
    } else if c == 47 {
        63
    } else {
        0xFF
    }
}

/// Number of characters that encoding `n` bytes produces.
pub open spec fn spec_encoded_len(n: int) -> int {
    (n + 2) / 3 * 4
}

/// Largest number of bytes that decoding `n` characters can produce.
pub open spec fn spec_decoded_len(n: int) -> int {
    (n / 4) * 3
}

/// `s[i]`, or `0` past the end of `s`.
pub open spec fn byte_or_zero(s: Seq<u8>, i: int) -> u8 {
    if 0 <= i < s.len() {
        s[i]
    } else {
        0
    }
}

/// The 6-bit group number `pos` (`0..4`) of the 24 bits `a b c`.
pub open spec fn group_sextet(a: u8, b: u8, c: u8, pos: int) -> u8 {
    if pos == 0 {
        a >> 2
    } else if pos == 1 {
        ((a & 3) << 4) | (b >> 4)
    } else if pos == 2 {
        ((b & 15) << 2) | (c >> 6)
    } else {
        c & 63
    }
}

/// Character `j` of the encoding of `s`: group `j / 4` covers bytes
/// `3 * (j / 4) ..`, missing bytes count as zero, and the positions that stand
/// only for missing bytes are `=`.
pub open spec fn encoded_char(s: Seq<u8>, j: int) -> u8 {
    let g = j / 4;
    let pos = j % 4;
    if pos == 2 && 3 * g + 1 >= s.len() {
        pad_char()
    } else if pos == 3 && 3 * g + 2 >= s.len() {
        pad_char()
    } else {
        char_of(
            group_sextet(
                byte_or_zero(s, 3 * g),
                byte_or_zero(s, 3 * g + 1),
                byte_or_zero(s, 3 * g + 2),
                pos,
            ),
        )
    }
}

/// The standard base64 encoding of `s`, padded with `=` to a multiple of 4.
pub open spec fn encode_spec(s: Seq<u8>) -> Seq<u8> {
    Seq::new(spec_encoded_len(s.len() as int) as nat, |j: int| encoded_char(s, j))
}

/// The number of `=` at the end of `t`.
pub open spec fn trailing_pad(t: Seq<u8>) -> nat
    decreases t.len(),
{
    if t.len() > 0 && t.last() == pad_char() {
        1 + trailing_pad(t.drop_last())
    } else {
        0
    }
}

/// The 6-bit value of `s[i]`, or `0` past the end of `s`.
pub open spec fn sextet_or_zero(s: Seq<u8>, i: int) -> u8 {
    if 0 <= i < s.len() {
        sextet_of(s[i])
    } else {
        0
    }
}

/// Byte `k` (`0..3`) of the 24 bits that the 6-bit values `v0 v1 v2 v3` form.
pub open spec fn quad_byte(v0: u8, v1: u8, v2: u8, v3: u8, k: int) -> u8 {
    if k == 0 {
        (v0 << 2) | (v1 >> 4)
    } else if k == 1 {
        (v1 << 4) | (v2 >> 2)
    } else {
        (v2 << 6) | v3
    }
}

/// Number of bytes that the unpadded characters `body` stand for: 3 per full
/// group of 4, and one less than the characters of a final partial group.
pub open spec fn body_decoded_len(n: int) -> int {
    (n / 4) * 3 + if n % 4 == 0 {
        0
    } else {
        n % 4 - 1
    }
}

/// Byte `i` of the decoding of the unpadded characters `body`.
pub open spec fn decoded_byte(body: Seq<u8>, i: int) -> u8 {
    let g = i / 3;
    quad_byte(
        sextet_or_zero(body, 4 * g),
        sextet_or_zero(body, 4 * g + 1),
        sextet_or_zero(body, 4 * g + 2),
        sextet_or_zero(body, 4 * g + 3),
        i % 3,
    )
}

/// The bytes that the unpadded alphabet characters `body` stand for.
pub open spec fn decode_body(body: Seq<u8>) -> Seq<u8> {
    Seq::new(body_decoded_len(body.len() as int) as nat, |i: int| decoded_byte(body, i))
}

/// Every byte of `s` is an alphabet character.
pub open spec fn all_alphabet(s: Seq<u8>) -> bool {
    forall|i: int| 0 <= i < s.len() ==> is_alphabet_char(#[trigger] s[i])
}

/// `i` is the position of the first byte of `s` outside the alphabet.
pub open spec fn is_first_invalid(s: Seq<u8>, i: int) -> bool {
    &&& 0 <= i < s.len()
    &&& !is_alphabet_char(s[i])
    &&& forall|j: int| 0 <= j < i ==> is_alphabet_char(#[trigger] s[j])
}

/// The error for the byte `s[i]` outside the alphabet: a `=` is misplaced
/// padding, any other byte is reported with its position.
pub open spec fn invalid_char_error(s: Seq<u8>, i: int) -> Error {
    if s[i] == pad_char() {
        Error::InvalidPadding
    } else {
        Error::InvalidByte(i as usize, s[i])
    }
}

/// The bits that the last character of a partial final group carries beyond
/// the decoded bytes are all zero.
pub open spec fn tail_bits_clear(body: Seq<u8>) -> bool {
    let n = body.len();
    if n % 4 == 2 {
        sextet_of(body[n - 1]) & 15 == 0
    } else if n % 4 == 3 {
        sextet_of(body[n - 1]) & 3 == 0
    } else {
        true
    }
}

/// The characters of `t` before its trailing `=`.
pub open spec fn unpadded(t: Seq<u8>) -> Seq<u8> {
    t.take(t.len() - trailing_pad(t))
}

/// Decoding of the characters `body` that precede the trailing `=`: the first
/// byte outside the alphabet is reported, then nonzero leftover bits in a
/// final partial group.
pub open spec fn decode_unpadded(body: Seq<u8>) -> Result<Seq<u8>, Error> {
    if exists|i: int| is_first_invalid(body, i) {
        Err(invalid_char_error(body, choose|i: int| is_first_invalid(body, i)))
    } else if !tail_bits_clear(body) {
        Err(Error::InvalidPadding)
    } else {
        Ok(decode_body(body))
    }
}

/// Standard base64 decoding of `t`, with the error that is reported for
/// each malformed input: a length that is not a multiple of 4; more than two
/// trailing `=`; otherwise the first byte before the trailing `=` that is
/// outside the alphabet (a misplaced `=` counts as a padding error, any other
/// byte is reported with its position); and last, nonzero bits left over in
/// a final partial group.
pub open spec fn decode_spec(t: Seq<u8>) -> Result<Seq<u8>, Error> {
    if t.len() == 0 {
        Ok(Seq::empty())
    } else if t.len() % 4 != 0 {
        Err(Error::InvalidLength)
    } else if trailing_pad(t) > 2 {
        Err(Error::InvalidPadding)
    } else {
        decode_unpadded(unpadded(t))
    }
}

/// `t` is nonempty, a multiple of 4 long and ends in at most two `=`: the
/// input has the shape under which its exact decoded size is known.
pub open spec fn well_framed(t: Seq<u8>) -> bool {
    &&& t.len() > 0
    &&& t.len() % 4 == 0
    &&& trailing_pad(t) <= 2
}

/// Exact number of bytes that a well-framed `t` decodes to.
pub open spec fn framed_decoded_len(t: Seq<u8>) -> int {
    spec_decoded_len(t.len() as int) - trailing_pad(t)
}

/// Decoding `t` into an output buffer of `cap` bytes: a well-framed input
/// whose decoded size exceeds `cap` is refused before its characters are
/// examined; otherwise the result is that of `decode_spec`.
pub open spec fn decode_into(t: Seq<u8>, cap: int) -> Result<Seq<u8>, Error> {
    if well_framed(t) && cap < framed_decoded_len(t) {
        Err(Error::BufferTooSmall)
    } else {
        decode_spec(t)
    }
}

/// `out` holds the bytes of the first `q` groups of four characters of `t`,
/// all of them alphabet characters, followed by what `before` held past them.
pub open spec fn holds_decoded_groups(t: Seq<u8>, before: Seq<u8>, out: Seq<u8>, q: int) -> bool {
    &&& 0 <= q
    &&& 4 * q <= t.len()
    &&& 3 * q <= before.len()
    &&& all_alphabet(t.take(4 * q))
    &&& out == decode_body(t.take(4 * q)) + before.skip(3 * q)
}

} // verus!
