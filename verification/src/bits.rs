//! Facts about the alphabet and about splitting 24 bits into 6-bit groups.
use vstd::prelude::*;

use crate::spec::{char_of, is_alphabet_char, pad_char, sextet_of};

verus! {

/// The character of a 6-bit value is an alphabet character, not `=`, and
/// maps back to that value.
pub proof fn lemma_char_of(v: u8)
    requires
        v < 64,
    ensures
        is_alphabet_char(char_of(v)),
        char_of(v) != pad_char(),
        sextet_of(char_of(v)) == v,
{
}

/// An alphabet character has a 6-bit value whose character is itself; any
/// other byte has the value `0xFF`.
pub proof fn lemma_sextet_of(c: u8)
    ensures
        is_alphabet_char(c) ==> sextet_of(c) < 64 && char_of(sextet_of(c)) == c,
        !is_alphabet_char(c) ==> sextet_of(c) == 0xFF,
{
}

/// The 6-bit groups of three bytes, as the encoder extracts them from a
/// packed 24-bit word.
pub proof fn lemma_pack_three(a: u8, b: u8, c: u8)
    ensures
        ({
            let n: u32 = ((a as u32) << 16) | ((b as u32) << 8) | (c as u32);
            &&& ((n >> 18) & 0x3F) as u8 == a >> 2
            &&& ((n >> 12) & 0x3F) as u8 == ((a & 3) << 4) | (b >> 4)
            &&& ((n >> 6) & 0x3F) as u8 == ((b & 15) << 2) | (c >> 6)
            &&& (n & 0x3F) as u8 == c & 63
        }),
        a >> 2 < 64,
        ((a & 3) << 4) | (b >> 4) < 64,
        ((b & 15) << 2) | (c >> 6) < 64,
        c & 63 < 64,
{
    assert(({
        let n: u32 = ((a as u32) << 16) | ((b as u32) << 8) | (c as u32);
        &&& ((n >> 18) & 0x3F) as u8 == a >> 2
        &&& ((n >> 12) & 0x3F) as u8 == ((a & 3) << 4) | (b >> 4)
        &&& ((n >> 6) & 0x3F) as u8 == ((b & 15) << 2) | (c >> 6)
        &&& (n & 0x3F) as u8 == c & 63
    })) by (bit_vector);
    assert(a >> 2 < 64) by (bit_vector);
    assert(((a & 3) << 4) | (b >> 4) < 64) by (bit_vector);
    assert(((b & 15) << 2) | (c >> 6) < 64) by (bit_vector);
    assert(c & 63 < 64) by (bit_vector);
}

/// The bytes of four 6-bit values, as the decoder extracts them from a packed
/// 24-bit word.
pub proof fn lemma_pack_four(v0: u8, v1: u8, v2: u8, v3: u8)
    requires
        v0 < 64,
        v1 < 64,
        v2 < 64,
        v3 < 64,
    ensures
        ({
            let n: u32 = ((v0 as u32) << 18) | ((v1 as u32) << 12) | ((v2 as u32) << 6) | (
            v3 as u32);
            &&& (n >> 16) as u8 == (v0 << 2) | (v1 >> 4)
            &&& (n >> 8) as u8 == (v1 << 4) | (v2 >> 2)
            &&& n as u8 == (v2 << 6) | v3
        }),
{
    assert(({
        let n: u32 = ((v0 as u32) << 18) | ((v1 as u32) << 12) | ((v2 as u32) << 6) | (
        v3 as u32);
        &&& (n >> 16) as u8 == (v0 << 2) | (v1 >> 4)
        &&& (n >> 8) as u8 == (v1 << 4) | (v2 >> 2)
        &&& n as u8 == (v2 << 6) | v3
    })) by (bit_vector)
        requires
            v0 < 64,
            v1 < 64,
            v2 < 64,
            v3 < 64,
    ;
}

/// The bytes of a final group of three characters, as the decoder extracts
/// them from a packed word.
pub proof fn lemma_pack_tail_three(v0: u8, v1: u8, v2: u8)
    requires
        v0 < 64,
        v1 < 64,
        v2 < 64,
    ensures
        ({
            let n: u32 = ((v0 as u32) << 10) | ((v1 as u32) << 4) | ((v2 as u32) >> 2);
            &&& (n >> 8) as u8 == (v0 << 2) | (v1 >> 4)
            &&& n as u8 == (v1 << 4) | (v2 >> 2)
        }),
{
    assert(({
        let n: u32 = ((v0 as u32) << 10) | ((v1 as u32) << 4) | ((v2 as u32) >> 2);
        &&& (n >> 8) as u8 == (v0 << 2) | (v1 >> 4)
        &&& n as u8 == (v1 << 4) | (v2 >> 2)
    })) by (bit_vector)
        requires
            v0 < 64,
            v1 < 64,
            v2 < 64,
    ;
}

/// A union of bytes has its top two bits clear exactly when every byte is
/// below 64.
pub proof fn lemma_high_bits(v0: u8, v1: u8, v2: u8, v3: u8)
    ensures
        ((v0 | v1 | v2 | v3) & 0xC0 == 0) == (v0 < 64 && v1 < 64 && v2 < 64 && v3 < 64),
        ((v0 | v1 | v2) & 0xC0 == 0) == (v0 < 64 && v1 < 64 && v2 < 64),
        ((v0 | v1) & 0xC0 == 0) == (v0 < 64 && v1 < 64),
{
    assert(((v0 | v1 | v2 | v3) & 0xC0 == 0) == (v0 < 64 && v1 < 64 && v2 < 64 && v3 < 64))
        by (bit_vector);
    assert(((v0 | v1 | v2) & 0xC0 == 0) == (v0 < 64 && v1 < 64 && v2 < 64)) by (bit_vector);
    assert(((v0 | v1) & 0xC0 == 0) == (v0 < 64 && v1 < 64)) by (bit_vector);
}

/// Splitting three bytes into 6-bit groups and joining them again gives the
/// bytes back.
pub proof fn lemma_split_join(a: u8, b: u8, c: u8)
    ensures
        ({
            let e0 = a >> 2;
            let e1 = ((a & 3) << 4) | (b >> 4);
            let e2 = ((b & 15) << 2) | (c >> 6);
            let e3 = c & 63;
            &&& (e0 << 2) | (e1 >> 4) == a
            &&& (e1 << 4) | (e2 >> 2) == b
            &&& (e2 << 6) | e3 == c
        }),
{
    assert(({
        let e0 = a >> 2;
        let e1 = ((a & 3) << 4) | (b >> 4);
        let e2 = ((b & 15) << 2) | (c >> 6);
        let e3 = c & 63;
        &&& (e0 << 2) | (e1 >> 4) == a
        &&& (e1 << 4) | (e2 >> 2) == b
        &&& (e2 << 6) | e3 == c
    })) by (bit_vector);
}

/// Joining four 6-bit values into bytes and splitting them again gives the
/// values back.
pub proof fn lemma_join_split(v0: u8, v1: u8, v2: u8, v3: u8)
    requires
        v0 < 64,
        v1 < 64,
        v2 < 64,
        v3 < 64,
    ensures
        ({
            let a = (v0 << 2) | (v1 >> 4);
            let b = (v1 << 4) | (v2 >> 2);
            let c = (v2 << 6) | v3;
            &&& a >> 2 == v0
            &&& ((a & 3) << 4) | (b >> 4) == v1
            &&& ((b & 15) << 2) | (c >> 6) == v2
            &&& c & 63 == v3
        }),
{
    assert(({
        let a = (v0 << 2) | (v1 >> 4);
        let b = (v1 << 4) | (v2 >> 2);
        let c = (v2 << 6) | v3;
        &&& a >> 2 == v0
        &&& ((a & 3) << 4) | (b >> 4) == v1
        &&& ((b & 15) << 2) | (c >> 6) == v2
        &&& c & 63 == v3
    })) by (bit_vector)
        requires
            v0 < 64,
            v1 < 64,
            v2 < 64,
            v3 < 64,
    ;
}

/// Zero bytes past the end give zero 6-bit groups, and the last 6-bit group
/// that a partial final group of bytes fills has its leftover bits clear.
pub proof fn lemma_partial_groups(a: u8, b: u8)
    ensures
        ((0u8 & 15) << 2) | (0u8 >> 6) == 0,
        0u8 & 63 == 0,
        ((b & 15) << 2) | (0u8 >> 6) == (b & 15) << 2,
        ((a & 3) << 4) | (0u8 >> 4) == (a & 3) << 4,
        ((a & 3) << 4) & 15 == 0,
        ((b & 15) << 2) & 3 == 0,
{
    assert(((0u8 & 15) << 2) | (0u8 >> 6) == 0) by (bit_vector);
    assert(0u8 & 63 == 0) by (bit_vector);
    assert(((b & 15) << 2) | (0u8 >> 6) == (b & 15) << 2) by (bit_vector);
    assert(((a & 3) << 4) | (0u8 >> 4) == (a & 3) << 4) by (bit_vector);
    assert(((a & 3) << 4) & 15 == 0) by (bit_vector);
    assert(((b & 15) << 2) & 3 == 0) by (bit_vector);
}

/// With the leftover bits of a final partial group clear, the bytes that
/// the missing characters would complete are zero.
pub proof fn lemma_cleared_tail(v1: u8, v2: u8)
    ensures
        v1 & 15 == 0 ==> (v1 << 4) | (0u8 >> 2) == 0,
        v2 & 3 == 0 ==> (v2 << 6) | 0u8 == 0,
        (0u8 << 6) | 0u8 == 0,
{
    assert(v1 & 15 == 0 ==> (v1 << 4) | (0u8 >> 2) == 0) by (bit_vector);
    assert(v2 & 3 == 0 ==> (v2 << 6) | 0u8 == 0) by (bit_vector);
    assert((0u8 << 6) | 0u8 == 0) by (bit_vector);
}

} // verus!
