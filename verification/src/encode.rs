//! Encoding bytes as base64.
use vstd::prelude::*;

use crate::bits::lemma_pack_three;
use crate::error::Error;
use crate::groups::lemma_group_position;
use crate::spec::{char_of, encode_spec, encoded_char, group_sextet, spec_encoded_len};

verus! {

/// The encoding of `n` bytes has room for one group per started triple.
proof fn lemma_encoded_len_groups(n: int, g: int)
    requires
        0 <= g,
        3 * g < n,
    ensures
        4 * g + 4 <= spec_encoded_len(n),
        spec_encoded_len(n) == 4 * ((n + 2) / 3),
{
    assert(4 * g + 4 <= (n + 2) / 3 * 4) by (nonlinear_arith)
        requires
            0 <= g,
            3 * g < n,
    ;
}

/// An encoded length that fits in `usize` leaves room to add 2 to the input
/// length.
proof fn lemma_encoded_len_fits(n: int)
    requires
        0 <= n,
        spec_encoded_len(n) <= usize::MAX,
    ensures
        n + 2 <= usize::MAX,
{
    assert(n + 2 <= usize::MAX) by (nonlinear_arith)
        requires
            0 <= n,
            (n + 2) / 3 * 4 <= usize::MAX,
    ;
}

/// Calculates the exact output buffer length that encoding `input_len` bytes
/// requires.
pub fn encoded_len(input_len: usize) -> (len: usize)
    requires
        spec_encoded_len(input_len as int) <= usize::MAX,
    ensures
        len == spec_encoded_len(input_len as int),
{
    proof {
        lemma_encoded_len_fits(input_len as int);
    }
    (input_len + 2) / 3 * 4
}

/// The encoded length of `n` bytes, or `None` where it exceeds `usize`.
fn checked_encoded_len(n: usize) -> (len: Option<usize>)
    ensures
        len matches Some(e) ==> e == spec_encoded_len(n as int),
        len is None ==> spec_encoded_len(n as int) > usize::MAX,
{
    match n.checked_add(2) {
        Some(m) => (m / 3).checked_mul(4),
        None => {
            assert(spec_encoded_len(n as int) > usize::MAX) by (nonlinear_arith)
                requires
                    n + 2 > usize::MAX,
            ;
            None
        },
    }
}

/// The alphabet character of a 6-bit value.
fn sextet_to_char(v: u8) -> (c: u8)
    requires
        v < 64,
    ensures
        c == char_of(v),
{
    if v < 26 {
        v + 65
    } else if v < 52 {
        v + 71
    } else if v < 62 {
        v - 4
    } else if v == 62 {
        43
    } else {
        47
    }
}

/// The four characters of the group of bytes `a b c`.
fn encode_group(a: u8, b: u8, c: u8) -> (chars: (u8, u8, u8, u8))
    ensures
        chars.0 == char_of(group_sextet(a, b, c, 0)),
        chars.1 == char_of(group_sextet(a, b, c, 1)),
        chars.2 == char_of(group_sextet(a, b, c, 2)),
        chars.3 == char_of(group_sextet(a, b, c, 3)),
{
    let word: u32 = ((a as u32) << 16) | ((b as u32) << 8) | (c as u32);
    proof {
        lemma_pack_three(a, b, c);
    }
    (
        sextet_to_char(((word >> 18) & 0x3F) as u8),
        sextet_to_char(((word >> 12) & 0x3F) as u8),
        sextet_to_char(((word >> 6) & 0x3F) as u8),
        sextet_to_char((word & 0x3F) as u8),
    )
}

/// Encodes `buffer` as standard RFC 4648 base64 into the front of `output`.
///
/// Succeeds exactly when `output` holds at least `encoded_len(buffer.len())`
/// bytes; then the encoding fills that many bytes of `output`, the rest of
/// `output` is left as it was, and the encoded length is returned. Otherwise
/// `output` is left untouched and `BufferTooSmall` is returned.
pub fn encode(buffer: &[u8], output: &mut [u8]) -> (res: Result<usize, Error>)
    ensures
        final(output)@.len() == old(output)@.len(),
        old(output)@.len() < spec_encoded_len(buffer@.len() as int) ==> {
            &&& res == Err::<usize, Error>(Error::BufferTooSmall)
            &&& final(output)@ == old(output)@
        },
        old(output)@.len() >= spec_encoded_len(buffer@.len() as int) ==> {
            &&& res == Ok::<usize, Error>(spec_encoded_len(buffer@.len() as int) as usize)
            &&& final(output)@ == encode_spec(buffer@) + old(output)@.skip(
                spec_encoded_len(buffer@.len() as int),
            )
        },
{
    let n = buffer.len();
    let out_len = output.len();
    let encoded_len = match checked_encoded_len(n) {
        Some(e) => e,
        None => return Err(Error::BufferTooSmall),
    };
    if out_len < encoded_len {
        return Err(Error::BufferTooSmall);
    }
    let ghost s = buffer@;
    let ghost orig = output@;
    let mut in_idx: usize = 0;
    let mut out_idx: usize = 0;

    while in_idx + 3 <= n
        invariant
            n == s.len(),
            s == buffer@,
            encoded_len == spec_encoded_len(n as int),
            encoded_len <= orig.len(),
            in_idx <= n,
            in_idx % 3 == 0,
            out_idx == in_idx / 3 * 4,
            output@.len() == orig.len(),
            forall|k: int| 0 <= k < out_idx ==> output@[k] == encoded_char(s, k),
            forall|k: int| out_idx <= k < orig.len() ==> output@[k] == orig[k],
        decreases n - in_idx,
    {
        let ghost g = in_idx / 3;
        proof {
            lemma_encoded_len_groups(n as int, g as int);
            lemma_group_position(g as int, 0);
            lemma_group_position(g as int, 1);
            lemma_group_position(g as int, 2);
            lemma_group_position(g as int, 3);
        }
        let chars = encode_group(buffer[in_idx], buffer[in_idx + 1], buffer[in_idx + 2]);
        output[out_idx] = chars.0;
        output[out_idx + 1] = chars.1;
        output[out_idx + 2] = chars.2;
        output[out_idx + 3] = chars.3;
        in_idx += 3;
        out_idx += 4;
    }

    let rem = n - in_idx;
    if rem > 0 {
        let ghost g = in_idx / 3;
        proof {
            lemma_encoded_len_groups(n as int, g as int);
            lemma_group_position(g as int, 0);
            lemma_group_position(g as int, 1);
            lemma_group_position(g as int, 2);
            lemma_group_position(g as int, 3);
        }
        let a = buffer[in_idx];
        let b = if rem == 2 {
            buffer[in_idx + 1]
        } else {
            0
        };
        let chars = encode_group(a, b, 0);
        output[out_idx] = chars.0;
        output[out_idx + 1] = chars.1;
        output[out_idx + 2] = if rem == 2 {
            chars.2
        } else {
            61
        };
        output[out_idx + 3] = 61;
        out_idx += 4;
    }
    assert(out_idx == encoded_len);
    assert(output@ =~= encode_spec(s) + orig.skip(encoded_len as int));
    Ok(encoded_len)
}

} // verus!
