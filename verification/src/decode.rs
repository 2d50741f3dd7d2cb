//! Decoding base64 into bytes.
use vstd::prelude::*;

use crate::bits::{lemma_high_bits, lemma_pack_four, lemma_pack_tail_three, lemma_sextet_of};
use crate::error::Error;
use crate::laws::law_buffer_needs_decoded_size;
use crate::groups::{
    lemma_all_alphabet_extend, lemma_decode_prefix, lemma_div_mod, lemma_first_invalid_unique,
    lemma_no_first_invalid, lemma_nothing_written,
};
use crate::spec::{
    all_alphabet, body_decoded_len, decode_body, decode_into, decode_spec, decode_unpadded, framed_decoded_len,
    holds_decoded_groups, invalid_char_error, is_alphabet_char, is_first_invalid, sextet_of,
    spec_decoded_len, tail_bits_clear, trailing_pad, unpadded, well_framed,
};

verus! {

/// Calculates the largest output length that decoding `input_len`
/// characters can produce.
pub fn decoded_len(input_len: usize) -> (len: usize)
    ensures
        len == spec_decoded_len(input_len as int),
{
    (input_len / 4) * 3
}

/// The 6-bit value of an alphabet character, `0xFF` for any other byte.
fn char_to_sextet(c: u8) -> (v: u8)
    ensures
        v == sextet_of(c),
{
    if 65 <= c && c <= 90 {
        c - 65
    } else if 97 <= c && c <= 122 {
        c - 71
    } else if 48 <= c && c <= 57 {
        c + 4
    } else if c == 43 {
        62
    } else if c == 47 {
        63
    } else {
        0xFF
    }
}

/// The error for the first byte of `buffer[start..end]` outside the
/// alphabet, given that there is one.
fn first_invalid_error(buffer: &[u8], start: usize, end: usize) -> (e: Error)
    requires
        start <= end <= buffer@.len(),
        exists|k: int| start <= k < end && !is_alphabet_char(#[trigger] buffer@[k]),
    ensures
        exists|i: int|
            #![trigger buffer@[i]]
            {
                &&& start <= i < end
                &&& !is_alphabet_char(buffer@[i])
                &&& forall|j: int| start <= j < i ==> is_alphabet_char(#[trigger] buffer@[j])
                &&& e == invalid_char_error(buffer@, i)
            },
{
    let mut k = start;
    while k < end
        invariant
            start <= k <= end <= buffer@.len(),
            forall|j: int| start <= j < k ==> is_alphabet_char(#[trigger] buffer@[j]),
            exists|i: int| k <= i < end && !is_alphabet_char(#[trigger] buffer@[i]),
        decreases end - k,
    {
        let b = buffer[k];
        proof {
            lemma_sextet_of(b);
        }
        if char_to_sextet(b) == 0xFF {
            assert(!is_alphabet_char(buffer@[k as int]));
            return if b == 61 {
                Error::InvalidPadding
            } else {
                Error::InvalidByte(k, b)
            };
        }
        k += 1;
    }
    // the invariant leaves no position for the invalid byte here
    Error::InvalidPadding
}

/// Decodes standard RFC 4648 base64 from `buffer` into the front of `output`.
///
/// An empty input decodes to nothing. Otherwise the input must be a multiple
/// of 4 long and end in at most two `=`; an output buffer smaller than the
/// decoded size is refused before any character is examined; then the first
/// byte before the trailing `=` that is outside the alphabet is reported
/// (`InvalidPadding` for a misplaced `=`, `InvalidByte` with its position for
/// any other), and last nonzero leftover bits in a padded group
/// (`InvalidPadding`). On success the decoded bytes fill the front of
/// `output`, the rest of it is untouched, and their number is returned. On
/// failure `output` holds the bytes of some groups of four characters before
/// the error, and is untouched past them; for a malformed length or padding,
/// or a too small buffer, it is not touched at all.
pub fn decode(buffer: &[u8], output: &mut [u8]) -> (res: Result<usize, Error>)
    ensures
        final(output)@.len() == old(output)@.len(),
        (match decode_into(buffer@, old(output)@.len() as int) {
            Ok(d) => {
                &&& res == Ok::<usize, Error>(d.len() as usize)
                &&& final(output)@ == d + old(output)@.skip(d.len() as int)
            },
            Err(e) => {
                &&& res == Err::<usize, Error>(e)
                &&& exists|q: int| holds_decoded_groups(buffer@, old(output)@, final(output)@, q)
            },
        }),
        !(well_framed(buffer@) && old(output)@.len() >= framed_decoded_len(buffer@))
            ==> final(output)@ == old(output)@,
        (match decode_spec(buffer@) {
            Ok(d) => {
                &&& old(output)@.len() >= d.len() ==> res == Ok::<usize, Error>(d.len() as usize)
                    && final(output)@ == d + old(output)@.skip(d.len() as int)
                &&& old(output)@.len() < d.len() ==> res == Err::<usize, Error>(
                    Error::BufferTooSmall,
                ) && final(output)@ == old(output)@
            },
            Err(e) => res == Err::<usize, Error>(e) || res == Err::<usize, Error>(
                Error::BufferTooSmall,
            ),
        }),
{
    let ghost t = buffer@;
    let ghost orig = output@;
    proof {
        if decode_spec(t) is Ok {
            law_buffer_needs_decoded_size(t, orig.len() as int);
        }
    }
    if buffer.is_empty() {
        assert(output@ =~= Seq::<u8>::empty() + orig.skip(0));
        return Ok(0);
    }
    let total = buffer.len();
    assert(total & 3 == total % 4) by (bit_vector);
    if total & 3 != 0 {
        proof {
            lemma_nothing_written(t, orig);
        }
        return Err(Error::InvalidLength);
    }
    let ghost quads = total / 4;
    proof {
        lemma_div_mod(total as int, 4, quads as int, 0);
    }

    let mut padding: usize = 0;
    let mut len = total;
    assert(t.take(total as int) =~= t);
    while len > 0 && buffer[len - 1] == 61
        invariant
            t == buffer@,
            total == t.len(),
            len + padding == total,
            trailing_pad(t) == padding + trailing_pad(t.take(len as int)),
        decreases len,
    {
        assert(t.take(len as int).drop_last() =~= t.take(len - 1));
        len -= 1;
        padding += 1;
    }
    assert(trailing_pad(t.take(len as int)) == 0);
    assert(unpadded(t) == t.take(len as int));

    if padding > 2 {
        proof {
            lemma_nothing_written(t, orig);
        }
        return Err(Error::InvalidPadding);
    }

    let expected_len = (total / 4) * 3 - padding;
    if output.len() < expected_len {
        proof {
            lemma_nothing_written(t, orig);
        }
        return Err(Error::BufferTooSmall);
    }
    proof {
        if padding == 0 {
            lemma_div_mod(len as int, 4, quads as int, 0);
        } else {
            lemma_div_mod(len as int, 4, quads - 1, 4 - padding);
        }
    }
    assert(body_decoded_len(len as int) == expected_len);
    assert(decode_into(t, orig.len() as int) == decode_unpadded(t.take(len as int)));
    decode_unpadded_into(buffer, len, output)
}

/// Decodes the characters `buffer[..len]` that precede the trailing `=` into
/// the front of `output`, as `decode_unpadded` describes; on failure `output`
/// holds the bytes of the groups of four characters before the error.
fn decode_unpadded_into(buffer: &[u8], len: usize, output: &mut [u8]) -> (res: Result<usize, Error>)
    requires
        len <= buffer@.len(),
        len % 4 != 1,
        body_decoded_len(len as int) <= old(output)@.len(),
    ensures
        final(output)@.len() == old(output)@.len(),
        (match decode_unpadded(buffer@.take(len as int)) {
            Ok(d) => {
                &&& res == Ok::<usize, Error>(d.len() as usize)
                &&& final(output)@ == d + old(output)@.skip(d.len() as int)
            },
            Err(e) => {
                &&& res == Err::<usize, Error>(e)
                &&& exists|q: int| holds_decoded_groups(buffer@, old(output)@, final(output)@, q)
            },
        }),
{
    let ghost t = buffer@;
    let ghost orig = output@;
    let ghost body = t.take(len as int);
    let mut offset: usize = 0;
    let mut out_idx: usize = 0;
    proof {
        lemma_decode_prefix(t, 0, 0);
        assert(output@ =~= decode_body(t.take(0)) + orig.skip(0));
    }
    while len - offset >= 4
        invariant
            t == buffer@,
            orig == old(output)@,
            body == t.take(len as int),
            len <= t.len(),
            len % 4 != 1,
            body_decoded_len(len as int) <= orig.len(),
            offset <= len,
            offset % 4 == 0,
            out_idx == offset / 4 * 3,
            output@.len() == orig.len(),
            all_alphabet(t.take(offset as int)),
            output@ == decode_body(t.take(offset as int)) + orig.skip(out_idx as int),
        decreases len - offset,
    {
        let ghost g = offset / 4;
        proof {
            lemma_div_mod(offset as int, 4, g as int, 0);
            vstd::arithmetic::div_mod::lemma_fundamental_div_mod(len as int, 4);
        }
        let c0 = buffer[offset];
        let c1 = buffer[offset + 1];
        let c2 = buffer[offset + 2];
        let c3 = buffer[offset + 3];
        let v0 = char_to_sextet(c0);
        let v1 = char_to_sextet(c1);
        let v2 = char_to_sextet(c2);
        let v3 = char_to_sextet(c3);
        proof {
            lemma_sextet_of(c0);
            lemma_sextet_of(c1);
            lemma_sextet_of(c2);
            lemma_sextet_of(c3);
            lemma_high_bits(v0, v1, v2, v3);
        }

        if (v0 | v1 | v2 | v3) & 0xC0 != 0 {
            assert(exists|k: int|
                offset <= k < offset + 4 && !is_alphabet_char(#[trigger] buffer@[k])) by {
                if v0 >= 64 {
                    assert(!is_alphabet_char(buffer@[offset as int]));
                } else if v1 >= 64 {
                    assert(!is_alphabet_char(buffer@[offset + 1]));
                } else if v2 >= 64 {
                    assert(!is_alphabet_char(buffer@[offset + 2]));
                } else {
                    assert(!is_alphabet_char(buffer@[offset + 3]));
                }
            }
            let e = first_invalid_error(buffer, offset, offset + 4);
            proof {
                lemma_reported_error(t, len as int, offset as int, e);
                assert(holds_decoded_groups(t, orig, output@, g as int));
            }
            return Err(e);
        }
        let word: u32 = ((v0 as u32) << 18) | ((v1 as u32) << 12) | ((v2 as u32) << 6) | (
        v3 as u32);
        proof {
            lemma_pack_four(v0, v1, v2, v3);
            lemma_decode_prefix(t, g as int, 4);
            lemma_div_mod(offset + 4, 4, g + 1, 0);
        }
        output[out_idx] = #[verifier::truncate] ((word >> 16) as u8);
        output[out_idx + 1] = #[verifier::truncate] ((word >> 8) as u8);
        output[out_idx + 2] = #[verifier::truncate] (word as u8);
        proof {
            lemma_all_alphabet_extend(t, offset as int, offset + 4);
            assert(output@ =~= decode_body(t.take(offset + 4)) + orig.skip(out_idx + 3));
        }
        offset += 4;
        out_idx += 3;
    }

    let ghost g = offset / 4;
    proof {
        lemma_div_mod(offset as int, 4, g as int, 0);
        lemma_div_mod(len as int, 4, g as int, (len - offset) as int);
    }
    let rem = len - offset;
    assert(rem == 0 || rem == 2 || rem == 3);
    if rem == 2 {
        let c0 = buffer[offset];
        let c1 = buffer[offset + 1];
        let v0 = char_to_sextet(c0);
        let v1 = char_to_sextet(c1);
        proof {
            lemma_sextet_of(c0);
            lemma_sextet_of(c1);
            lemma_high_bits(v0, v1, 0, 0);
        }
        if (v0 | v1) & 0xC0 != 0 {
            assert(exists|k: int| offset <= k < len && !is_alphabet_char(#[trigger] buffer@[k]))
                by {
                if v0 >= 64 {
                    assert(!is_alphabet_char(buffer@[offset as int]));
                } else {
                    assert(!is_alphabet_char(buffer@[offset + 1]));
                }
            }
            let e = first_invalid_error(buffer, offset, len);
            proof {
                lemma_reported_error(t, len as int, offset as int, e);
                assert(holds_decoded_groups(t, orig, output@, g as int));
            }
            return Err(e);
        }
        proof {
            lemma_all_alphabet_extend(t, offset as int, len as int);
            lemma_no_first_invalid(body);
        }
        if v1 & 0x0F != 0 {
            assert(!tail_bits_clear(body));
            assert(holds_decoded_groups(t, orig, output@, g as int));
            return Err(Error::InvalidPadding);
        }
        proof {
            lemma_decode_prefix(t, g as int, 2);
        }
        output[out_idx] = (v0 << 2) | (v1 >> 4);
        proof {
            assert(output@ =~= decode_body(body) + orig.skip(out_idx + 1));
        }
        out_idx += 1;
    } else if rem == 3 {
        let c0 = buffer[offset];
        let c1 = buffer[offset + 1];
        let c2 = buffer[offset + 2];
        let v0 = char_to_sextet(c0);
        let v1 = char_to_sextet(c1);
        let v2 = char_to_sextet(c2);
        proof {
            lemma_sextet_of(c0);
            lemma_sextet_of(c1);
            lemma_sextet_of(c2);
            lemma_high_bits(v0, v1, v2, 0);
        }
        if (v0 | v1 | v2) & 0xC0 != 0 {
            assert(exists|k: int| offset <= k < len && !is_alphabet_char(#[trigger] buffer@[k]))
                by {
                if v0 >= 64 {
                    assert(!is_alphabet_char(buffer@[offset as int]));
                } else if v1 >= 64 {
                    assert(!is_alphabet_char(buffer@[offset + 1]));
                } else {
                    assert(!is_alphabet_char(buffer@[offset + 2]));
                }
            }
            let e = first_invalid_error(buffer, offset, len);
            proof {
                lemma_reported_error(t, len as int, offset as int, e);
                assert(holds_decoded_groups(t, orig, output@, g as int));
            }
            return Err(e);
        }
        proof {
            lemma_all_alphabet_extend(t, offset as int, len as int);
            lemma_no_first_invalid(body);
        }
        if v2 & 0x03 != 0 {
            assert(!tail_bits_clear(body));
            assert(holds_decoded_groups(t, orig, output@, g as int));
            return Err(Error::InvalidPadding);
        }
        let word: u32 = ((v0 as u32) << 10) | ((v1 as u32) << 4) | ((v2 as u32) >> 2);
        proof {
            lemma_pack_tail_three(v0, v1, v2);
            lemma_decode_prefix(t, g as int, 3);
        }
        output[out_idx] = #[verifier::truncate] ((word >> 8) as u8);
        output[out_idx + 1] = #[verifier::truncate] (word as u8);
        proof {
            assert(output@ =~= decode_body(body) + orig.skip(out_idx + 2));
        }
        out_idx += 2;
    } else {
        proof {
            lemma_no_first_invalid(body);
            assert(output@ =~= decode_body(body) + orig.skip(out_idx as int));
        }
    }
    Ok(out_idx)
}

/// The error that `first_invalid_error` reported for `t[offset..len]`, after
/// alphabet characters only, is the one that decoding `t.take(len)` reports.
proof fn lemma_reported_error(t: Seq<u8>, len: int, offset: int, e: Error)
    requires
        0 <= offset <= len <= t.len(),
        all_alphabet(t.take(offset)),
        exists|i: int|
            #![trigger t[i]]
            {
                &&& offset <= i < len
                &&& !is_alphabet_char(t[i])
                &&& forall|j: int| offset <= j < i ==> is_alphabet_char(#[trigger] t[j])
                &&& e == invalid_char_error(t, i)
            },
    ensures
        decode_unpadded(t.take(len)) == Err::<Seq<u8>, Error>(e),
{
    let i = choose|i: int|
        #![trigger t[i]]
        {
            &&& offset <= i < len
            &&& !is_alphabet_char(t[i])
            &&& forall|j: int| offset <= j < i ==> is_alphabet_char(#[trigger] t[j])
            &&& e == invalid_char_error(t, i)
        };
    lemma_first_invalid_in(t, len, offset, i);
}

/// Within `t.take(len)`, a byte outside the alphabet at `i`, preceded only by
/// alphabet characters, is the first such byte and is reported as at `i` in
/// `t`.
proof fn lemma_first_invalid_in(t: Seq<u8>, len: int, offset: int, i: int)
    requires
        0 <= offset <= i < len <= t.len(),
        all_alphabet(t.take(offset)),
        !is_alphabet_char(t[i]),
        forall|j: int| offset <= j < i ==> is_alphabet_char(#[trigger] t[j]),
    ensures
        exists|k: int| is_first_invalid(t.take(len), k),
        (choose|k: int| is_first_invalid(t.take(len), k)) == i,
        invalid_char_error(t.take(len), i) == invalid_char_error(t, i),
{
    let body = t.take(len);
    assert forall|j: int| 0 <= j < i implies is_alphabet_char(#[trigger] body[j]) by {
        if j < offset {
            assert(t.take(offset)[j] == t[j]);
        }
    }
    assert(is_first_invalid(body, i));
    let k = choose|k: int| is_first_invalid(body, k);
    lemma_first_invalid_unique(body, i, k);
}

} // verus!
