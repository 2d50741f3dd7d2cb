//! Laws that tie encoding and decoding together.
use vstd::prelude::*;

use crate::bits::{
    lemma_char_of, lemma_cleared_tail, lemma_join_split, lemma_pack_three, lemma_partial_groups,
    lemma_sextet_of, lemma_split_join,
};
use crate::error::Error;
use crate::groups::{
    lemma_div_mod, lemma_group_position, lemma_no_first_invalid, lemma_trailing_pad_exact,
    lemma_trailing_pad_shape,
};
use crate::spec::{
    all_alphabet, body_decoded_len, byte_or_zero, decode_body, decode_into, decode_spec,
    decoded_byte, encode_spec, encoded_char, framed_decoded_len, group_sextet,
    is_alphabet_char, is_first_invalid, pad_char, quad_byte, sextet_of, sextet_or_zero,
    spec_decoded_len, spec_encoded_len, tail_bits_clear, trailing_pad, unpadded, well_framed,
};

verus! {

/// The 6-bit value of character `j` of the encoding of `s`, read off group
/// `j / 4` of `s`.
spec fn encoded_sextet(s: Seq<u8>, j: int) -> u8 {
    group_sextet(
        byte_or_zero(s, 3 * (j / 4)),
        byte_or_zero(s, 3 * (j / 4) + 1),
        byte_or_zero(s, 3 * (j / 4) + 2),
        j % 4,
    )
}

/// Shape of the encoding of a nonempty `s`: `4 * q` characters of which the
/// last `p` are `=` and all others alphabet characters, where
/// `s.len() == 3 * q - p`.
proof fn lemma_encode_shape(s: Seq<u8>) -> (qp: (int, int))
    requires
        s.len() > 0,
    ensures
        qp.0 >= 1,
        0 <= qp.1 <= 2,
        s.len() == 3 * qp.0 - qp.1,
        encode_spec(s).len() == 4 * qp.0,
        forall|j: int|
            0 <= j < 4 * qp.0 ==> (#[trigger] encode_spec(s)[j] == pad_char() <==> j >= 4 * qp.0
                - qp.1),
        forall|j: int|
            0 <= j < 4 * qp.0 - qp.1 ==> is_alphabet_char(#[trigger] encode_spec(s)[j])
                && sextet_of(encode_spec(s)[j]) == encoded_sextet(s, j),
{
    let n = s.len() as int;
    let t = encode_spec(s);
    vstd::arithmetic::div_mod::lemma_fundamental_div_mod(n + 2, 3);
    let q = (n + 2) / 3;
    let p = 3 * q - n;
    assert forall|j: int| 0 <= j < 4 * q implies (#[trigger] t[j] == pad_char() <==> j >= 4 * q
        - p) && (j < 4 * q - p ==> is_alphabet_char(t[j]) && sextet_of(t[j]) == encoded_sextet(
        s,
        j,
    )) by {
        vstd::arithmetic::div_mod::lemma_fundamental_div_mod(j, 4);
        let g = j / 4;
        let a = byte_or_zero(s, 3 * g);
        let b = byte_or_zero(s, 3 * g + 1);
        let c = byte_or_zero(s, 3 * g + 2);
        lemma_pack_three(a, b, c);
        let v = group_sextet(a, b, c, j % 4);
        lemma_char_of(v);
        assert(t[j] == encoded_char(s, j));
    }
    (q, p)
}

/// Within the first `q` groups of the encoding of `s`, the 6-bit value of the
/// unpadded characters, with zero past them, is the 6-bit group of `s`.
proof fn lemma_encoded_values(s: Seq<u8>, q: int, p: int, g: int, m: int)
    requires
        q >= 1,
        0 <= p <= 2,
        s.len() == 3 * q - p,
        encode_spec(s).len() == 4 * q,
        forall|j: int|
            0 <= j < 4 * q ==> (#[trigger] encode_spec(s)[j] == pad_char() <==> j >= 4 * q - p),
        forall|j: int|
            0 <= j < 4 * q - p ==> is_alphabet_char(#[trigger] encode_spec(s)[j]) && sextet_of(
                encode_spec(s)[j],
            ) == encoded_sextet(s, j),
        0 <= g < q,
        0 <= m < 4,
    ensures
        sextet_or_zero(encode_spec(s).take(4 * q - p), 4 * g + m) == group_sextet(
            byte_or_zero(s, 3 * g),
            byte_or_zero(s, 3 * g + 1),
            byte_or_zero(s, 3 * g + 2),
            m,
        ),
{
    let t = encode_spec(s);
    let body = t.take(4 * q - p);
    let a = byte_or_zero(s, 3 * g);
    let b = byte_or_zero(s, 3 * g + 1);
    let c = byte_or_zero(s, 3 * g + 2);
    lemma_group_position(g, m);
    lemma_partial_groups(a, b);
    if 4 * g + m < 4 * q - p {
        assert(body[4 * g + m] == t[4 * g + m]);
        assert(sextet_of(t[4 * g + m]) == encoded_sextet(s, 4 * g + m));
    }
}

/// Decoding the encoding of `s` gives `s` back.
pub proof fn law_decode_encode(s: Seq<u8>)
    ensures
        decode_spec(encode_spec(s)) == Ok::<Seq<u8>, Error>(s),
{
    let t = encode_spec(s);
    if s.len() == 0 {
        assert(s =~= Seq::<u8>::empty());
        assert(t.len() == 0);
    } else {
        let (q, p) = lemma_encode_shape(s);
        let n = s.len() as int;
        lemma_div_mod(t.len() as int, 4, q, 0);
        assert(t[4 * q - p - 1] != pad_char());
        lemma_trailing_pad_exact(t, p);
        let body = unpadded(t);
        assert(body == t.take(4 * q - p));
        assert(all_alphabet(body)) by {
            assert forall|i: int| 0 <= i < body.len() implies is_alphabet_char(
                #[trigger] body[i],
            ) by {
                assert(body[i] == t[i]);
            }
        }
        lemma_no_first_invalid(body);

        // the leftover bits of a partial final group are zero
        if p == 1 {
            lemma_div_mod(4 * q - 1, 4, q - 1, 3);
            lemma_encoded_values(s, q, p, q - 1, 2);
            lemma_partial_groups(byte_or_zero(s, 3 * (q - 1)), byte_or_zero(s, 3 * (q - 1) + 1));
            assert(body[4 * q - 2] == t[4 * q - 2]);
        } else if p == 2 {
            lemma_div_mod(4 * q - 2, 4, q - 1, 2);
            lemma_encoded_values(s, q, p, q - 1, 1);
            lemma_partial_groups(byte_or_zero(s, 3 * (q - 1)), byte_or_zero(s, 3 * (q - 1) + 1));
            assert(body[4 * q - 3] == t[4 * q - 3]);
        } else {
            lemma_div_mod(4 * q, 4, q, 0);
        }
        assert(tail_bits_clear(body));
        assert(body_decoded_len(4 * q - p) == n);

        let d = decode_body(body);
        assert forall|i: int| 0 <= i < n implies #[trigger] d[i] == s[i] by {
            vstd::arithmetic::div_mod::lemma_fundamental_div_mod(i, 3);
            let g = i / 3;
            let k = i % 3;
            let a = byte_or_zero(s, 3 * g);
            let b = byte_or_zero(s, 3 * g + 1);
            let c = byte_or_zero(s, 3 * g + 2);
            lemma_encoded_values(s, q, p, g, 0);
            lemma_encoded_values(s, q, p, g, 1);
            lemma_encoded_values(s, q, p, g, 2);
            lemma_encoded_values(s, q, p, g, 3);
            lemma_split_join(a, b, c);
            assert(d[i] == decoded_byte(body, i));
        }
        assert(d =~= s);
    }
}

/// A byte outside the alphabet at some position makes the first such
/// position exist.
proof fn lemma_first_invalid_exists(s: Seq<u8>, i: int)
    requires
        0 <= i < s.len(),
        !is_alphabet_char(s[i]),
    ensures
        exists|k: int| is_first_invalid(s, k),
    decreases i,
{
    if forall|j: int| 0 <= j < i ==> is_alphabet_char(#[trigger] s[j]) {
        assert(is_first_invalid(s, i));
    } else {
        let j = choose|j: int| 0 <= j < i && !is_alphabet_char(#[trigger] s[j]);
        lemma_first_invalid_exists(s, j);
    }
}

/// Any input that decodes successfully is exactly the encoding of what it
/// decodes to: the decoder accepts canonical encodings only.
pub proof fn law_encode_decode(t: Seq<u8>)
    requires
        decode_spec(t) is Ok,
    ensures
        encode_spec(decode_spec(t)->Ok_0) == t,
{
    let d = decode_spec(t)->Ok_0;
    if t.len() == 0 {
        assert(encode_spec(d) =~= t);
    } else {
        let q = (t.len() / 4) as int;
        lemma_div_mod(t.len() as int, 4, q, 0);
        let p = trailing_pad(t) as int;
        lemma_trailing_pad_shape(t);
        let body = unpadded(t);
        assert(body == t.take(4 * q - p));
        assert(all_alphabet(body)) by {
            assert forall|i: int| 0 <= i < body.len() implies is_alphabet_char(
                #[trigger] body[i],
            ) by {
                if !is_alphabet_char(body[i]) {
                    lemma_first_invalid_exists(body, i);
                }
            }
        }
        assert(tail_bits_clear(body));
        assert(d == decode_body(body));
        let n = 3 * q - p;
        if p == 0 {
            lemma_div_mod(4 * q, 4, q, 0);
        } else {
            lemma_div_mod(4 * q - p, 4, q - 1, 4 - p);
        }
        assert(d.len() == n);
        lemma_div_mod(n + 2, 3, q, 2 - p);
        let e = encode_spec(d);
        assert(e.len() == t.len());
        assert forall|j: int| 0 <= j < t.len() implies #[trigger] e[j] == t[j] by {
            vstd::arithmetic::div_mod::lemma_fundamental_div_mod(j, 4);
            let g = j / 4;
            let pos = j % 4;
            assert(e[j] == encoded_char(d, j));
            if j < 4 * q - p {
                let v0 = sextet_or_zero(body, 4 * g);
                let v1 = sextet_or_zero(body, 4 * g + 1);
                let v2 = sextet_or_zero(body, 4 * g + 2);
                let v3 = sextet_or_zero(body, 4 * g + 3);
                lemma_sextet_of(body[4 * g]);
                if 4 * g + 1 < body.len() {
                    lemma_sextet_of(body[4 * g + 1]);
                }
                if 4 * g + 2 < body.len() {
                    lemma_sextet_of(body[4 * g + 2]);
                }
                if 4 * g + 3 < body.len() {
                    lemma_sextet_of(body[4 * g + 3]);
                }
                lemma_cleared_tail(v1, v2);
                assert forall|m: int| 0 <= m < 3 implies #[trigger] byte_or_zero(d, 3 * g + m)
                    == quad_byte(v0, v1, v2, v3, m) by {
                    lemma_group_position(g, m);
                    if 3 * g + m < n {
                        assert(d[3 * g + m] == decoded_byte(body, 3 * g + m));
                    }
                }
                lemma_join_split(v0, v1, v2, v3);
                lemma_group_position(g, pos);
                assert(body[j] == t[j]);
                lemma_sextet_of(t[j]);
                assert(byte_or_zero(d, 3 * g) == quad_byte(v0, v1, v2, v3, 0));
                assert(byte_or_zero(d, 3 * g + 1) == quad_byte(v0, v1, v2, v3, 1));
                assert(byte_or_zero(d, 3 * g + 2) == quad_byte(v0, v1, v2, v3, 2));
            }
        }
        assert(e =~= t);
    }
}

/// A successful decoding never produces more than `decoded_len` of the input
/// length.
pub proof fn law_decoded_len_bound(t: Seq<u8>)
    requires
        decode_spec(t) is Ok,
    ensures
        (decode_spec(t)->Ok_0).len() <= spec_decoded_len(t.len() as int),
{
    law_encode_decode(t);
    let d = decode_spec(t)->Ok_0;
    if d.len() > 0 {
        let (q, p) = lemma_encode_shape(d);
        lemma_div_mod(t.len() as int, 4, q, 0);
    }
}

/// The encoding of `s` is `encoded_len` of its length long and consists of
/// alphabet characters and `=` only.
pub proof fn law_encoded_shape(s: Seq<u8>)
    ensures
        encode_spec(s).len() == spec_encoded_len(s.len() as int),
        forall|j: int|
            0 <= j < encode_spec(s).len() ==> is_alphabet_char(#[trigger] encode_spec(s)[j])
                || encode_spec(s)[j] == pad_char(),
{
    if s.len() > 0 {
        let (q, p) = lemma_encode_shape(s);
    }
}

/// The encoding of nonempty bytes `s` is well framed, and its exact decoded
/// size is the length of `s`.
proof fn lemma_encoding_framed(s: Seq<u8>)
    requires
        s.len() > 0,
    ensures
        well_framed(encode_spec(s)),
        framed_decoded_len(encode_spec(s)) == s.len(),
{
    let t = encode_spec(s);
    let (q, p) = lemma_encode_shape(s);
    lemma_div_mod(t.len() as int, 4, q, 0);
    lemma_trailing_pad_shape(t);
    if trailing_pad(t) > p {
        assert(t[4 * q - p - 1] == pad_char());
    } else if trailing_pad(t) < p {
        assert(t[4 * q - trailing_pad(t) - 1] == pad_char());
    }
}

/// An output buffer that holds as many bytes as were encoded is enough:
/// decoding the encoding of `s` into any buffer of at least `s.len()` bytes
/// succeeds and gives `s` back.
pub proof fn law_decode_into_exact_fit(s: Seq<u8>, cap: int)
    requires
        cap >= s.len(),
    ensures
        decode_into(encode_spec(s), cap) == Ok::<Seq<u8>, Error>(s),
{
    law_decode_encode(s);
    if s.len() > 0 {
        lemma_encoding_framed(s);
    }
}

/// For an input that decodes to `d`, the output buffer only has to hold `d`:
/// decoding into `cap` bytes gives `d` exactly when `cap >= d.len()`, and is
/// refused as `BufferTooSmall` exactly when `cap < d.len()`.
pub proof fn law_buffer_needs_decoded_size(t: Seq<u8>, cap: int)
    requires
        decode_spec(t) is Ok,
        cap >= 0,
    ensures
        cap >= (decode_spec(t)->Ok_0).len() ==> decode_into(t, cap) == decode_spec(t),
        cap < (decode_spec(t)->Ok_0).len() ==> decode_into(t, cap) == Err::<Seq<u8>, Error>(
            Error::BufferTooSmall,
        ),
{
    let d = decode_spec(t)->Ok_0;
    law_encode_decode(t);
    if d.len() > 0 {
        lemma_encoding_framed(d);
    } else {
        assert(t.len() == 0) by {
            assert(d =~= Seq::<u8>::empty());
        }
    }
}

/// Decoding into a buffer is independent of its size once it holds the
/// result: if decoding `t` into `cap` bytes gives `d`, then so does decoding
/// into any buffer of `cap2 >= d.len()` bytes.
pub proof fn law_decode_capacity_independent(t: Seq<u8>, cap: int, cap2: int)
    requires
        decode_into(t, cap) is Ok,
        cap2 >= (decode_into(t, cap)->Ok_0).len(),
    ensures
        decode_into(t, cap2) == decode_into(t, cap),
{
    assert(decode_spec(t) == decode_into(t, cap));
    law_buffer_needs_decoded_size(t, cap2);
}

/// An output buffer of `decoded_len(encoded_len(n))` bytes is enough to
/// decode the encoding of any `n` bytes, which then gives those bytes back.
pub proof fn law_decode_with_decoded_len(s: Seq<u8>, cap: int)
    requires
        cap >= spec_decoded_len(spec_encoded_len(s.len() as int)),
    ensures
        decode_into(encode_spec(s), cap) == Ok::<Seq<u8>, Error>(s),
        spec_decoded_len(spec_encoded_len(s.len() as int)) >= s.len(),
{
    law_decode_encode(s);
    let t = encode_spec(s);
    if s.len() > 0 {
        let (q, p) = lemma_encode_shape(s);
        lemma_div_mod(t.len() as int, 4, q, 0);
        lemma_encoding_framed(s);
    }
}

/// An input holding a byte that is neither an alphabet character nor `=` is
/// never decoded.
pub proof fn law_foreign_byte_rejected(t: Seq<u8>, i: int)
    requires
        0 <= i < t.len(),
        !is_alphabet_char(t[i]),
        t[i] != pad_char(),
    ensures
        decode_spec(t) is Err,
{
    if t.len() % 4 == 0 && trailing_pad(t) <= 2 {
        lemma_trailing_pad_shape(t);
        let body = unpadded(t);
        assert(i < body.len());
        assert(body[i] == t[i]);
        lemma_first_invalid_exists(body, i);
    }
}

/// The decoder accepts exactly the encodings: an input decodes successfully
/// if and only if it is the encoding of some bytes.
pub proof fn law_accepts_exactly_encodings(t: Seq<u8>)
    ensures
        decode_spec(t) is Ok <==> exists|d: Seq<u8>| #[trigger] encode_spec(d) == t,
{
    if decode_spec(t) is Ok {
        law_encode_decode(t);
        assert(encode_spec(decode_spec(t)->Ok_0) == t);
    }
    if exists|d: Seq<u8>| #[trigger] encode_spec(d) == t {
        let d = choose|d: Seq<u8>| #[trigger] encode_spec(d) == t;
        law_decode_encode(d);
    }
}

} // verus!
