//! Position arithmetic and the way the decoding of a prefix grows group by
//! group.
use vstd::prelude::*;

use crate::spec::{
    all_alphabet, body_decoded_len, decode_body, holds_decoded_groups, is_alphabet_char,
    is_first_invalid, pad_char, quad_byte, sextet_or_zero, trailing_pad,
};

verus! {

/// `x == d * q + r` with `0 <= r < d` determines quotient and remainder.
pub proof fn lemma_div_mod(x: int, d: int, q: int, r: int)
    requires
        d > 0,
        0 <= r < d,
        x == d * q + r,
    ensures
        x / d == q,
        x % d == r,
{
    assert(x == q * d + r) by (nonlinear_arith)
        requires
            x == d * q + r,
    ;
    vstd::arithmetic::div_mod::lemma_fundamental_div_mod_converse(x, d, q, r);
}

/// Position arithmetic of group `g`: character `4 * g + pos` lies in group `g`
/// at position `pos`, and byte `3 * g + pos` in group `g` at position `pos`.
pub proof fn lemma_group_position(g: int, pos: int)
    requires
        g >= 0,
        0 <= pos < 4,
    ensures
        (4 * g + pos) / 4 == g,
        (4 * g + pos) % 4 == pos,
        pos < 3 ==> (3 * g + pos) / 3 == g,
        pos < 3 ==> (3 * g + pos) % 3 == pos,
{
    lemma_div_mod(4 * g + pos, 4, g, pos);
    if pos < 3 {
        lemma_div_mod(3 * g + pos, 3, g, pos);
    }
}

/// A byte before the `g`-th group of three lies in an earlier group of
/// characters.
proof fn lemma_earlier_group(i: int, g: int)
    requires
        0 <= i < 3 * g,
    ensures
        0 <= i / 3 < g,
        4 * (i / 3) + 3 < 4 * g,
        i % 3 < 3,
{
    vstd::arithmetic::div_mod::lemma_fundamental_div_mod(i, 3);
}

/// Decoding the first `4 * g + r` characters of `t` gives the decoding of the
/// first `4 * g` characters followed by the bytes of the partial group of `r`
/// characters.
pub proof fn lemma_decode_prefix(t: Seq<u8>, g: int, r: int)
    requires
        0 <= g,
        0 <= r <= 4,
        4 * g + r <= t.len(),
    ensures
        decode_body(t.take(4 * g)).len() == 3 * g,
        decode_body(t.take(4 * g + r)).len() == 3 * g + if r == 0 {
            0
        } else {
            r - 1
        },
        forall|i: int|
            0 <= i < 3 * g ==> #[trigger] decode_body(t.take(4 * g + r))[i] == decode_body(
                t.take(4 * g),
            )[i],
        forall|k: int|
            0 <= k < r - 1 ==> #[trigger] decode_body(t.take(4 * g + r))[3 * g + k] == quad_byte(
                sextet_or_zero(t.take(4 * g + r), 4 * g),
                sextet_or_zero(t.take(4 * g + r), 4 * g + 1),
                sextet_or_zero(t.take(4 * g + r), 4 * g + 2),
                sextet_or_zero(t.take(4 * g + r), 4 * g + 3),
                k,
            ),
{
    let long = t.take(4 * g + r);
    let short = t.take(4 * g);
    lemma_div_mod(4 * g, 4, g, 0);
    if r < 4 {
        lemma_div_mod(4 * g + r, 4, g, r);
    } else {
        lemma_div_mod(4 * g + r, 4, g + 1, 0);
    }
    assert(body_decoded_len(4 * g) == 3 * g);
    assert forall|i: int| 0 <= i < 3 * g implies #[trigger] decode_body(long)[i] == decode_body(
        short,
    )[i] by {
        lemma_earlier_group(i, g);
        let h = i / 3;
        assert(sextet_or_zero(long, 4 * h) == sextet_or_zero(short, 4 * h));
        assert(sextet_or_zero(long, 4 * h + 1) == sextet_or_zero(short, 4 * h + 1));
        assert(sextet_or_zero(long, 4 * h + 2) == sextet_or_zero(short, 4 * h + 2));
        assert(sextet_or_zero(long, 4 * h + 3) == sextet_or_zero(short, 4 * h + 3));
    }
    assert forall|k: int| 0 <= k < r - 1 implies #[trigger] decode_body(long)[3 * g + k]
        == quad_byte(
        sextet_or_zero(long, 4 * g),
        sextet_or_zero(long, 4 * g + 1),
        sextet_or_zero(long, 4 * g + 2),
        sextet_or_zero(long, 4 * g + 3),
        k,
    ) by {
        lemma_div_mod(3 * g + k, 3, g, k);
    }
}

/// Extending an all-alphabet prefix by alphabet characters keeps it
/// all-alphabet.
pub proof fn lemma_all_alphabet_extend(t: Seq<u8>, m: int, n: int)
    requires
        0 <= m <= n <= t.len(),
        all_alphabet(t.take(m)),
        forall|k: int| m <= k < n ==> is_alphabet_char(#[trigger] t[k]),
    ensures
        all_alphabet(t.take(n)),
{
    assert forall|i: int| 0 <= i < t.take(n).len() implies is_alphabet_char(
        #[trigger] t.take(n)[i],
    ) by {
        if i < m {
            assert(t.take(n)[i] == t.take(m)[i]);
        }
    }
}

/// At most one position is the first one outside the alphabet.
pub proof fn lemma_first_invalid_unique(s: Seq<u8>, i: int, j: int)
    requires
        is_first_invalid(s, i),
        is_first_invalid(s, j),
    ensures
        i == j,
{
    if i < j {
        assert(is_alphabet_char(s[i]));
    } else if j < i {
        assert(is_alphabet_char(s[j]));
    }
}

/// A sequence of alphabet characters has no first invalid position.
pub proof fn lemma_no_first_invalid(s: Seq<u8>)
    requires
        all_alphabet(s),
    ensures
        !(exists|i: int| is_first_invalid(s, i)),
{
    assert forall|i: int| !is_first_invalid(s, i) by {
        if 0 <= i < s.len() {
            assert(is_alphabet_char(s[i]));
        }
    }
}

/// The trailing `=` of `t` occupy its last `trailing_pad(t)` positions, and
/// the position before them, if any, holds another byte.
pub proof fn lemma_trailing_pad_shape(t: Seq<u8>)
    ensures
        trailing_pad(t) <= t.len(),
        forall|k: int| t.len() - trailing_pad(t) <= k < t.len() ==> #[trigger] t[k] == pad_char(),
        trailing_pad(t) < t.len() ==> t[t.len() - trailing_pad(t) - 1] != pad_char(),
    decreases t.len(),
{
    if t.len() > 0 && t.last() == pad_char() {
        let u = t.drop_last();
        lemma_trailing_pad_shape(u);
        assert forall|k: int| t.len() - trailing_pad(t) <= k < t.len() implies #[trigger] t[k]
            == pad_char() by {
            if k < t.len() - 1 {
                assert(u[k] == t[k]);
            }
        }
        if trailing_pad(t) < t.len() {
            assert(u[u.len() - trailing_pad(u) - 1] == t[t.len() - trailing_pad(t) - 1]);
        }
    }
}

/// If the last `p` positions of `t` hold `=` and the one before does not,
/// `t` ends in exactly `p` of them.
pub proof fn lemma_trailing_pad_exact(t: Seq<u8>, p: int)
    requires
        0 <= p < t.len(),
        forall|k: int| t.len() - p <= k < t.len() ==> #[trigger] t[k] == pad_char(),
        t[t.len() - p - 1] != pad_char(),
    ensures
        trailing_pad(t) == p,
{
    lemma_trailing_pad_shape(t);
    let q = trailing_pad(t) as int;
    if q > p {
        assert(t[t.len() - p - 1] == pad_char());
    } else if q < p {
        assert(t[t.len() - q - 1] == pad_char());
    }
}

/// A buffer that nothing was written to holds the bytes of no groups.
pub proof fn lemma_nothing_written(t: Seq<u8>, before: Seq<u8>)
    ensures
        holds_decoded_groups(t, before, before, 0),
{
    assert(decode_body(t.take(0)) =~= Seq::<u8>::empty());
    assert(before =~= Seq::<u8>::empty() + before.skip(0));
}

} // verus!
