//! What holds of the encoding as a whole.
use vstd::prelude::*;
use crate::layout::{be_bytes, byte_width, decoded, encoding, lex_lt, pow256, total_len, value_of, DecodeError};
use crate::lemmas::{
    lemma_be_bytes_lt, lemma_be_value_of_bytes, lemma_byte_width_mono, lemma_general_width,
    lemma_lex_asymmetric, lemma_lex_at, lemma_lex_cons, lemma_lex_irreflexive,
};

verus! {

/// The leading byte of every encoding is one of `0x00..=0xfe`, and it announces
/// the encoding's length, which is one to nine bytes.
pub proof fn lemma_encoding_shape(x: u64)
    ensures
        1 <= encoding(x).len() <= 9,
        encoding(x)[0] != 0xff,
        total_len(encoding(x)[0]) == encoding(x).len(),
{
    if x > 0x107ef {
        lemma_general_width(x);
    }
}

/// Decoding an encoding that more bytes follow gives back the value and takes
/// exactly the encoding's bytes, so encodings can be laid one after another.
pub proof fn lemma_decode_concatenated(x: u64, rest: Seq<u8>)
    ensures
        decoded(encoding(x) + rest) == Ok::<(int, nat), DecodeError>((x as int, encoding(x).len())),
{
    let e = encoding(x);
    let s = e + rest;
    lemma_encoding_shape(x);
    assert(s.take(e.len() as int) =~= e);
    assert(s[0] == e[0]);
    if x > 0x107ef {
        let w = byte_width(x as nat);
        lemma_general_width(x);
        lemma_be_value_of_bytes(x as nat, w);
        assert(e.subrange(1, e.len() as int) =~= be_bytes(x as nat, w));
        vstd::arithmetic::div_mod::lemma_small_mod(x as nat, pow256(w));
    }
    assert(value_of(e) == x);
}

/// Decoding the encoding of `x` gives `x` back.
pub proof fn lemma_round_trip(x: u64)
    ensures
        decoded(encoding(x)) == Ok::<(int, nat), DecodeError>((x as int, encoding(x).len())),
{
    lemma_decode_concatenated(x, Seq::empty());
    assert(encoding(x) + Seq::<u8>::empty() =~= encoding(x));
}

/// Every proper prefix of an encoding fails to decode as truncated.
pub proof fn lemma_truncated_prefix(x: u64, n: nat)
    requires
        n < encoding(x).len(),
    ensures
        decoded(encoding(x).take(n as int)) == Err::<(int, nat), DecodeError>(DecodeError::Truncated),
{
    lemma_encoding_shape(x);
}

/// A larger value never has a shorter encoding.
pub proof fn lemma_length_monotonic(x: u64, y: u64)
    requires
        x <= y,
    ensures
        encoding(x).len() <= encoding(y).len(),
{
    lemma_encoding_shape(x);
    lemma_encoding_shape(y);
    if y > 0x107ef {
        lemma_general_width(y);
    }
    if x > 0x107ef {
        lemma_byte_width_mono(x as nat, y as nat);
    }
}

/// The smaller value has the lexicographically smaller encoding.
proof fn lemma_encoding_lt(x: u64, y: u64)
    requires
        x < y,
    ensures
        lex_lt(encoding(x), encoding(y)),
{
    let ex = encoding(x);
    let ey = encoding(y);
    lemma_encoding_shape(x);
    lemma_encoding_shape(y);
    if x > 0x107ef {
        lemma_general_width(x);
        lemma_general_width(y);
        lemma_byte_width_mono(x as nat, y as nat);
    } else if y > 0x107ef {
        lemma_general_width(y);
    }
    if ex[0] < ey[0] {
        lemma_lex_at(ex, ey, 0);
    } else if x <= 0x7ef {
        lemma_lex_at(ex, ey, 1);
    } else if x <= 0x107ef {
        let dx = x - 0x7f0;
        let dy = y - 0x7f0;
        if dx / 256 < dy / 256 {
            lemma_lex_at(ex, ey, 1);
        } else {
            lemma_lex_at(ex, ey, 2);
        }
    } else {
        let w = byte_width(x as nat);
        lemma_be_bytes_lt(x as nat, y as nat, w);
        lemma_lex_cons(ex[0], be_bytes(x as nat, w), be_bytes(y as nat, w));
    }
}

/// Encodings compare in lexicographic byte order as the values do: the smaller
/// value has the smaller encoding, and equal encodings come from equal values.
pub proof fn lemma_order_preserved(x: u64, y: u64)
    ensures
        (x < y) == lex_lt(encoding(x), encoding(y)),
        (x == y) == (encoding(x) == encoding(y)),
        (x > y) == lex_lt(encoding(y), encoding(x)),
{
    lemma_lex_irreflexive(encoding(x));
    if x < y {
        lemma_encoding_lt(x, y);
        lemma_lex_asymmetric(encoding(x), encoding(y));
    } else if y < x {
        lemma_encoding_lt(y, x);
        lemma_lex_asymmetric(encoding(y), encoding(x));
    }
    if encoding(x) == encoding(y) {
        lemma_round_trip(x);
        lemma_round_trip(y);
    }
}

} // verus!
