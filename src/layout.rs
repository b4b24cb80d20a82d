//! The wire format as mathematical objects: what each value encodes to, and
//! what each byte sequence decodes to.
use vstd::prelude::*;

verus! {

/// Why a byte sequence does not decode to a `u64`.
#[derive(Clone, Copy, Debug, PartialEq, Eq, Structural)]
pub enum DecodeError {
    /// Fewer bytes are available than the leading byte calls for.
    Truncated,
    /// The leading byte is `0xff`, kept for integers wider than 64 bits.
    OutOfRange,
}

/// `256` raised to the power `n`.
pub open spec fn pow256(n: nat) -> nat
    decreases n,
{
    if n == 0 {
        1
    } else {
        256 * pow256((n - 1) as nat)
    }
}

/// The fewest bytes that hold `v` big-endian with no leading zero byte.
pub open spec fn byte_width(v: nat) -> nat
    decreases v,
{
    if v == 0 {
        0
    } else {
        1 + byte_width(v / 256)
    }
}

/// The last `w` bytes of `v` in big-endian order (most significant first).
pub open spec fn be_bytes(v: nat, w: nat) -> Seq<u8> {
    Seq::new(w, |i: int| ((v / pow256((w - 1 - i) as nat)) % 256) as u8)
}

/// The number that `s` spells in big-endian order.
pub open spec fn be_value(s: Seq<u8>) -> nat
    decreases s.len(),
{
    if s.len() == 0 {
        0
    } else {
        be_value(s.drop_last()) * 256 + s.last() as nat
    }
}

/// The encoding of `v`.
pub open spec fn encoding(v: u64) -> Seq<u8> {
    if v <= 0xf0 {
        seq![v as u8]
    } else if v <= 0x7ef {
        let d = v - 0xf0;
        seq![(0xf1 + d / 256) as u8, (d % 256) as u8]
    } else if v <= 0x107ef {
        let d = v - 0x7f0;
        seq![0xf8u8, (d / 256) as u8, (d % 256) as u8]
    } else {
        let w = byte_width(v as nat);
        seq![(0xf6 + w) as u8] + be_bytes(v as nat, w)
    }
}

/// The total length, leading byte included, of an encoding that starts with
/// `lead` (meaningful for every `lead` but `0xff`).
pub open spec fn total_len(lead: u8) -> nat {
    if lead <= 0xf0 {
        1
    } else if lead <= 0xf7 {
        2
    } else if lead == 0xf8 {
        3
    } else {
        (lead - 0xf5) as nat
    }
}

/// The number held by `s`, a complete encoding (`s.len() == total_len(s[0])`).
pub open spec fn value_of(s: Seq<u8>) -> int {
    let lead = s[0];
    if lead <= 0xf0 {
        lead as int
    } else if lead <= 0xf7 {
        0xf0 + 256 * (lead - 0xf1) + s[1]
    } else if lead == 0xf8 {
        0x7f0 + 256 * s[1] + s[2]
    } else {
        be_value(s.subrange(1, s.len() as int)) as int
    }
}

/// What decoding the front of `s` gives: the value and the number of bytes it
/// took, or the error.
pub open spec fn decoded(s: Seq<u8>) -> Result<(int, nat), DecodeError> {
    if s.len() == 0 {
        Err(DecodeError::Truncated)
    } else if s[0] == 0xff {
        Err(DecodeError::OutOfRange)
    } else if s.len() < total_len(s[0]) {
        Err(DecodeError::Truncated)
    } else {
        Ok((value_of(s.take(total_len(s[0]) as int)), total_len(s[0])))
    }
}

/// `a` comes strictly before `b` in lexicographic byte order, where a proper
/// prefix comes before any of its extensions.
pub open spec fn lex_lt(a: Seq<u8>, b: Seq<u8>) -> bool {
    exists|i: int|
        #![trigger a.take(i), b.take(i)]
        0 <= i <= a.len() && i <= b.len() && a.take(i) == b.take(i) && (
        (i == a.len() && i < b.len()) || (i < a.len() && i < b.len() && a[i] < b[i]))
}

} // verus!
