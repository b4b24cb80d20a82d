//! Writing and reading one encoded value.
use vstd::prelude::*;
use crate::layout::{be_bytes, be_value, decoded, encoding, pow256, total_len, DecodeError};
use crate::lemmas::{lemma_byte_width_between, lemma_pow256_mono, lemma_pow256_values};

verus! {

/// Appends the encoding of `v` to `w`.
pub fn write_bvarint(v: u64, w: &mut Vec<u8>)
    ensures
        final(w)@ == old(w)@ + encoding(v),
{
    if v <= 0xf0 {
        w.push(v as u8);
    } else if v <= 0x7ef {
        let d = v - 0xf0;
        w.push((0xf1 + d / 256) as u8);
        w.push((d % 256) as u8);
    } else if v <= 0x107ef {
        let d = v - 0x7f0;
        w.push(0xf8u8);
        w.push((d / 256) as u8);
        w.push((d % 256) as u8);
    } else {
        proof {
            lemma_pow256_values();
        }
        // Find the width: the smallest `width` with `v < 256^width`.
        let mut width: usize = 1;
        let mut p: u64 = 1;
        while v / p >= 256
            invariant
                1 <= width <= 8,
                p as nat == pow256((width - 1) as nat),
                0 < p <= v,
                pow256(8) == 0x1_0000_0000_0000_0000,
            decreases 8 - width,
        {
            assert(256 * p <= v) by (nonlinear_arith)
                requires
                    v / p >= 256,
                    p > 0,
            ;
            proof {
                if width >= 8 {
                    lemma_pow256_mono(8, width as nat);
                }
            }
            p = p * 256;
            width = width + 1;
        }
        assert(v < 256 * p) by (nonlinear_arith)
            requires
                v / p < 256,
                p > 0,
        ;
        proof {
            lemma_byte_width_between(v as nat, width as nat);
        }
        let ghost start = old(w)@ + seq![(0xf6 + width) as u8];
        w.push((0xf6 + width) as u8);
        let mut i: usize = 0;
        let mut q: u64 = p;
        while i < width
            invariant
                i <= width <= 8,
                i < width ==> q as nat == pow256((width - 1 - i) as nat),
                w@ == start + be_bytes(v as nat, width as nat).take(i as int),
            decreases width - i,
        {
            proof {
                lemma_pow256_mono(0, (width - 1 - i) as nat);
            }
            w.push(((v / q) % 256) as u8);
            proof {
                if i + 1 < width {
                    let k = (width - 1 - (i + 1)) as nat;
                    assert(pow256(k + 1) == 256 * pow256(k));
                    assert((256 * pow256(k)) / 256 == pow256(k)) by (nonlinear_arith);
                }
            }
            q = q / 256;
            i = i + 1;
            assert(w@ =~= start + be_bytes(v as nat, width as nat).take(i as int));
        }
        assert(be_bytes(v as nat, width as nat).take(width as int)
            =~= be_bytes(v as nat, width as nat));
    }
}

} // verus!
verus! {

/// Reads one encoded value from the front of `r`: the value and the number of
/// bytes it took, which are exactly the bytes its leading byte calls for.
pub fn read_bvarint(r: &[u8]) -> (res: Result<(u64, usize), DecodeError>)
    ensures
        match res {
            Ok((v, n)) => decoded(r@) == Ok::<(int, nat), DecodeError>((v as int, n as nat)),
            Err(e) => decoded(r@) == Err::<(int, nat), DecodeError>(e),
        },
{
    if r.len() == 0 {
        return Err(DecodeError::Truncated);
    }
    let lead = r[0];
    if lead <= 0xf0 {
        assert(r@.take(1)[0] == lead);
        Ok((lead as u64, 1))
    } else if lead <= 0xf7 {
        if r.len() < 2 {
            return Err(DecodeError::Truncated);
        }
        assert(r@.take(2)[1] == r@[1]);
        Ok((0xf0 + 256 * ((lead - 0xf1) as u64) + r[1] as u64, 2))
    } else if lead == 0xf8 {
        if r.len() < 3 {
            return Err(DecodeError::Truncated);
        }
        assert(r@.take(3)[1] == r@[1] && r@.take(3)[2] == r@[2]);
        Ok((0x7f0 + 256 * (r[1] as u64) + r[2] as u64, 3))
    } else if lead == 0xff {
        Err(DecodeError::OutOfRange)
    } else {
        let n: usize = (lead - 0xf5) as usize;
        if r.len() < n {
            return Err(DecodeError::Truncated);
        }
        proof {
            lemma_pow256_values();
        }
        let mut acc: u64 = 0;
        let mut i: usize = 1;
        while i < n
            invariant
                1 <= i <= n <= 9,
                n <= r.len(),
                acc as nat == be_value(r@.subrange(1, i as int)),
                (acc as nat) < pow256((i - 1) as nat),
                pow256(8) == 0x1_0000_0000_0000_0000,
            decreases n - i,
        {
            let b = r[i];
            let ghost p = pow256((i - 1) as nat);
            proof {
                lemma_pow256_mono(i as nat, 8);
                assert(pow256(i as nat) == 256 * p);
                assert(acc * 256 + b < 256 * p) by (nonlinear_arith)
                    requires
                        acc < p,
                        b < 256,
                ;
                assert(r@.subrange(1, i + 1).drop_last() =~= r@.subrange(1, i as int));
            }
            acc = acc * 256 + b as u64;
            i = i + 1;
        }
        assert(r@.take(n as int).subrange(1, n as int) =~= r@.subrange(1, n as int));
        Ok((acc, n))
    }
}

/// How many bytes, the leading byte included, an encoding that starts with
/// `lead` takes; `None` for the reserved leading byte `0xff`.
pub fn encoded_len(lead: u8) -> (r: Option<usize>)
    ensures
        lead == 0xff ==> r is None,
        lead != 0xff ==> r == Some(total_len(lead) as usize),
{
    if lead <= 0xf0 {
        Some(1)
    } else if lead <= 0xf7 {
        Some(2)
    } else if lead == 0xf8 {
        Some(3)
    } else if lead == 0xff {
        None
    } else {
        Some((lead - 0xf5) as usize)
    }
}

} // verus!
