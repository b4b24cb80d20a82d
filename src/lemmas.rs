//! Arithmetic facts about the big-endian pieces of the layout.
use vstd::prelude::*;
use crate::layout::{be_bytes, be_value, byte_width, lex_lt, pow256};
use vstd::arithmetic::div_mod::{lemma_div_denominator, lemma_mod_breakdown};

verus! {

/// Powers of 256 are positive and grow with the exponent.
pub proof fn lemma_pow256_mono(a: nat, b: nat)
    requires
        a <= b,
    ensures
        0 < pow256(a) <= pow256(b),
    decreases b,
{
    if a < b {
        lemma_pow256_mono(a, (b - 1) as nat);
    } else if b > 0 {
        lemma_pow256_mono((b - 1) as nat, (b - 1) as nat);
    }
}

/// The first powers of 256, up to the one just past `u64::MAX`.
pub proof fn lemma_pow256_values()
    ensures
        pow256(0) == 1,
        pow256(1) == 0x100,
        pow256(2) == 0x1_0000,
        pow256(3) == 0x100_0000,
        pow256(8) == 0x1_0000_0000_0000_0000,
{
    reveal_with_fuel(pow256, 9);
}

/// A value lies below 256 to the power of its width, and a nonzero one at or
/// above the power just under that.
pub proof fn lemma_byte_width_bounds(v: nat)
    ensures
        v < pow256(byte_width(v)),
        v > 0 ==> byte_width(v) >= 1 && pow256((byte_width(v) - 1) as nat) <= v,
    decreases v,
{
    if v > 0 {
        let q = v / 256;
        lemma_byte_width_bounds(q);
        let pq = pow256(byte_width(q));
        assert(v < 256 * pq) by (nonlinear_arith)
            requires
                q == v / 256,
                q < pq,
        ;
        if q > 0 {
            let pl = pow256((byte_width(q) - 1) as nat);
            assert(256 * pl <= v) by (nonlinear_arith)
                requires
                    q == v / 256,
                    pl <= q,
            ;
        }
    }
}

/// The width is the exponent `w` with `256^(w-1) <= v < 256^w`.
pub proof fn lemma_byte_width_between(v: nat, w: nat)
    requires
        w >= 1,
        pow256((w - 1) as nat) <= v < pow256(w),
    ensures
        byte_width(v) == w,
{
    lemma_byte_width_bounds(v);
    let bw = byte_width(v);
    if bw < w {
        lemma_pow256_mono(bw, (w - 1) as nat);
    } else if bw > w {
        lemma_pow256_mono(w, (bw - 1) as nat);
    }
}

/// A larger value never has a smaller width.
pub proof fn lemma_byte_width_mono(x: nat, y: nat)
    requires
        x <= y,
    ensures
        byte_width(x) <= byte_width(y),
    decreases y,
{
    if x > 0 {
        assert(x / 256 <= y / 256) by (nonlinear_arith)
            requires
                x <= y,
        ;
        lemma_byte_width_mono(x / 256, y / 256);
    }
}

/// Every value of the general form has a width from 3 to 8 bytes.
pub proof fn lemma_general_width(v: u64)
    requires
        v >= 0x107f0,
    ensures
        3 <= byte_width(v as nat) <= 8,
        pow256((byte_width(v as nat) - 1) as nat) <= v < pow256(byte_width(v as nat)),
{
    let w = byte_width(v as nat);
    lemma_byte_width_bounds(v as nat);
    lemma_pow256_values();
    if w < 3 {
        lemma_pow256_mono(w, 2);
    }
    if w > 8 {
        lemma_pow256_mono(8, (w - 1) as nat);
    }
}

/// Dropping the last big-endian byte of `v` leaves the bytes of `v / 256`.
pub proof fn lemma_be_bytes_split(v: nat, w: nat)
    requires
        w > 0,
    ensures
        be_bytes(v, w) =~= be_bytes(v / 256, (w - 1) as nat).push((v % 256) as u8),
{
    let a = be_bytes(v, w);
    let b = be_bytes(v / 256, (w - 1) as nat).push((v % 256) as u8);
    assert forall|i: int| 0 <= i < w implies a[i] == b[i] by {
        if i < w - 1 {
            let k = (w - 2 - i) as nat;
            lemma_pow256_mono(0, k);
            assert(pow256((w - 1 - i) as nat) == 256 * pow256(k));
            lemma_div_denominator(v as int, 256, pow256(k) as int);
            assert(b[i] == be_bytes(v / 256, (w - 1) as nat)[i]);
            assert(a[i] == b[i]);
        } else {
            assert(pow256(0) == 1);
            assert(v / 1 == v);
            assert(a[i] == ((v / pow256(0)) % 256) as u8);
        }
    }
}

/// Reading back the last `w` big-endian bytes of `v` gives `v` modulo `256^w`.
pub proof fn lemma_be_value_of_bytes(v: nat, w: nat)
    ensures
        be_value(be_bytes(v, w)) == v % pow256(w),
    decreases w,
{
    if w == 0 {
        assert(be_bytes(v, w) =~= Seq::<u8>::empty());
    } else {
        let p = pow256((w - 1) as nat);
        lemma_be_bytes_split(v, w);
        lemma_be_value_of_bytes(v / 256, (w - 1) as nat);
        lemma_pow256_mono(0, (w - 1) as nat);
        lemma_mod_breakdown(v as int, 256, p as int);
        assert(be_bytes(v, w).drop_last() =~= be_bytes(v / 256, (w - 1) as nat));
    }
}

/// Two sequences that start alike keep their order.
pub proof fn lemma_lex_cons(c: u8, a: Seq<u8>, b: Seq<u8>)
    requires
        lex_lt(a, b),
    ensures
        lex_lt(seq![c] + a, seq![c] + b),
{
    let i = choose|i: int|
        #![trigger a.take(i), b.take(i)]
        0 <= i <= a.len() && i <= b.len() && a.take(i) == b.take(i) && (
        (i == a.len() && i < b.len()) || (i < a.len() && i < b.len() && a[i] < b[i]));
    let a2 = seq![c] + a;
    let b2 = seq![c] + b;
    assert(a2.take(i + 1) =~= seq![c] + a.take(i));
    assert(b2.take(i + 1) =~= seq![c] + b.take(i));
    assert(a2.take(i + 1) == b2.take(i + 1));
}

/// Equal-length sequences keep their order when each gets one more byte.
pub proof fn lemma_lex_push(a: Seq<u8>, b: Seq<u8>, c: u8, d: u8)
    requires
        a.len() == b.len(),
        lex_lt(a, b),
    ensures
        lex_lt(a.push(c), b.push(d)),
{
    let i = choose|i: int|
        #![trigger a.take(i), b.take(i)]
        0 <= i <= a.len() && i <= b.len() && a.take(i) == b.take(i) && (
        (i == a.len() && i < b.len()) || (i < a.len() && i < b.len() && a[i] < b[i]));
    assert(a.push(c).take(i) =~= a.take(i));
    assert(b.push(d).take(i) =~= b.take(i));
}

/// Sequences that agree up to `i` and then differ in a smaller byte are in order.
pub proof fn lemma_lex_at(a: Seq<u8>, b: Seq<u8>, i: int)
    requires
        0 <= i < a.len(),
        i < b.len(),
        forall|j: int| 0 <= j < i ==> a[j] == b[j],
        a[i] < b[i],
    ensures
        lex_lt(a, b),
{
    assert(a.take(i) =~= b.take(i));
}

/// Of two values below `256^w`, the smaller has the smaller `w`-byte big-endian form.
pub proof fn lemma_be_bytes_lt(x: nat, y: nat, w: nat)
    requires
        x < y < pow256(w),
    ensures
        lex_lt(be_bytes(x, w), be_bytes(y, w)),
    decreases w,
{
    if w == 0 {
        assert(pow256(0) == 1);
    } else {
        let p = pow256((w - 1) as nat);
        lemma_be_bytes_split(x, w);
        lemma_be_bytes_split(y, w);
        let xs = be_bytes(x / 256, (w - 1) as nat);
        let ys = be_bytes(y / 256, (w - 1) as nat);
        assert(x / 256 <= y / 256 < p) by (nonlinear_arith)
            requires
                x < y,
                y < 256 * p,
        ;
        if x / 256 < y / 256 {
            lemma_be_bytes_lt(x / 256, y / 256, (w - 1) as nat);
            lemma_lex_push(xs, ys, (x % 256) as u8, (y % 256) as u8);
        } else {
            lemma_lex_at(xs.push((x % 256) as u8), ys.push((y % 256) as u8), (w - 1) as int);
        }
    }
}

/// Nothing comes strictly before itself.
pub proof fn lemma_lex_irreflexive(a: Seq<u8>)
    ensures
        !lex_lt(a, a),
{
}

/// Two sequences are never each before the other.
pub proof fn lemma_lex_asymmetric(a: Seq<u8>, b: Seq<u8>)
    requires
        lex_lt(a, b),
    ensures
        !lex_lt(b, a),
{
    let i = choose|i: int|
        #![trigger a.take(i), b.take(i)]
        0 <= i <= a.len() && i <= b.len() && a.take(i) == b.take(i) && (
        (i == a.len() && i < b.len()) || (i < a.len() && i < b.len() && a[i] < b[i]));
    if lex_lt(b, a) {
        let j = choose|j: int|
            #![trigger b.take(j), a.take(j)]
            0 <= j <= b.len() && j <= a.len() && b.take(j) == a.take(j) && (
            (j == b.len() && j < a.len()) || (j < b.len() && j < a.len() && b[j] < a[j]));
        if i < j {
            assert(b.take(j)[i] == a.take(j)[i]);
        } else if j < i {
            assert(a.take(i)[j] == b.take(i)[j]);
        }
    }
}

} // verus!
