//! Binary-field multiplication gadgets for fields larger than GF(2^8), built
//! only from word operations (AND, XOR, shifts): GF(2^32) and GF(2^64).
use vstd::prelude::*;
use crate::circuit::{CircuitBuilder, Gate, Wire, grows, satisfies, band_count};
use crate::gf::{field_mul, gf32, gf64, mul_low, xpow, mulx, bit};
use crate::words::{lemma_select_bit, lemma_gf32_step, lemma_gf64_step, lemma_u32_ops};

verus! {

/// GF(2^32) multiplication modulo x^32 + x^7 + x^3 + x^2 + 1 (reduction
/// constant 0x8d) of the low 32 bits of `x` and `y`; the result occupies the
/// low 32 bits. The same shift-and-reduce structure as the GF(2^8) multiply.
/// It adds 96 AND gates.
pub fn gf32_mul(b: &mut CircuitBuilder, x: Wire, y: Wire) -> (z: Wire)
    requires
        old(b).wf(),
        x.0 < old(b)@.len(),
        y.0 < old(b)@.len(),
    ensures
        final(b).wf(),
        grows(old(b)@, final(b)@),
        band_count(final(b)@) == band_count(old(b)@) + 96,
        forall|g0: Seq<Gate>| grows(g0, old(b)@) ==> #[trigger] grows(g0, final(b)@),
        z.0 < final(b)@.len(),
        forall|w: Seq<u64>| #[trigger]
            satisfies(final(b)@, w) ==> w[z.0 as int] == field_mul(
                gf32(),
                w[x.0 as int],
                w[y.0 as int],
            ),
{
    let ghost b0 = b@;
    let byte = b.add_constant_64(0xFFFF_FFFF);
    let ghost b1 = b@;
    let poly = b.add_constant_64(0x8D);
    let ghost b2 = b@;
    let mut acc = b.add_constant_64(0);
    let ghost b3 = b@;
    let mut xi = b.band(x, byte);
    proof {
        assert forall|w: Seq<u64>| #[trigger] satisfies(b@, w) implies w[byte.0 as int] == 0xffff_ffffu64
            && w[poly.0 as int] == 0x8du64
            && w[acc.0 as int] == mul_low(gf32(), w[x.0 as int] & 0xffff_ffffu64, w[y.0 as int], 0)
            && w[xi.0 as int] == xpow(gf32(), w[x.0 as int] & 0xffff_ffffu64, 0)
            && w[xi.0 as int] <= 0xffff_ffffu64 && w[acc.0 as int] <= 0xffff_ffffu64 by {
            assert(satisfies(b3, w));
            assert(satisfies(b2, w));
            assert(satisfies(b1, w));
            lemma_u32_ops(w[x.0 as int], 0);
        }
    }
    let mut i: u32 = 0;
    while i < 32
        invariant
            0 <= i <= 32,
            b.wf(),
            grows(b0, b@),
            band_count(b@) + (if i == 32 { 2int } else { 0int }) == band_count(b0) + 1 + 3 * i,
            forall|g0: Seq<Gate>| grows(g0, b0) ==> #[trigger] grows(g0, b@),
            x.0 < b0.len(),
            y.0 < b0.len(),
            byte.0 < b@.len(),
            poly.0 < b@.len(),
            acc.0 < b@.len(),
            xi.0 < b@.len(),
            forall|w: Seq<u64>| #[trigger]
                satisfies(b@, w) ==> w[byte.0 as int] == 0xffff_ffffu64 && w[poly.0 as int] == 0x8du64
                    && w[acc.0 as int] == mul_low(gf32(), w[x.0 as int] & 0xffff_ffffu64, w[y.0 as int], i as nat)
                    && (i < 32 ==> w[xi.0 as int] == xpow(gf32(), w[x.0 as int] & 0xffff_ffffu64, i as nat))
                    && w[xi.0 as int] <= 0xffff_ffffu64 && w[acc.0 as int] <= 0xffff_ffffu64,
        decreases 32 - i,
    {
        let ghost bs = b@;
        let ghost acc0 = acc;
        let ghost xi0 = xi;
        let bit_at_msb = b.shl(y, 63 - i);
        let ghost s1 = b@;
        let mask = b.sar(bit_at_msb, 63);
        let ghost s2 = b@;
        let term = b.band(xi, mask);
        let ghost s3 = b@;
        acc = b.bxor(acc, term);
        proof {
            assert forall|w: Seq<u64>| #[trigger] satisfies(b@, w) implies w[acc.0 as int] == mul_low(
                gf32(),
                w[x.0 as int] & 0xffff_ffffu64,
                w[y.0 as int],
                (i + 1) as nat,
            ) && w[acc.0 as int] <= 0xffff_ffffu64 by {
                assert(satisfies(s3, w));
                assert(satisfies(s2, w));
                assert(satisfies(s1, w));
                assert(satisfies(bs, w));
                let i0 = i as nat;
                let xv = w[x.0 as int] & 0xffff_ffffu64;
                lemma_select_bit(w[y.0 as int], i as u64, w[xi0.0 as int]);
                lemma_u32_ops(w[acc0.0 as int], w[xi0.0 as int]);
                assert(bit(w[y.0 as int], i0) == ((w[y.0 as int] >> (i as u64)) & 1u64 == 1u64));
                assert(mul_low(gf32(), xv, w[y.0 as int], (i + 1) as nat) == mul_low(
                    gf32(),
                    xv,
                    w[y.0 as int],
                    i0,
                ) ^ (if bit(w[y.0 as int], i0) {
                    xpow(gf32(), xv, i0)
                } else {
                    0u64
                }));
            }
        }
        let ghost s4 = b@;
        if i < 31 {
            let hi_at_msb = b.shl(xi, 32);
            let ghost t1 = b@;
            let hi_mask = b.sar(hi_at_msb, 63);
            let ghost t2 = b@;
            let reduce = b.band(poly, hi_mask);
            let ghost t3 = b@;
            let sh = b.shl(xi, 1);
            let ghost t4 = b@;
            let shifted = b.band(sh, byte);
            let ghost t5 = b@;
            xi = b.bxor(shifted, reduce);
            proof {
                assert forall|w: Seq<u64>| #[trigger] satisfies(b@, w) implies w[xi.0 as int] == xpow(
                    gf32(),
                    w[x.0 as int] & 0xffff_ffffu64,
                    (i + 1) as nat,
                ) && w[xi.0 as int] <= 0xffff_ffffu64 by {
                    assert(satisfies(t5, w));
                    assert(satisfies(t4, w));
                    assert(satisfies(t3, w));
                    assert(satisfies(t2, w));
                    assert(satisfies(t1, w));
                    assert(satisfies(s4, w));
                    assert(satisfies(bs, w));
                    let xv = w[x.0 as int] & 0xffff_ffffu64;
                    lemma_gf32_step(w[xi0.0 as int]);
                    assert(xpow(gf32(), xv, (i + 1) as nat) == mulx(gf32(), xpow(gf32(), xv, i as nat)));
                }
            }
        }
        i = i + 1;
        proof {
            assert forall|w: Seq<u64>| #[trigger] satisfies(b@, w) implies w[byte.0 as int] == 0xffff_ffffu64
                && w[poly.0 as int] == 0x8du64
                && w[acc.0 as int] == mul_low(gf32(), w[x.0 as int] & 0xffff_ffffu64, w[y.0 as int], i as nat)
                && (i < 32 ==> w[xi.0 as int] == xpow(gf32(), w[x.0 as int] & 0xffff_ffffu64, i as nat))
                && w[xi.0 as int] <= 0xffff_ffffu64 && w[acc.0 as int] <= 0xffff_ffffu64 by {
                assert(satisfies(s4, w));
                assert(satisfies(bs, w));
            }
        }
    }
    let ghost be = b@;
    let z = b.band(acc, byte);
    proof {
        assert forall|w: Seq<u64>| #[trigger] satisfies(b@, w) implies w[z.0 as int] == field_mul(
            gf32(),
            w[x.0 as int],
            w[y.0 as int],
        ) by {
            assert(satisfies(be, w));
            lemma_u32_ops(w[acc.0 as int], 0);
        }
    }
    z
}


/// GF(2^64) multiplication modulo x^64 + x^4 + x^3 + x + 1 (reduction
/// constant 0x1b): the field whose elements are exactly one word. Reducing
/// as it goes keeps every partial product in the field; the result is the
/// full word.
/// It adds 127 AND gates.
pub fn gf64_mul(b: &mut CircuitBuilder, x: Wire, y: Wire) -> (z: Wire)
    requires
        old(b).wf(),
        x.0 < old(b)@.len(),
        y.0 < old(b)@.len(),
    ensures
        final(b).wf(),
        grows(old(b)@, final(b)@),
        band_count(final(b)@) == band_count(old(b)@) + 127,
        forall|g0: Seq<Gate>| grows(g0, old(b)@) ==> #[trigger] grows(g0, final(b)@),
        z.0 < final(b)@.len(),
        forall|w: Seq<u64>| #[trigger]
            satisfies(final(b)@, w) ==> w[z.0 as int] == field_mul(
                gf64(),
                w[x.0 as int],
                w[y.0 as int],
            ),
{
    let ghost b0 = b@;
    let poly = b.add_constant_64(0x1B);
    let ghost b1 = b@;
    let mut acc = b.add_constant_64(0);
    let mut xi = x;
    proof {
        assert forall|w: Seq<u64>| #[trigger] satisfies(b@, w) implies w[poly.0 as int] == 0x1bu64
            && w[acc.0 as int] == mul_low(gf64(), w[x.0 as int], w[y.0 as int], 0)
            && w[xi.0 as int] == xpow(gf64(), w[x.0 as int], 0) by {
            assert(satisfies(b1, w));
        }
    }
    let mut i: u32 = 0;
    while i < 64
        invariant
            0 <= i <= 64,
            b.wf(),
            grows(b0, b@),
            band_count(b@) + (if i == 64 { 1int } else { 0int }) == band_count(b0) + 2 * i,
            forall|g0: Seq<Gate>| grows(g0, b0) ==> #[trigger] grows(g0, b@),
            x.0 < b0.len(),
            y.0 < b0.len(),
            poly.0 < b@.len(),
            acc.0 < b@.len(),
            xi.0 < b@.len(),
            forall|w: Seq<u64>| #[trigger]
                satisfies(b@, w) ==> w[poly.0 as int] == 0x1bu64 && w[acc.0 as int] == mul_low(
                    gf64(),
                    w[x.0 as int],
                    w[y.0 as int],
                    i as nat,
                ) && (i < 64 ==> w[xi.0 as int] == xpow(gf64(), w[x.0 as int], i as nat)),
        decreases 64 - i,
    {
        let ghost bs = b@;
        let ghost acc0 = acc;
        let ghost xi0 = xi;
        let sh_y = b.shl(y, 63 - i);
        let ghost s1 = b@;
        let sel = b.sar(sh_y, 63);
        let ghost s2 = b@;
        let term = b.band(xi, sel);
        let ghost s3 = b@;
        acc = b.bxor(acc, term);
        proof {
            assert forall|w: Seq<u64>| #[trigger] satisfies(b@, w) implies w[acc.0 as int] == mul_low(
                gf64(),
                w[x.0 as int],
                w[y.0 as int],
                (i + 1) as nat,
            ) by {
                assert(satisfies(s3, w));
                assert(satisfies(s2, w));
                assert(satisfies(s1, w));
                assert(satisfies(bs, w));
                let i0 = i as nat;
                let xv = w[x.0 as int];
                lemma_select_bit(w[y.0 as int], i as u64, w[xi0.0 as int]);
                lemma_u32_ops(w[acc0.0 as int], 0);
                assert(bit(w[y.0 as int], i0) == ((w[y.0 as int] >> (i as u64)) & 1u64 == 1u64));
                assert(mul_low(gf64(), xv, w[y.0 as int], (i + 1) as nat) == mul_low(
                    gf64(),
                    xv,
                    w[y.0 as int],
                    i0,
                ) ^ (if bit(w[y.0 as int], i0) {
                    xpow(gf64(), xv, i0)
                } else {
                    0u64
                }));
            }
        }
        let ghost s4 = b@;
        if i < 63 {
            let hi = b.sar(xi, 63);
            let ghost t1 = b@;
            let reduce = b.band(poly, hi);
            let ghost t2 = b@;
            let sh = b.shl(xi, 1);
            let ghost t3 = b@;
            xi = b.bxor(sh, reduce);
            proof {
                assert forall|w: Seq<u64>| #[trigger] satisfies(b@, w) implies w[xi.0 as int] == xpow(
                    gf64(),
                    w[x.0 as int],
                    (i + 1) as nat,
                ) by {
                    assert(satisfies(t3, w));
                    assert(satisfies(t2, w));
                    assert(satisfies(t1, w));
                    assert(satisfies(s4, w));
                    assert(satisfies(bs, w));
                    let xv = w[x.0 as int];
                    lemma_gf64_step(w[xi0.0 as int]);
                    assert(xpow(gf64(), xv, (i + 1) as nat) == mulx(gf64(), xpow(gf64(), xv, i as nat)));
                }
            }
        }
        i = i + 1;
        proof {
            assert forall|w: Seq<u64>| #[trigger] satisfies(b@, w) implies w[poly.0 as int] == 0x1bu64
                && w[acc.0 as int] == mul_low(gf64(), w[x.0 as int], w[y.0 as int], i as nat)
                && (i < 64 ==> w[xi.0 as int] == xpow(gf64(), w[x.0 as int], i as nat)) by {
                assert(satisfies(s4, w));
                assert(satisfies(bs, w));
            }
        }
    }
    proof {
        assert forall|w: Seq<u64>| #[trigger] satisfies(b@, w) implies w[acc.0 as int] == field_mul(
            gf64(),
            w[x.0 as int],
            w[y.0 as int],
        ) by {
            lemma_select_bit(0, 0, w[x.0 as int]);
        }
    }
    acc
}

} // verus!
