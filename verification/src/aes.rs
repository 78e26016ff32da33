//! AES-128 with a fixed key as a word-circuit gadget, built bottom-up: the
//! GF(2^8) multiply, the S-box (inverse by verified prover advice, then the
//! affine map), the round layers, the ten-round permutation `pi`, and the
//! garbling hash `tccr(t, x) = pi(pi(x) ^ t) ^ pi(x)`.
//!
//! The state is 16 wires, byte `i` in the low 8 bits of wire `i`, in
//! column-major order (`s[r][c]` at `r + 4c`).
use vstd::prelude::*;
use crate::circuit::{
    CircuitBuilder,
    Gate,
    Wire,
    grows,
    satisfies,
    sar_spec,
    populate,
    lemma_grows_then_assert,
    lemma_grows_trans,
    lemma_grows_refl,
    xor_fold,
    wire_indices,
    lemma_xor_fold5,
    wires_below,
    band_count,
};
use crate::gf::{
    field_mul,
    gf8,
    mul_low,
    xpow,
    mulx,
    bit,
    gf8_mul,
    gf8_inv,
    lemma_gf8_inverse_pinned,
    lemma_gf8_mul_laws,
    lemma_gf8_inv,
    lemma_gf8_inv_involution,
    lemma_gf8_mul_chain,
    xt,
    xt_pow,
    gf8_pow,
    gf8_chain,
    mul_chain,
};
use crate::words::{lemma_select_bit, lemma_gf8_step, lemma_byte_ops};

verus! {

/// GF(2^8) multiplication modulo x^8 + x^4 + x^3 + x + 1 of the low bytes of
/// `x` and `y`; the result is a byte.
/// It adds 24 AND gates.
pub fn gf_mul(b: &mut CircuitBuilder, x: Wire, y: Wire) -> (z: Wire)
    requires
        old(b).wf(),
        x.0 < old(b)@.len(),
        y.0 < old(b)@.len(),
    ensures
        final(b).wf(),
        grows(old(b)@, final(b)@),
        band_count(final(b)@) == band_count(old(b)@) + 24,
        forall|g0: Seq<Gate>| grows(g0, old(b)@) ==> #[trigger] grows(g0, final(b)@),
        z.0 < final(b)@.len(),
        forall|w: Seq<u64>| #[trigger]
            satisfies(final(b)@, w) ==> w[z.0 as int] == field_mul(
                gf8(),
                w[x.0 as int],
                w[y.0 as int],
            ),
{
    let ghost b0 = b@;
    let byte = b.add_constant_64(0xFF);
    let ghost b1 = b@;
    let poly = b.add_constant_64(0x1B);
    let ghost b2 = b@;
    let mut acc = b.add_constant_64(0);
    let ghost b3 = b@;
    let mut xi = b.band(x, byte);
    proof {
        assert forall|w: Seq<u64>| #[trigger] satisfies(b@, w) implies w[byte.0 as int] == 0xffu64
            && w[poly.0 as int] == 0x1bu64
            && w[acc.0 as int] == mul_low(gf8(), w[x.0 as int] & 0xffu64, w[y.0 as int], 0)
            && w[xi.0 as int] == xpow(gf8(), w[x.0 as int] & 0xffu64, 0)
            && w[xi.0 as int] <= 0xffu64 && w[acc.0 as int] <= 0xffu64 by {
            assert(satisfies(b3, w));
            assert(satisfies(b2, w));
            assert(satisfies(b1, w));
            lemma_byte_ops(w[x.0 as int], 0);
        }
    }
    let mut i: u32 = 0;
    while i < 8
        invariant
            0 <= i <= 8,
            b.wf(),
            grows(b0, b@),
            band_count(b@) + (if i == 8 { 2int } else { 0int }) == band_count(b0) + 1 + 3 * i,
            forall|g0: Seq<Gate>| grows(g0, b0) ==> #[trigger] grows(g0, b@),
            x.0 < b0.len(),
            y.0 < b0.len(),
            byte.0 < b@.len(),
            poly.0 < b@.len(),
            acc.0 < b@.len(),
            xi.0 < b@.len(),
            forall|w: Seq<u64>| #[trigger]
                satisfies(b@, w) ==> w[byte.0 as int] == 0xffu64 && w[poly.0 as int] == 0x1bu64
                    && w[acc.0 as int] == mul_low(gf8(), w[x.0 as int] & 0xffu64, w[y.0 as int], i as nat)
                    && (i < 8 ==> w[xi.0 as int] == xpow(gf8(), w[x.0 as int] & 0xffu64, i as nat))
                    && w[xi.0 as int] <= 0xffu64 && w[acc.0 as int] <= 0xffu64,
        decreases 8 - i,
    {
        let ghost bs = b@;
        let ghost acc0 = acc;
        let ghost xi0 = xi;
        let bit_at_msb = b.shl(y, 63 - i);
        let ghost s1 = b@;
        let mask = b.sar(bit_at_msb, 63);
        let ghost s2 = b@;
        let term = b.band(xi, mask);
        let ghost s3 = b@;
        acc = b.bxor(acc, term);
        proof {
            assert forall|w: Seq<u64>| #[trigger] satisfies(b@, w) implies w[acc.0 as int] == mul_low(
                gf8(),
                w[x.0 as int] & 0xffu64,
                w[y.0 as int],
                (i + 1) as nat,
            ) && w[acc.0 as int] <= 0xffu64 by {
                assert(satisfies(s3, w));
                assert(satisfies(s2, w));
                assert(satisfies(s1, w));
                assert(satisfies(bs, w));
                let i0 = i as nat;
                let xv = w[x.0 as int] & 0xffu64;
                lemma_select_bit(w[y.0 as int], i as u64, w[xi0.0 as int]);
                lemma_byte_ops(w[acc0.0 as int], w[xi0.0 as int]);
                assert(bit(w[y.0 as int], i0) == ((w[y.0 as int] >> (i as u64)) & 1u64 == 1u64));
                assert(mul_low(gf8(), xv, w[y.0 as int], (i + 1) as nat) == mul_low(
                    gf8(),
                    xv,
                    w[y.0 as int],
                    i0,
                ) ^ (if bit(w[y.0 as int], i0) {
                    xpow(gf8(), xv, i0)
                } else {
                    0u64
                }));
            }
        }
        let ghost s4 = b@;
        if i < 7 {
            let hi_at_msb = b.shl(xi, 56);
            let ghost t1 = b@;
            let hi_mask = b.sar(hi_at_msb, 63);
            let ghost t2 = b@;
            let reduce = b.band(poly, hi_mask);
            let ghost t3 = b@;
            let sh = b.shl(xi, 1);
            let ghost t4 = b@;
            let shifted = b.band(sh, byte);
            let ghost t5 = b@;
            xi = b.bxor(shifted, reduce);
            proof {
                assert forall|w: Seq<u64>| #[trigger] satisfies(b@, w) implies w[xi.0 as int] == xpow(
                    gf8(),
                    w[x.0 as int] & 0xffu64,
                    (i + 1) as nat,
                ) && w[xi.0 as int] <= 0xffu64 by {
                    assert(satisfies(t5, w));
                    assert(satisfies(t4, w));
                    assert(satisfies(t3, w));
                    assert(satisfies(t2, w));
                    assert(satisfies(t1, w));
                    assert(satisfies(s4, w));
                    assert(satisfies(bs, w));
                    let xv = w[x.0 as int] & 0xffu64;
                    lemma_gf8_step(w[xi0.0 as int]);
                    assert(xpow(gf8(), xv, (i + 1) as nat) == mulx(gf8(), xpow(gf8(), xv, i as nat)));
                }
            }
        }
        i = i + 1;
        proof {
            assert forall|w: Seq<u64>| #[trigger] satisfies(b@, w) implies w[byte.0 as int] == 0xffu64
                && w[poly.0 as int] == 0x1bu64
                && w[acc.0 as int] == mul_low(gf8(), w[x.0 as int] & 0xffu64, w[y.0 as int], i as nat)
                && (i < 8 ==> w[xi.0 as int] == xpow(gf8(), w[x.0 as int] & 0xffu64, i as nat))
                && w[xi.0 as int] <= 0xffu64 && w[acc.0 as int] <= 0xffu64 by {
                assert(satisfies(s4, w));
                assert(satisfies(bs, w));
            }
        }
    }
    let ghost be = b@;
    let z = b.band(acc, byte);
    proof {
        assert forall|w: Seq<u64>| #[trigger] satisfies(b@, w) implies w[z.0 as int] == field_mul(
            gf8(),
            w[x.0 as int],
            w[y.0 as int],
        ) by {
            assert(satisfies(be, w));
            lemma_byte_ops(w[acc.0 as int], 0);
        }
    }
    z
}


/// The field product of two bytes held in words is their GF(2^8) product.
pub proof fn lemma_byte_mul(a: u64, b: u64)
    requires
        a <= 0xffu64,
        b <= 0xffu64,
    ensures
        field_mul(gf8(), a, b) == gf8_mul(a as u8, b as u8) as u64,
{
    lemma_gf8_mul_chain(a as u8, b as u8);
}

/// GF(2^8) inverse of the low byte of `x` (zero for zero). The prover
/// supplies the inverse as advice, and the circuit checks it with three
/// multiplications: with `p = x * inv`, the assertions `x * p == x` and
/// `inv * p == inv` hold exactly when `inv` is the inverse.
fn gf_inv(b: &mut CircuitBuilder, x: Wire) -> (inv: Wire)
    requires
        old(b).wf(),
        x.0 < old(b)@.len(),
    ensures
        final(b).wf(),
        grows(old(b)@, final(b)@),
        band_count(final(b)@) == band_count(old(b)@) + 74,
        forall|g0: Seq<Gate>| grows(g0, old(b)@) ==> #[trigger] grows(g0, final(b)@),
        inv.0 < final(b)@.len(),
        forall|w: Seq<u64>| #[trigger]
            satisfies(final(b)@, w) ==> w[inv.0 as int] == gf8_inv(
                (w[x.0 as int] & 0xffu64) as u8,
            ) as u64,
{
    let ghost b0 = b@;
    let byte = b.add_constant_64(0xFF);
    let ghost b1 = b@;
    let xm = b.band(x, byte);
    let ghost b2 = b@;
    let h = b.byte_inverse_hint(xm);
    let ghost b3 = b@;
    let inv = b.band(h, byte);
    let ghost b4 = b@;
    let p = gf_mul(b, xm, inv);
    let ghost b5 = b@;
    let c1 = gf_mul(b, xm, p);
    let ghost b6 = b@;
    b.assert_eq(c1, xm);
    let ghost b7 = b@;
    let c2 = gf_mul(b, inv, p);
    let ghost b8 = b@;
    b.assert_eq(c2, inv);
    proof {
        let b9 = b@;
        assert(grows(b0, b6));
        // The honest prover's inverse passes both checks.
        assert forall|w: Seq<u64>|
            w.len() >= b7.len() && #[trigger] satisfies(b0, populate(b0, w)) implies satisfies(
            b7,
            populate(b7, w),
        ) by {
            let pop6 = populate(b6, w);
            assert(satisfies(b6, pop6));
            assert(satisfies(b5, pop6));
            assert(satisfies(b4, pop6));
            assert(satisfies(b1, pop6));
            let xv = pop6[xm.0 as int];
            assert(xv == pop6[x.0 as int] & pop6[byte.0 as int]);
            lemma_byte_ops(pop6[x.0 as int], pop6[h.0 as int]);
            lemma_byte_ops(xv, 0);
            assert(pop6[h.0 as int] == populate(b3, w)[h.0 as int]);
            assert(populate(b2, w)[xm.0 as int] == xv);
            let iv = gf8_inv(xv as u8);
            assert(pop6[h.0 as int] == iv as u64);
            lemma_byte_ops(iv as u64, 0);
            assert(pop6[inv.0 as int] == iv as u64);
            lemma_byte_mul(xv, iv as u64);
            lemma_gf8_inverse_pinned(xv as u8, iv);
            let pv = gf8_mul(xv as u8, iv);
            lemma_byte_mul(xv, pv as u64);
            assert(pop6[c1.0 as int] == pop6[xm.0 as int]);
        }
        lemma_grows_then_assert(b0, b6, b7);
        lemma_grows_trans(b0, b7, b8);
        assert forall|w: Seq<u64>|
            w.len() >= b9.len() && #[trigger] satisfies(b0, populate(b0, w)) implies satisfies(
            b9,
            populate(b9, w),
        ) by {
            let pop8 = populate(b8, w);
            assert(satisfies(b8, pop8));
            assert(satisfies(b7, pop8));
            assert(satisfies(b6, pop8));
            assert(satisfies(b5, pop8));
            assert(satisfies(b4, pop8));
            assert(satisfies(b1, pop8));
            let xv = pop8[xm.0 as int];
            lemma_byte_ops(pop8[x.0 as int], pop8[h.0 as int]);
            lemma_byte_ops(xv, 0);
            assert(pop8[h.0 as int] == populate(b3, w)[h.0 as int]);
            assert(populate(b2, w)[xm.0 as int] == xv);
            let iv = gf8_inv(xv as u8);
            assert(pop8[h.0 as int] == iv as u64);
            lemma_byte_ops(iv as u64, 0);
            assert(pop8[inv.0 as int] == iv as u64);
            lemma_byte_mul(xv, iv as u64);
            lemma_gf8_inverse_pinned(xv as u8, iv);
            let pv = gf8_mul(xv as u8, iv);
            lemma_byte_mul(iv as u64, pv as u64);
            assert(pop8[c2.0 as int] == pop8[inv.0 as int]);
        }
        lemma_grows_then_assert(b0, b8, b9);
        assert forall|g0: Seq<Gate>| grows(g0, b0) implies #[trigger] grows(g0, b9) by {
            lemma_grows_trans(g0, b0, b9);
        }
        assert forall|w: Seq<u64>| #[trigger] satisfies(b9, w) implies w[inv.0 as int] == gf8_inv(
            (w[x.0 as int] & 0xffu64) as u8,
        ) as u64 by {
            assert(satisfies(b8, w));
            assert(satisfies(b7, w));
            assert(satisfies(b6, w));
            assert(satisfies(b5, w));
            assert(satisfies(b4, w));
            assert(satisfies(b1, w));
            let xv = w[xm.0 as int];
            let iv = w[inv.0 as int];
            lemma_byte_ops(w[x.0 as int], w[h.0 as int]);
            lemma_byte_ops(w[h.0 as int], 0xff);
            lemma_byte_mul(xv, iv);
            let pv = gf8_mul(xv as u8, iv as u8);
            lemma_byte_mul(xv, pv as u64);
            lemma_byte_mul(iv, pv as u64);
            lemma_gf8_inverse_pinned(xv as u8, iv as u8);
        }
    }
    inv
}


/// 8-bit left rotation of a byte by `n` in 1..=7.
pub open spec fn rotl8_spec(y: u8, n: u8) -> u8 {
    (y << n) | (y >> ((8 - n) as u8))
}

/// The AES affine map: `y ^ (y <<< 1) ^ (y <<< 2) ^ (y <<< 3) ^ (y <<< 4) ^ 0x63`,
/// which sets bit `i` to `y_i ^ y_(i+4) ^ y_(i+5) ^ y_(i+6) ^ y_(i+7) ^ c_i`.
pub open spec fn aes_affine(y: u8) -> u8 {
    y ^ rotl8_spec(y, 1) ^ rotl8_spec(y, 2) ^ rotl8_spec(y, 3) ^ rotl8_spec(y, 4) ^ 0x63u8
}

/// The AES S-box: the affine map applied to the GF(2^8) inverse.
pub open spec fn sbox_spec(x: u8) -> u8 {
    aes_affine(gf8_inv(x))
}

/// The affine map is one-to-one on bytes.
pub proof fn lemma_affine_injective(a: u8, b: u8)
    by (bit_vector)
    ensures
        aes_affine(a) == aes_affine(b) ==> a == b,
{
}

/// The AES S-box is a bijection on bytes: distinct inputs give distinct
/// outputs.
pub proof fn lemma_sbox_bijective(x: u8, y: u8)
    ensures
        sbox_spec(x) == sbox_spec(y) ==> x == y,
{
    lemma_affine_injective(gf8_inv(x), gf8_inv(y));
    lemma_gf8_inv_involution(x);
    lemma_gf8_inv_involution(y);
}

/// Rotating a byte held in a word matches rotating the byte.
pub proof fn lemma_rotl_word(x: u64, n: u64)
    by (bit_vector)
    requires
        x <= 0xffu64,
        1u64 <= n <= 7u64,
    ensures
        ((x << n) | (x >> ((8u64 - n) as u64))) & 0xffu64 == rotl8_spec(x as u8, n as u8) as u64,
{
}

/// The XOR of the byte and its four rotations with 0x63, kept to a byte, is
/// the affine map.
pub proof fn lemma_affine_word(y: u8)
    by (bit_vector)
    ensures
        ((((((0u64 ^ (y as u64)) ^ (rotl8_spec(y, 1) as u64)) ^ (rotl8_spec(y, 2) as u64)) ^ (
        rotl8_spec(y, 3) as u64)) ^ (rotl8_spec(y, 4) as u64)) ^ 0x63u64) & 0xffu64
            == aes_affine(y) as u64,
{
}

/// 8-bit left rotation of the byte in the low 8 bits of `x`, by `n` in 1..=7.
fn rotl8(b: &mut CircuitBuilder, x: Wire, n: u32) -> (r: Wire)
    requires
        old(b).wf(),
        x.0 < old(b)@.len(),
        1 <= n <= 7,
    ensures
        final(b).wf(),
        grows(old(b)@, final(b)@),
        band_count(final(b)@) == band_count(old(b)@) + 1,
        forall|g0: Seq<Gate>| grows(g0, old(b)@) ==> #[trigger] grows(g0, final(b)@),
        r.0 < final(b)@.len(),
        forall|w: Seq<u64>| #[trigger]
            satisfies(final(b)@, w) ==> w[r.0 as int] == ((w[x.0 as int] << (n as u64)) | (w[x.0 as int]
                >> ((8 - n) as u64))) & 0xffu64,
{
    let ghost b0 = b@;
    let byte = b.add_constant_64(0xFF);
    let ghost b1 = b@;
    let lo = b.shl(x, n);
    let ghost b2 = b@;
    let hi = b.shr(x, 8 - n);
    let ghost b3 = b@;
    let both = b.bor(lo, hi);
    let ghost b4 = b@;
    let r = b.band(both, byte);
    proof {
        assert forall|w: Seq<u64>| #[trigger] satisfies(b@, w) implies w[r.0 as int] == ((w[x.0 as int]
            << (n as u64)) | (w[x.0 as int] >> ((8 - n) as u64))) & 0xffu64 by {
            assert(satisfies(b4, w));
            assert(satisfies(b3, w));
            assert(satisfies(b2, w));
            assert(satisfies(b1, w));
        }
    }
    r
}

/// The AES S-box of the low byte of `x`: the affine map of its GF(2^8)
/// inverse, as `y ^ (y <<< 1) ^ (y <<< 2) ^ (y <<< 3) ^ (y <<< 4) ^ 0x63`.
/// It adds 79 AND gates.
pub fn sbox(b: &mut CircuitBuilder, x: Wire) -> (r: Wire)
    requires
        old(b).wf(),
        x.0 < old(b)@.len(),
    ensures
        final(b).wf(),
        grows(old(b)@, final(b)@),
        band_count(final(b)@) == band_count(old(b)@) + 79,
        forall|g0: Seq<Gate>| grows(g0, old(b)@) ==> #[trigger] grows(g0, final(b)@),
        r.0 < final(b)@.len(),
        forall|w: Seq<u64>| #[trigger]
            satisfies(final(b)@, w) ==> w[r.0 as int] == sbox_spec((w[x.0 as int] & 0xffu64) as u8)
                as u64,
{
    let ghost b0 = b@;
    let y = gf_inv(b, x);
    let ghost b1 = b@;
    let c = b.add_constant_64(0x63);
    let ghost b2 = b@;
    let byte = b.add_constant_64(0xFF);
    let ghost b3 = b@;
    let r1 = rotl8(b, y, 1);
    let ghost b4 = b@;
    let r2 = rotl8(b, y, 2);
    let ghost b5 = b@;
    let r3 = rotl8(b, y, 3);
    let ghost b6 = b@;
    let r4 = rotl8(b, y, 4);
    let ghost b7 = b@;
    let terms = [y, r1, r2, r3, r4, c];
    let s = b.bxor_multi(&terms);
    let ghost b8 = b@;
    let r = b.band(s, byte);
    proof {
        assert(terms@ =~= seq![y, r1, r2, r3, r4, c]);
        assert forall|w: Seq<u64>| #[trigger] satisfies(b@, w) implies w[r.0 as int] == sbox_spec(
            (w[x.0 as int] & 0xffu64) as u8,
        ) as u64 by {
            assert(satisfies(b8, w));
            assert(satisfies(b7, w));
            assert(satisfies(b6, w));
            assert(satisfies(b5, w));
            assert(satisfies(b4, w));
            assert(satisfies(b3, w));
            assert(satisfies(b2, w));
            assert(satisfies(b1, w));
            let yv = gf8_inv((w[x.0 as int] & 0xffu64) as u8);
            assert(w[y.0 as int] == yv as u64);
            lemma_rotl_word(yv as u64, 1);
            lemma_rotl_word(yv as u64, 2);
            lemma_rotl_word(yv as u64, 3);
            lemma_rotl_word(yv as u64, 4);
            lemma_affine_word(yv);
            let idx = wire_indices(terms@);
            assert(idx =~= seq![y.0, r1.0, r2.0, r3.0, r4.0, c.0]);
            reveal_with_fuel(xor_fold, 7);
            assert(idx.drop_last() =~= seq![y.0, r1.0, r2.0, r3.0, r4.0]);
            assert(idx.drop_last().drop_last() =~= seq![y.0, r1.0, r2.0, r3.0]);
            assert(idx.drop_last().drop_last().drop_last() =~= seq![y.0, r1.0, r2.0]);
            assert(idx.drop_last().drop_last().drop_last().drop_last() =~= seq![y.0, r1.0]);
            assert(idx.drop_last().drop_last().drop_last().drop_last().drop_last() =~= seq![y.0]);
            assert(idx.drop_last().drop_last().drop_last().drop_last().drop_last().drop_last()
                =~= Seq::<usize>::empty());
        }
    }
    r
}


// ───────────────────────────── AES state layers ──────────────────────────────

/// The low bytes that `w` puts on the wires `ws`.
pub open spec fn low_bytes(w: Seq<u64>, ws: Seq<Wire>) -> Seq<u8> {
    Seq::new(ws.len(), |i: int| (w[ws[i].0 as int] & 0xffu64) as u8)
}

/// `w` puts exactly the bytes `s` on the wires `ws`.
pub open spec fn holds_bytes(w: Seq<u64>, ws: Seq<Wire>, s: Seq<u8>) -> bool {
    &&& ws.len() == s.len()
    &&& forall|i: int| 0 <= i < ws.len() ==> #[trigger] w[ws[i].0 as int] == s[i] as u64
}

/// SubBytes: the S-box on every byte.
pub open spec fn sub_bytes_spec(s: Seq<u8>) -> Seq<u8> {
    Seq::new(16, |i: int| sbox_spec(s[i]))
}

/// The byte that ShiftRows moves to position `i = r + 4c`: row `r` of column
/// `(c + r) mod 4`.
pub open spec fn shift_src(i: int) -> int {
    i % 4 + 4 * ((i / 4 + i % 4) % 4)
}

/// ShiftRows: row `r` rotated left by `r` positions.
pub open spec fn shift_rows_spec(s: Seq<u8>) -> Seq<u8> {
    Seq::new(16, |i: int| s[shift_src(i)])
}

/// MixColumns at position `i = r + 4c`:
/// `2*s[r,c] ^ 3*s[r+1,c] ^ s[r+2,c] ^ s[r+3,c]` (rows mod 4).
pub open spec fn mix_byte(s: Seq<u8>, i: int) -> u8 {
    let c = 4 * (i / 4);
    let r = i % 4;
    gf8_mul(s[c + r], 2) ^ gf8_mul(s[c + (r + 1) % 4], 3) ^ s[c + (r + 2) % 4] ^ s[c + (r + 3)
        % 4]
}

/// MixColumns: every column multiplied by the AES matrix.
pub open spec fn mix_columns_spec(s: Seq<u8>) -> Seq<u8> {
    Seq::new(16, |i: int| mix_byte(s, i))
}

/// AddRoundKey: XOR with the round key.
pub open spec fn add_round_key_spec(s: Seq<u8>, k: Seq<u8>) -> Seq<u8> {
    Seq::new(16, |i: int| s[i] ^ k[i])
}

/// XORing a byte into a word changes its low byte by that XOR.
pub proof fn lemma_xor_low_byte(a: u64, k: u8)
    by (bit_vector)
    ensures
        ((a ^ (k as u64)) & 0xffu64) as u8 == ((a & 0xffu64) as u8) ^ k,
        (a & 0xffu64) <= 0xffu64,
{
}

/// The four MixColumns outputs of the gadget, XORed in its order on words,
/// are the matrix rows on bytes.
pub proof fn lemma_mix_word(a0: u8, a1: u8, a2: u8, a3: u8, m0: u8, m1: u8, m2: u8, m3: u8)
    by (bit_vector)
    ensures
        ((((0u64 ^ (m0 as u64)) ^ (m1 as u64)) ^ (a1 as u64)) ^ (a2 as u64)) ^ (a3 as u64) == (m0
            ^ (m1 ^ a1) ^ a2 ^ a3) as u64,
        ((((0u64 ^ (a0 as u64)) ^ (m1 as u64)) ^ (m2 as u64)) ^ (a2 as u64)) ^ (a3 as u64) == (m1
            ^ (m2 ^ a2) ^ a3 ^ a0) as u64,
        ((((0u64 ^ (a0 as u64)) ^ (a1 as u64)) ^ (m2 as u64)) ^ (m3 as u64)) ^ (a3 as u64) == (m2
            ^ (m3 ^ a3) ^ a0 ^ a1) as u64,
        ((((0u64 ^ (m0 as u64)) ^ (a0 as u64)) ^ (a1 as u64)) ^ (a2 as u64)) ^ (m3 as u64) == (m3
            ^ (m0 ^ a0) ^ a1 ^ a2) as u64,
{
}

/// AddRoundKey: XOR each state wire with the constant round-key byte.
fn add_round_key(b: &mut CircuitBuilder, state: [Wire; 16], rk: [u8; 16]) -> (out: [Wire; 16])
    requires
        old(b).wf(),
        wires_below(state@, old(b)@.len() as int),
    ensures
        final(b).wf(),
        grows(old(b)@, final(b)@),
        band_count(final(b)@) == band_count(old(b)@),
        forall|g0: Seq<Gate>| grows(g0, old(b)@) ==> #[trigger] grows(g0, final(b)@),
        wires_below(out@, final(b)@.len() as int),
        forall|w: Seq<u64>, i: int|
            #![trigger satisfies(final(b)@, w), out@[i]]
            0 <= i < 16 && satisfies(final(b)@, w) ==> w[out@[i].0 as int] == w[state@[
                i
            ].0 as int] ^ (rk@[i] as u64),
{
    let ghost b0 = b@;
    proof {
        lemma_grows_refl(b0);
    }
    let mut out = [Wire(0); 16];
    let mut i: usize = 0;
    while i < 16
        invariant
            0 <= i <= 16,
            b.wf(),
            grows(b0, b@),
            band_count(b@) == band_count(b0),
            forall|g0: Seq<Gate>| grows(g0, b0) ==> #[trigger] grows(g0, b@),
            wires_below(state@, b0.len() as int),
            forall|j: int| 0 <= j < i ==> #[trigger] out@[j].0 < b@.len(),
            forall|w: Seq<u64>, j: int|
                #![trigger satisfies(b@, w), out@[j]]
                0 <= j < i && satisfies(b@, w) ==> w[out@[j].0 as int] == w[state@[
                    j
                ].0 as int] ^ (rk@[j] as u64),
        decreases 16 - i,
    {
        let ghost bs = b@;
        let k = b.add_constant_64(rk[i] as u64);
        let ghost b1 = b@;
        let o = b.bxor(state[i], k);
        out[i] = o;
        proof {
            assert forall|w: Seq<u64>, j: int|
                #![trigger satisfies(b@, w), out@[j]]
                0 <= j < i + 1 && satisfies(b@, w) implies w[out@[j].0 as int] == w[state@[
                j
            ].0 as int] ^ (rk@[j] as u64) by {
                assert(satisfies(b1, w));
                assert(satisfies(bs, w));
            }
        }
        i = i + 1;
    }
    out
}

/// SubBytes: the S-box on the low byte of every state wire.
fn sub_bytes(b: &mut CircuitBuilder, state: [Wire; 16]) -> (out: [Wire; 16])
    requires
        old(b).wf(),
        wires_below(state@, old(b)@.len() as int),
    ensures
        final(b).wf(),
        grows(old(b)@, final(b)@),
        band_count(final(b)@) == band_count(old(b)@) + 1264,
        forall|g0: Seq<Gate>| grows(g0, old(b)@) ==> #[trigger] grows(g0, final(b)@),
        wires_below(out@, final(b)@.len() as int),
        forall|w: Seq<u64>| #[trigger]
            satisfies(final(b)@, w) ==> holds_bytes(w, out@, sub_bytes_spec(low_bytes(w, state@))),
{
    let ghost b0 = b@;
    proof {
        lemma_grows_refl(b0);
    }
    let mut out = [Wire(0); 16];
    let mut i: usize = 0;
    while i < 16
        invariant
            0 <= i <= 16,
            b.wf(),
            grows(b0, b@),
            band_count(b@) == band_count(b0) + 79 * i,
            forall|g0: Seq<Gate>| grows(g0, b0) ==> #[trigger] grows(g0, b@),
            wires_below(state@, b0.len() as int),
            forall|j: int| 0 <= j < i ==> #[trigger] out@[j].0 < b@.len(),
            forall|w: Seq<u64>, j: int|
                #![trigger satisfies(b@, w), out@[j]]
                0 <= j < i && satisfies(b@, w) ==> w[out@[j].0 as int] == sbox_spec(
                    (w[state@[j].0 as int] & 0xffu64) as u8,
                ) as u64,
        decreases 16 - i,
    {
        let ghost bs = b@;
        let o = sbox(b, state[i]);
        out[i] = o;
        proof {
            assert forall|w: Seq<u64>, j: int|
                #![trigger satisfies(b@, w), out@[j]]
                0 <= j < i + 1 && satisfies(b@, w) implies w[out@[j].0 as int] == sbox_spec(
                (w[state@[j].0 as int] & 0xffu64) as u8,
            ) as u64 by {
                assert(satisfies(bs, w));
            }
        }
        i = i + 1;
    }
    proof {
        assert forall|w: Seq<u64>| #[trigger] satisfies(b@, w) implies holds_bytes(
            w,
            out@,
            sub_bytes_spec(low_bytes(w, state@)),
        ) by {
            assert forall|j: int| 0 <= j < 16 implies #[trigger] w[out@[j].0 as int]
                == sub_bytes_spec(low_bytes(w, state@))[j] as u64 by {
                assert(satisfies(b@, w));
            }
        }
    }
    out
}

/// ShiftRows as a byte permutation on the column-major state.
const SHIFT_ROWS: [usize; 16] = [0, 5, 10, 15, 4, 9, 14, 3, 8, 13, 2, 7, 12, 1, 6, 11];

/// ShiftRows: a rewiring of the state, with no gates.
fn shift_rows(state: [Wire; 16]) -> (out: [Wire; 16])
    ensures
        forall|i: int| 0 <= i < 16 ==> #[trigger] out@[i] == state@[shift_src(i)],
{
    let table = SHIFT_ROWS;
    let mut out = state;
    let mut i: usize = 0;
    while i < 16
        invariant
            0 <= i <= 16,
            table@ == seq![0usize, 5, 10, 15, 4, 9, 14, 3, 8, 13, 2, 7, 12, 1, 6, 11],
            forall|j: int| 0 <= j < i ==> #[trigger] out@[j] == state@[shift_src(j)],
        decreases 16 - i,
    {
        assert(table@[i as int] == shift_src(i as int));
        out[i] = state[table[i]];
        i = i + 1;
    }
    out
}


/// One column of MixColumns: column `c` of the state through the AES
/// matrix, using `3 * a = 2 * a ^ a`.
fn mix_column(b: &mut CircuitBuilder, state: [Wire; 16], c: usize, two: Wire) -> (o: [Wire; 4])
    requires
        old(b).wf(),
        c < 4,
        wires_below(state@, old(b)@.len() as int),
        two.0 < old(b)@.len(),
        forall|w: Seq<u64>| #[trigger] satisfies(old(b)@, w) ==> w[two.0 as int] == 2u64,
        forall|w: Seq<u64>, i: int|
            #![trigger satisfies(old(b)@, w), state@[i]]
            0 <= i < 16 && satisfies(old(b)@, w) ==> w[state@[i].0 as int] <= 0xffu64,
    ensures
        final(b).wf(),
        grows(old(b)@, final(b)@),
        band_count(final(b)@) == band_count(old(b)@) + 96,
        forall|g0: Seq<Gate>| grows(g0, old(b)@) ==> #[trigger] grows(g0, final(b)@),
        forall|k: int| 0 <= k < 4 ==> #[trigger] o@[k].0 < final(b)@.len(),
        forall|w: Seq<u64>, k: int|
            #![trigger satisfies(final(b)@, w), o@[k]]
            0 <= k < 4 && satisfies(final(b)@, w) ==> w[o@[k].0 as int] == mix_byte(
                low_bytes(w, state@),
                4 * c + k,
            ) as u64,
{
    let ghost b0 = b@;
    let ghost bs = b@;
    let i = 4 * c;
    let a = [state[i], state[i + 1], state[i + 2], state[i + 3]];
    let m0 = gf_mul(b, a[0], two);
    let m1 = gf_mul(b, a[1], two);
    let m2 = gf_mul(b, a[2], two);
    let m3 = gf_mul(b, a[3], two);
    let ghost bm = b@;
    let t0 = [m0, m1, a[1], a[2], a[3]];
    let o0 = b.bxor_multi(&t0);
    let t1 = [a[0], m1, m2, a[2], a[3]];
    let o1 = b.bxor_multi(&t1);
    let t2 = [a[0], a[1], m2, m3, a[3]];
    let o2 = b.bxor_multi(&t2);
    let t3 = [m0, a[0], a[1], a[2], m3];
    let o3 = b.bxor_multi(&t3);
    let o = [o0, o1, o2, o3];
    proof {
        assert(wire_indices(t0@) =~= seq![m0.0, m1.0, a[1].0, a[2].0, a[3].0]);
        assert(wire_indices(t1@) =~= seq![a[0].0, m1.0, m2.0, a[2].0, a[3].0]);
        assert(wire_indices(t2@) =~= seq![a[0].0, a[1].0, m2.0, m3.0, a[3].0]);
        assert(wire_indices(t3@) =~= seq![m0.0, a[0].0, a[1].0, a[2].0, m3.0]);
        assert forall|w: Seq<u64>, k: int|
            #![trigger satisfies(b@, w), o@[k]]
            0 <= k < 4 && satisfies(b@, w) implies w[o@[k].0 as int] == mix_byte(
            low_bytes(w, state@),
            4 * c + k,
        ) as u64 by {
            assert(satisfies(bm, w));
            assert(satisfies(bs, w));
            let s = low_bytes(w, state@);
            let av0 = w[a[0].0 as int];
            let av1 = w[a[1].0 as int];
            let av2 = w[a[2].0 as int];
            let av3 = w[a[3].0 as int];
            assert(av0 <= 0xff && av1 <= 0xff && av2 <= 0xff && av3 <= 0xff);
            lemma_byte_ops(av0, 0);
            lemma_byte_ops(av1, 0);
            lemma_byte_ops(av2, 0);
            lemma_byte_ops(av3, 0);
            assert(s[4 * c] == av0 as u8);
            assert(s[4 * c + 1] == av1 as u8);
            assert(s[4 * c + 2] == av2 as u8);
            assert(s[4 * c + 3] == av3 as u8);
            lemma_byte_mul(av0, 2);
            lemma_byte_mul(av1, 2);
            lemma_byte_mul(av2, 2);
            lemma_byte_mul(av3, 2);
            lemma_gf8_mul_laws(av0 as u8, 2);
            lemma_gf8_mul_laws(av1 as u8, 2);
            lemma_gf8_mul_laws(av2 as u8, 2);
            lemma_gf8_mul_laws(av3 as u8, 2);
            lemma_xor_fold5(w, m0.0, m1.0, a[1].0, a[2].0, a[3].0);
            lemma_xor_fold5(w, a[0].0, m1.0, m2.0, a[2].0, a[3].0);
            lemma_xor_fold5(w, a[0].0, a[1].0, m2.0, m3.0, a[3].0);
            lemma_xor_fold5(w, m0.0, a[0].0, a[1].0, a[2].0, m3.0);
            lemma_mix_word(
                av0 as u8,
                av1 as u8,
                av2 as u8,
                av3 as u8,
                xt(av0 as u8),
                xt(av1 as u8),
                xt(av2 as u8),
                xt(av3 as u8),
            );
        }
    }
    o
}

/// MixColumns on a state of bytes: each column `(a0, a1, a2, a3)` through the
/// AES matrix, using `3 * a = 2 * a ^ a`.
fn mix_columns(b: &mut CircuitBuilder, state: [Wire; 16]) -> (out: [Wire; 16])
    requires
        old(b).wf(),
        wires_below(state@, old(b)@.len() as int),
        forall|w: Seq<u64>, i: int|
            #![trigger satisfies(old(b)@, w), state@[i]]
            0 <= i < 16 && satisfies(old(b)@, w) ==> w[state@[i].0 as int] <= 0xffu64,
    ensures
        final(b).wf(),
        grows(old(b)@, final(b)@),
        band_count(final(b)@) == band_count(old(b)@) + 384,
        forall|g0: Seq<Gate>| grows(g0, old(b)@) ==> #[trigger] grows(g0, final(b)@),
        wires_below(out@, final(b)@.len() as int),
        forall|w: Seq<u64>| #[trigger]
            satisfies(final(b)@, w) ==> holds_bytes(w, out@, mix_columns_spec(low_bytes(w, state@))),
{
    let ghost b0 = b@;
    let two = b.add_constant_64(2);
    let mut out = state;
    let mut c: usize = 0;
    while c < 4
        invariant
            0 <= c <= 4,
            b.wf(),
            grows(b0, b@),
            band_count(b@) == band_count(b0) + 96 * c,
            forall|g0: Seq<Gate>| grows(g0, b0) ==> #[trigger] grows(g0, b@),
            wires_below(state@, b0.len() as int),
            two.0 < b@.len(),
            forall|w: Seq<u64>| #[trigger] satisfies(b@, w) ==> w[two.0 as int] == 2u64,
            forall|w: Seq<u64>, i: int|
                #![trigger satisfies(b0, w), state@[i]]
                0 <= i < 16 && satisfies(b0, w) ==> w[state@[i].0 as int] <= 0xffu64,
            forall|j: int| 0 <= j < 4 * c ==> #[trigger] out@[j].0 < b@.len(),
            forall|w: Seq<u64>, j: int|
                #![trigger satisfies(b@, w), out@[j]]
                0 <= j < 4 * c && satisfies(b@, w) ==> w[out@[j].0 as int] == mix_byte(
                    low_bytes(w, state@),
                    j,
                ) as u64,
        decreases 4 - c,
    {
        let ghost bs = b@;
        let ghost outs = out@;
        let i = 4 * c;
        let o = mix_column(b, state, c, two);
        out[i] = o[0];
        out[i + 1] = o[1];
        out[i + 2] = o[2];
        out[i + 3] = o[3];
        proof {
            assert forall|w: Seq<u64>, j: int|
                #![trigger satisfies(b@, w), out@[j]]
                0 <= j < 4 * c + 4 && satisfies(b@, w) implies w[out@[j].0 as int] == mix_byte(
                low_bytes(w, state@),
                j,
            ) as u64 by {
                assert(satisfies(bs, w));
                if j >= 4 * c {
                    assert(out@[j] == o@[j - 4 * c]);
                } else {
                    assert(out@[j] == outs[j]);
                }
            }
        }
        c = c + 1;
    }
    proof {
        assert forall|w: Seq<u64>| #[trigger] satisfies(b@, w) implies holds_bytes(
            w,
            out@,
            mix_columns_spec(low_bytes(w, state@)),
        ) by {
            assert forall|j: int| 0 <= j < 16 implies #[trigger] w[out@[j].0 as int]
                == mix_columns_spec(low_bytes(w, state@))[j] as u64 by {
                assert(satisfies(b@, w));
            }
        }
    }
    out
}


// ─── Reference AES helpers (build-time: round-key schedule; also test oracles) ───

/// Shifting, XOR with zero and bit tests on bytes.
pub proof fn lemma_byte_bits(b: u8, i: u8)
    by (bit_vector)
    requires
        i < 8,
    ensures
        (b >> i) >> 1u8 == b >> ((i + 1) as u8),
        b >> 0u8 == b,
        b ^ 0u8 == b,
        0u8 ^ b == b,
        ((b >> i) & 1u8 != 0u8) == ((b >> i) & 1u8 == 1u8),
{
}

/// GF(2^8) doubling: multiply by x modulo the AES polynomial.
pub fn xtime_ref(a: u8) -> (r: u8)
    ensures
        r == xt(a),
{
    let h = a & 0x80;
    let r = a << 1;
    proof {
        lemma_byte_bits(r, 0);
    }
    if h != 0 {
        r ^ 0x1B
    } else {
        r
    }
}

/// The sum of `a * x^j` over the set bits `j < n` of `b`.
pub open spec fn chain_partial(a: u8, b: u8, n: nat) -> u8
    decreases n,
{
    if n == 0 {
        0u8
    } else {
        chain_partial(a, b, (n - 1) as nat) ^ (if (b >> ((n - 1) as u8)) & 1u8 == 1u8 {
            xt_pow(a, (n - 1) as nat)
        } else {
            0u8
        })
    }
}

/// Summing over all eight bits gives the product.
pub proof fn lemma_chain_partial_full(a: u8, b: u8)
    ensures
        chain_partial(a, b, 8) == gf8_chain(a, b),
{
    reveal_with_fuel(chain_partial, 9);
    lemma_byte_bits(b, 0);
    let t0 = if b & 1u8 == 1u8 { a } else { 0u8 };
    lemma_byte_bits(t0, 0);
}

/// GF(2^8) multiplication by shift-and-add (test oracle).
pub fn gf_mul_ref(a: u8, b: u8) -> (r: u8)
    ensures
        r == gf8_mul(a, b),
{
    let ghost a0 = a;
    let ghost b0 = b;
    let mut a = a;
    let mut b = b;
    let mut p = 0u8;
    let mut i: u8 = 0;
    proof {
        lemma_byte_bits(b0, 0);
    }
    while i < 8
        invariant
            0 <= i <= 8,
            a == xt_pow(a0, i as nat),
            b == b0 >> i,
            p == chain_partial(a0, b0, i as nat),
        decreases 8 - i,
    {
        proof {
            lemma_byte_bits(b0, i);
            lemma_byte_bits(p, 0);
            lemma_byte_bits(a << 1u8, 0);
        }
        if b & 1 != 0 {
            p ^= a;
        }
        let hi = a & 0x80;
        a <<= 1;
        if hi != 0 {
            a ^= 0x1B;
        }
        b >>= 1;
        i = i + 1;
    }
    proof {
        lemma_chain_partial_full(a0, b0);
        lemma_gf8_mul_chain(a0, b0);
    }
    p
}

/// GF(2^8) inverse `x^254`, zero for zero (test oracle, and the prover's
/// advice for the S-box gadget).
pub fn inv_ref(x: u8) -> (r: u8)
    ensures
        r == gf8_inv(x),
{
    if x == 0 {
        proof {
            lemma_gf8_inv(x);
        }
        return 0;
    }
    let mut r = 1u8;
    let mut i: u32 = 0;
    while i < 254
        invariant
            0 <= i <= 254,
            r == gf8_pow(x, i as nat),
        decreases 254 - i,
    {
        proof {
            lemma_gf8_mul_laws(r, x);
        }
        r = gf_mul_ref(r, x);
        i = i + 1;
    }
    r
}

/// The low `i` bits of a byte.
pub open spec fn low_mask(i: u8) -> u8 {
    if i >= 8 {
        0xffu8
    } else {
        ((1u8 << i) - 1u8) as u8
    }
}

/// The XOR of a byte and its first four left rotations.
pub open spec fn rot_sum(b: u8) -> u8 {
    b ^ rotl8_spec(b, 1) ^ rotl8_spec(b, 2) ^ rotl8_spec(b, 3) ^ rotl8_spec(b, 4)
}

/// Bit `i` of `b ^ (b <<< 1) ^ ... ^ (b <<< 4)`: bits `i, i+4, ..., i+7` mod 8.
pub open spec fn affine_bit(b: u8, i: u8) -> u8 {
    let j4 = ((i + 4) % 8) as u8;
    let j5 = ((i + 5) % 8) as u8;
    let j6 = ((i + 6) % 8) as u8;
    let j7 = ((i + 7) % 8) as u8;
    ((b >> i) & 1u8) ^ ((b >> j4) & 1u8) ^ ((b >> j5) & 1u8) ^ ((b >> j6) & 1u8) ^ ((b >> j7)
        & 1u8)
}

/// Setting bit `i` extends the low bits of the rotation sum by one.
pub proof fn lemma_affine_bits(b: u8, y: u8, i: u8)
    by (bit_vector)
    requires
        i < 8,
        y == rot_sum(b) & low_mask(i),
    ensures
        y | (affine_bit(b, i) << i) == rot_sum(b) & low_mask((i + 1) as u8),
{
}

/// No bits of the rotation sum are kept at first; all eight at the end.
pub proof fn lemma_affine_ends(b: u8)
    by (bit_vector)
    ensures
        (rot_sum(b) & low_mask(8)) ^ 0x63u8 == aes_affine(b),
        rot_sum(b) & low_mask(0) == 0u8,
{
}

/// The AES affine map, bit by bit:
/// `y_i = b_i ^ b_(i+4) ^ b_(i+5) ^ b_(i+6) ^ b_(i+7) ^ c_i` (test oracle).
pub fn affine_ref(b: u8) -> (r: u8)
    ensures
        r == aes_affine(b),
{
    let mut y = 0u8;
    let mut i: u8 = 0;
    proof {
        lemma_affine_ends(b);
    }
    while i < 8
        invariant
            0 <= i <= 8,
            y == rot_sum(b) & low_mask(i),
        decreases 8 - i,
    {
        proof {
            lemma_affine_bits(b, y, i);
        }
        let bit = ((b >> i) & 1) ^ ((b >> ((i + 4) % 8)) & 1) ^ ((b >> ((i + 5) % 8)) & 1) ^ ((b
            >> ((i + 6) % 8)) & 1) ^ ((b >> ((i + 7) % 8)) & 1);
        y |= bit << i;
        i = i + 1;
    }
    proof {
        lemma_affine_ends(b);
    }
    y ^ 0x63
}

/// The AES S-box (test oracle).
pub fn sbox_ref(x: u8) -> (r: u8)
    ensures
        r == sbox_spec(x),
{
    affine_ref(inv_ref(x))
}


// ───────────────────────────── Key schedule ──────────────────────────────────

/// The round constant of round `j >= 1`: `x^(j-1)` in GF(2^8).
pub open spec fn rcon_spec(j: nat) -> u8 {
    xt_pow(1u8, (j - 1) as nat)
}

/// Word `i` of the AES-128 key schedule: the key's four words, then
/// `w[i] = w[i-4] ^ temp` with `temp = SubWord(RotWord(w[i-1])) ^ Rcon` when
/// `i` is a multiple of four and `temp = w[i-1]` otherwise.
pub open spec fn ks_word(key: Seq<u8>, i: nat) -> Seq<u8>
    decreases i,
{
    if i < 4 {
        let o = 4 * (i as int);
        seq![key[o], key[o + 1], key[o + 2], key[o + 3]]
    } else {
        let prev = ks_word(key, (i - 1) as nat);
        let temp = if i % 4 == 0 {
            seq![
                sbox_spec(prev[1]) ^ rcon_spec(i / 4),
                sbox_spec(prev[2]),
                sbox_spec(prev[3]),
                sbox_spec(prev[0]),
            ]
        } else {
            prev
        };
        let old4 = ks_word(key, (i - 4) as nat);
        seq![old4[0] ^ temp[0], old4[1] ^ temp[1], old4[2] ^ temp[2], old4[3] ^ temp[3]]
    }
}

/// Round key `r`: words `4r .. 4r+3`, column-major.
pub open spec fn round_key_spec(key: Seq<u8>, r: nat) -> Seq<u8> {
    Seq::new(16, |k: int| ks_word(key, (4 * r + k / 4) as nat)[k % 4])
}

/// The AES-128 key schedule, round key by round key: round key 0 is the key;
/// in round key `r >= 1`, byte `k` of the first column is byte `k` of the
/// first column of round key `r - 1` XORed with the S-box of byte `(k + 1) % 4`
/// of its last column (RotWord, then SubWord), and byte 0 also with
/// `rcon_spec(r)`; every later column is the same column of round key `r - 1`
/// XORed with the column just before it in round key `r`.
pub proof fn lemma_key_schedule(key: Seq<u8>, r: nat)
    requires
        key.len() == 16,
        1 <= r <= 10,
    ensures
        round_key_spec(key, 0) == key,
        round_key_spec(key, r)[0] == round_key_spec(key, (r - 1) as nat)[0] ^ (sbox_spec(
            round_key_spec(key, (r - 1) as nat)[13],
        ) ^ rcon_spec(r)),
        forall|k: int|
            1 <= k < 4 ==> #[trigger] round_key_spec(key, r)[k] == round_key_spec(key, (r - 1) as nat)[k]
                ^ sbox_spec(round_key_spec(key, (r - 1) as nat)[12 + (k + 1) % 4]),
        forall|m: int|
            4 <= m < 16 ==> #[trigger] round_key_spec(key, r)[m] == round_key_spec(key, (r - 1) as nat)[m]
                ^ round_key_spec(key, r)[m - 4],
{
    assert(round_key_spec(key, 0) =~= key);
    let q = (r - 1) as nat;
    let i = 4 * r;
    assert(i % 4 == 0 && i / 4 == r && i >= 4);
    let prev = ks_word(key, (i - 1) as nat);
    let old4 = ks_word(key, (i - 4) as nat);
    assert((i - 1) as nat == 4 * q + 3);
    assert((i - 4) as nat == 4 * q);
    assert forall|k: int| 0 <= k < 4 implies round_key_spec(key, q)[12 + k] == #[trigger] prev[k] by {
        assert((4 * q + (12 + k) / 4) as nat == (i - 1) as nat);
        assert((12 + k) % 4 == k);
    }
    assert forall|k: int| 0 <= k < 4 implies round_key_spec(key, q)[k] == #[trigger] old4[k] && round_key_spec(
        key,
        r,
    )[k] == ks_word(key, i)[k] by {
        assert((4 * q + k / 4) as nat == (i - 4) as nat);
        assert((4 * r + k / 4) as nat == i);
    }
    assert forall|m: int| 4 <= m < 16 implies #[trigger] round_key_spec(key, r)[m] == round_key_spec(
        key,
        q,
    )[m] ^ round_key_spec(key, r)[m - 4] by {
        let c = m / 4;
        let j = (4 * r + c) as nat;
        assert(1 <= c < 4);
        assert(j % 4 != 0 && j >= 4);
        assert(round_key_spec(key, r)[m] == ks_word(key, j)[m % 4]);
        assert(round_key_spec(key, r)[m - 4] == ks_word(key, (j - 1) as nat)[m % 4]) by {
            assert((4 * r + (m - 4) / 4) as nat == (j - 1) as nat);
            assert((m - 4) % 4 == m % 4);
        }
        assert(round_key_spec(key, q)[m] == ks_word(key, (j - 4) as nat)[m % 4]) by {
            assert((4 * q + m / 4) as nat == (j - 4) as nat);
        }
    }
}

/// The schedule relations of [`lemma_key_schedule`], read on 11 round keys
/// that are those of `key`.
proof fn lemma_round_keys_schedule(key: [u8; 16], rks: [[u8; 16]; 11])
    requires
        forall|r: int| 0 <= r < 11 ==> #[trigger] rks@[r]@ == round_key_spec(key@, r as nat),
    ensures
        forall|r: int|
            1 <= r < 11 ==> #[trigger] rks@[r]@[0] == rks@[r - 1]@[0] ^ (sbox_spec(rks@[r - 1]@[13])
                ^ rcon_spec(r as nat)),
        forall|r: int, k: int|
            1 <= r < 11 && 1 <= k < 4 ==> #[trigger] rks@[r]@[k] == rks@[r - 1]@[k] ^ sbox_spec(
                rks@[r - 1]@[12 + (k + 1) % 4],
            ),
        forall|r: int, m: int|
            1 <= r < 11 && 4 <= m < 16 ==> #[trigger] rks@[r]@[m] == rks@[r - 1]@[m] ^ rks@[r]@[m - 4],
{
    assert forall|r: int| 1 <= r < 11 implies {
        &&& #[trigger] rks@[r]@[0] == rks@[r - 1]@[0] ^ (sbox_spec(rks@[r - 1]@[13]) ^ rcon_spec(
            r as nat,
        ))
        &&& forall|k: int|
            1 <= k < 4 ==> #[trigger] rks@[r]@[k] == rks@[r - 1]@[k] ^ sbox_spec(
                rks@[r - 1]@[12 + (k + 1) % 4],
            )
        &&& forall|m: int| 4 <= m < 16 ==> #[trigger] rks@[r]@[m] == rks@[r - 1]@[m] ^ rks@[r]@[m - 4]
    } by {
        lemma_key_schedule(key@, r as nat);
        assert(rks@[r]@ == round_key_spec(key@, r as nat));
        assert(rks@[r - 1]@ == round_key_spec(key@, (r - 1) as nat));
    }
}

/// AES-128 key schedule: 11 round keys (16 bytes each), column-major byte
/// order. Round key 0 is the key itself.
pub fn key_expansion(key: [u8; 16]) -> (rks: [[u8; 16]; 11])
    ensures
        forall|r: int| 0 <= r < 11 ==> #[trigger] rks@[r]@ == round_key_spec(key@, r as nat),
        rks@[0]@ == key@,
        forall|r: int|
            1 <= r < 11 ==> #[trigger] rks@[r]@[0] == rks@[r - 1]@[0] ^ (sbox_spec(rks@[r - 1]@[13])
                ^ rcon_spec(r as nat)),
        forall|r: int, k: int|
            1 <= r < 11 && 1 <= k < 4 ==> #[trigger] rks@[r]@[k] == rks@[r - 1]@[k] ^ sbox_spec(
                rks@[r - 1]@[12 + (k + 1) % 4],
            ),
        forall|r: int, m: int|
            1 <= r < 11 && 4 <= m < 16 ==> #[trigger] rks@[r]@[m] == rks@[r - 1]@[m] ^ rks@[r]@[m - 4],
{
    let mut w = [[0u8; 4]; 44];
    let mut i: usize = 0;
    while i < 4
        invariant
            0 <= i <= 4,
            forall|j: int| 0 <= j < i ==> #[trigger] w@[j]@ == ks_word(key@, j as nat),
        decreases 4 - i,
    {
        w[i] = [key[4 * i], key[4 * i + 1], key[4 * i + 2], key[4 * i + 3]];
        proof {
            assert(w@[i as int]@ =~= ks_word(key@, i as nat));
        }
        i = i + 1;
    }
    let mut rcon = 1u8;
    while i < 44
        invariant
            4 <= i <= 44,
            forall|j: int| 0 <= j < i ==> #[trigger] w@[j]@ == ks_word(key@, j as nat),
            rcon == xt_pow(1u8, ((i - 1) / 4) as nat),
        decreases 44 - i,
    {
        let mut temp = w[i - 1];
        let ghost prev = temp@;
        if i % 4 == 0 {
            temp = [temp[1], temp[2], temp[3], temp[0]];
            let mut k: usize = 0;
            while k < 4
                invariant
                    0 <= k <= 4,
                    prev.len() == 4,
                    forall|m: int| 0 <= m < k ==> #[trigger] temp@[m] == sbox_spec(prev[(m + 1) % 4]),
                    forall|m: int| k <= m < 4 ==> #[trigger] temp@[m] == prev[(m + 1) % 4],
                decreases 4 - k,
            {
                temp[k] = sbox_ref(temp[k]);
                k = k + 1;
            }
            temp[0] ^= rcon;
            rcon = xtime_ref(rcon);
        }
        let old4 = w[i - 4];
        w[i] = [old4[0] ^ temp[0], old4[1] ^ temp[1], old4[2] ^ temp[2], old4[3] ^ temp[3]];
        proof {
            assert(w@[i as int]@ =~= ks_word(key@, i as nat));
            if i % 4 == 0 {
                assert(((i + 1 - 1) / 4) as nat == (((i - 1) / 4) as nat) + 1);
            } else {
                assert(((i + 1 - 1) / 4) == ((i - 1) / 4));
            }
        }
        i = i + 1;
    }
    let mut rks = [[0u8; 16]; 11];
    let mut r: usize = 0;
    while r < 11
        invariant
            0 <= r <= 11,
            forall|j: int| 0 <= j < 44 ==> #[trigger] w@[j]@ == ks_word(key@, j as nat),
            forall|q: int| 0 <= q < r ==> #[trigger] rks@[q]@ == round_key_spec(key@, q as nat),
        decreases 11 - r,
    {
        let mut rk = [0u8; 16];
        let mut k: usize = 0;
        while k < 16
            invariant
                0 <= k <= 16,
                r < 11,
                forall|j: int| 0 <= j < 44 ==> #[trigger] w@[j]@ == ks_word(key@, j as nat),
                forall|m: int| 0 <= m < k ==> #[trigger] rk@[m] == round_key_spec(key@, r as nat)[m],
            decreases 16 - k,
        {
            rk[k] = w[4 * r + k / 4][k % 4];
            k = k + 1;
        }
        rks[r] = rk;
        proof {
            assert(rks@[r as int]@ =~= round_key_spec(key@, r as nat));
        }
        r = r + 1;
    }
    proof {
        assert(rks@[0]@ =~= key@);
        lemma_round_keys_schedule(key, rks);
    }
    rks
}


// ───────────────────────────── The permutation and the hash ───────────────────

/// The fixed AES-128 key of the garbling hash (the fixed key of the mpz
/// garbling core).
pub const FIXED_KEY: [u8; 16] = [69, 42, 69, 42, 69, 42, 69, 42, 69, 42, 69, 42, 69, 42, 69, 42];

/// The AES-128 state after the initial AddRoundKey and `n` full rounds.
pub open spec fn aes_after_round(key: Seq<u8>, s: Seq<u8>, n: nat) -> Seq<u8>
    decreases n,
{
    if n == 0 {
        add_round_key_spec(s, round_key_spec(key, 0))
    } else {
        add_round_key_spec(
            mix_columns_spec(shift_rows_spec(sub_bytes_spec(aes_after_round(key, s, (n - 1) as nat)))),
            round_key_spec(key, n),
        )
    }
}

/// AES-128 encryption of the 16-byte block `s` under `key`.
pub open spec fn aes128_spec(key: Seq<u8>, s: Seq<u8>) -> Seq<u8> {
    add_round_key_spec(shift_rows_spec(sub_bytes_spec(aes_after_round(key, s, 9))), round_key_spec(key, 10))
}

/// XOR of two 16-byte blocks.
pub open spec fn xor_block(a: Seq<u8>, b: Seq<u8>) -> Seq<u8> {
    Seq::new(16, |i: int| a[i] ^ b[i])
}

/// The garbling hash `tccr(t, x) = pi(pi(x) ^ t) ^ pi(x)` with `pi` the
/// fixed-key AES-128 permutation.
pub open spec fn tccr_spec(key: Seq<u8>, t: Seq<u8>, x: Seq<u8>) -> Seq<u8> {
    let px = aes128_spec(key, x);
    xor_block(aes128_spec(key, xor_block(px, t)), px)
}

/// A byte held in a word reads back as the byte, and is at most 0xff.
pub proof fn lemma_byte_word(v: u8, k: u8)
    by (bit_vector)
    ensures
        ((v as u64) & 0xffu64) as u8 == v,
        (v as u64) <= 0xffu64,
        (v as u64) ^ (k as u64) == (v ^ k) as u64,
{
}

/// XORing a word into a byte changes the byte by the word's low byte.
pub proof fn lemma_byte_xor_word(v: u8, a: u64)
    by (bit_vector)
    ensures
        (((v as u64) ^ a) & 0xffu64) as u8 == v ^ ((a & 0xffu64) as u8),
{
}

/// Wires that carry bytes read back as those bytes.
pub proof fn lemma_low_of_holds(w: Seq<u64>, ws: Seq<Wire>, s: Seq<u8>)
    requires
        holds_bytes(w, ws, s),
    ensures
        low_bytes(w, ws) == s,
        forall|i: int| 0 <= i < ws.len() ==> #[trigger] w[ws[i].0 as int] <= 0xffu64,
{
    assert forall|i: int| 0 <= i < ws.len() implies low_bytes(w, ws)[i] == s[i] && #[trigger] w[ws[i].0 as int] <= 0xffu64 by {
        lemma_byte_word(s[i], 0);
    }
    assert(low_bytes(w, ws) =~= s);
}

/// XORing constant bytes into the wires XORs them into the low bytes.
pub proof fn lemma_ark_low(w: Seq<u64>, out: Seq<Wire>, st: Seq<Wire>, k: Seq<u8>)
    requires
        out.len() == 16,
        st.len() == 16,
        k.len() == 16,
        forall|i: int| 0 <= i < 16 ==> w[out[i].0 as int] == w[st[i].0 as int] ^ (k[i] as u64),
    ensures
        low_bytes(w, out) == add_round_key_spec(low_bytes(w, st), k),
{
    assert forall|i: int| 0 <= i < 16 implies low_bytes(w, out)[i] == add_round_key_spec(low_bytes(w, st), k)[i] by {
        lemma_xor_low_byte(w[st[i].0 as int], k[i]);
    }
    assert(low_bytes(w, out) =~= add_round_key_spec(low_bytes(w, st), k));
}

/// One full AES round on the gadget state: SubBytes, ShiftRows, MixColumns,
/// AddRoundKey with `rk`.
fn aes_round(b: &mut CircuitBuilder, state: [Wire; 16], rk: [u8; 16]) -> (out: [Wire; 16])
    requires
        old(b).wf(),
        wires_below(state@, old(b)@.len() as int),
    ensures
        final(b).wf(),
        grows(old(b)@, final(b)@),
        band_count(final(b)@) == band_count(old(b)@) + 1648,
        forall|g0: Seq<Gate>| grows(g0, old(b)@) ==> #[trigger] grows(g0, final(b)@),
        wires_below(out@, final(b)@.len() as int),
        forall|w: Seq<u64>| #[trigger]
            satisfies(final(b)@, w) ==> low_bytes(w, out@) == add_round_key_spec(
                mix_columns_spec(shift_rows_spec(sub_bytes_spec(low_bytes(w, state@)))),
                rk@,
            ),
{
    let ghost b0 = b@;
    let s1 = sub_bytes(b, state);
    let ghost b1 = b@;
    let s2 = shift_rows(s1);
    proof {
        assert forall|w: Seq<u64>, i: int|
            #![trigger satisfies(b1, w), s2@[i]]
            0 <= i < 16 && satisfies(b1, w) implies w[s2@[i].0 as int] <= 0xffu64 by {
            lemma_low_of_holds(w, s1@, sub_bytes_spec(low_bytes(w, state@)));
            assert(s2@[i] == s1@[shift_src(i)]);
        }
        assert forall|i: int| 0 <= i < 16 implies #[trigger] s2@[i].0 < b1.len() by {
            assert(s2@[i] == s1@[shift_src(i)]);
        }
    }
    let s3 = mix_columns(b, s2);
    let ghost b3 = b@;
    let out = add_round_key(b, s3, rk);
    proof {
        assert forall|w: Seq<u64>| #[trigger] satisfies(b@, w) implies low_bytes(w, out@)
            == add_round_key_spec(
            mix_columns_spec(shift_rows_spec(sub_bytes_spec(low_bytes(w, state@)))),
            rk@,
        ) by {
            assert(satisfies(b3, w));
            assert(satisfies(b1, w));
            let sb = sub_bytes_spec(low_bytes(w, state@));
            lemma_low_of_holds(w, s1@, sb);
            assert(low_bytes(w, s2@) =~= shift_rows_spec(sb));
            lemma_low_of_holds(w, s3@, mix_columns_spec(low_bytes(w, s2@)));
            lemma_ark_low(w, out@, s3@, rk@);
        }
    }
    out
}

/// The fixed-key AES-128 permutation `pi` on the low bytes of the 16 input
/// wires (round keys for `FIXED_KEY` precomputed as constants). The outputs
/// carry the bytes of the ciphertext.
/// It adds 16096 AND gates: ten SubBytes layers of 16 S-boxes (79 each)
/// and nine MixColumns layers of 16 doublings (24 each).
pub fn aes128_fixed_key(b: &mut CircuitBuilder, input: [Wire; 16]) -> (out: [Wire; 16])
    requires
        old(b).wf(),
        wires_below(input@, old(b)@.len() as int),
    ensures
        final(b).wf(),
        grows(old(b)@, final(b)@),
        band_count(final(b)@) == band_count(old(b)@) + 16096,
        forall|g0: Seq<Gate>| grows(g0, old(b)@) ==> #[trigger] grows(g0, final(b)@),
        wires_below(out@, final(b)@.len() as int),
        forall|w: Seq<u64>| #[trigger]
            satisfies(final(b)@, w) ==> holds_bytes(
                w,
                out@,
                aes128_spec(FIXED_KEY@, low_bytes(w, input@)),
            ),
{
    let ghost b0 = b@;
    let ghost key = FIXED_KEY@;
    let rk = key_expansion(FIXED_KEY);
    let mut state = add_round_key(b, input, rk[0]);
    proof {
        assert forall|w: Seq<u64>| #[trigger] satisfies(b@, w) implies low_bytes(w, state@)
            == aes_after_round(key, low_bytes(w, input@), 0) by {
            lemma_ark_low(w, state@, input@, rk@[0]@);
        }
    }
    let mut round: usize = 1;
    while round < 10
        invariant
            1 <= round <= 10,
            b.wf(),
            grows(b0, b@),
            band_count(b@) == band_count(b0) + 1648 * (round - 1),
            forall|g0: Seq<Gate>| grows(g0, b0) ==> #[trigger] grows(g0, b@),
            wires_below(input@, b0.len() as int),
            wires_below(state@, b@.len() as int),
            forall|r: int| 0 <= r < 11 ==> #[trigger] rk@[r]@ == round_key_spec(key, r as nat),
            key == FIXED_KEY@,
            forall|w: Seq<u64>| #[trigger]
                satisfies(b@, w) ==> low_bytes(w, state@) == aes_after_round(
                    key,
                    low_bytes(w, input@),
                    (round - 1) as nat,
                ),
        decreases 10 - round,
    {
        let ghost bs = b@;
        let ghost st = state;
        state = aes_round(b, state, rk[round]);
        proof {
            assert forall|w: Seq<u64>| #[trigger] satisfies(b@, w) implies low_bytes(w, state@)
                == aes_after_round(key, low_bytes(w, input@), round as nat) by {
                assert(satisfies(bs, w));
                assert(satisfies(b0, w));
            }
        }
        round = round + 1;
    }
    let ghost b9 = b@;
    let s1 = sub_bytes(b, state);
    let ghost b10 = b@;
    let s2 = shift_rows(s1);
    proof {
        assert forall|i: int| 0 <= i < 16 implies #[trigger] s2@[i].0 < b10.len() by {
            assert(s2@[i] == s1@[shift_src(i)]);
        }
    }
    let out = add_round_key(b, s2, rk[10]);
    proof {
        assert forall|w: Seq<u64>| #[trigger] satisfies(b@, w) implies holds_bytes(
            w,
            out@,
            aes128_spec(key, low_bytes(w, input@)),
        ) by {
            assert(satisfies(b10, w));
            assert(satisfies(b9, w));
            assert(satisfies(b0, w));
            let sb = sub_bytes_spec(low_bytes(w, state@));
            lemma_low_of_holds(w, s1@, sb);
            assert(low_bytes(w, s2@) =~= shift_rows_spec(sb));
            let fin = aes128_spec(key, low_bytes(w, input@));
            assert forall|i: int| 0 <= i < 16 implies #[trigger] w[out@[i].0 as int] == fin[i] as u64 by {
                assert(s2@[i] == s1@[shift_src(i)]);
                assert(w[s2@[i].0 as int] == sb[shift_src(i)] as u64);
                lemma_byte_word(sb[shift_src(i)], rk@[10]@[i]);
            }
        }
    }
    out
}

/// The garbling hash `tccr(t, x) = pi(pi(x) ^ t) ^ pi(x)` over the low bytes
/// of the tweak and input wires; the outputs carry the hash bytes.
/// It adds 32192 AND gates, those of two permutations.
pub fn tccr(b: &mut CircuitBuilder, tweak: [Wire; 16], x: [Wire; 16]) -> (out: [Wire; 16])
    requires
        old(b).wf(),
        wires_below(tweak@, old(b)@.len() as int),
        wires_below(x@, old(b)@.len() as int),
    ensures
        final(b).wf(),
        grows(old(b)@, final(b)@),
        band_count(final(b)@) == band_count(old(b)@) + 32192,
        forall|g0: Seq<Gate>| grows(g0, old(b)@) ==> #[trigger] grows(g0, final(b)@),
        wires_below(out@, final(b)@.len() as int),
        forall|w: Seq<u64>| #[trigger]
            satisfies(final(b)@, w) ==> holds_bytes(
                w,
                out@,
                tccr_spec(FIXED_KEY@, low_bytes(w, tweak@), low_bytes(w, x@)),
            ),
{
    let ghost b0 = b@;
    let px = aes128_fixed_key(b, x);
    let ghost b1 = b@;
    let mut p_xor_t = [Wire(0); 16];
    let mut i: usize = 0;
    proof {
        lemma_grows_refl(b1);
    }
    while i < 16
        invariant
            0 <= i <= 16,
            b.wf(),
            grows(b0, b@),
            grows(b1, b@),
            band_count(b@) == band_count(b1),
            forall|g0: Seq<Gate>| grows(g0, b0) ==> #[trigger] grows(g0, b@),
            forall|g0: Seq<Gate>| grows(g0, b1) ==> #[trigger] grows(g0, b@),
            wires_below(tweak@, b0.len() as int),
            wires_below(px@, b1.len() as int),
            forall|j: int| 0 <= j < i ==> #[trigger] p_xor_t@[j].0 < b@.len(),
            forall|w: Seq<u64>, j: int|
                #![trigger satisfies(b@, w), p_xor_t@[j]]
                0 <= j < i && satisfies(b@, w) ==> w[p_xor_t@[j].0 as int] == w[px@[j].0 as int]
                    ^ w[tweak@[j].0 as int],
        decreases 16 - i,
    {
        let ghost bs = b@;
        let o = b.bxor(px[i], tweak[i]);
        p_xor_t[i] = o;
        proof {
            assert forall|w: Seq<u64>, j: int|
                #![trigger satisfies(b@, w), p_xor_t@[j]]
                0 <= j < i + 1 && satisfies(b@, w) implies w[p_xor_t@[j].0 as int] == w[px@[j].0 as int]
                    ^ w[tweak@[j].0 as int] by {
                assert(satisfies(bs, w));
            }
        }
        i = i + 1;
    }
    let ghost b2 = b@;
    let ppt = aes128_fixed_key(b, p_xor_t);
    let ghost b3 = b@;
    let mut out = [Wire(0); 16];
    let mut i: usize = 0;
    proof {
        lemma_grows_refl(b3);
    }
    while i < 16
        invariant
            0 <= i <= 16,
            b.wf(),
            grows(b0, b@),
            grows(b3, b@),
            band_count(b@) == band_count(b3),
            forall|g0: Seq<Gate>| grows(g0, b0) ==> #[trigger] grows(g0, b@),
            forall|g0: Seq<Gate>| grows(g0, b3) ==> #[trigger] grows(g0, b@),
            wires_below(px@, b1.len() as int),
            wires_below(ppt@, b3.len() as int),
            b1.len() <= b3.len(),
            forall|j: int| 0 <= j < i ==> #[trigger] out@[j].0 < b@.len(),
            forall|w: Seq<u64>, j: int|
                #![trigger satisfies(b@, w), out@[j]]
                0 <= j < i && satisfies(b@, w) ==> w[out@[j].0 as int] == w[ppt@[j].0 as int]
                    ^ w[px@[j].0 as int],
        decreases 16 - i,
    {
        let ghost bs = b@;
        let o = b.bxor(ppt[i], px[i]);
        out[i] = o;
        proof {
            assert forall|w: Seq<u64>, j: int|
                #![trigger satisfies(b@, w), out@[j]]
                0 <= j < i + 1 && satisfies(b@, w) implies w[out@[j].0 as int] == w[ppt@[j].0 as int]
                    ^ w[px@[j].0 as int] by {
                assert(satisfies(bs, w));
            }
        }
        i = i + 1;
    }
    proof {
        assert forall|w: Seq<u64>| #[trigger] satisfies(b@, w) implies holds_bytes(
            w,
            out@,
            tccr_spec(FIXED_KEY@, low_bytes(w, tweak@), low_bytes(w, x@)),
        ) by {
            assert(satisfies(b3, w));
            assert(satisfies(b2, w));
            assert(satisfies(b1, w));
            let key = FIXED_KEY@;
            let pxv = aes128_spec(key, low_bytes(w, x@));
            lemma_low_of_holds(w, px@, pxv);
            let tv = low_bytes(w, tweak@);
            assert forall|j: int| 0 <= j < 16 implies low_bytes(w, p_xor_t@)[j] == xor_block(pxv, tv)[j] by {
                lemma_byte_xor_word(pxv[j], w[tweak@[j].0 as int]);
            }
            assert(low_bytes(w, p_xor_t@) =~= xor_block(pxv, tv));
            let q = aes128_spec(key, xor_block(pxv, tv));
            assert forall|j: int| 0 <= j < 16 implies #[trigger] w[out@[j].0 as int] == tccr_spec(key, tv, low_bytes(w, x@))[j] as u64 by {
                lemma_byte_word(q[j], pxv[j]);
            }
        }
    }
    out
}

} // verus!
