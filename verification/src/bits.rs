//! The 128-bit LowMC state as a sequence of bits, and the round layers on
//! it: the partial layer of 3-bit S-boxes, GF(2)-linear layers given by row
//! masks, and XOR with constants.
use vstd::prelude::*;

verus! {

/// State size in bits.
pub const N: usize = 128;

/// S-boxes per round (the partial S-box layer touches the low `3 * M` bits).
pub const M: usize = 10;

/// Bit `k` of `x` is set, for `k < 128`.
pub open spec fn bit128(x: u128, k: int) -> bool {
    (x >> (k as u128)) & 1u128 == 1u128
}

/// The 128 bits of `x`, least significant first.
pub open spec fn u128_bits(x: u128) -> Seq<bool> {
    Seq::new(128, |k: int| bit128(x, k))
}

/// Bit `l` of a word is set.
pub open spec fn lane(v: u64, l: u64) -> bool {
    (v >> l) & 1u64 == 1u64
}

/// Bitwise XOR of two bit sequences.
pub open spec fn xor_bits(a: Seq<bool>, b: Seq<bool>) -> Seq<bool> {
    Seq::new(a.len(), |k: int| a[k] != b[k])
}

/// The LowMC 3-bit S-box on `(a, b, c)` with `a` the high bit:
/// `a' = a ^ bc`, `b' = a ^ b ^ ac`, `c' = a ^ b ^ c ^ ab`.
pub open spec fn sbox3(a: bool, b: bool, c: bool) -> (bool, bool, bool) {
    (a != (b && c), (a != b) != (a && c), ((a != b) != c) != (a && b))
}

/// Bit `k` after the S-box layer: for `k < 3 * M` the S-box output on the
/// triple `(s[3j+2], s[3j+1], s[3j])` that holds `k`, otherwise `s[k]`.
pub open spec fn sbox_layer_bit(s: Seq<bool>, k: int) -> bool {
    if k < 3 * M {
        let j = k / 3;
        let (na, nb, nc) = sbox3(s[3 * j + 2], s[3 * j + 1], s[3 * j]);
        if k % 3 == 0 {
            nc
        } else if k % 3 == 1 {
            nb
        } else {
            na
        }
    } else {
        s[k]
    }
}

/// The partial S-box layer: `M` S-boxes on the low bits, identity above.
pub open spec fn sbox_layer_bits(s: Seq<bool>) -> Seq<bool> {
    Seq::new(s.len(), |k: int| sbox_layer_bit(s, k))
}

/// Parity of the bits of `s` selected by `row` among the first `n`.
pub open spec fn parity(row: Seq<bool>, s: Seq<bool>, n: nat) -> bool
    decreases n,
{
    if n == 0 {
        false
    } else {
        parity(row, s, (n - 1) as nat) != (row[n - 1] && s[n - 1])
    }
}

/// A GF(2)-linear layer: output bit `r` is the parity of the state bits
/// selected by row `r`.
pub open spec fn linear_bits(rows: Seq<Seq<bool>>, s: Seq<bool>) -> Seq<bool> {
    Seq::new(rows.len(), |r: int| parity(rows[r], s, 128))
}

/// The S-box is a bijection on three bits.
pub proof fn lemma_sbox3_bijective(a: bool, b: bool, c: bool, x: bool, y: bool, z: bool)
    ensures
        sbox3(a, b, c) == sbox3(x, y, z) ==> a == x && b == y && c == z,
{
}

/// Bits of XOR, AND and complement of words, lane by lane.
pub proof fn lemma_lane_ops(a: u64, b: u64, l: u64)
    by (bit_vector)
    requires
        l < 64,
    ensures
        ((a ^ b) >> l) & 1u64 == 1u64 <==> (((a >> l) & 1u64 == 1u64) != ((b >> l) & 1u64
            == 1u64)),
        ((a & b) >> l) & 1u64 == 1u64 <==> (((a >> l) & 1u64 == 1u64) && ((b >> l) & 1u64
            == 1u64)),
        ((a ^ 0xffff_ffff_ffff_ffffu64) >> l) & 1u64 == 1u64 <==> !((a >> l) & 1u64 == 1u64),
        !((0u64 >> l) & 1u64 == 1u64),
        (0u64 ^ a) == a,
{
}

/// Bits of XOR and AND of 128-bit values.
pub proof fn lemma_bit128_ops(a: u128, b: u128, k: u128)
    by (bit_vector)
    requires
        k < 128,
    ensures
        ((a ^ b) >> k) & 1u128 == 1u128 <==> (((a >> k) & 1u128 == 1u128) != ((b >> k) & 1u128
            == 1u128)),
        ((a & b) >> k) & 1u128 == 1u128 <==> (((a >> k) & 1u128 == 1u128) && ((b >> k) & 1u128
            == 1u128)),
{
}

/// XOR of 128-bit values is XOR of their bits.
pub proof fn lemma_u128_bits_xor(a: u128, b: u128)
    ensures
        u128_bits(a ^ b) == xor_bits(u128_bits(a), u128_bits(b)),
{
    assert forall|k: int| 0 <= k < 128 implies u128_bits(a ^ b)[k] == xor_bits(
        u128_bits(a),
        u128_bits(b),
    )[k] by {
        lemma_bit128_ops(a, b, k as u128);
    }
    assert(u128_bits(a ^ b) =~= xor_bits(u128_bits(a), u128_bits(b)));
}

} // verus!
