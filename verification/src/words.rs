//! Identities on 64-bit words used by the gadget proofs.
use vstd::prelude::*;
use crate::circuit::sar_spec;

verus! {

/// Shifting bit `i` of `y` to the top and sign-extending it gives a full-word
/// mask of that bit; AND with such a mask selects or clears a word.
pub proof fn lemma_select_bit(y: u64, i: u64, x: u64)
    by (bit_vector)
    requires
        i < 64,
    ensures
        sar_spec(y << ((63u64 - i) as u64), 63u64) == (if (y >> i) & 1u64 == 1u64 {
            0xffff_ffff_ffff_ffffu64
        } else {
            0u64
        }),
        x & 0xffff_ffff_ffff_ffffu64 == x,
        x & 0u64 == 0u64,
{
}

/// The GF(2^8) doubling step of the gadget: shift the byte left, keep eight
/// bits, and reduce by 0x1b when bit 7 was set.
pub proof fn lemma_gf8_step(xi: u64)
    by (bit_vector)
    requires
        xi <= 0xffu64,
    ensures
        ((xi << 1u64) & 0xffu64) ^ (0x1bu64 & sar_spec(xi << 56u64, 63u64)) == ((xi << 1u64)
            & 0xffu64) ^ (if xi & 0x80u64 != 0u64 {
            0x1bu64
        } else {
            0u64
        }),
        ((xi << 1u64) & 0xffu64) ^ (if xi & 0x80u64 != 0u64 {
            0x1bu64
        } else {
            0u64
        }) <= 0xffu64,
{
}

/// XOR and AND of bytes are bytes; AND with 0xff keeps a byte and reduces
/// any word to its low byte.
pub proof fn lemma_byte_ops(a: u64, b: u64)
    by (bit_vector)
    ensures
        a <= 0xffu64 && b <= 0xffu64 ==> (a ^ b) <= 0xffu64,
        a <= 0xffu64 ==> (a & b) <= 0xffu64,
        a <= 0xffu64 ==> (a & 0xffu64) == a,
        (a & 0xffu64) <= 0xffu64,
        a ^ 0u64 == a,
{
}


/// The GF(2^32) doubling step of the gadget: shift the 32-bit word left,
/// keep 32 bits, and reduce by 0x8d when bit 31 was set.
pub proof fn lemma_gf32_step(xi: u64)
    by (bit_vector)
    requires
        xi <= 0xffff_ffffu64,
    ensures
        ((xi << 1u64) & 0xffff_ffffu64) ^ (0x8du64 & sar_spec(xi << 32u64, 63u64)) == ((xi
            << 1u64) & 0xffff_ffffu64) ^ (if xi & 0x8000_0000u64 != 0u64 {
            0x8du64
        } else {
            0u64
        }),
        ((xi << 1u64) & 0xffff_ffffu64) ^ (if xi & 0x8000_0000u64 != 0u64 {
            0x8du64
        } else {
            0u64
        }) <= 0xffff_ffffu64,
{
}

/// XOR and AND of 32-bit values stay within 32 bits.
pub proof fn lemma_u32_ops(a: u64, b: u64)
    by (bit_vector)
    ensures
        a <= 0xffff_ffffu64 && b <= 0xffff_ffffu64 ==> (a ^ b) <= 0xffff_ffffu64,
        a <= 0xffff_ffffu64 ==> (a & 0xffff_ffffu64) == a,
        (a & 0xffff_ffffu64) <= 0xffff_ffffu64,
        a ^ 0u64 == a,
{
}

/// The GF(2^64) doubling step of the gadget: shift left and reduce by 0x1b
/// when the top bit was set.
pub proof fn lemma_gf64_step(xi: u64)
    by (bit_vector)
    ensures
        (xi << 1u64) ^ (0x1bu64 & sar_spec(xi, 63u64)) == ((xi << 1u64)
            & 0xffff_ffff_ffff_ffffu64) ^ (if xi & 0x8000_0000_0000_0000u64 != 0u64 {
            0x1bu64
        } else {
            0u64
        }),
{
}

} // verus!
