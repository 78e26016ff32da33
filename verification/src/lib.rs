//! Word-level circuit gadgets for proving a garbling hash in a binary-field
//! SNARK: GF(2^k) multiplication, the AES-128 fixed-key permutation and its
//! `tccr` hash, and the LowMC permutation, each built gate by gate into a
//! word circuit and proved to compute its mathematical reference; and the
//! bitsliced LowMC evaluation kernel, proved equal block by block to a
//! scalar reference.
pub mod circuit;
pub mod gf;
pub mod words;
pub mod aes;
pub mod bf;
pub mod bits;
pub mod lowmc;
pub mod bench;

use vstd::prelude::*;
use crate::circuit::{CircuitBuilder, Gate};

verus! {

/// The proof-of-garbling circuit for a garbled function with `and_count`
/// AND gates: the circuit that will recompute, gate by gate, the half-gate
/// ciphertexts of the garbling. In this version no constraint is emitted
/// yet, whatever the AND count: the circuit returned is empty.
pub fn build_proof_of_garbling(and_count: usize) -> (c: CircuitBuilder)
    ensures
        c.wf(),
        c@ == Seq::<Gate>::empty(),
{
    CircuitBuilder::new()
}

} // verus!
