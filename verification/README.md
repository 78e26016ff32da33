# zk_garble

Verified word-circuit gadgets for proving a garbling hash in a binary-field
SNARK, and a verified bitsliced LowMC evaluation kernel.

* `src/circuit.rs` — the word circuit: gates over 64-bit wires, what it means
  for an assignment to satisfy them, and the honest prover's assignment.
  Every gadget states what any satisfying assignment computes (soundness) and
  that the honest prover's assignment satisfies the circuit (completeness).
* `src/gf.rs`, `src/words.rs` — GF(2^8), GF(2^32), GF(2^64) multiplication as
  specifications, with the algebra the gadgets need (inverse, its pinning by
  two products).
* `src/aes.rs` — GF(2^8) multiply, S-box, the AES-128 fixed-key permutation
  and `tccr(t, x) = pi(pi(x) ^ t) ^ pi(x)`, plus byte-level references and the
  key schedule.
* `src/bf.rs` — GF(2^32) and GF(2^64) multiply gadgets.
* `src/bits.rs`, `src/lowmc.rs` — LowMC-128/128/20 on bit sequences, its
  reference and its gadget (exactly `3 * M * R` AND gates per permutation).
* `src/bench.rs` — the bitsliced permutation on 512 blocks with five
  linear-layer backends, and the scalar one-block reference; every backend is
  proved to compute the scalar permutation on every block.
* `app/main.rs` — the timing program around `src/bench.rs` (hardware
  counters, floating-point statistics).
