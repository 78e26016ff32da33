use zk_garble::bits::{M, N};
use zk_garble::circuit::{CircuitBuilder, Gate, Wire};
use zk_garble::lowmc::{
    lowmc_perm_ref, lowmc_permutation, lowmc_tccr, matvec, params, rand_bits, sbox3_ref,
    sbox_layer_ref, splitmix64, R,
};

/// Spreads bit `j` of a 128-bit value into a full-word mask.
fn mask(bit_src: u128, j: usize) -> u64 {
    if (bit_src >> j) & 1 == 1 {
        u64::MAX
    } else {
        0
    }
}

fn inouts(b: &mut CircuitBuilder) -> [Wire; 128] {
    std::array::from_fn(|_| b.add_inout())
}

#[test]
fn sbox_is_a_bijection() {
    // The LowMC S-box must permute {0,..,7}; a transcription error breaks it.
    let mut seen = [false; 8];
    for v in 0u128..8 {
        let (a, bb, c) = ((v >> 2) & 1, (v >> 1) & 1, v & 1);
        let (na, nb, nc) = sbox3_ref(a, bb, c);
        let out = ((na << 2) | (nb << 1) | nc) as usize;
        assert!(!seen[out], "sbox3_ref not a bijection at {v}");
        seen[out] = true;
    }
}

#[test]
fn lowmc_matches_reference() {
    let cases: [u128; 5] = [
        0,
        1,
        u128::MAX,
        0x0123_4567_89AB_CDEF_0123_4567_89AB_CDEF,
        0xDEAD_BEEF_CAFE_F00D_1234_5678_9ABC_DEF0,
    ];
    // The commit cadence must not change the computed function — check that
    // both an every-round and an every-other-round circuit match the oracle.
    for commit_every in [1usize, 2] {
        let mut b = CircuitBuilder::new();
        let input = inouts(&mut b);
        let expected = inouts(&mut b);
        let out = lowmc_permutation(&mut b, input, commit_every);
        for j in 0..N {
            b.assert_eq(out[j], expected[j]);
        }
        for &p in &cases {
            let exp = lowmc_perm_ref(p);
            let mut w = b.new_witness_filler();
            for j in 0..N {
                w[input[j].0] = mask(p, j);
                w[expected[j].0] = mask(exp, j);
            }
            b.populate_wire_witness(&mut w);
            assert!(
                b.verify_constraints(&w),
                "constraints lowmc(ce={commit_every}, {p:#034x})"
            );
        }
    }
}

fn perm_cost(commit_every: usize) -> usize {
    let mut b = CircuitBuilder::new();
    let input = inouts(&mut b);
    let expected = inouts(&mut b);
    let out = lowmc_permutation(&mut b, input, commit_every);
    for j in 0..N {
        b.assert_eq(out[j], expected[j]);
    }
    b.band_gates()
}

fn tccr_cost(commit_every: usize) -> usize {
    let mut b = CircuitBuilder::new();
    let tweak = inouts(&mut b);
    let x = inouts(&mut b);
    let expected = inouts(&mut b);
    let out = lowmc_tccr(&mut b, tweak, x, commit_every);
    for j in 0..N {
        b.assert_eq(out[j], expected[j]);
    }
    b.band_gates()
}

/// Reports the AND-gate cost of one LowMC permutation and one LowMC `tccr`,
/// next to the fixed-key-AES `tccr` figure of 54,096 AND constraints of the
/// binary-field constraint system (a different cost model: the ratio is a
/// rough guide only). Run with `--nocapture`.
#[test]
fn lowmc_cost() {
    const AES_TCCR: usize = 54_096;
    println!("\n[lowmc-cost] params n={N}, m={M}, r={R} (Picnic-L1)");
    println!("[lowmc-cost] AES fixed-key tccr baseline = {AES_TCCR} AND-constraints");
    println!("[lowmc-cost]  commit_every |  perm ANDs |  tccr ANDs |  ratio to AES tccr figure");
    for ce in [1usize, 2] {
        let (perm, tccr) = (perm_cost(ce), tccr_cost(ce));
        println!(
            "[lowmc-cost]       {ce}       |   {perm:>6}   |   {tccr:>6}   |   {:.1}x",
            AES_TCCR as f64 / tccr as f64
        );
    }
    let floor_tccr = 2 * 3 * M * R;
    println!(
        "\n[lowmc-cost] S-box-only floor: tccr ~= {floor_tccr} ANDs => {:.0}x\n",
        AES_TCCR as f64 / floor_tccr as f64
    );
}

/// Pins the per-operation AND-gate cost of the builder: each probe wraps one
/// op in an `assert_eq`, whose own cost is the baseline.
#[test]
fn op_cost_probes() {
    let probe = |build: &dyn Fn(&mut CircuitBuilder)| {
        let mut b = CircuitBuilder::new();
        build(&mut b);
        b.band_gates()
    };
    let assert_only = probe(&|b| {
        let (x, y) = (b.add_inout(), b.add_inout());
        b.assert_eq(x, y);
    });
    let band_vv = probe(&|b| {
        let (x, y) = (b.add_inout(), b.add_inout());
        let o = b.band(x, y);
        b.assert_eq(o, x);
    });
    let band_vc = probe(&|b| {
        let x = b.add_inout();
        let c = b.add_constant_64(0xFF);
        let o = b.band(x, c);
        b.assert_eq(o, x);
    });
    let xor = probe(&|b| {
        let (x, y) = (b.add_inout(), b.add_inout());
        let o = b.bxor(x, y);
        b.assert_eq(o, x);
    });
    let shl = probe(&|b| {
        let x = b.add_inout();
        let o = b.shl(x, 1);
        b.assert_eq(o, x);
    });
    let sar = probe(&|b| {
        let x = b.add_inout();
        let o = b.sar(x, 63);
        b.assert_eq(o, x);
    });

    println!("\n[op-cost] AND gates per op (incl. one assert_eq each):");
    println!("[op-cost]   assert_eq alone   = {assert_only}");
    println!("[op-cost]   band(var, var)    = {band_vv}");
    println!("[op-cost]   band(var, const)  = {band_vc}");
    println!("[op-cost]   bxor(var, var)    = {xor}");
    println!("[op-cost]   shl(var, 1)       = {shl}");
    println!("[op-cost]   sar(var, 63)      = {sar}\n");
    assert_eq!((assert_only, band_vv, band_vc, xor, shl, sar), (0, 1, 1, 0, 0, 0));
}

#[test]
fn lowmc_and_gates_are_the_sbox_products() {
    // 3 ANDs per S-box, M S-boxes per round, R rounds, whatever the cadence.
    for ce in [0usize, 1, 2, 7] {
        assert_eq!(perm_cost(ce), 3 * M * R);
        assert_eq!(tccr_cost(ce), 2 * 3 * M * R);
    }
    assert_eq!(3 * M * R, 600);
}

#[test]
fn lowmc_reference_values() {
    // Values of the permutation for the fixed public key, from an
    // independent evaluation of the same parameters.
    assert_eq!(lowmc_perm_ref(0), 0x25d2_09ae_5244_a0ad_a07f_940d_01e4_2935);
    assert_eq!(lowmc_perm_ref(1), 0x9266_1ed1_20e6_7a16_8a9f_a71a_9c7e_3d9d);
    assert_eq!(lowmc_perm_ref(u128::MAX), 0x3784_5ab0_da61_c372_bc60_df0f_5c98_3507);
    assert_eq!(
        lowmc_perm_ref(0xDEAD_BEEF_CAFE_F00D_1234_5678_9ABC_DEF0),
        0x1d40_5c39_fd5e_9294_5b9f_c4f8_f5a6_aa50
    );
}

#[test]
fn lowmc_tccr_matches_reference() {
    let t: u128 = 5;
    let x: u128 = 0x1234;
    let px = lowmc_perm_ref(x);
    let exp = lowmc_perm_ref(px ^ t) ^ px;
    assert_eq!(exp, 0xa01c_819d_df72_260c_fdb7_21e3_cc7d_9379);

    let mut b = CircuitBuilder::new();
    let tweak = inouts(&mut b);
    let xw = inouts(&mut b);
    let expected = inouts(&mut b);
    let out = lowmc_tccr(&mut b, tweak, xw, 2);
    for j in 0..N {
        b.assert_eq(out[j], expected[j]);
    }
    let mut w = b.new_witness_filler();
    for j in 0..N {
        w[tweak[j].0] = mask(t, j);
        w[xw[j].0] = mask(x, j);
        w[expected[j].0] = mask(exp, j);
    }
    b.populate_wire_witness(&mut w);
    assert!(b.verify_constraints(&w));
    // Flipping one expected bit is caught.
    w[expected[77].0] ^= u64::MAX;
    assert!(!b.verify_constraints(&w));
}

#[test]
fn lowmc_gadget_is_lanewise() {
    // Each of the 64 lanes of the mask words carries its own evaluation.
    let mut b = CircuitBuilder::new();
    let input = inouts(&mut b);
    let out = lowmc_permutation(&mut b, input, 1);
    let p0: u128 = 0x0123_4567_89AB_CDEF_0123_4567_89AB_CDEF;
    let p1: u128 = 0xDEAD_BEEF_CAFE_F00D_1234_5678_9ABC_DEF0;
    let mut w = b.new_witness_filler();
    for j in 0..N {
        w[input[j].0] = ((p0 >> j) & 1) as u64 | ((((p1 >> j) & 1) as u64) << 5);
    }
    b.populate_wire_witness(&mut w);
    assert!(b.verify_constraints(&w));
    let (e0, e1, ez) = (lowmc_perm_ref(p0), lowmc_perm_ref(p1), lowmc_perm_ref(0));
    for j in 0..N {
        assert_eq!(w[out[j].0] & 1, ((e0 >> j) & 1) as u64);
        assert_eq!((w[out[j].0] >> 5) & 1, ((e1 >> j) & 1) as u64);
        // Every other lane holds the all-zero block.
        assert_eq!((w[out[j].0] >> 40) & 1, ((ez >> j) & 1) as u64);
    }
}

#[test]
fn params_are_deterministic_and_sized() {
    let p = params();
    let q = params();
    assert_eq!(p.l.len(), R);
    assert_eq!(p.c.len(), R);
    assert_eq!(p.rk.len(), R + 1);
    assert_eq!(p.l, q.l);
    assert_eq!(p.c, q.c);
    assert_eq!(p.rk, q.rk);
}

#[test]
fn splitmix_and_draws() {
    let mut s = 0u64;
    assert_eq!(splitmix64(&mut s), 0xe220_a839_7b1d_cdaf);
    assert_eq!(s, 0x9e37_79b9_7f4a_7c15);
    let mut s1 = 0u64;
    let mut s2 = 0u64;
    let hi = splitmix64(&mut s1);
    let lo = splitmix64(&mut s1);
    assert_eq!(rand_bits(&mut s2), ((hi as u128) << 64) | lo as u128);
    assert_eq!(s1, s2);
}

#[test]
fn matvec_and_sbox_layer_reference() {
    // The identity matrix maps x to x; a matrix of all-ones rows maps x to
    // its parity in every bit.
    let id: [u128; 128] = std::array::from_fn(|j| 1u128 << j);
    let ones: [u128; 128] = [u128::MAX; 128];
    let x: u128 = 0xF0F0_0000_0000_0000_0000_0000_0000_0007;
    assert_eq!(matvec(&id, x), x);
    assert_eq!(matvec(&ones, x), u128::MAX);
    assert_eq!(matvec(&ones, x ^ 1), 0);
    // Only the low 3 * M bits go through S-boxes; sbox(0b000) = 0b000,
    // sbox(0b001) = c' only: (a,b,c) = (0,0,1) -> (0,0,1).
    assert_eq!(sbox_layer_ref(0), 0);
    assert_eq!(sbox_layer_ref(1u128 << 100), 1u128 << 100);
    assert_eq!(sbox_layer_ref(1), 1);
    // (a,b,c) = (1,1,1) -> a'=0, b'=1, c'=0.
    assert_eq!(sbox_layer_ref(0b111), 0b010);
}

#[test]
fn commit_cadence_adds_one_commitment_per_state_bit() {
    for ce in [0usize, 1, 2, 3, 7, 20, 21] {
        let mut b = CircuitBuilder::new();
        let input = inouts(&mut b);
        lowmc_permutation(&mut b, input, ce);
        let commits = (0..b.len()).filter(|&i| matches!(b.gate(i), Gate::ForceCommit(_))).count();
        let expected = if ce == 0 { 0 } else { N * (R / ce) };
        assert_eq!(commits, expected, "commit_every = {ce}");
    }
}
