use aes::cipher::{BlockEncrypt, KeyInit};
use aes::{Aes128, Block};
use zk_garble::aes::{
    aes128_fixed_key, affine_ref, gf_mul, gf_mul_ref, inv_ref, key_expansion, sbox, sbox_ref,
    tccr, xtime_ref, FIXED_KEY,
};
use zk_garble::circuit::{CircuitBuilder, Wire};

/// Runs the circuit on the given input/expected words and reports whether
/// the constraints hold.
fn holds(b: &CircuitBuilder, ins: &[(Wire, u8)]) -> bool {
    let mut w = b.new_witness_filler();
    for &(wire, val) in ins {
        w[wire.0] = val as u64;
    }
    b.populate_wire_witness(&mut w);
    b.verify_constraints(&w)
}

fn check(b: &CircuitBuilder, ins: &[(Wire, u8)], label: &str) {
    assert!(holds(b, ins), "constraints {label}");
}

/// AES-128 encryption of one block with the `aes` crate.
fn aes_encrypt(key: [u8; 16], blk: [u8; 16]) -> [u8; 16] {
    let cipher = Aes128::new(&key.into());
    let mut b = Block::from(blk);
    cipher.encrypt_block(&mut b);
    b.into()
}

/// `tccr(t, x) = pi(pi(x) ^ t) ^ pi(x)` with `pi` the fixed-key AES.
fn tccr_oracle(t: [u8; 16], x: [u8; 16]) -> [u8; 16] {
    let px = aes_encrypt(FIXED_KEY, x);
    let mut y = [0u8; 16];
    for i in 0..16 {
        y[i] = px[i] ^ t[i];
    }
    let pp = aes_encrypt(FIXED_KEY, y);
    let mut out = [0u8; 16];
    for i in 0..16 {
        out[i] = pp[i] ^ px[i];
    }
    out
}

fn inouts(b: &mut CircuitBuilder) -> [Wire; 16] {
    std::array::from_fn(|_| b.add_inout())
}

#[test]
fn sbox_matches_reference() {
    // Anchor the reference against known AES S-box values, and confirm it is
    // a bijection (a transcription/logic error almost surely breaks this).
    assert_eq!(sbox_ref(0x00), 0x63);
    assert_eq!(sbox_ref(0x01), 0x7c);
    let mut seen = [false; 256];
    for x in 0..256 {
        let s = sbox_ref(x as u8) as usize;
        assert!(!seen[s], "sbox_ref not a bijection at {x:#04x}");
        seen[s] = true;
    }

    let mut builder = CircuitBuilder::new();
    let x = builder.add_inout();
    let expected = builder.add_inout();
    let out = sbox(&mut builder, x);
    builder.assert_eq(out, expected);

    for v in 0u16..256 {
        check(&builder, &[(x, v as u8), (expected, sbox_ref(v as u8))], &format!("sbox({v:#04x})"));
    }
}

#[test]
fn aes128_matches_mpz() {
    // Round key 0 must equal the key.
    assert_eq!(key_expansion(FIXED_KEY)[0], FIXED_KEY);

    let mut builder = CircuitBuilder::new();
    let input = inouts(&mut builder);
    let expected = inouts(&mut builder);
    let out = aes128_fixed_key(&mut builder, input);
    for i in 0..16 {
        builder.assert_eq(out[i], expected[i]);
    }

    let blocks: [[u8; 16]; 4] = [
        [0u8; 16],
        [0xFFu8; 16],
        std::array::from_fn(|i| i as u8),
        std::array::from_fn(|i| (i as u8).wrapping_mul(37).wrapping_add(11)),
    ];
    for blk in blocks {
        let exp = aes_encrypt(FIXED_KEY, blk);
        let ins: Vec<(Wire, u8)> = (0..16)
            .map(|i| (input[i], blk[i]))
            .chain((0..16).map(|i| (expected[i], exp[i])))
            .collect();
        check(&builder, &ins, "aes128");
    }
}

#[test]
fn tccr_matches_mpz() {
    let mut builder = CircuitBuilder::new();
    let tweak = inouts(&mut builder);
    let x = inouts(&mut builder);
    let expected = inouts(&mut builder);
    let out = tccr(&mut builder, tweak, x);
    for i in 0..16 {
        builder.assert_eq(out[i], expected[i]);
    }

    let cases: [([u8; 16], [u8; 16]); 3] = [
        ([0u8; 16], [0u8; 16]),
        (1u128.to_le_bytes(), std::array::from_fn(|i| i as u8)),
        (std::array::from_fn(|i| (i as u8).wrapping_mul(7)), [0xABu8; 16]),
    ];
    for (t, xb) in cases {
        let exp = tccr_oracle(t, xb);
        let ins: Vec<(Wire, u8)> = (0..16)
            .map(|i| (tweak[i], t[i]))
            .chain((0..16).map(|i| (x[i], xb[i])))
            .chain((0..16).map(|i| (expected[i], exp[i])))
            .collect();
        check(&builder, &ins, "tccr");
    }
}

// Reports the number of gates and of AND gates of one `tccr` evaluation. Run with
// `--nocapture`. A garbled AND gate hashes 4 values, so its proof cost is
// ~4x this.
#[test]
fn tccr_cost() {
    let mut builder = CircuitBuilder::new();
    let tweak = inouts(&mut builder);
    let x = inouts(&mut builder);
    let expected = inouts(&mut builder);
    let out = tccr(&mut builder, tweak, x);
    for i in 0..16 {
        builder.assert_eq(out[i], expected[i]);
    }
    let gates = builder.len();
    let ands = builder.band_gates();
    println!("\n[cost] one tccr(): gates={}, AND-gates={}", gates, ands);
    println!("[cost] per garbled AND gate (4x tccr) ~= {} AND-gates\n", 4 * ands);
    assert!(ands > 0 && ands < gates);
}

#[test]
fn fips197_key_schedule() {
    // FIPS-197 Appendix A.1: the last round key of 2b7e1516 28aed2a6 abf71588 09cf4f3c.
    let key = [
        0x2b, 0x7e, 0x15, 0x16, 0x28, 0xae, 0xd2, 0xa6, 0xab, 0xf7, 0x15, 0x88, 0x09, 0xcf, 0x4f,
        0x3c,
    ];
    let rks = key_expansion(key);
    assert_eq!(rks[0], key);
    assert_eq!(
        rks[1],
        [
            0xa0, 0xfa, 0xfe, 0x17, 0x88, 0x54, 0x2c, 0xb1, 0x23, 0xa3, 0x39, 0x39, 0x2a, 0x6c,
            0x76, 0x05
        ]
    );
    assert_eq!(
        rks[10],
        [
            0xd0, 0x14, 0xf9, 0xa8, 0xc9, 0xee, 0x25, 0x89, 0xe1, 0x3f, 0x0c, 0xc8, 0xb6, 0x63,
            0x0c, 0xa6
        ]
    );
}

#[test]
fn gf_mul_reference_values() {
    // FIPS-197 section 4.2: {57} * {83} = {c1}, {57} * {13} = {fe}.
    assert_eq!(gf_mul_ref(0x57, 0x83), 0xc1);
    assert_eq!(gf_mul_ref(0x57, 0x13), 0xfe);
    assert_eq!(xtime_ref(0x57), 0xae);
    assert_eq!(xtime_ref(0xae), 0x47);
    assert_eq!(xtime_ref(0x80), 0x1b);
    for a in 0..=255u8 {
        assert_eq!(gf_mul_ref(a, 1), a);
        assert_eq!(gf_mul_ref(a, 0), 0);
        assert_eq!(gf_mul_ref(a, 2), xtime_ref(a));
        for b in [0x03u8, 0x53, 0xca, 0xff] {
            assert_eq!(gf_mul_ref(a, b), gf_mul_ref(b, a));
        }
    }
}

#[test]
fn inverse_and_affine_reference_values() {
    // {53} and {ca} are inverses (FIPS-197 section 4.2).
    assert_eq!(inv_ref(0x53), 0xca);
    assert_eq!(inv_ref(0xca), 0x53);
    assert_eq!(inv_ref(0), 0);
    assert_eq!(inv_ref(1), 1);
    for x in 1..=255u8 {
        assert_eq!(gf_mul_ref(x, inv_ref(x)), 1, "inverse of {x:#04x}");
        assert_eq!(inv_ref(inv_ref(x)), x);
    }
    assert_eq!(affine_ref(0), 0x63);
    assert_eq!(affine_ref(0xca), 0xed);
    assert_eq!(sbox_ref(0x53), 0xed);
    assert_eq!(sbox_ref(0xff), 0x16);
}

#[test]
fn gf_mul_gadget_matches_reference() {
    let mut builder = CircuitBuilder::new();
    let x = builder.add_inout();
    let y = builder.add_inout();
    let expected = builder.add_inout();
    let out = gf_mul(&mut builder, x, y);
    builder.assert_eq(out, expected);
    for a in [0u8, 1, 2, 0x53, 0x57, 0x80, 0xca, 0xff] {
        for c in 0..=255u8 {
            check(&builder, &[(x, a), (y, c), (expected, gf_mul_ref(a, c))], "gf_mul");
        }
    }
    // A wrong product is rejected.
    assert!(!holds(&builder, &[(x, 0x57), (y, 0x83), (expected, 0xc2)]));
}

#[test]
fn sbox_gadget_rejects_a_wrong_output() {
    let mut builder = CircuitBuilder::new();
    let x = builder.add_inout();
    let expected = builder.add_inout();
    let out = sbox(&mut builder, x);
    builder.assert_eq(out, expected);
    assert!(holds(&builder, &[(x, 0x53), (expected, 0xed)]));
    assert!(!holds(&builder, &[(x, 0x53), (expected, 0xee)]));
    assert!(!holds(&builder, &[(x, 0x00), (expected, 0x00)]));
}

#[test]
fn aes128_gadget_rejects_a_wrong_ciphertext() {
    let mut builder = CircuitBuilder::new();
    let input = inouts(&mut builder);
    let expected = inouts(&mut builder);
    let out = aes128_fixed_key(&mut builder, input);
    for i in 0..16 {
        builder.assert_eq(out[i], expected[i]);
    }
    let blk = [0x42u8; 16];
    let mut exp = aes_encrypt(FIXED_KEY, blk);
    exp[7] ^= 1;
    let ins: Vec<(Wire, u8)> = (0..16)
        .map(|i| (input[i], blk[i]))
        .chain((0..16).map(|i| (expected[i], exp[i])))
        .collect();
    assert!(!holds(&builder, &ins));
}

#[test]
fn inverse_check_pins_the_inverse() {
    // With p = x * i, the two checks x * p == x and i * p == i accept
    // exactly i = x^-1 (and i = 0 for x = 0).
    let mut b = CircuitBuilder::new();
    let x = b.add_inout();
    let i = b.add_witness();
    let p = gf_mul(&mut b, x, i);
    let t1 = gf_mul(&mut b, x, p);
    b.assert_eq(t1, x);
    let t2 = gf_mul(&mut b, i, p);
    b.assert_eq(t2, i);
    for xv in 0..=255u8 {
        for iv in 0..=255u8 {
            let ok = holds(&b, &[(x, xv), (i, iv)]);
            assert_eq!(ok, iv == inv_ref(xv), "x={xv:#04x} i={iv:#04x}");
        }
    }
}

#[test]
fn aes_gadget_and_gate_counts() {
    let mut b = CircuitBuilder::new();
    let x = b.add_inout();
    sbox(&mut b, x);
    assert_eq!(b.band_gates(), 79);

    let mut b = CircuitBuilder::new();
    let input = inouts(&mut b);
    aes128_fixed_key(&mut b, input);
    assert_eq!(b.band_gates(), 16096);

    let mut b = CircuitBuilder::new();
    let t = inouts(&mut b);
    let x = inouts(&mut b);
    tccr(&mut b, t, x);
    assert_eq!(b.band_gates(), 32192);
}

#[test]
fn gf_mul_reference_is_a_field_multiplication() {
    let samples = [0u8, 1, 2, 3, 0x1b, 0x53, 0x57, 0x80, 0xca, 0xff];
    for a in 0..=255u8 {
        for &b in &samples {
            for &c in &samples {
                assert_eq!(gf_mul_ref(gf_mul_ref(a, b), c), gf_mul_ref(a, gf_mul_ref(b, c)));
                assert_eq!(gf_mul_ref(a, b ^ c), gf_mul_ref(a, b) ^ gf_mul_ref(a, c));
            }
        }
    }
}
