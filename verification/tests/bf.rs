use zk_garble::aes::gf_mul;
use zk_garble::bf::{gf32_mul, gf64_mul};
use zk_garble::circuit::CircuitBuilder;

fn gf32_mul_ref(mut a: u32, mut b: u32) -> u32 {
    let mut p = 0u32;
    for _ in 0..32 {
        if b & 1 != 0 {
            p ^= a;
        }
        let hi = a & 0x8000_0000;
        a <<= 1;
        if hi != 0 {
            a ^= 0x8D;
        }
        b >>= 1;
    }
    p
}

#[test]
fn gf32_mul_matches_reference() {
    let mut builder = CircuitBuilder::new();
    let x = builder.add_inout();
    let y = builder.add_inout();
    let expected = builder.add_inout();
    let out = gf32_mul(&mut builder, x, y);
    builder.assert_eq(out, expected);

    let vals = [0u32, 1, 2, 0xFF, 0x1_0000, 0xFFFF_FFFF, 0x1234_5678, 0xDEAD_BEEF];
    for &a in &vals {
        for &c in &vals {
            let mut w = builder.new_witness_filler();
            w[x.0] = a as u64;
            w[y.0] = c as u64;
            w[expected.0] = gf32_mul_ref(a, c) as u64;
            builder.populate_wire_witness(&mut w);
            assert!(builder.verify_constraints(&w), "gf32_mul({a:#x},{c:#x})");
        }
    }
    // Algebraic anchors.
    assert_eq!(gf32_mul_ref(0xABCD_1234, 1), 0xABCD_1234);
    assert_eq!(gf32_mul_ref(12345, 67890), gf32_mul_ref(67890, 12345));
}

fn gf64_mul_ref(mut a: u64, mut b: u64) -> u64 {
    let mut p = 0u64;
    for _ in 0..64 {
        if b & 1 != 0 {
            p ^= a;
        }
        let hi = a & 0x8000_0000_0000_0000;
        a <<= 1;
        if hi != 0 {
            a ^= 0x1B;
        }
        b >>= 1;
    }
    p
}

#[test]
fn gf64_mul_matches_reference() {
    let mut builder = CircuitBuilder::new();
    let x = builder.add_inout();
    let y = builder.add_inout();
    let expected = builder.add_inout();
    let out = gf64_mul(&mut builder, x, y);
    builder.assert_eq(out, expected);
    let vals = [0u64, 1, 2, 0xFF, 0xDEAD_BEEF_CAFE_F00D, u64::MAX, 0x1234_5678_9ABC_DEF0];
    for &a in &vals {
        for &c in &vals {
            let mut w = builder.new_witness_filler();
            w[x.0] = a;
            w[y.0] = c;
            w[expected.0] = gf64_mul_ref(a, c);
            builder.populate_wire_witness(&mut w);
            assert!(builder.verify_constraints(&w), "gf64_mul({a:#x},{c:#x})");
        }
    }
}

/// Per-multiply AND-gate cost across field sizes, including GF(2^64),
/// which fits one word exactly. Run `--nocapture`.
#[test]
fn binary_field_mul_cost() {
    let cost = |build: &dyn Fn(&mut CircuitBuilder)| {
        let mut b = CircuitBuilder::new();
        build(&mut b);
        b.band_gates()
    };
    let gf8 = cost(&|b| {
        let (x, y) = (b.add_inout(), b.add_inout());
        let o = gf_mul(b, x, y);
        b.assert_eq(o, x);
    });
    let gf32 = cost(&|b| {
        let (x, y) = (b.add_inout(), b.add_inout());
        let o = gf32_mul(b, x, y);
        b.assert_eq(o, x);
    });
    let gf64 = cost(&|b| {
        let (x, y) = (b.add_inout(), b.add_inout());
        let o = gf64_mul(b, x, y);
        b.assert_eq(o, x);
    });

    println!("\n[bf-cost] one variable GF(2^k) multiply, built from word ops:");
    println!("[bf-cost]   GF(2^8)  = {gf8} AND-gates");
    println!("[bf-cost]   GF(2^32) = {gf32} AND-gates");
    println!("[bf-cost]   GF(2^64) = {gf64} AND-gates  (= 1 word)");
    assert!(gf8 < gf32 && gf32 < gf64);
}

#[test]
fn gf32_mul_wraps_through_the_reduction() {
    // x^31 * x = x^32 = x^7 + x^3 + x^2 + 1.
    assert_eq!(gf32_mul_ref(0x8000_0000, 2), 0x8D);
    let mut builder = CircuitBuilder::new();
    let x = builder.add_inout();
    let y = builder.add_inout();
    let expected = builder.add_inout();
    let out = gf32_mul(&mut builder, x, y);
    builder.assert_eq(out, expected);
    let mut w = builder.new_witness_filler();
    w[x.0] = 0x8000_0000;
    w[y.0] = 2;
    w[expected.0] = 0x8D;
    builder.populate_wire_witness(&mut w);
    assert!(builder.verify_constraints(&w));
    assert_eq!(w[out.0], 0x8D);
    w[expected.0] = 0x8C;
    assert!(!builder.verify_constraints(&w));
}

#[test]
fn gf64_mul_wraps_through_the_reduction() {
    // x^63 * x = x^64 = x^4 + x^3 + x + 1.
    assert_eq!(gf64_mul_ref(0x8000_0000_0000_0000, 2), 0x1B);
    let mut builder = CircuitBuilder::new();
    let x = builder.add_inout();
    let y = builder.add_inout();
    let out = gf64_mul(&mut builder, x, y);
    let mut w = builder.new_witness_filler();
    w[x.0] = 0x8000_0000_0000_0000;
    w[y.0] = 2;
    builder.populate_wire_witness(&mut w);
    assert!(builder.verify_constraints(&w));
    assert_eq!(w[out.0], 0x1B);
}

#[test]
fn field_mul_and_gate_counts() {
    let count = |f: &dyn Fn(&mut CircuitBuilder, zk_garble::circuit::Wire, zk_garble::circuit::Wire)| {
        let mut b = CircuitBuilder::new();
        let (x, y) = (b.add_inout(), b.add_inout());
        f(&mut b, x, y);
        b.band_gates()
    };
    assert_eq!(count(&|b, x, y| {
        gf_mul(b, x, y);
    }), 24);
    assert_eq!(count(&|b, x, y| {
        gf32_mul(b, x, y);
    }), 96);
    assert_eq!(count(&|b, x, y| {
        gf64_mul(b, x, y);
    }), 127);
}

#[test]
fn gf32_mul_gadget_commutes() {
    let mut builder = CircuitBuilder::new();
    let x = builder.add_inout();
    let y = builder.add_inout();
    let o1 = gf32_mul(&mut builder, x, y);
    let o2 = gf32_mul(&mut builder, y, x);
    for (a, c) in [(12345u64, 67890u64), (0xDEAD_BEEF, 0x1234_5678), (0xFFFF_FFFF, 0x8000_0001)] {
        let mut w = builder.new_witness_filler();
        w[x.0] = a;
        w[y.0] = c;
        builder.populate_wire_witness(&mut w);
        assert!(builder.verify_constraints(&w));
        assert_eq!(w[o1.0], w[o2.0]);
        assert_eq!(w[o1.0], gf32_mul_ref(a as u32, c as u32) as u64);
    }
}
