use zk_garble::build_proof_of_garbling;
use zk_garble::circuit::{CircuitBuilder, Gate};

#[test]
fn proof_of_garbling_circuit_is_empty() {
    for and_count in [0usize, 1, 6400] {
        let c = build_proof_of_garbling(and_count);
        assert_eq!(c.len(), 0);
        assert_eq!(c.band_gates(), 0);
        let w = c.new_witness_filler();
        assert!(c.verify_constraints(&w));
    }
}

#[test]
fn builder_ops_compute_their_words() {
    let mut b = CircuitBuilder::new();
    let x = b.add_inout();
    let y = b.add_witness();
    let a = b.band(x, y);
    let o = b.bor(x, y);
    let e = b.bxor(x, y);
    let l = b.shl(x, 4);
    let r = b.shr(x, 4);
    let s = b.sar(x, 63);
    let c = b.add_constant_64(0xFF);
    let m = b.bxor_multi(&[x, y, c]);
    let h = b.byte_inverse_hint(x);
    b.force_commit(e);
    assert!(matches!(b.gate(a.0), Gate::Band(_, _)));
    assert_eq!(b.band_gates(), 1);
    let mut w = b.new_witness_filler();
    w[x.0] = 0x8000_0000_0000_0053;
    w[y.0] = 0x0F0F;
    b.populate_wire_witness(&mut w);
    assert!(b.verify_constraints(&w));
    assert_eq!(w[a.0], 0x0003);
    assert_eq!(w[o.0], 0x8000_0000_0000_0F5F);
    assert_eq!(w[e.0], 0x8000_0000_0000_0F5C);
    assert_eq!(w[l.0], 0x530);
    assert_eq!(w[r.0], 0x0800_0000_0000_0005);
    assert_eq!(w[s.0], u64::MAX);
    assert_eq!(w[c.0], 0xFF);
    assert_eq!(w[m.0], 0x8000_0000_0000_0053 ^ 0x0F0F ^ 0xFF);
    // The hint is the GF(2^8) inverse of the low byte: {53}^-1 = {ca}.
    assert_eq!(w[h.0], 0xca);
}

#[test]
fn assert_eq_catches_a_mismatch() {
    let mut b = CircuitBuilder::new();
    let x = b.add_inout();
    let y = b.add_inout();
    b.assert_eq(x, y);
    let mut w = b.new_witness_filler();
    w[x.0] = 5;
    w[y.0] = 5;
    b.populate_wire_witness(&mut w);
    assert!(b.verify_constraints(&w));
    w[y.0] = 6;
    assert!(!b.verify_constraints(&w));
}

#[test]
fn a_tampered_gate_word_is_rejected() {
    let mut b = CircuitBuilder::new();
    let x = b.add_inout();
    let y = b.add_inout();
    let z = b.bxor(x, y);
    let mut w = b.new_witness_filler();
    w[x.0] = 1;
    w[y.0] = 2;
    b.populate_wire_witness(&mut w);
    assert_eq!(w[z.0], 3);
    assert!(b.verify_constraints(&w));
    w[z.0] = 4;
    assert!(!b.verify_constraints(&w));
}
