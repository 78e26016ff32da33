//! A word-level circuit builder: every wire carries a 64-bit word, and every
//! gate is one of the word operations a binary-field constraint system
//! offers (bitwise AND/XOR/OR, shifts, equality assertions and prover hints).
//!
//! A circuit is read two ways:
//! * `satisfies(gates, w)`: the assignment `w` obeys every gate;
//! * `populate(gates, w)`: the honest prover's assignment, which keeps the
//!   free wires of `w` (inputs and witnesses) and computes every other wire.
use vstd::prelude::*;
use crate::gf::gf8_inv;
use crate::aes::inv_ref;

verus! {

/// A handle to a wire: the index of its defining gate.
#[derive(Clone, Copy, Debug)]
pub struct Wire(pub usize);

/// One gate of the circuit; gate number `i` defines wire `i`.
#[derive(Clone, Debug)]
pub enum Gate {
    /// A public input/output word, chosen by whoever fills the witness.
    Inout,
    /// A private witness word, chosen by whoever fills the witness.
    Witness,
    /// A constant word.
    Constant(u64),
    /// Bitwise AND of two wires.
    Band(usize, usize),
    /// Bitwise XOR of two wires.
    Bxor(usize, usize),
    /// Bitwise OR of two wires.
    Bor(usize, usize),
    /// Logical shift left by a constant amount below 64.
    Shl(usize, u32),
    /// Logical shift right by a constant amount below 64.
    Shr(usize, u32),
    /// Arithmetic shift right by a constant amount below 64.
    Sar(usize, u32),
    /// XOR of any number of wires (zero wires give the zero word).
    BxorMulti(Vec<usize>),
    /// Asserts that two wires are equal; its own wire carries no meaning.
    AssertEq(usize, usize),
    /// Forces a wire to be committed; no constraint on values.
    ForceCommit(usize),
    /// Prover advice: the GF(2^8) inverse of the low byte of a wire. The
    /// constraint system does not check it; circuits must assert on it.
    ByteInverseHint(usize),
}

/// Arithmetic shift right of a 64-bit word, read as two's complement.
pub open spec fn sar_spec(x: u64, n: u64) -> u64 {
    if x >> 63u64 == 1u64 {
        !((!x) >> n)
    } else {
        x >> n
    }
}

/// XOR of the words that `w` holds at the indices `idx`.
pub open spec fn xor_fold(w: Seq<u64>, idx: Seq<usize>) -> u64
    decreases idx.len(),
{
    if idx.len() == 0 {
        0u64
    } else {
        xor_fold(w, idx.drop_last()) ^ w[idx.last() as int]
    }
}

/// The wire indices of a list of wires.
pub open spec fn wire_indices(ws: Seq<Wire>) -> Seq<usize> {
    ws.map_values(|x: Wire| x.0)
}

/// XOR over one more index.
pub proof fn lemma_xor_fold_push(w: Seq<u64>, idx: Seq<usize>, i: usize)
    ensures
        xor_fold(w, idx.push(i)) == xor_fold(w, idx) ^ w[i as int],
{
    assert(idx.push(i).drop_last() =~= idx);
}

/// All wires of `ws` exist in a circuit of `n` gates.
pub open spec fn wires_below(ws: Seq<Wire>, n: int) -> bool {
    forall|i: int| 0 <= i < ws.len() ==> #[trigger] ws[i].0 < n
}

/// XOR over three indices, in order.
pub proof fn lemma_xor_fold3(w: Seq<u64>, i0: usize, i1: usize, i2: usize)
    ensures
        xor_fold(w, seq![i0, i1, i2]) == ((0u64 ^ w[i0 as int]) ^ w[i1 as int]) ^ w[i2 as int],
{
    let e = Seq::<usize>::empty();
    lemma_xor_fold_push(w, e, i0);
    lemma_xor_fold_push(w, e.push(i0), i1);
    lemma_xor_fold_push(w, e.push(i0).push(i1), i2);
    assert(seq![i0, i1, i2] =~= e.push(i0).push(i1).push(i2));
}

/// XOR over four indices, in order.
pub proof fn lemma_xor_fold4(w: Seq<u64>, i0: usize, i1: usize, i2: usize, i3: usize)
    ensures
        xor_fold(w, seq![i0, i1, i2, i3]) == (((0u64 ^ w[i0 as int]) ^ w[i1 as int]) ^ w[i2 as int])
            ^ w[i3 as int],
{
    let e = Seq::<usize>::empty();
    lemma_xor_fold_push(w, e, i0);
    lemma_xor_fold_push(w, e.push(i0), i1);
    lemma_xor_fold_push(w, e.push(i0).push(i1), i2);
    lemma_xor_fold_push(w, e.push(i0).push(i1).push(i2), i3);
    assert(seq![i0, i1, i2, i3] =~= e.push(i0).push(i1).push(i2).push(i3));
}

/// XOR over five indices, in order.
pub proof fn lemma_xor_fold5(w: Seq<u64>, i0: usize, i1: usize, i2: usize, i3: usize, i4: usize)
    ensures
        xor_fold(w, seq![i0, i1, i2, i3, i4]) == ((((0u64 ^ w[i0 as int]) ^ w[i1 as int]) ^ w[i2 as int])
            ^ w[i3 as int]) ^ w[i4 as int],
{
    let e = Seq::<usize>::empty();
    lemma_xor_fold_push(w, e, i0);
    lemma_xor_fold_push(w, e.push(i0), i1);
    lemma_xor_fold_push(w, e.push(i0).push(i1), i2);
    lemma_xor_fold_push(w, e.push(i0).push(i1).push(i2), i3);
    lemma_xor_fold_push(w, e.push(i0).push(i1).push(i2).push(i3), i4);
    assert(seq![i0, i1, i2, i3, i4] =~= e.push(i0).push(i1).push(i2).push(i3).push(i4));
}

/// A gate is well formed at position `i`: it reads only earlier wires and
/// shifts by less than a word.
pub open spec fn gate_wf(g: Gate, i: int) -> bool {
    match g {
        Gate::Inout | Gate::Witness | Gate::Constant(_) => true,
        Gate::Band(a, b) | Gate::Bxor(a, b) | Gate::Bor(a, b) | Gate::AssertEq(a, b) => a < i
            && b < i,
        Gate::Shl(a, n) | Gate::Shr(a, n) | Gate::Sar(a, n) => a < i && n < 64,
        Gate::BxorMulti(v) => forall|k: int| 0 <= k < v@.len() ==> #[trigger] v@[k] < i,
        Gate::ForceCommit(a) | Gate::ByteInverseHint(a) => a < i,
    }
}

pub open spec fn circuit_wf(gates: Seq<Gate>) -> bool {
    forall|i: int| 0 <= i < gates.len() ==> #[trigger] gate_wf(gates[i], i)
}

/// The constraint that gate `g` at position `i` puts on the assignment `w`.
pub open spec fn gate_holds(g: Gate, w: Seq<u64>, i: int) -> bool {
    match g {
        Gate::Inout | Gate::Witness | Gate::ForceCommit(_) | Gate::ByteInverseHint(_) => true,
        Gate::Constant(c) => w[i] == c,
        Gate::Band(a, b) => w[i] == w[a as int] & w[b as int],
        Gate::Bxor(a, b) => w[i] == w[a as int] ^ w[b as int],
        Gate::Bor(a, b) => w[i] == w[a as int] | w[b as int],
        Gate::Shl(a, n) => w[i] == w[a as int] << (n as u64),
        Gate::Shr(a, n) => w[i] == w[a as int] >> (n as u64),
        Gate::Sar(a, n) => w[i] == sar_spec(w[a as int], n as u64),
        Gate::BxorMulti(v) => w[i] == xor_fold(w, v@),
        Gate::AssertEq(a, b) => w[a as int] == w[b as int],
    }
}

/// `w` obeys every gate of the circuit.
pub open spec fn satisfies(gates: Seq<Gate>, w: Seq<u64>) -> bool {
    &&& w.len() >= gates.len()
    &&& forall|i: int| 0 <= i < gates.len() ==> #[trigger] gate_holds(gates[i], w, i)
}


/// The word the honest prover puts on gate `g` at position `i`, given the
/// words `w` already placed on the earlier wires. Free wires keep `w[i]`.
pub open spec fn gate_value(g: Gate, w: Seq<u64>, i: int) -> u64 {
    match g {
        Gate::Inout | Gate::Witness | Gate::AssertEq(_, _) | Gate::ForceCommit(_) => w[i],
        Gate::Constant(c) => c,
        Gate::Band(a, b) => w[a as int] & w[b as int],
        Gate::Bxor(a, b) => w[a as int] ^ w[b as int],
        Gate::Bor(a, b) => w[a as int] | w[b as int],
        Gate::Shl(a, n) => w[a as int] << (n as u64),
        Gate::Shr(a, n) => w[a as int] >> (n as u64),
        Gate::Sar(a, n) => sar_spec(w[a as int], n as u64),
        Gate::BxorMulti(v) => xor_fold(w, v@),
        Gate::ByteInverseHint(a) => gf8_inv((w[a as int] & 0xffu64) as u8) as u64,
    }
}

/// The number of AND gates among the gates.
pub open spec fn band_count(gates: Seq<Gate>) -> nat
    decreases gates.len(),
{
    if gates.len() == 0 {
        0
    } else {
        band_count(gates.drop_last()) + (if gates.last() is Band {
            1nat
        } else {
            0nat
        })
    }
}

/// The number of forced commitments among the gates.
pub open spec fn commit_count(gates: Seq<Gate>) -> nat
    decreases gates.len(),
{
    if gates.len() == 0 {
        0
    } else {
        commit_count(gates.drop_last()) + (if gates.last() is ForceCommit {
            1nat
        } else {
            0nat
        })
    }
}

/// The honest prover's assignment: gate by gate, free wires keep their word
/// in `w` and every other wire gets its computed word.
pub open spec fn populate(gates: Seq<Gate>, w: Seq<u64>) -> Seq<u64>
    decreases gates.len(),
{
    if gates.len() == 0 {
        w
    } else {
        let prev = populate(gates.drop_last(), w);
        let n = gates.len() - 1;
        prev.update(n, gate_value(gates.last(), prev, n))
    }
}

/// Every assignment whose populated form satisfies `old` has a populated form
/// that satisfies `new`: appending the gates of `new` never makes the honest
/// prover fail.
pub open spec fn extends_completely(old: Seq<Gate>, new: Seq<Gate>) -> bool {
    forall|w: Seq<u64>|
        w.len() >= new.len() && #[trigger] satisfies(old, populate(old, w)) ==> satisfies(
            new,
            populate(new, w),
        )
}

/// Populating `new` leaves the words of the wires of `old` as populating
/// `old` sets them.
pub open spec fn populate_extends(old: Seq<Gate>, new: Seq<Gate>) -> bool {
    forall|w: Seq<u64>, k: int|
        w.len() >= new.len() && 0 <= k < old.len() ==> #[trigger] populate(new, w)[k] == populate(
            old,
            w,
        )[k]
}

/// `new` keeps the gates of `old` at their positions and adds more.
pub open spec fn is_prefix(old: Seq<Gate>, new: Seq<Gate>) -> bool {
    old.len() <= new.len() && new.subrange(0, old.len() as int) == old
}

/// The circuit grew from `old` to `new`: it is still well formed, keeps the
/// old gates and the honest prover's old words, never stops the honest
/// prover, and an assignment that satisfies it satisfies the old one.
pub open spec fn grows(old: Seq<Gate>, new: Seq<Gate>) -> bool {
    &&& circuit_wf(new)
    &&& is_prefix(old, new)
    &&& populate_extends(old, new)
    &&& extends_completely(old, new)
    &&& forall|w: Seq<u64>| #[trigger] satisfies(new, w) ==> satisfies(old, w)
}

/// Growing is transitive.
pub proof fn lemma_grows_trans(a: Seq<Gate>, b: Seq<Gate>, c: Seq<Gate>)
    requires
        grows(a, b),
        grows(b, c),
    ensures
        grows(a, c),
{
    assert(c.subrange(0, a.len() as int) =~= b.subrange(0, a.len() as int));
    assert forall|w: Seq<u64>, k: int|
        w.len() >= c.len() && 0 <= k < a.len() implies #[trigger] populate(c, w)[k] == populate(
        a,
        w,
    )[k] by {
        assert(populate(c, w)[k] == populate(b, w)[k]);
    }
    assert forall|w: Seq<u64>|
        w.len() >= c.len() && #[trigger] satisfies(a, populate(a, w)) implies satisfies(
        c,
        populate(c, w),
    ) by {
        assert(satisfies(b, populate(b, w)));
    }
}

/// Every well-formed circuit grows from itself.
pub proof fn lemma_grows_refl(a: Seq<Gate>)
    requires
        circuit_wf(a),
    ensures
        grows(a, a),
{
    assert(a.subrange(0, a.len() as int) =~= a);
}

/// Being a prefix is transitive.
pub proof fn lemma_is_prefix_trans(a: Seq<Gate>, b: Seq<Gate>, c: Seq<Gate>)
    requires
        is_prefix(a, b),
        is_prefix(b, c),
    ensures
        is_prefix(a, c),
{
    assert(c.subrange(0, a.len() as int) =~= b.subrange(0, a.len() as int));
}

/// A prefix keeps the gates at its positions.
pub proof fn lemma_prefix_index(a: Seq<Gate>, b: Seq<Gate>, g: int)
    requires
        is_prefix(a, b),
        0 <= g < a.len(),
    ensures
        b[g] == a[g],
{
    assert(b.subrange(0, a.len() as int)[g] == b[g]);
}

/// Appending gates never lowers the number of forced commitments, and
/// appending a forced commitment raises it.
pub proof fn lemma_commit_count_prefix(a: Seq<Gate>, b: Seq<Gate>)
    requires
        is_prefix(a, b),
    ensures
        commit_count(a) <= commit_count(b),
        forall|g: int|
            #![trigger b[g]]
            a.len() <= g < b.len() && b[g] is ForceCommit ==> commit_count(a) < commit_count(b),
    decreases b.len(),
{
    if b.len() == a.len() {
        assert(b.subrange(0, a.len() as int) =~= b);
    } else {
        let c = b.drop_last();
        assert(c.subrange(0, a.len() as int) =~= b.subrange(0, a.len() as int));
        lemma_commit_count_prefix(a, c);
        assert forall|g: int| a.len() <= g < b.len() && b[g] is ForceCommit implies commit_count(a)
            < commit_count(b) by {
            if g < c.len() {
                assert(c[g] == b[g]);
            } else {
                assert(b.last() == b[g]);
            }
        }
    }
}

/// Growing, then appending gates that only assert (without stopping the
/// honest prover overall), is still growing.
pub proof fn lemma_grows_then_assert(a: Seq<Gate>, b: Seq<Gate>, c: Seq<Gate>)
    requires
        grows(a, b),
        circuit_wf(c),
        is_prefix(b, c),
        populate_extends(b, c),
        forall|w: Seq<u64>| #[trigger] satisfies(c, w) ==> satisfies(b, w),
        extends_completely(a, c),
    ensures
        grows(a, c),
{
    lemma_is_prefix_trans(a, b, c);
    assert forall|w: Seq<u64>, k: int|
        w.len() >= c.len() && 0 <= k < a.len() implies #[trigger] populate(c, w)[k] == populate(
        a,
        w,
    )[k] by {
        assert(populate(c, w)[k] == populate(b, w)[k]);
    }
}

/// Completeness of every circuit that grew from the empty one: whatever
/// words the inputs and witnesses are given, the honest prover's assignment
/// satisfies it.
pub proof fn lemma_honest_prover_succeeds(c: Seq<Gate>, w: Seq<u64>)
    requires
        grows(Seq::empty(), c),
        w.len() >= c.len(),
    ensures
        satisfies(c, populate(c, w)),
{
    assert(satisfies(Seq::<Gate>::empty(), populate(Seq::<Gate>::empty(), w)));
}

/// A builder that records a word circuit gate by gate.
pub struct CircuitBuilder {
    gates: Vec<Gate>,
}

impl View for CircuitBuilder {
    type V = Seq<Gate>;

    closed spec fn view(&self) -> Seq<Gate> {
        self.gates@
    }
}

/// The populated word of a wire reads only earlier wires.
pub proof fn lemma_gate_holds_frame(g: Gate, w1: Seq<u64>, w2: Seq<u64>, i: int)
    requires
        gate_wf(g, i),
        0 <= i < w1.len(),
        0 <= i < w2.len(),
        forall|k: int| 0 <= k <= i ==> w1[k] == w2[k],
    ensures
        gate_holds(g, w1, i) == gate_holds(g, w2, i),
        gate_value(g, w1, i) == gate_value(g, w2, i),
{
    match g {
        Gate::BxorMulti(v) => {
            lemma_xor_fold_frame(w1, w2, v@, i);
        },
        _ => {},
    }
}

pub proof fn lemma_xor_fold_frame(w1: Seq<u64>, w2: Seq<u64>, idx: Seq<usize>, i: int)
    requires
        forall|k: int| 0 <= k < idx.len() ==> #[trigger] idx[k] < i,
        i <= w1.len(),
        i <= w2.len(),
        forall|k: int| 0 <= k < i ==> w1[k] == w2[k],
    ensures
        xor_fold(w1, idx) == xor_fold(w2, idx),
    decreases idx.len(),
{
    if idx.len() > 0 {
        let d = idx.drop_last();
        assert forall|k: int| 0 <= k < d.len() implies #[trigger] d[k] < i by {
            assert(d[k] == idx[k]);
        }
        lemma_xor_fold_frame(w1, w2, d, i);
        assert(idx[idx.len() - 1] < i);
    }
}

/// Populating keeps the length of the assignment.
pub proof fn lemma_populate_len(gates: Seq<Gate>, w: Seq<u64>)
    requires
        w.len() >= gates.len(),
    ensures
        populate(gates, w).len() == w.len(),
    decreases gates.len(),
{
    if gates.len() > 0 {
        lemma_populate_len(gates.drop_last(), w);
    }
}

/// Appending one gate: the populated assignment of the longer circuit is that
/// of the shorter one with the new wire computed, and it satisfies the longer
/// circuit exactly when the shorter one is satisfied and the new gate holds.
pub proof fn lemma_push_gate(gates: Seq<Gate>, g: Gate, w: Seq<u64>)
    requires
        circuit_wf(gates.push(g)),
        w.len() > gates.len(),
    ensures
        populate(gates.push(g), w) == populate(gates, w).update(
            gates.len() as int,
            gate_value(g, populate(gates, w), gates.len() as int),
        ),
        satisfies(gates, populate(gates, w)) && gate_holds(
            g,
            populate(gates.push(g), w),
            gates.len() as int,
        ) ==> satisfies(gates.push(g), populate(gates.push(g), w)),
{
    let n = gates.len() as int;
    let ng = gates.push(g);
    assert(ng.drop_last() =~= gates);
    lemma_populate_len(gates, w);
    let prev = populate(gates, w);
    let cur = populate(ng, w);
    if satisfies(gates, prev) && gate_holds(g, cur, n) {
        assert forall|i: int| 0 <= i < ng.len() implies #[trigger] gate_holds(ng[i], cur, i) by {
            if i < n {
                assert(ng[i] == gates[i]);
                assert(gate_wf(ng[i], i));
                assert(gate_holds(gates[i], prev, i));
                lemma_gate_holds_frame(gates[i], prev, cur, i);
            }
        }
    }
}

/// A longer assignment that satisfies a circuit satisfies its prefixes.
pub proof fn lemma_satisfies_prefix(old: Seq<Gate>, new: Seq<Gate>, w: Seq<u64>)
    requires
        is_prefix(old, new),
        satisfies(new, w),
    ensures
        satisfies(old, w),
{
    assert forall|i: int| 0 <= i < old.len() implies #[trigger] gate_holds(old[i], w, i) by {
        assert(old[i] == new.subrange(0, old.len() as int)[i]);
        assert(gate_holds(new[i], w, i));
    }
}

impl CircuitBuilder {
    pub open spec fn wf(&self) -> bool {
        circuit_wf(self@)
    }

    /// An empty circuit.
    pub fn new() -> (b: CircuitBuilder)
        ensures
            b.wf(),
            b@ == Seq::<Gate>::empty(),
    {
        CircuitBuilder { gates: Vec::new() }
    }

    /// Number of gates (and wires) recorded so far.
    pub fn len(&self) -> (n: usize)
        ensures
            n == self@.len(),
    {
        self.gates.len()
    }

    /// Gate number `i`.
    pub fn gate(&self, i: usize) -> (g: &Gate)
        requires
            i < self@.len(),
        ensures
            *g == self@[i as int],
    {
        &self.gates[i]
    }

    /// Records `g`, which must be well formed at the end of the circuit.
    fn push(&mut self, g: Gate) -> (r: Wire)
        requires
            old(self).wf(),
            gate_wf(g, old(self)@.len() as int),
        ensures
            final(self).wf(),
            final(self)@ == old(self)@.push(g),
            band_count(final(self)@) == band_count(old(self)@) + (if g is Band {
                1nat
            } else {
                0nat
            }),
            commit_count(final(self)@) == commit_count(old(self)@) + (if g is ForceCommit {
                1nat
            } else {
                0nat
            }),
            r.0 == old(self)@.len(),
            is_prefix(old(self)@, final(self)@),
            populate_extends(old(self)@, final(self)@),
            forall|w: Seq<u64>| #[trigger]
                satisfies(final(self)@, w) <==> satisfies(old(self)@, w) && w.len() > r.0
                    && gate_holds(g, w, r.0 as int),
            forall|w: Seq<u64>|
                w.len() > r.0 ==> #[trigger] populate(final(self)@, w) == populate(
                    old(self)@,
                    w,
                ).update(r.0 as int, gate_value(g, populate(old(self)@, w), r.0 as int)),
            !(g is AssertEq) ==> grows(old(self)@, final(self)@),
            !(g is AssertEq) ==> forall|g0: Seq<Gate>|
                grows(g0, old(self)@) ==> #[trigger] grows(g0, final(self)@),
    {
        let ghost old_gates = self@;
        let r = Wire(self.gates.len());
        self.gates.push(g);
        let _ = self.gates.len();
        proof {
            assert(self@.drop_last() =~= old_gates);
            assert(self@.subrange(0, old_gates.len() as int) =~= old_gates);
            assert forall|i: int| 0 <= i < self@.len() implies #[trigger] gate_wf(self@[i], i) by {
                if i < old_gates.len() {
                    assert(self@[i] == old_gates[i]);
                }
            }
            assert forall|w: Seq<u64>| #[trigger]
                satisfies(self@, w) <==> satisfies(old_gates, w) && w.len() > r.0
                    && gate_holds(g, w, r.0 as int) by {
                if satisfies(self@, w) {
                    lemma_satisfies_prefix(old_gates, self@, w);
                    assert(gate_holds(self@[r.0 as int], w, r.0 as int));
                }
                if satisfies(old_gates, w) && w.len() > r.0 && gate_holds(g, w, r.0 as int) {
                    assert forall|i: int| 0 <= i < self@.len() implies #[trigger] gate_holds(
                        self@[i],
                        w,
                        i,
                    ) by {
                        if i < old_gates.len() {
                            assert(self@[i] == old_gates[i]);
                        }
                    }
                }
            }
            assert forall|w: Seq<u64>| w.len() > r.0 implies #[trigger] populate(self@, w)
                == populate(old_gates, w).update(
                r.0 as int,
                gate_value(g, populate(old_gates, w), r.0 as int),
            ) by {
                lemma_push_gate(old_gates, g, w);
            }
            assert forall|w: Seq<u64>, k: int|
                w.len() >= self@.len() && 0 <= k < old_gates.len() implies #[trigger] populate(
                self@,
                w,
            )[k] == populate(old_gates, w)[k] by {
                lemma_push_gate(old_gates, g, w);
                lemma_populate_len(old_gates, w);
            }
            if !(g is AssertEq) {
                assert forall|w: Seq<u64>|
                    w.len() >= self@.len() && #[trigger] satisfies(
                        old_gates,
                        populate(old_gates, w),
                    ) implies satisfies(self@, populate(self@, w)) by {
                    lemma_push_gate(old_gates, g, w);
                    lemma_populate_len(old_gates, w);
                    let prev = populate(old_gates, w);
                    let cur = populate(self@, w);
                    let n = r.0 as int;
                    assert forall|k: int| 0 <= k < n implies prev[k] == cur[k] by {}
                    match g {
                        Gate::BxorMulti(v) => {
                            lemma_xor_fold_frame(prev, cur, v@, n);
                        },
                        _ => {},
                    }
                }
                assert(grows(old_gates, self@));
                assert forall|g0: Seq<Gate>| grows(g0, old_gates) implies #[trigger] grows(
                    g0,
                    self@,
                ) by {
                    lemma_grows_trans(g0, old_gates, self@);
                }
            }
        }
        r
    }

    /// Bitwise AND of two wires.
    pub fn band(&mut self, a: Wire, b: Wire) -> (r: Wire)
        requires
            old(self).wf(),
            a.0 < old(self)@.len(),
            b.0 < old(self)@.len(),
        ensures
            final(self).wf(),
            grows(old(self)@, final(self)@),
            forall|g0: Seq<Gate>| grows(g0, old(self)@) ==> #[trigger] grows(g0, final(self)@),
            final(self)@.len() == old(self)@.len() + 1,
            band_count(final(self)@) == band_count(old(self)@) + 1,
            commit_count(final(self)@) == commit_count(old(self)@),
            r.0 == old(self)@.len(),
            final(self)@[r.0 as int] == Gate::Band(a.0, b.0),
            forall|w: Seq<u64>| #[trigger]
                satisfies(final(self)@, w) ==> w[r.0 as int] == w[a.0 as int] & w[b.0 as int],
    {
        self.push(Gate::Band(a.0, b.0))
    }

    /// Bitwise XOR of two wires.
    pub fn bxor(&mut self, a: Wire, b: Wire) -> (r: Wire)
        requires
            old(self).wf(),
            a.0 < old(self)@.len(),
            b.0 < old(self)@.len(),
        ensures
            final(self).wf(),
            grows(old(self)@, final(self)@),
            forall|g0: Seq<Gate>| grows(g0, old(self)@) ==> #[trigger] grows(g0, final(self)@),
            final(self)@.len() == old(self)@.len() + 1,
            band_count(final(self)@) == band_count(old(self)@),
            commit_count(final(self)@) == commit_count(old(self)@),
            r.0 == old(self)@.len(),
            final(self)@[r.0 as int] == Gate::Bxor(a.0, b.0),
            forall|w: Seq<u64>| #[trigger]
                satisfies(final(self)@, w) ==> w[r.0 as int] == w[a.0 as int] ^ w[b.0 as int],
    {
        self.push(Gate::Bxor(a.0, b.0))
    }

    /// Bitwise OR of two wires.
    pub fn bor(&mut self, a: Wire, b: Wire) -> (r: Wire)
        requires
            old(self).wf(),
            a.0 < old(self)@.len(),
            b.0 < old(self)@.len(),
        ensures
            final(self).wf(),
            grows(old(self)@, final(self)@),
            forall|g0: Seq<Gate>| grows(g0, old(self)@) ==> #[trigger] grows(g0, final(self)@),
            final(self)@.len() == old(self)@.len() + 1,
            band_count(final(self)@) == band_count(old(self)@),
            commit_count(final(self)@) == commit_count(old(self)@),
            r.0 == old(self)@.len(),
            final(self)@[r.0 as int] == Gate::Bor(a.0, b.0),
            forall|w: Seq<u64>| #[trigger]
                satisfies(final(self)@, w) ==> w[r.0 as int] == w[a.0 as int] | w[b.0 as int],
    {
        self.push(Gate::Bor(a.0, b.0))
    }

    /// Logical shift left by `n < 64` bits.
    pub fn shl(&mut self, a: Wire, n: u32) -> (r: Wire)
        requires
            old(self).wf(),
            a.0 < old(self)@.len(),
            n < 64,
        ensures
            final(self).wf(),
            grows(old(self)@, final(self)@),
            forall|g0: Seq<Gate>| grows(g0, old(self)@) ==> #[trigger] grows(g0, final(self)@),
            final(self)@.len() == old(self)@.len() + 1,
            band_count(final(self)@) == band_count(old(self)@),
            commit_count(final(self)@) == commit_count(old(self)@),
            r.0 == old(self)@.len(),
            final(self)@[r.0 as int] == Gate::Shl(a.0, n),
            forall|w: Seq<u64>| #[trigger]
                satisfies(final(self)@, w) ==> w[r.0 as int] == w[a.0 as int] << (n as u64),
    {
        self.push(Gate::Shl(a.0, n))
    }

    /// Logical shift right by `n < 64` bits.
    pub fn shr(&mut self, a: Wire, n: u32) -> (r: Wire)
        requires
            old(self).wf(),
            a.0 < old(self)@.len(),
            n < 64,
        ensures
            final(self).wf(),
            grows(old(self)@, final(self)@),
            forall|g0: Seq<Gate>| grows(g0, old(self)@) ==> #[trigger] grows(g0, final(self)@),
            final(self)@.len() == old(self)@.len() + 1,
            band_count(final(self)@) == band_count(old(self)@),
            commit_count(final(self)@) == commit_count(old(self)@),
            r.0 == old(self)@.len(),
            final(self)@[r.0 as int] == Gate::Shr(a.0, n),
            forall|w: Seq<u64>| #[trigger]
                satisfies(final(self)@, w) ==> w[r.0 as int] == w[a.0 as int] >> (n as u64),
    {
        self.push(Gate::Shr(a.0, n))
    }

    /// Arithmetic shift right by `n < 64` bits.
    pub fn sar(&mut self, a: Wire, n: u32) -> (r: Wire)
        requires
            old(self).wf(),
            a.0 < old(self)@.len(),
            n < 64,
        ensures
            final(self).wf(),
            grows(old(self)@, final(self)@),
            forall|g0: Seq<Gate>| grows(g0, old(self)@) ==> #[trigger] grows(g0, final(self)@),
            final(self)@.len() == old(self)@.len() + 1,
            band_count(final(self)@) == band_count(old(self)@),
            commit_count(final(self)@) == commit_count(old(self)@),
            r.0 == old(self)@.len(),
            final(self)@[r.0 as int] == Gate::Sar(a.0, n),
            forall|w: Seq<u64>| #[trigger]
                satisfies(final(self)@, w) ==> w[r.0 as int] == sar_spec(w[a.0 as int], n as u64),
    {
        self.push(Gate::Sar(a.0, n))
    }

    /// A wire that carries the constant word `c`.
    pub fn add_constant_64(&mut self, c: u64) -> (r: Wire)
        requires
            old(self).wf(),
            
        ensures
            final(self).wf(),
            grows(old(self)@, final(self)@),
            forall|g0: Seq<Gate>| grows(g0, old(self)@) ==> #[trigger] grows(g0, final(self)@),
            final(self)@.len() == old(self)@.len() + 1,
            band_count(final(self)@) == band_count(old(self)@),
            commit_count(final(self)@) == commit_count(old(self)@),
            r.0 == old(self)@.len(),
            final(self)@[r.0 as int] == Gate::Constant(c),
            forall|w: Seq<u64>| #[trigger]
                satisfies(final(self)@, w) ==> w[r.0 as int] == c,
    {
        self.push(Gate::Constant(c))
    }

    /// XOR of all the given wires (the zero word when there are none).
    pub fn bxor_multi(&mut self, ws: &[Wire]) -> (r: Wire)
        requires
            old(self).wf(),
            forall|k: int| 0 <= k < ws@.len() ==> #[trigger] ws@[k].0 < old(self)@.len(),
        ensures
            final(self).wf(),
            grows(old(self)@, final(self)@),
            forall|g0: Seq<Gate>| grows(g0, old(self)@) ==> #[trigger] grows(g0, final(self)@),
            final(self)@.len() == old(self)@.len() + 1,
            band_count(final(self)@) == band_count(old(self)@),
            commit_count(final(self)@) == commit_count(old(self)@),
            r.0 == old(self)@.len(),
            (final(self)@[r.0 as int] matches Gate::BxorMulti(v) && v@ == wire_indices(ws@)),
            forall|w: Seq<u64>| #[trigger]
                satisfies(final(self)@, w) ==> w[r.0 as int] == xor_fold(w, wire_indices(ws@)),
    {
        let mut idx: Vec<usize> = Vec::new();
        let mut k: usize = 0;
        while k < ws.len()
            invariant
                k <= ws@.len(),
                idx@ == wire_indices(ws@.subrange(0, k as int)),
            decreases ws@.len() - k,
        {
            idx.push(ws[k].0);
            k = k + 1;
            proof {
                assert(wire_indices(ws@.subrange(0, k as int)) =~= wire_indices(
                    ws@.subrange(0, k - 1),
                ).push(ws@[k - 1].0));
            }
        }
        proof {
            assert(ws@.subrange(0, ws@.len() as int) =~= ws@);
            assert forall|j: int| 0 <= j < idx@.len() implies #[trigger] idx@[j] < old(self)@.len() by {
                assert(idx@[j] == ws@[j].0);
            }
        }
        self.push(Gate::BxorMulti(idx))
    }

    /// A public input/output wire, whose word the caller supplies.
    pub fn add_inout(&mut self) -> (r: Wire)
        requires
            old(self).wf(),
        ensures
            final(self).wf(),
            grows(old(self)@, final(self)@),
            forall|g0: Seq<Gate>| grows(g0, old(self)@) ==> #[trigger] grows(g0, final(self)@),
            final(self)@.len() == old(self)@.len() + 1,
            band_count(final(self)@) == band_count(old(self)@),
            commit_count(final(self)@) == commit_count(old(self)@),
            r.0 == old(self)@.len(),
            final(self)@[r.0 as int] == Gate::Inout,
    {
        self.push(Gate::Inout)
    }

    /// A private witness wire, whose word the caller supplies.
    pub fn add_witness(&mut self) -> (r: Wire)
        requires
            old(self).wf(),
        ensures
            final(self).wf(),
            grows(old(self)@, final(self)@),
            forall|g0: Seq<Gate>| grows(g0, old(self)@) ==> #[trigger] grows(g0, final(self)@),
            final(self)@.len() == old(self)@.len() + 1,
            band_count(final(self)@) == band_count(old(self)@),
            commit_count(final(self)@) == commit_count(old(self)@),
            r.0 == old(self)@.len(),
            final(self)@[r.0 as int] == Gate::Witness,
    {
        self.push(Gate::Witness)
    }

    /// Marks `a` as committed; it constrains nothing.
    pub fn force_commit(&mut self, a: Wire)
        requires
            old(self).wf(),
            a.0 < old(self)@.len(),
        ensures
            final(self).wf(),
            grows(old(self)@, final(self)@),
            forall|g0: Seq<Gate>| grows(g0, old(self)@) ==> #[trigger] grows(g0, final(self)@),
            final(self)@.len() == old(self)@.len() + 1,
            band_count(final(self)@) == band_count(old(self)@),
            commit_count(final(self)@) == commit_count(old(self)@) + 1,
            final(self)@[old(self)@.len() as int] == Gate::ForceCommit(a.0),
    {
        let _ = self.push(Gate::ForceCommit(a.0));
    }

    /// Prover advice: a fresh wire that the honest prover sets to the GF(2^8)
    /// inverse of the low byte of `a`. Nothing constrains it.
    pub fn byte_inverse_hint(&mut self, a: Wire) -> (r: Wire)
        requires
            old(self).wf(),
            a.0 < old(self)@.len(),
        ensures
            final(self).wf(),
            grows(old(self)@, final(self)@),
            forall|g0: Seq<Gate>| grows(g0, old(self)@) ==> #[trigger] grows(g0, final(self)@),
            final(self)@.len() == old(self)@.len() + 1,
            band_count(final(self)@) == band_count(old(self)@),
            commit_count(final(self)@) == commit_count(old(self)@),
            r.0 == old(self)@.len(),
            final(self)@[r.0 as int] == Gate::ByteInverseHint(a.0),
            forall|w: Seq<u64>| #[trigger]
                satisfies(final(self)@, w) ==> satisfies(old(self)@, w),
            forall|w: Seq<u64>|
                w.len() > r.0 ==> #[trigger] populate(final(self)@, w)[r.0 as int] == gf8_inv(
                    (populate(old(self)@, w)[a.0 as int] & 0xffu64) as u8,
                ) as u64,
    {
        let ghost old_gates = self@;
        let r = self.push(Gate::ByteInverseHint(a.0));
        proof {
            assert forall|w: Seq<u64>| w.len() > r.0 implies #[trigger] populate(self@, w)[r.0 as int]
                == gf8_inv((populate(old_gates, w)[a.0 as int] & 0xffu64) as u8) as u64 by {
                lemma_populate_len(old_gates, w);
            }
        }
        r
    }

    /// Asserts that `a` and `b` carry the same word. The honest prover still
    /// succeeds when its populated words on `a` and `b` agree.
    pub fn assert_eq(&mut self, a: Wire, b: Wire)
        requires
            old(self).wf(),
            a.0 < old(self)@.len(),
            b.0 < old(self)@.len(),
        ensures
            final(self).wf(),
            is_prefix(old(self)@, final(self)@),
            populate_extends(old(self)@, final(self)@),
            forall|w: Seq<u64>| #[trigger] satisfies(final(self)@, w) ==> satisfies(old(self)@, w),
            final(self)@.len() == old(self)@.len() + 1,
            band_count(final(self)@) == band_count(old(self)@),
            commit_count(final(self)@) == commit_count(old(self)@),
            final(self)@[old(self)@.len() as int] == Gate::AssertEq(a.0, b.0),
            forall|w: Seq<u64>| #[trigger]
                satisfies(final(self)@, w) ==> w[a.0 as int] == w[b.0 as int],
            forall|w: Seq<u64>|
                w.len() >= final(self)@.len() && #[trigger] satisfies(
                    old(self)@,
                    populate(old(self)@, w),
                ) && populate(old(self)@, w)[a.0 as int] == populate(old(self)@, w)[b.0 as int]
                    ==> satisfies(final(self)@, populate(final(self)@, w)),
    {
        let ghost old_gates = self@;
        let r = self.push(Gate::AssertEq(a.0, b.0));
        proof {
            assert forall|w: Seq<u64>|
                w.len() >= self@.len() && #[trigger] satisfies(
                    old_gates,
                    populate(old_gates, w),
                ) && populate(old_gates, w)[a.0 as int] == populate(old_gates, w)[b.0 as int]
                implies satisfies(self@, populate(self@, w)) by {
                lemma_push_gate(old_gates, Gate::AssertEq(a.0, b.0), w);
                lemma_populate_len(old_gates, w);
            }
        }
    }

    /// A zeroed assignment with one word per wire, for the caller to put the
    /// input and witness words on.
    pub fn new_witness_filler(&self) -> (w: Vec<u64>)
        ensures
            w@.len() == self@.len(),
            forall|i: int| 0 <= i < w@.len() ==> #[trigger] w@[i] == 0u64,
    {
        let n = self.gates.len();
        let mut w: Vec<u64> = Vec::new();
        let mut i: usize = 0;
        while i < n
            invariant
                0 <= i <= n,
                n == self@.len(),
                w@.len() == i,
                forall|k: int| 0 <= k < i ==> #[trigger] w@[k] == 0u64,
            decreases n - i,
        {
            w.push(0);
            i = i + 1;
        }
        w
    }

    /// The word the honest prover puts on gate `i`, given the words of the
    /// earlier wires in `w`.
    fn gate_value_exec(&self, i: usize, w: &Vec<u64>) -> (v: u64)
        requires
            self.wf(),
            i < self@.len(),
            w@.len() >= self@.len(),
        ensures
            v == gate_value(self@[i as int], w@, i as int),
    {
        proof {
            assert(gate_wf(self@[i as int], i as int));
        }
        match &self.gates[i] {
            Gate::Inout | Gate::Witness | Gate::AssertEq(_, _) | Gate::ForceCommit(_) => w[i],
            Gate::Constant(c) => *c,
            Gate::Band(a, b) => w[*a] & w[*b],
            Gate::Bxor(a, b) => w[*a] ^ w[*b],
            Gate::Bor(a, b) => w[*a] | w[*b],
            Gate::Shl(a, n) => w[*a] << *n,
            Gate::Shr(a, n) => w[*a] >> *n,
            Gate::Sar(a, n) => {
                let x = w[*a];
                if x >> 63u64 == 1u64 {
                    !((!x) >> *n)
                } else {
                    x >> *n
                }
            },
            Gate::BxorMulti(v) => {
                let mut acc = 0u64;
                let mut k: usize = 0;
                while k < v.len()
                    invariant
                        0 <= k <= v@.len(),
                        forall|q: int| 0 <= q < v@.len() ==> #[trigger] v@[q] < i,
                        i < w@.len(),
                        acc == xor_fold(w@, v@.subrange(0, k as int)),
                    decreases v@.len() - k,
                {
                    proof {
                        assert(v@.subrange(0, k + 1) =~= v@.subrange(0, k as int).push(v@[k as int]));
                        lemma_xor_fold_push(w@, v@.subrange(0, k as int), v@[k as int]);
                    }
                    acc = acc ^ w[v[k]];
                    k = k + 1;
                }
                proof {
                    assert(v@.subrange(0, v@.len() as int) =~= v@);
                }
                acc
            },
            Gate::ByteInverseHint(a) => inv_ref((w[*a] & 0xFF) as u8) as u64,
        }
    }

    /// Populates the witness as the honest prover does: every wire that is
    /// not an input or a witness gets its computed word, in gate order.
    pub fn populate_wire_witness(&self, w: &mut Vec<u64>)
        requires
            self.wf(),
            old(w)@.len() == self@.len(),
        ensures
            final(w)@ == populate(self@, old(w)@),
    {
        let ghost w0 = w@;
        let n = self.gates.len();
        let mut i: usize = 0;
        proof {
            assert(self@.subrange(0, 0) =~= Seq::<Gate>::empty());
        }
        while i < n
            invariant
                0 <= i <= n,
                n == self@.len(),
                self.wf(),
                w0.len() == n,
                w@ == populate(self@.subrange(0, i as int), w0),
            decreases n - i,
        {
            proof {
                lemma_populate_len(self@.subrange(0, i as int), w0);
            }
            let v = self.gate_value_exec(i, w);
            w.set(i, v);
            proof {
                let g1 = self@.subrange(0, i + 1);
                assert(g1.drop_last() =~= self@.subrange(0, i as int));
                assert(g1.last() == self@[i as int]);
            }
            i = i + 1;
        }
        proof {
            assert(self@.subrange(0, n as int) =~= self@);
        }
    }

    /// Checks every gate's constraint on the assignment `w`.
    pub fn verify_constraints(&self, w: &Vec<u64>) -> (ok: bool)
        requires
            self.wf(),
        ensures
            ok == satisfies(self@, w@),
    {
        let n = self.gates.len();
        if w.len() < n {
            return false;
        }
        let mut i: usize = 0;
        while i < n
            invariant
                0 <= i <= n,
                n == self@.len(),
                self.wf(),
                w@.len() >= n,
                forall|k: int| 0 <= k < i ==> #[trigger] gate_holds(self@[k], w@, k),
            decreases n - i,
        {
            proof {
                assert(gate_wf(self@[i as int], i as int));
            }
            let holds = match &self.gates[i] {
                Gate::AssertEq(a, b) => w[*a] == w[*b],
                Gate::Inout | Gate::Witness | Gate::ForceCommit(_) | Gate::ByteInverseHint(_) => true,
                _ => w[i] == self.gate_value_exec(i, w),
            };
            if !holds {
                proof {
                    assert(!gate_holds(self@[i as int], w@, i as int));
                }
                return false;
            }
            i = i + 1;
        }
        true
    }

    /// The number of AND gates: each costs one AND constraint in a
    /// binary-field constraint system, while XOR and shifts fold into the
    /// gates that consume them.
    pub fn band_gates(&self) -> (n: usize)
        ensures
            n == band_count(self@),
    {
        let mut count: usize = 0;
        let mut i: usize = 0;
        proof {
            assert(self@.subrange(0, 0) =~= Seq::<Gate>::empty());
        }
        while i < self.gates.len()
            invariant
                0 <= i <= self@.len(),
                count == band_count(self@.subrange(0, i as int)),
                count <= i,
            decreases self@.len() - i,
        {
            proof {
                let g1 = self@.subrange(0, i + 1);
                assert(g1.drop_last() =~= self@.subrange(0, i as int));
            }
            if let Gate::Band(_, _) = &self.gates[i] {
                count = count + 1;
            }
            i = i + 1;
        }
        proof {
            assert(self@.subrange(0, self@.len() as int) =~= self@);
        }
        count
    }
}

} // verus!
