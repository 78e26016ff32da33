//! LowMC permutation gadget for a binary-field SNARK word circuit, and the
//! out-of-circuit reference permutation it is proved against.
//!
//! LowMC is a block cipher built for minimal multiplicative complexity: a
//! partial S-box layer (`M` parallel 3-bit S-boxes, 3 ANDs each) wrapped in
//! dense GF(2)-linear layers. Here it is instantiated as a fixed public
//! permutation: block and key size 128, `M = 10`, `R = 20` rounds, with the
//! round matrices and constants drawn from a SplitMix64 stream and the key
//! fixed.
//!
//! # Representation
//!
//! Each of the 128 state bits is held in its own wire as a word whose 64
//! lanes are 64 independent evaluations: `band` is the bit-AND and `bxor` the
//! bit-XOR in every lane, and a full-word mask (all-ones = 1, all-zeros = 0)
//! is one evaluation copied to every lane. The linear layers are XORs of
//! selected state wires; the only AND gates are the S-box products.
use vstd::prelude::*;
use crate::circuit::{
    CircuitBuilder,
    Gate,
    Wire,
    grows,
    satisfies,
    xor_fold,
    wire_indices,
    wires_below,
    band_count,
    commit_count,
    lemma_grows_refl,
    lemma_grows_trans,
    lemma_prefix_index,
    lemma_commit_count_prefix,
    lemma_xor_fold3,
    lemma_xor_fold4,
    lemma_xor_fold_push,
};
use crate::bits::{
    lane,
    lemma_lane_ops,
    N,
    M,
    bit128,
    u128_bits,
    xor_bits,
    sbox3,
    sbox_layer_bit,
    sbox_layer_bits,
    parity,
    linear_bits,
    lemma_bit128_ops,
    lemma_u128_bits_xor,
    lemma_sbox3_bijective,
};

verus! {

/// Number of rounds.
pub const R: usize = 20;

/// Fixed public key folded into the round keys, making the keyed cipher a
/// fixed public permutation.
pub const FIXED_KEY: u128 = 0x0123_4567_89AB_CDEF_FEDC_BA98_7654_3210;

/// Seed of the SplitMix64 stream that draws the round data.
pub const SEED: u64 = 0x5AFE_C0DE_1234_5678;

/// The SplitMix64 state increment.
pub const GAMMA: u64 = 0x9E37_79B9_7F4A_7C15;

// ───────────────────────────── Public matrices/constants ─────────────────────

/// The SplitMix64 output function on the advanced state `z`.
pub open spec fn splitmix_mix(z: u64) -> u64 {
    let z1 = (z ^ (z >> 30u64)).wrapping_mul(0xBF58_476D_1CE4_E5B9);
    let z2 = (z1 ^ (z1 >> 27u64)).wrapping_mul(0x94D0_49BB_1331_11EB);
    z2 ^ (z2 >> 31u64)
}

/// SplitMix64 step: advance the state by `GAMMA` and output the mix of the
/// new state. A deterministic public PRG for the round data.
pub fn splitmix64(s: &mut u64) -> (r: u64)
    ensures
        *final(s) == (*old(s)).wrapping_add(GAMMA),
        r == splitmix_mix(*final(s)),
{
    *s = s.wrapping_add(0x9E37_79B9_7F4A_7C15);
    let mut z = *s;
    z = (z ^ (z >> 30)).wrapping_mul(0xBF58_476D_1CE4_E5B9);
    z = (z ^ (z >> 27)).wrapping_mul(0x94D0_49BB_1331_11EB);
    z ^ (z >> 31)
}

/// The SplitMix64 state after `n` steps from `seed`.
pub open spec fn sm_state(seed: u64, n: nat) -> u64
    decreases n,
{
    if n == 0 {
        seed
    } else {
        sm_state(seed, (n - 1) as nat).wrapping_add(GAMMA)
    }
}

/// Output number `n` (from zero) of the stream seeded with `seed`.
pub open spec fn sm_out(seed: u64, n: nat) -> u64 {
    splitmix_mix(sm_state(seed, n + 1))
}

/// Draw number `n` of 128-bit values: two outputs, the first one high.
pub open spec fn rand_u128(seed: u64, n: nat) -> u128 {
    ((sm_out(seed, 2 * n) as u128) << 64u128) | (sm_out(seed, 2 * n + 1) as u128)
}

/// The 128-bit value drawn from state `st`: two outputs, the first high.
pub open spec fn draw_from(st: u64) -> u128 {
    ((splitmix_mix(st.wrapping_add(GAMMA)) as u128) << 64u128) | (splitmix_mix(
        st.wrapping_add(GAMMA).wrapping_add(GAMMA),
    ) as u128)
}

/// Drawing from the state after `2n` steps gives draw number `n`, and leaves
/// the state after `2n + 2` steps.
pub proof fn lemma_draw(seed: u64, n: nat)
    ensures
        draw_from(sm_state(seed, 2 * n)) == rand_u128(seed, n),
        sm_state(seed, 2 * n).wrapping_add(GAMMA).wrapping_add(GAMMA) == sm_state(seed, 2 * n + 2),
{
    assert(sm_state(seed, 2 * n + 1) == sm_state(seed, 2 * n).wrapping_add(GAMMA));
    assert(sm_state(seed, 2 * n + 2) == sm_state(seed, 2 * n + 1).wrapping_add(GAMMA));
}

/// Draws a pseudo-random 128-bit row/constant: two outputs, the first one in
/// the high half.
pub fn rand_bits(s: &mut u64) -> (r: u128)
    ensures
        r == draw_from(*old(s)),
        *final(s) == (*old(s)).wrapping_add(GAMMA).wrapping_add(GAMMA),
{
    let hi = splitmix64(s);
    let lo = splitmix64(s);
    ((hi as u128) << 64u128) | (lo as u128)
}

/// The number of set bits of `x` among its low `n` bits.
pub open spec fn ones128(x: u128, n: nat) -> nat
    decreases n,
{
    if n == 0 {
        0
    } else {
        ones128(x, (n - 1) as nat) + (if bit128(x, n - 1) {
            1nat
        } else {
            0nat
        })
    }
}

/// The number of ones in the binary representation of `x`, bit by bit.
fn count_ones_u128(x: u128) -> (r: u32)
    ensures
        r as nat == ones128(x, 128),
{
    let mut c: u32 = 0;
    let mut i: u32 = 0;
    while i < 128
        invariant
            0 <= i <= 128,
            c as nat == ones128(x, i as nat),
            c <= i,
        decreases 128 - i,
    {
        if (x >> (i as u128)) & 1 == 1 {
            c = c + 1;
        }
        i = i + 1;
    }
    c
}

/// The rows of a matrix, each as its bits.
pub open spec fn rows_bits(rows: Seq<u128>) -> Seq<Seq<bool>> {
    Seq::new(rows.len(), |r: int| u128_bits(rows[r]))
}

/// The parity of the set bits of `m & x` is the row parity.
pub proof fn lemma_ones_parity(m: u128, x: u128, n: nat)
    requires
        n <= 128,
    ensures
        (ones128(m & x, n) % 2 == 1) == parity(u128_bits(m), u128_bits(x), n),
    decreases n,
{
    if n > 0 {
        lemma_ones_parity(m, x, (n - 1) as nat);
        lemma_bit128_ops(m, x, (n - 1) as u128);
    }
}

/// Setting bit `row` of `out` to the bit `p`.
pub proof fn lemma_set_bit(out: u128, p: u128, row: u128, k: u128)
    by (bit_vector)
    requires
        row < 128,
        k < 128,
        p <= 1,
    ensures
        ((out | (p << row)) >> k) & 1u128 == 1u128 <==> (if k == row {
            p == 1u128 || (out >> k) & 1u128 == 1u128
        } else {
            (out >> k) & 1u128 == 1u128
        }),
{
}

/// No bit of zero is set.
pub proof fn lemma_zero_bits(k: u128)
    by (bit_vector)
    ensures
        !((0u128 >> k) & 1u128 == 1u128),
{
}

/// The low bit of a count is its parity.
pub proof fn lemma_low_bit(c: u32)
    by (bit_vector)
    ensures
        (c & 1u32) as u128 <= 1u128,
        ((c & 1u32) == 1u32) == (c % 2u32 == 1u32),
{
}

/// GF(2) matrix-vector product: bit `row` of the result is the parity of
/// `rows[row] & x`.
pub fn matvec(rows: &[u128; N], x: u128) -> (out: u128)
    ensures
        u128_bits(out) == linear_bits(rows_bits(rows@), u128_bits(x)),
{
    let mut out = 0u128;
    let mut row: usize = 0;
    proof {
        assert forall|k: int| 0 <= k < 128 implies !#[trigger] bit128(0u128, k) by {
            lemma_zero_bits(k as u128);
        }
    }
    while row < N
        invariant
            0 <= row <= N,
            forall|k: int| 0 <= k < row ==> #[trigger] bit128(out, k) == parity(
                u128_bits(rows@[k]),
                u128_bits(x),
                128,
            ),
            forall|k: int| row <= k < 128 ==> !#[trigger] bit128(out, k),
        decreases N - row,
    {
        let mask = rows[row];
        let cnt = count_ones_u128(mask & x);
        let parity = (cnt & 1) as u128;
        proof {
            lemma_low_bit(cnt);
            lemma_ones_parity(mask, x, 128);
            assert forall|k: int| 0 <= k < 128 implies #[trigger] bit128(out | (parity << row as u128), k) == (
                if k == row {
                    parity == 1u128 || bit128(out, k)
                } else {
                    bit128(out, k)
                }) by {
                lemma_set_bit(out, parity, row as u128, k as u128);
            }
        }
        out = out | (parity << row);
        row = row + 1;
    }
    proof {
        assert(u128_bits(out) =~= linear_bits(rows_bits(rows@), u128_bits(x)));
    }
    out
}


/// Row `j` of key matrix `i`: the first 21 * 128 draws, matrix by matrix.
pub open spec fn key_row(i: nat, j: nat) -> u128 {
    rand_u128(SEED, 128 * i + j)
}

/// Row `j` of linear layer `i`: the next 20 * 128 draws.
pub open spec fn lin_row(i: nat, j: nat) -> u128 {
    rand_u128(SEED, 128 * 21 + 128 * i + j)
}

/// Round constant `i`: the next 20 draws.
pub open spec fn round_const(i: nat) -> u128 {
    rand_u128(SEED, 128 * 41 + i)
}

/// Key matrix `i`, `K[i]`.
pub open spec fn key_matrix(i: nat) -> Seq<u128> {
    Seq::new(128, |j: int| key_row(i, j as nat))
}

/// Linear layer matrix `i`, `L[i]`.
pub open spec fn lin_matrix(i: nat) -> Seq<u128> {
    Seq::new(128, |j: int| lin_row(i, j as nat))
}

/// Round key `i`, `K[i] * FIXED_KEY`, as bits.
pub open spec fn round_key_bits(i: nat) -> Seq<bool> {
    linear_bits(rows_bits(key_matrix(i)), u128_bits(FIXED_KEY))
}

/// Round `i` of LowMC: S-box layer, linear layer `L[i]`, then XOR with the
/// round constant `C[i]` and the round key `i + 1`.
pub open spec fn lowmc_round_bits(i: nat, s: Seq<bool>) -> Seq<bool> {
    xor_bits(
        xor_bits(linear_bits(rows_bits(lin_matrix(i)), sbox_layer_bits(s)), u128_bits(round_const(i))),
        round_key_bits(i + 1),
    )
}

/// The LowMC state after the initial key whitening and `n` rounds.
pub open spec fn lowmc_after(s: Seq<bool>, n: nat) -> Seq<bool>
    decreases n,
{
    if n == 0 {
        xor_bits(s, round_key_bits(0))
    } else {
        lowmc_round_bits((n - 1) as nat, lowmc_after(s, (n - 1) as nat))
    }
}

/// The fixed-key LowMC permutation on a 128-bit state, as bits.
pub open spec fn lowmc_bits(s: Seq<bool>) -> Seq<bool> {
    lowmc_after(s, R as nat)
}

/// The public, fixed LowMC round data for [`FIXED_KEY`].
pub struct Params {
    /// Linear layer matrices `L[0..R]`; each is `N` rows, a row stored as a
    /// column-bitmask over the state.
    pub l: Vec<[u128; N]>,
    /// Round constants `C[0..R]`.
    pub c: Vec<u128>,
    /// Round keys `rk[0..=R]` (`rk[i] = K[i] * FIXED_KEY`), already
    /// specialized to the fixed key.
    pub rk: Vec<u128>,
}

/// The parameters are the round data drawn from the stream.
pub open spec fn params_ok(p: Params) -> bool {
    &&& p.l@.len() == R
    &&& p.c@.len() == R
    &&& p.rk@.len() == R + 1
    &&& forall|i: int| 0 <= i < R ==> #[trigger] p.l@[i]@ == lin_matrix(i as nat)
    &&& forall|i: int| 0 <= i < R ==> #[trigger] p.c@[i] == round_const(i as nat)
    &&& forall|i: int| 0 <= i <= R ==> #[trigger] u128_bits(p.rk@[i]) == round_key_bits(i as nat)
}

/// Fills a matrix with the next 128 draws of the stream.
fn draw_matrix(s: &mut u64, Ghost(first): Ghost<nat>) -> (rows: [u128; N])
    requires
        *old(s) == sm_state(SEED, 2 * first),
    ensures
        *final(s) == sm_state(SEED, 2 * (first + 128)),
        forall|j: int| 0 <= j < 128 ==> #[trigger] rows@[j] == rand_u128(SEED, first + j as nat),
{
    let mut rows = [0u128; N];
    let mut j: usize = 0;
    while j < N
        invariant
            0 <= j <= N,
            *s == sm_state(SEED, 2 * (first + j as nat)),
            forall|q: int| 0 <= q < j ==> #[trigger] rows@[q] == rand_u128(SEED, first + q as nat),
        decreases N - j,
    {
        proof {
            lemma_draw(SEED, first + j as nat);
        }
        rows[j] = rand_bits(s);
        proof {
            assert(2 * (first + j as nat) + 2 == 2 * (first + (j + 1) as nat));
        }
        j = j + 1;
    }
    rows
}

/// Generates the fixed public round data (deterministic; identical for the
/// gadget and the reference): key matrices, then linear layers, then
/// constants, all read from one SplitMix64 stream.
pub fn params() -> (p: Params)
    ensures
        params_ok(p),
{
    let mut s = SEED;
    let mut key_mats: Vec<[u128; N]> = Vec::new();
    let mut m: usize = 0;
    while m <= R
        invariant
            0 <= m <= R + 1,
            s == sm_state(SEED, 2 * (128 * m) as nat),
            key_mats@.len() == m,
            forall|i: int| 0 <= i < m ==> #[trigger] key_mats@[i]@ == key_matrix(i as nat),
        decreases R + 1 - m,
    {
        let rows = draw_matrix(&mut s, Ghost((128 * m) as nat));
        key_mats.push(rows);
        proof {
            assert(key_mats@[m as int]@ =~= key_matrix(m as nat));
            assert(2 * ((128 * m) as nat + 128) == 2 * (128 * (m + 1)) as nat);
        }
        m = m + 1;
    }
    let mut l: Vec<[u128; N]> = Vec::new();
    let mut i: usize = 0;
    while i < R
        invariant
            0 <= i <= R,
            s == sm_state(SEED, 2 * (128 * 21 + 128 * i) as nat),
            l@.len() == i,
            forall|q: int| 0 <= q < i ==> #[trigger] l@[q]@ == lin_matrix(q as nat),
        decreases R - i,
    {
        let rows = draw_matrix(&mut s, Ghost((128 * 21 + 128 * i) as nat));
        l.push(rows);
        proof {
            assert(l@[i as int]@ =~= lin_matrix(i as nat));
            assert(2 * ((128 * 21 + 128 * i) as nat + 128) == 2 * (128 * 21 + 128 * (i + 1)) as nat);
        }
        i = i + 1;
    }
    let mut c: Vec<u128> = Vec::new();
    let mut i: usize = 0;
    while i < R
        invariant
            0 <= i <= R,
            s == sm_state(SEED, 2 * (128 * 41 + i) as nat),
            c@.len() == i,
            forall|q: int| 0 <= q < i ==> #[trigger] c@[q] == round_const(q as nat),
        decreases R - i,
    {
        proof {
            lemma_draw(SEED, (128 * 41 + i) as nat);
        }
        c.push(rand_bits(&mut s));
        i = i + 1;
    }
    let mut rk: Vec<u128> = Vec::new();
    let mut i: usize = 0;
    while i <= R
        invariant
            0 <= i <= R + 1,
            key_mats@.len() == R + 1,
            forall|q: int| 0 <= q <= R ==> #[trigger] key_mats@[q]@ == key_matrix(q as nat),
            rk@.len() == i,
            forall|q: int| 0 <= q < i ==> #[trigger] u128_bits(rk@[q]) == round_key_bits(q as nat),
        decreases R + 1 - i,
    {
        let v = matvec(&key_mats[i], FIXED_KEY);
        rk.push(v);
        i = i + 1;
    }
    Params { l, c, rk }
}

// ───────────────────────────── Reference oracle ──────────────────────────────

/// The LowMC 3-bit S-box on `(a, b, c)` with `a` the high bit (test oracle),
/// bitwise on the three words.
pub fn sbox3_ref(a: u128, bb: u128, c: u128) -> (r: (u128, u128, u128))
    ensures
        r == (a ^ (bb & c), a ^ bb ^ (a & c), a ^ bb ^ c ^ (a & bb)),
        a <= 1 && bb <= 1 && c <= 1 ==> r.0 <= 1 && r.1 <= 1 && r.2 <= 1 && (r.0 == 1,
        r.1 == 1, r.2 == 1) == sbox3(a == 1, bb == 1, c == 1),
{
    proof {
        lemma_sbox3_words(a, bb, c);
    }
    (a ^ (bb & c), a ^ bb ^ (a & c), a ^ bb ^ c ^ (a & bb))
}

/// The S-box formula on single bits held in words.
pub proof fn lemma_sbox3_words(a: u128, bb: u128, c: u128)
    by (bit_vector)
    ensures
        a <= 1 && bb <= 1 && c <= 1 ==> (a ^ (bb & c)) <= 1 && (a ^ bb ^ (a & c)) <= 1 && (a ^ bb
            ^ c ^ (a & bb)) <= 1 && ((a ^ (bb & c)) == 1 <==> ((a == 1) != ((bb == 1) && (c
            == 1)))) && ((a ^ bb ^ (a & c)) == 1 <==> (((a == 1) != (bb == 1)) != ((a == 1) && (c
            == 1)))) && ((a ^ bb ^ c ^ (a & bb)) == 1 <==> ((((a == 1) != (bb == 1)) != (c == 1))
            != ((a == 1) && (bb == 1)))),
{
}

/// Replacing bits `t, t+1, t+2` of `s` with `nc, nb, na`.
pub proof fn lemma_set_triple(s: u128, t: u128, k: u128, na: u128, nb: u128, nc: u128)
    by (bit_vector)
    requires
        t <= 27,
        k < 128,
        na <= 1,
        nb <= 1,
        nc <= 1,
    ensures
        ((((s & !(7u128 << t)) | ((nc << t) | (nb << (t + 1u128)) | (na << (t + 2u128)))) >> k)
            & 1u128 == 1u128) == (if k == t {
            nc == 1
        } else if k == t + 1 {
            nb == 1
        } else if k == t + 2 {
            na == 1
        } else {
            (s >> k) & 1u128 == 1u128
        }),
{
}

/// A bit extracted from a word is 0 or 1.
pub proof fn lemma_bit_word(s: u128, t: u128)
    by (bit_vector)
    ensures
        ((s >> t) & 1u128) <= 1,
{
}

/// The partial S-box layer with the first `j` S-boxes applied.
pub open spec fn sbox_layer_upto(s: Seq<bool>, j: int) -> Seq<bool> {
    Seq::new(128, |k: int| if k < 3 * j { sbox_layer_bit(s, k) } else { s[k] })
}

/// Reference partial S-box layer: the low `M` triples, identity elsewhere.
pub fn sbox_layer_ref(s: u128) -> (r: u128)
    ensures
        u128_bits(r) == sbox_layer_bits(u128_bits(s)),
{
    let ghost s0 = u128_bits(s);
    let mut s = s;
    let mut j: usize = 0;
    while j < M
        invariant
            0 <= j <= M,
            u128_bits(s) == sbox_layer_upto(s0, j as int),
            s0.len() == 128,
        decreases M - j,
    {
        let t = (3 * j) as u128;
        let c = (s >> t) & 1;
        let bb = (s >> (t + 1)) & 1;
        let a = (s >> (t + 2)) & 1;
        let (na, nb, nc) = sbox3_ref(a, bb, c);
        let ghost prev = s;
        proof {
            lemma_bit_word(s, t);
            lemma_bit_word(s, (t + 1) as u128);
            lemma_bit_word(s, (t + 2) as u128);
            let t0 = 3 * (j as int);
            assert(u128_bits(s)[t0] == sbox_layer_upto(s0, j as int)[t0]);
            assert(u128_bits(s)[t0 + 1] == sbox_layer_upto(s0, j as int)[t0 + 1]);
            assert(u128_bits(s)[t0 + 2] == sbox_layer_upto(s0, j as int)[t0 + 2]);
            assert((c == 1) == s0[t0]);
            assert((bb == 1) == s0[t0 + 1]);
            assert((a == 1) == s0[t0 + 2]);
        }
        s &= !(7u128 << t);
        s |= (nc << t) | (nb << (t + 1)) | (na << (t + 2));
        proof {
            assert forall|k: int| 0 <= k < 128 implies u128_bits(s)[k] == sbox_layer_upto(
                s0,
                (j + 1) as int,
            )[k] by {
                lemma_set_triple(prev, t, k as u128, na, nb, nc);
                let t0 = 3 * (j as int);
                assert(u128_bits(prev)[k] == sbox_layer_upto(s0, j as int)[k]);
                if t0 <= k < t0 + 3 {
                    assert(k / 3 == j);
                }
            }
            assert(u128_bits(s) =~= sbox_layer_upto(s0, (j + 1) as int));
        }
        j = j + 1;
    }
    proof {
        assert(sbox_layer_upto(s0, M as int) =~= sbox_layer_bits(s0));
    }
    s
}

/// Reference fixed-key LowMC permutation, used as ground truth for the
/// gadget.
pub fn lowmc_perm_ref(input: u128) -> (r: u128)
    ensures
        u128_bits(r) == lowmc_bits(u128_bits(input)),
{
    let p = params();
    let mut s = input ^ p.rk[0];
    proof {
        lemma_u128_bits_xor(input, p.rk@[0]);
    }
    let mut i: usize = 0;
    while i < R
        invariant
            0 <= i <= R,
            params_ok(p),
            u128_bits(s) == lowmc_after(u128_bits(input), i as nat),
        decreases R - i,
    {
        s = sbox_layer_ref(s);
        s = matvec(&p.l[i], s);
        let k = p.c[i] ^ p.rk[i + 1];
        proof {
            lemma_u128_bits_xor(s, k);
            lemma_u128_bits_xor(p.c@[i as int], p.rk@[i + 1]);
            assert(p.l@[i as int]@ == lin_matrix(i as nat));
            assert(xor_bits(u128_bits(s), xor_bits(u128_bits(p.c@[i as int]), u128_bits(p.rk@[i + 1])))
                =~= xor_bits(xor_bits(u128_bits(s), u128_bits(p.c@[i as int])), u128_bits(p.rk@[i + 1])));
        }
        s ^= k;
        i = i + 1;
    }
    s
}


// ───────────────────────────── In-circuit gadget ─────────────────────────────

/// Lane `l` of the words that `w` puts on the wires `ws`: one evaluation of
/// the state, bit `k` from wire `k`.
pub open spec fn lane_bits(w: Seq<u64>, ws: Seq<Wire>, l: u64) -> Seq<bool> {
    Seq::new(ws.len(), |k: int| lane(w[ws[k].0 as int], l))
}

/// XORs the public constant `cst` into the state, lane by lane: wire `j` is
/// XORed with the all-ones wire iff bit `j` of `cst` is set. Linear.
fn add_constant(b: &mut CircuitBuilder, state: &mut [Wire; N], cst: u128, all_ones: Wire)
    requires
        old(b).wf(),
        wires_below(old(state)@, old(b)@.len() as int),
        all_ones.0 < old(b)@.len(),
        forall|w: Seq<u64>| #[trigger]
            satisfies(old(b)@, w) ==> w[all_ones.0 as int] == 0xffff_ffff_ffff_ffffu64,
    ensures
        final(b).wf(),
        grows(old(b)@, final(b)@),
        band_count(final(b)@) == band_count(old(b)@),
        commit_count(final(b)@) == commit_count(old(b)@),
        forall|g0: Seq<Gate>| grows(g0, old(b)@) ==> #[trigger] grows(g0, final(b)@),
        wires_below(final(state)@, final(b)@.len() as int),
        final(b)@.len() == old(b)@.len() + ones128(cst, 128),
        forall|k: int| 0 <= k < N && !bit128(cst, k) ==> #[trigger] final(state)@[k] == old(state)@[k],
        forall|k: int|
            0 <= k < N && bit128(cst, k) ==> old(b)@.len() <= #[trigger] final(state)@[k].0
                && final(b)@[final(state)@[k].0 as int] == Gate::Bxor(old(state)@[k].0, all_ones.0),
        forall|w: Seq<u64>, l: u64|
            #![trigger satisfies(final(b)@, w), lane_bits(w, final(state)@, l)]
            l < 64 && satisfies(final(b)@, w) ==> lane_bits(w, final(state)@, l) == xor_bits(
                lane_bits(w, old(state)@, l),
                u128_bits(cst),
            ),
{
    let ghost b0 = b@;
    let ghost s0 = state@;
    proof {
        lemma_grows_refl(b0);
    }
    let mut j: usize = 0;
    while j < N
        invariant
            0 <= j <= N,
            b.wf(),
            grows(b0, b@),
            band_count(b@) == band_count(b0),
            commit_count(b@) == commit_count(b0),
            forall|g0: Seq<Gate>| grows(g0, b0) ==> #[trigger] grows(g0, b@),
            wires_below(s0, b0.len() as int),
            wires_below(state@, b@.len() as int),
            all_ones.0 < b0.len(),
            forall|w: Seq<u64>| #[trigger]
                satisfies(b0, w) ==> w[all_ones.0 as int] == 0xffff_ffff_ffff_ffffu64,
            forall|k: int| j <= k < N ==> #[trigger] state@[k] == s0[k],
            b@.len() == b0.len() + ones128(cst, j as nat),
            forall|k: int| 0 <= k < j && !bit128(cst, k) ==> #[trigger] state@[k] == s0[k],
            forall|k: int|
                0 <= k < j && bit128(cst, k) ==> b0.len() <= #[trigger] state@[k].0
                    && b@[state@[k].0 as int] == Gate::Bxor(s0[k].0, all_ones.0),
            forall|w: Seq<u64>, l: u64, k: int|
                #![trigger satisfies(b@, w), lane(w[state@[k].0 as int], l)]
                l < 64 && 0 <= k < j && satisfies(b@, w) ==> lane(w[state@[k].0 as int], l) == (
                lane(w[s0[k].0 as int], l) != bit128(cst, k)),
        decreases N - j,
    {
        let ghost bs = b@;
        let ghost sts = state@;
        if (cst >> (j as u128)) & 1 == 1 {
            let o = b.bxor(state[j], all_ones);
            state[j] = o;
        }
        proof {
            assert(bit128(cst, j as int) == ((cst >> (j as u128)) & 1 == 1));
            assert forall|k: int|
                0 <= k < j + 1 && bit128(cst, k) implies b0.len() <= #[trigger] state@[k].0
                    && b@[state@[k].0 as int] == Gate::Bxor(s0[k].0, all_ones.0) by {
                if k < j {
                    assert(state@[k] == sts[k]);
                    assert(b@.subrange(0, bs.len() as int)[state@[k].0 as int] == bs[state@[k].0 as int]);
                }
            }
            assert forall|w: Seq<u64>, l: u64, k: int|
                #![trigger satisfies(b@, w), lane(w[state@[k].0 as int], l)]
                l < 64 && 0 <= k < j + 1 && satisfies(b@, w) implies lane(w[state@[k].0 as int], l)
                == (lane(w[s0[k].0 as int], l) != bit128(cst, k)) by {
                assert(satisfies(bs, w));
                assert(satisfies(b0, w));
                lemma_lane_ops(w[s0[k].0 as int], w[all_ones.0 as int], l);
            }
        }
        j = j + 1;
    }
    proof {
        assert forall|w: Seq<u64>, l: u64|
            #![trigger satisfies(b@, w), lane_bits(w, state@, l)]
            l < 64 && satisfies(b@, w) implies lane_bits(w, state@, l) == xor_bits(
            lane_bits(w, s0, l),
            u128_bits(cst),
        ) by {
            assert forall|k: int| 0 <= k < 128 implies #[trigger] lane_bits(w, state@, l)[k] == xor_bits(
                lane_bits(w, s0, l),
                u128_bits(cst),
            )[k] by {
                assert(lane(w[state@[k].0 as int], l) == (lane(w[s0[k].0 as int], l) != bit128(cst, k)));
            }
            assert(lane_bits(w, state@, l) =~= xor_bits(lane_bits(w, s0, l), u128_bits(cst)));
        }
    }
}

/// S-box `j` holds on words: with `(a, b, c)` the words of the old wires
/// `3j + 2, 3j + 1, 3j`, the new wires carry `a ^ bc`, `a ^ b ^ ac` and
/// `a ^ b ^ c ^ ab`.
pub open spec fn sbox_words_hold(w: Seq<u64>, st: Seq<Wire>, s0: Seq<Wire>, j: int) -> bool {
    let a = w[s0[3 * j + 2].0 as int];
    let bb = w[s0[3 * j + 1].0 as int];
    let c = w[s0[3 * j].0 as int];
    &&& w[st[3 * j + 2].0 as int] == a ^ (bb & c)
    &&& w[st[3 * j + 1].0 as int] == a ^ bb ^ (a & c)
    &&& w[st[3 * j].0 as int] == a ^ bb ^ c ^ (a & bb)
}

/// Applies the partial S-box layer in place: the LowMC 3-bit S-box on each
/// of the low `M` triples, identity elsewhere. The triple for S-box `j` is
/// `(c, b, a) = (state[3j], state[3j+1], state[3j+2])` with `a` the high
/// bit; the three products are the only AND gates, three per S-box.
fn sbox_layer(b: &mut CircuitBuilder, state: &mut [Wire; N])
    requires
        old(b).wf(),
        wires_below(old(state)@, old(b)@.len() as int),
    ensures
        final(b).wf(),
        grows(old(b)@, final(b)@),
        band_count(final(b)@) == band_count(old(b)@) + 3 * M,
        commit_count(final(b)@) == commit_count(old(b)@),
        forall|g0: Seq<Gate>| grows(g0, old(b)@) ==> #[trigger] grows(g0, final(b)@),
        wires_below(final(state)@, final(b)@.len() as int),
        forall|k: int| 3 * M <= k < N ==> #[trigger] final(state)@[k] == old(state)@[k],
        forall|w: Seq<u64>, j: int|
            #![trigger satisfies(final(b)@, w), sbox_words_hold(w, final(state)@, old(state)@, j)]
            0 <= j < M && satisfies(final(b)@, w) ==> sbox_words_hold(w, final(state)@, old(state)@, j),
        forall|w: Seq<u64>, l: u64|
            #![trigger satisfies(final(b)@, w), lane_bits(w, final(state)@, l)]
            l < 64 && satisfies(final(b)@, w) ==> lane_bits(w, final(state)@, l) == sbox_layer_bits(
                lane_bits(w, old(state)@, l),
            ),
{
    let ghost b0 = b@;
    let ghost s0 = state@;
    proof {
        lemma_grows_refl(b0);
    }
    let mut j: usize = 0;
    while j < M
        invariant
            0 <= j <= M,
            b.wf(),
            grows(b0, b@),
            band_count(b@) == band_count(b0) + 3 * j,
            commit_count(b@) == commit_count(b0),
            forall|g0: Seq<Gate>| grows(g0, b0) ==> #[trigger] grows(g0, b@),
            wires_below(s0, b0.len() as int),
            wires_below(state@, b@.len() as int),
            s0.len() == 128,
            forall|k: int| 3 * j <= k < N ==> #[trigger] state@[k] == s0[k],
            forall|w: Seq<u64>, q: int|
                #![trigger satisfies(b@, w), sbox_words_hold(w, state@, s0, q)]
                0 <= q < j && satisfies(b@, w) ==> sbox_words_hold(w, state@, s0, q),
            forall|w: Seq<u64>, l: u64|
                #![trigger satisfies(b@, w), lane_bits(w, state@, l)]
                l < 64 && satisfies(b@, w) ==> lane_bits(w, state@, l) == sbox_layer_upto(
                    lane_bits(w, s0, l),
                    j as int,
                ),
        decreases M - j,
    {
        let ghost bs = b@;
        let ghost ss = state@;
        let c = state[3 * j];
        let bb = state[3 * j + 1];
        let a = state[3 * j + 2];
        let bc = b.band(bb, c);
        let ac = b.band(a, c);
        let ab = b.band(a, bb);
        let na = b.bxor(a, bc);
        let t1 = [a, bb, ac];
        let nb = b.bxor_multi(&t1);
        let t2 = [a, bb, c, ab];
        let nc = b.bxor_multi(&t2);
        state[3 * j + 2] = na;
        state[3 * j + 1] = nb;
        state[3 * j] = nc;
        proof {
            assert(wire_indices(t1@) =~= seq![a.0, bb.0, ac.0]);
            assert(wire_indices(t2@) =~= seq![a.0, bb.0, c.0, ab.0]);
            assert forall|w: Seq<u64>, q: int|
                #![trigger satisfies(b@, w), sbox_words_hold(w, state@, s0, q)]
                0 <= q < j + 1 && satisfies(b@, w) implies sbox_words_hold(w, state@, s0, q) by {
                assert(satisfies(bs, w));
                if q < j {
                    assert(sbox_words_hold(w, ss, s0, q));
                    assert(state@[3 * q] == ss[3 * q]);
                    assert(state@[3 * q + 1] == ss[3 * q + 1]);
                    assert(state@[3 * q + 2] == ss[3 * q + 2]);
                } else {
                    let t = 3 * (j as int);
                    assert(ss[t] == s0[t] && ss[t + 1] == s0[t + 1] && ss[t + 2] == s0[t + 2]);
                    lemma_xor_fold3(w, a.0, bb.0, ac.0);
                    lemma_xor_fold4(w, a.0, bb.0, c.0, ab.0);
                    lemma_lane_ops(w[a.0 as int], 0, 0);
                }
            }
            assert forall|w: Seq<u64>, l: u64|
                #![trigger satisfies(b@, w), lane_bits(w, state@, l)]
                l < 64 && satisfies(b@, w) implies lane_bits(w, state@, l) == sbox_layer_upto(
                lane_bits(w, s0, l),
                (j + 1) as int,
            ) by {
                assert(satisfies(bs, w));
                let t = 3 * (j as int);
                let prev = lane_bits(w, ss, l);
                assert(prev == sbox_layer_upto(lane_bits(w, s0, l), j as int));
                let (la, lb, lc) = (lane(w[a.0 as int], l), lane(w[bb.0 as int], l), lane(w[c.0 as int], l));
                assert(prev[t] == lc && prev[t + 1] == lb && prev[t + 2] == la);
                assert(lane_bits(w, s0, l)[t] == lc);
                assert(lane_bits(w, s0, l)[t + 1] == lb);
                assert(lane_bits(w, s0, l)[t + 2] == la);
                lemma_xor_fold3(w, a.0, bb.0, ac.0);
                lemma_xor_fold4(w, a.0, bb.0, c.0, ab.0);
                lemma_lane_ops(w[bb.0 as int], w[c.0 as int], l);
                lemma_lane_ops(w[a.0 as int], w[c.0 as int], l);
                lemma_lane_ops(w[a.0 as int], w[bb.0 as int], l);
                lemma_lane_ops(w[a.0 as int], w[bc.0 as int], l);
                lemma_lane_ops(0, w[a.0 as int], l);
                lemma_lane_ops(w[a.0 as int], w[bb.0 as int], l);
                lemma_lane_ops(w[a.0 as int] ^ w[bb.0 as int], w[ac.0 as int], l);
                lemma_lane_ops(w[a.0 as int] ^ w[bb.0 as int], w[c.0 as int], l);
                lemma_lane_ops((w[a.0 as int] ^ w[bb.0 as int]) ^ w[c.0 as int], w[ab.0 as int], l);
                assert forall|k: int| 0 <= k < 128 implies #[trigger] lane_bits(w, state@, l)[k]
                    == sbox_layer_upto(lane_bits(w, s0, l), (j + 1) as int)[k] by {
                    if t <= k < t + 3 {
                        assert(k / 3 == j);
                    } else {
                        assert(state@[k] == ss[k]);
                        assert(prev[k] == lane_bits(w, state@, l)[k]);
                    }
                }
                assert(lane_bits(w, state@, l) =~= sbox_layer_upto(lane_bits(w, s0, l), (j + 1) as int));
            }
        }
        j = j + 1;
    }
    proof {
        assert forall|w: Seq<u64>, l: u64|
            #![trigger satisfies(b@, w), lane_bits(w, state@, l)]
            l < 64 && satisfies(b@, w) implies lane_bits(w, state@, l) == sbox_layer_bits(
            lane_bits(w, s0, l),
        ) by {
            assert(sbox_layer_upto(lane_bits(w, s0, l), M as int) =~= sbox_layer_bits(lane_bits(w, s0, l)));
        }
    }
}


/// The wires among the first `n` of `ws` that `mask` selects, in order.
pub open spec fn selected_wires(mask: u128, ws: Seq<Wire>, n: nat) -> Seq<usize>
    decreases n,
{
    if n == 0 {
        Seq::empty()
    } else {
        let p = selected_wires(mask, ws, (n - 1) as nat);
        if bit128(mask, n - 1) {
            p.push(ws[n - 1].0)
        } else {
            p
        }
    }
}

/// A mask selects as many wires as it has set bits.
proof fn lemma_selected_len(mask: u128, ws: Seq<Wire>, n: nat)
    ensures
        selected_wires(mask, ws, n).len() == ones128(mask, n),
    decreases n,
{
    if n > 0 {
        lemma_selected_len(mask, ws, (n - 1) as nat);
    }
}

/// A set bit below `n` is counted among the first `n` bits.
proof fn lemma_ones_pos(mask: u128, c: int, n: nat)
    requires
        0 <= c < n,
        bit128(mask, c),
    ensures
        ones128(mask, n) >= 1,
    decreases n,
{
    if c < n - 1 {
        lemma_ones_pos(mask, c, (n - 1) as nat);
    }
}

/// A mask with a single set bit `c` selects exactly wire `c`.
proof fn lemma_selected_single(mask: u128, ws: Seq<Wire>, c: int, n: nat)
    requires
        0 <= c < n,
        bit128(mask, c),
        ones128(mask, n) == 1,
    ensures
        selected_wires(mask, ws, n) == seq![ws[c].0],
    decreases n,
{
    let m = (n - 1) as nat;
    if bit128(mask, n - 1) {
        if c < n - 1 {
            lemma_ones_pos(mask, c, m);
        }
        lemma_selected_len(mask, ws, m);
        assert(selected_wires(mask, ws, m) =~= Seq::<usize>::empty());
        assert(selected_wires(mask, ws, n) =~= seq![ws[c].0]);
    } else {
        lemma_selected_single(mask, ws, c, m);
    }
}

/// The number of rows among the first `n` with at least two set bits: the
/// rows that need an XOR gate of their own.
pub open spec fn multi_rows(rows: Seq<u128>, n: nat) -> nat
    decreases n,
{
    if n == 0 {
        0
    } else {
        multi_rows(rows, (n - 1) as nat) + (if ones128(rows[n - 1], 128) >= 2 {
            1nat
        } else {
            0nat
        })
    }
}

/// Lane `l` of an XOR of wires is the parity of their lanes.
pub open spec fn lane_xor(w: Seq<u64>, idx: Seq<usize>, l: u64) -> bool {
    lane(xor_fold(w, idx), l)
}

/// Output wire of one row of a linear layer: the XOR of the state wires that
/// `mask` selects.
fn linear_row(b: &mut CircuitBuilder, mask: u128, state: &[Wire; N], zero: Wire) -> (r: Wire)
    requires
        old(b).wf(),
        wires_below(state@, old(b)@.len() as int),
        zero.0 < old(b)@.len(),
        forall|w: Seq<u64>| #[trigger] satisfies(old(b)@, w) ==> w[zero.0 as int] == 0u64,
    ensures
        final(b).wf(),
        grows(old(b)@, final(b)@),
        band_count(final(b)@) == band_count(old(b)@),
        commit_count(final(b)@) == commit_count(old(b)@),
        forall|g0: Seq<Gate>| grows(g0, old(b)@) ==> #[trigger] grows(g0, final(b)@),
        r.0 < final(b)@.len(),
        ones128(mask, 128) == 0 ==> r == zero && final(b)@ == old(b)@,
        ones128(mask, 128) == 1 ==> final(b)@ == old(b)@ && forall|c: int|
            0 <= c < N && #[trigger] bit128(mask, c) ==> r == state@[c],
        ones128(mask, 128) >= 2 ==> final(b)@.len() == old(b)@.len() + 1 && r.0 == old(b)@.len() && (
        final(b)@[r.0 as int] matches Gate::BxorMulti(v) && v@ == selected_wires(mask, state@, 128)),
        forall|w: Seq<u64>, l: u64|
            #![trigger satisfies(final(b)@, w), lane(w[r.0 as int], l)]
            l < 64 && satisfies(final(b)@, w) ==> lane(w[r.0 as int], l) == parity(
                u128_bits(mask),
                lane_bits(w, state@, l),
                128,
            ),
{
    let ghost b0 = b@;
    let mut terms: Vec<Wire> = Vec::new();
    let mut col: usize = 0;
    proof {
        assert(wire_indices(terms@) =~= Seq::<usize>::empty());
        assert forall|w: Seq<u64>, l: u64|
            #![trigger lane_xor(w, wire_indices(terms@), l)]
            l < 64 && w.len() >= b0.len() implies lane_xor(w, wire_indices(terms@), l) == parity(
            u128_bits(mask),
            lane_bits(w, state@, l),
            0,
        ) by {
            lemma_lane_ops(0, 0, l);
        }
    }
    while col < N
        invariant
            0 <= col <= N,
            wires_below(state@, b0.len() as int),
            forall|k: int| 0 <= k < terms@.len() ==> #[trigger] terms@[k].0 < b0.len(),
            wire_indices(terms@) == selected_wires(mask, state@, col as nat),
            forall|w: Seq<u64>, l: u64|
                #![trigger lane_xor(w, wire_indices(terms@), l)]
                l < 64 && w.len() >= b0.len() ==> lane_xor(w, wire_indices(terms@), l) == parity(
                    u128_bits(mask),
                    lane_bits(w, state@, l),
                    col as nat,
                ),
        decreases N - col,
    {
        let ghost old_terms = terms@;
        if (mask >> (col as u128)) & 1 == 1 {
            terms.push(state[col]);
        }
        proof {
            assert(bit128(mask, col as int) == ((mask >> (col as u128)) & 1 == 1));
            if bit128(mask, col as int) {
                assert(wire_indices(terms@) =~= wire_indices(old_terms).push(state@[col as int].0));
            } else {
                assert(terms@ == old_terms);
            }
            assert forall|w: Seq<u64>, l: u64|
                #![trigger lane_xor(w, wire_indices(terms@), l)]
                l < 64 && w.len() >= b0.len() implies lane_xor(w, wire_indices(terms@), l) == parity(
                u128_bits(mask),
                lane_bits(w, state@, l),
                (col + 1) as nat,
            ) by {
                assert(lane_xor(w, wire_indices(old_terms), l) == parity(
                    u128_bits(mask),
                    lane_bits(w, state@, l),
                    col as nat,
                ));
                if bit128(mask, col as int) {
                    assert(wire_indices(terms@) =~= wire_indices(old_terms).push(state@[col as int].0));
                    lemma_xor_fold_push(w, wire_indices(old_terms), state@[col as int].0);
                    lemma_lane_ops(xor_fold(w, wire_indices(old_terms)), w[state@[col as int].0 as int], l);
                } else {
                    assert(terms@ == old_terms);
                }
            }
        }
        col = col + 1;
    }
    let n = terms.len();
    proof {
        lemma_selected_len(mask, state@, 128);
        assert(wire_indices(terms@).len() == terms@.len());
        if n == 1 {
            assert forall|c: int| 0 <= c < N && #[trigger] bit128(mask, c) implies terms@[0] == state@[c] by {
                lemma_selected_single(mask, state@, c, 128);
                assert(wire_indices(terms@)[0] == terms@[0].0);
            }
        }
    }
    let r = if n == 0 {
        zero
    } else if n == 1 {
        terms[0]
    } else {
        b.bxor_multi(terms.as_slice())
    };
    proof {
        if n <= 1 {
            lemma_grows_refl(b0);
        }
        assert forall|w: Seq<u64>, l: u64|
            #![trigger satisfies(b@, w), lane(w[r.0 as int], l)]
            l < 64 && satisfies(b@, w) implies lane(w[r.0 as int], l) == parity(
            u128_bits(mask),
            lane_bits(w, state@, l),
            128,
        ) by {
            assert(satisfies(b0, w));
            assert(lane_xor(w, wire_indices(terms@), l) == parity(
                u128_bits(mask),
                lane_bits(w, state@, l),
                128,
            ));
            if n == 0 {
                assert(wire_indices(terms@) =~= Seq::<usize>::empty());
                lemma_lane_ops(0, 0, l);
            } else if n == 1 {
                assert(wire_indices(terms@) =~= Seq::<usize>::empty().push(terms@[0].0));
                lemma_xor_fold_push(w, Seq::<usize>::empty(), terms@[0].0);
                lemma_lane_ops(0, w[terms@[0].0 as int], l);
            }
        }
    }
    r
}

/// Applies the linear layer `rows` to `state`: output bit `row` is the XOR of
/// the state wires selected by `rows[row]`. Only XOR gates.
fn linear_layer(b: &mut CircuitBuilder, rows: &[u128; N], state: &[Wire; N], zero: Wire) -> (out: [Wire; N])
    requires
        old(b).wf(),
        wires_below(state@, old(b)@.len() as int),
        zero.0 < old(b)@.len(),
        forall|w: Seq<u64>| #[trigger] satisfies(old(b)@, w) ==> w[zero.0 as int] == 0u64,
    ensures
        final(b).wf(),
        grows(old(b)@, final(b)@),
        band_count(final(b)@) == band_count(old(b)@),
        commit_count(final(b)@) == commit_count(old(b)@),
        forall|g0: Seq<Gate>| grows(g0, old(b)@) ==> #[trigger] grows(g0, final(b)@),
        wires_below(out@, final(b)@.len() as int),
        final(b)@.len() == old(b)@.len() + multi_rows(rows@, 128),
        forall|k: int| 0 <= k < N && ones128(rows@[k], 128) == 0 ==> #[trigger] out@[k] == zero,
        forall|k: int, c: int|
            0 <= k < N && 0 <= c < N && ones128(rows@[k], 128) == 1 && #[trigger] bit128(rows@[k], c)
                ==> #[trigger] out@[k] == state@[c],
        forall|k: int|
            0 <= k < N && ones128(rows@[k], 128) >= 2 ==> old(b)@.len() <= #[trigger] out@[k].0 && (
            final(b)@[out@[k].0 as int] matches Gate::BxorMulti(v) && v@ == selected_wires(
                rows@[k],
                state@,
                128,
            )),
        forall|w: Seq<u64>, l: u64|
            #![trigger satisfies(final(b)@, w), lane_bits(w, out@, l)]
            l < 64 && satisfies(final(b)@, w) ==> lane_bits(w, out@, l) == linear_bits(
                rows_bits(rows@),
                lane_bits(w, state@, l),
            ),
{
    let ghost b0 = b@;
    proof {
        lemma_grows_refl(b0);
    }
    let mut out = [zero; N];
    let mut row: usize = 0;
    while row < N
        invariant
            0 <= row <= N,
            b.wf(),
            grows(b0, b@),
            band_count(b@) == band_count(b0),
            commit_count(b@) == commit_count(b0),
            forall|g0: Seq<Gate>| grows(g0, b0) ==> #[trigger] grows(g0, b@),
            wires_below(state@, b0.len() as int),
            zero.0 < b0.len(),
            forall|w: Seq<u64>| #[trigger] satisfies(b0, w) ==> w[zero.0 as int] == 0u64,
            forall|k: int| 0 <= k < N ==> #[trigger] out@[k].0 < b@.len(),
            b@.len() == b0.len() + multi_rows(rows@, row as nat),
            forall|k: int| 0 <= k < row && ones128(rows@[k], 128) == 0 ==> #[trigger] out@[k] == zero,
            forall|k: int, c: int|
                0 <= k < row && 0 <= c < N && ones128(rows@[k], 128) == 1 && #[trigger] bit128(
                    rows@[k],
                    c,
                ) ==> #[trigger] out@[k] == state@[c],
            forall|k: int|
                0 <= k < row && ones128(rows@[k], 128) >= 2 ==> b0.len() <= #[trigger] out@[k].0 && (
                b@[out@[k].0 as int] matches Gate::BxorMulti(v) && v@ == selected_wires(
                    rows@[k],
                    state@,
                    128,
                )),
            forall|w: Seq<u64>, l: u64, k: int|
                #![trigger satisfies(b@, w), lane(w[out@[k].0 as int], l)]
                l < 64 && 0 <= k < row && satisfies(b@, w) ==> lane(w[out@[k].0 as int], l) == parity(
                    u128_bits(rows@[k]),
                    lane_bits(w, state@, l),
                    128,
                ),
        decreases N - row,
    {
        let ghost bs = b@;
        let ghost outs = out@;
        let r = linear_row(b, rows[row], state, zero);
        out[row] = r;
        proof {
            assert forall|k: int|
                0 <= k < row + 1 && ones128(rows@[k], 128) >= 2 implies b0.len() <= #[trigger] out@[k].0
                && (b@[out@[k].0 as int] matches Gate::BxorMulti(v) && v@ == selected_wires(
                rows@[k],
                state@,
                128,
            )) by {
                if k < row {
                    assert(out@[k] == outs[k]);
                    assert(b@.subrange(0, bs.len() as int)[out@[k].0 as int] == bs[out@[k].0 as int]);
                }
            }
            assert forall|w: Seq<u64>, l: u64, k: int|
                #![trigger satisfies(b@, w), lane(w[out@[k].0 as int], l)]
                l < 64 && 0 <= k < row + 1 && satisfies(b@, w) implies lane(w[out@[k].0 as int], l)
                == parity(u128_bits(rows@[k]), lane_bits(w, state@, l), 128) by {
                assert(satisfies(bs, w));
            }
        }
        row = row + 1;
    }
    proof {
        assert forall|w: Seq<u64>, l: u64|
            #![trigger satisfies(b@, w), lane_bits(w, out@, l)]
            l < 64 && satisfies(b@, w) implies lane_bits(w, out@, l) == linear_bits(
            rows_bits(rows@),
            lane_bits(w, state@, l),
        ) by {
            assert forall|k: int| 0 <= k < 128 implies #[trigger] lane_bits(w, out@, l)[k] == linear_bits(
                rows_bits(rows@),
                lane_bits(w, state@, l),
            )[k] by {
                assert(lane(w[out@[k].0 as int], l) == parity(u128_bits(rows@[k]), lane_bits(w, state@, l), 128));
            }
            assert(lane_bits(w, out@, l) =~= linear_bits(rows_bits(rows@), lane_bits(w, state@, l)));
        }
    }
    out
}


/// One LowMC round on the state wires, lane by lane: S-box layer, linear
/// layer `L[i]`, then the round constant and round key `i + 1`. It adds the
/// `3 * M` S-box AND gates of the round.
fn lowmc_round(
    b: &mut CircuitBuilder,
    state: [Wire; N],
    p: &Params,
    i: usize,
    all_ones: Wire,
    zero: Wire,
) -> (out: [Wire; N])
    requires
        old(b).wf(),
        params_ok(*p),
        i < R,
        wires_below(state@, old(b)@.len() as int),
        all_ones.0 < old(b)@.len(),
        zero.0 < old(b)@.len(),
        forall|w: Seq<u64>| #[trigger]
            satisfies(old(b)@, w) ==> w[all_ones.0 as int] == 0xffff_ffff_ffff_ffffu64 && w[zero.0 as int]
                == 0u64,
    ensures
        final(b).wf(),
        grows(old(b)@, final(b)@),
        band_count(final(b)@) == band_count(old(b)@) + 3 * M,
        commit_count(final(b)@) == commit_count(old(b)@),
        forall|g0: Seq<Gate>| grows(g0, old(b)@) ==> #[trigger] grows(g0, final(b)@),
        wires_below(out@, final(b)@.len() as int),
        forall|w: Seq<u64>, l: u64|
            #![trigger satisfies(final(b)@, w), lane_bits(w, out@, l)]
            l < 64 && satisfies(final(b)@, w) ==> lane_bits(w, out@, l) == lowmc_round_bits(
                i as nat,
                lane_bits(w, state@, l),
            ),
{
    let ghost b0 = b@;
    let mut st = state;
    sbox_layer(b, &mut st);
    let ghost b3 = b@;
    let ghost st3 = st;
    let lin = linear_layer(b, &p.l[i], &st, zero);
    let ghost b4 = b@;
    let mut out = lin;
    add_constant(b, &mut out, p.c[i] ^ p.rk[i + 1], all_ones);
    proof {
        lemma_grows_trans(b0, b3, b4);
        lemma_grows_trans(b0, b4, b@);
        assert forall|g0: Seq<Gate>| grows(g0, b0) implies #[trigger] grows(g0, b@) by {
            lemma_grows_trans(g0, b3, b4);
            lemma_grows_trans(g0, b4, b@);
        }
        assert forall|w: Seq<u64>, l: u64|
            #![trigger satisfies(b@, w), lane_bits(w, out@, l)]
            l < 64 && satisfies(b@, w) implies lane_bits(w, out@, l) == lowmc_round_bits(
            i as nat,
            lane_bits(w, state@, l),
        ) by {
            assert(satisfies(b4, w));
            assert(satisfies(b3, w));
            assert(lane_bits(w, st3@, l) == sbox_layer_bits(lane_bits(w, state@, l)));
            assert(p.l@[i as int]@ == lin_matrix(i as nat));
            assert(lane_bits(w, lin@, l) == linear_bits(rows_bits(lin_matrix(i as nat)), lane_bits(w, st3@, l)));
            lemma_u128_bits_xor(p.c@[i as int], p.rk@[i + 1]);
            assert(u128_bits(p.rk@[i + 1]) == round_key_bits((i + 1) as nat));
            let lb = lane_bits(w, lin@, l);
            assert(xor_bits(lb, xor_bits(u128_bits(p.c@[i as int]), u128_bits(p.rk@[i + 1])))
                =~= xor_bits(xor_bits(lb, u128_bits(p.c@[i as int])), u128_bits(p.rk@[i + 1])));
        }
    }
    out
}

/// Forces a commitment of every state wire. No value is constrained.
fn commit_state(b: &mut CircuitBuilder, state: &[Wire; N])
    requires
        old(b).wf(),
        wires_below(state@, old(b)@.len() as int),
    ensures
        final(b).wf(),
        grows(old(b)@, final(b)@),
        band_count(final(b)@) == band_count(old(b)@),
        commit_count(final(b)@) == commit_count(old(b)@) + N,
        forall|g0: Seq<Gate>| grows(g0, old(b)@) ==> #[trigger] grows(g0, final(b)@),
        final(b)@.len() == old(b)@.len() + N,
        forall|g: int|
            #![trigger final(b)@[g]]
            old(b)@.len() <= g < final(b)@.len() ==> final(b)@[g] == Gate::ForceCommit(
                state@[g - old(b)@.len()].0,
            ),
{
    let ghost b0 = b@;
    proof {
        lemma_grows_refl(b0);
    }
    let mut k: usize = 0;
    while k < N
        invariant
            0 <= k <= N,
            b.wf(),
            grows(b0, b@),
            band_count(b@) == band_count(b0),
            commit_count(b@) == commit_count(b0) + k,
            forall|g0: Seq<Gate>| grows(g0, b0) ==> #[trigger] grows(g0, b@),
            wires_below(state@, b0.len() as int),
            b@.len() == b0.len() + k,
            forall|g: int|
                #![trigger b@[g]]
                b0.len() <= g < b@.len() ==> b@[g] == Gate::ForceCommit(state@[g - b0.len()].0),
        decreases N - k,
    {
        let ghost bs = b@;
        b.force_commit(state[k]);
        proof {
            assert forall|g: int| b0.len() <= g < b@.len() implies b@[g] == Gate::ForceCommit(
                state@[g - b0.len()].0,
            ) by {
                if g < bs.len() {
                    lemma_prefix_index(bs, b@, g);
                }
            }
        }
        k = k + 1;
    }
}

/// The forced commitments after the first `n` rounds when the state is
/// committed after every round `i` with `(i + 1) % commit_every == 0`
/// (never when `commit_every == 0`): `N` per such round.
pub open spec fn commits_after(commit_every: usize, n: nat) -> nat {
    if commit_every == 0 {
        0
    } else {
        (N * (n / (commit_every as nat))) as nat
    }
}

/// The forced commitments of a whole permutation.
pub open spec fn commit_gates(commit_every: usize) -> nat {
    commits_after(commit_every, R as nat)
}

/// One more round adds a commitment of the state exactly when the round
/// count reaches a multiple of the cadence.
proof fn lemma_commits_step(ce: usize, i: nat)
    ensures
        commits_after(ce, i + 1) == commits_after(ce, i) + (if ce != 0 && (i + 1) % (ce as nat) == 0 {
            N as nat
        } else {
            0nat
        }),
{
    if ce != 0 {
        let c = ce as nat;
        assert((i + 1) / c == i / c + (if (i + 1) % c == 0 { 1nat } else { 0nat })) by (nonlinear_arith)
            requires c > 0;
        let q0 = i / c;
        let q1 = (i + 1) / c;
        let n: int = N as int;
        assert(n * (q0 + 1) == n * q0 + n) by (nonlinear_arith);
    }
}

/// The rounds after which the state is committed: round counts `n` in
/// `1..=R` that are multiples of `commit_every` (none when it is `0`).
pub open spec fn is_commit_round(commit_every: usize, n: nat) -> bool {
    commit_every != 0 && 1 <= n <= R && n % (commit_every as nat) == 0
}

/// Wire `x` carries bit `k` of the LowMC state after `n` rounds: in every
/// lane of every assignment that satisfies `gates`, its bit is that bit of
/// the state reached from the same lane of the `input` wires.
pub open spec fn carries_state_bit(gates: Seq<Gate>, input: Seq<Wire>, x: usize, n: nat, k: int) -> bool {
    forall|w: Seq<u64>, l: u64|
        #![trigger satisfies(gates, w), lane(w[x as int], l)]
        l < 64 && satisfies(gates, w) ==> lane(w[x as int], l) == lowmc_after(lane_bits(w, input, l), n)[k]
}

/// Gate `g` forces a commitment of a wire that carries bit `k` of the state
/// after `n` rounds.
pub open spec fn commits_state_bit(gates: Seq<Gate>, input: Seq<Wire>, g: int, n: nat, k: int) -> bool {
    0 <= g < gates.len() && match gates[g] {
        Gate::ForceCommit(x) => carries_state_bit(gates, input, x, n, k),
        _ => false,
    }
}

/// Gate `g` commits one of the state bits after a commitment round `n <= upto`.
pub open spec fn commits_some_state_bit(
    gates: Seq<Gate>,
    input: Seq<Wire>,
    g: int,
    commit_every: usize,
    upto: nat,
) -> bool {
    exists|n: nat, k: int|
        #![trigger commits_state_bit(gates, input, g, n, k)]
        is_commit_round(commit_every, n) && n <= upto && 0 <= k < N && commits_state_bit(gates, input, g, n, k)
}

/// Some gate from position `from` on commits bit `k` of the state after `n`
/// rounds.
pub open spec fn state_bit_committed(gates: Seq<Gate>, input: Seq<Wire>, from: int, n: nat, k: int) -> bool {
    exists|g: int| #![trigger commits_state_bit(gates, input, g, n, k)] from <= g && commits_state_bit(gates, input, g, n, k)
}

/// Every forced commitment from position `from` on is of a state bit after
/// a commitment round `n <= upto`.
pub open spec fn commits_only_state(
    gates: Seq<Gate>,
    input: Seq<Wire>,
    from: int,
    commit_every: usize,
    upto: nat,
) -> bool {
    forall|g: int|
        #![trigger gates[g]]
        from <= g < gates.len() && gates[g] is ForceCommit ==> commits_some_state_bit(
            gates,
            input,
            g,
            commit_every,
            upto,
        )
}

/// After every commitment round `n <= upto`, each of the `N` state bits is
/// committed by some gate from position `from` on.
pub open spec fn commits_every_state(
    gates: Seq<Gate>,
    input: Seq<Wire>,
    from: int,
    commit_every: usize,
    upto: nat,
) -> bool {
    forall|n: nat, k: int|
        #![trigger state_bit_committed(gates, input, from, n, k)]
        is_commit_round(commit_every, n) && n <= upto && 0 <= k < N ==> state_bit_committed(
            gates,
            input,
            from,
            n,
            k,
        )
}

/// Growing the circuit keeps what a gate commits.
proof fn lemma_commits_state_bit_grows(a: Seq<Gate>, b: Seq<Gate>, input: Seq<Wire>, g: int, n: nat, k: int)
    requires
        grows(a, b),
        commits_state_bit(a, input, g, n, k),
    ensures
        commits_state_bit(b, input, g, n, k),
{
    lemma_prefix_index(a, b, g);
    match a[g] {
        Gate::ForceCommit(x) => {
            assert forall|w: Seq<u64>, l: u64| l < 64 && satisfies(b, w) implies #[trigger] lane(
                w[x as int],
                l,
            ) == lowmc_after(lane_bits(w, input, l), n)[k] by {
                assert(satisfies(a, w));
            }
            assert(carries_state_bit(b, input, x, n, k));
        },
        _ => {},
    }
}

/// Growing the circuit by gates whose commitments are all of state bits
/// keeps every commitment one of a state bit.
proof fn lemma_only_state_grows(
    a: Seq<Gate>,
    b: Seq<Gate>,
    input: Seq<Wire>,
    from: int,
    ce: usize,
    u1: nat,
    u2: nat,
)
    requires
        grows(a, b),
        0 <= from,
        commits_only_state(a, input, from, ce, u1),
        u1 <= u2,
        forall|g: int|
            #![trigger b[g]]
            a.len() <= g < b.len() && b[g] is ForceCommit ==> commits_some_state_bit(b, input, g, ce, u2),
    ensures
        commits_only_state(b, input, from, ce, u2),
{
    assert forall|g: int| from <= g < b.len() && b[g] is ForceCommit implies commits_some_state_bit(
        b,
        input,
        g,
        ce,
        u2,
    ) by {
        if g < a.len() {
            lemma_prefix_index(a, b, g);
            assert(a[g] is ForceCommit);
            assert(commits_some_state_bit(a, input, g, ce, u1));
            let (n, k) = choose|n: nat, k: int|
                is_commit_round(ce, n) && n <= u1 && 0 <= k < N && commits_state_bit(a, input, g, n, k);
            lemma_commits_state_bit_grows(a, b, input, g, n, k);
        }
    }
}

/// Growing the circuit keeps every state bit committed.
proof fn lemma_every_state_grows(a: Seq<Gate>, b: Seq<Gate>, input: Seq<Wire>, from: int, ce: usize, u: nat)
    requires
        grows(a, b),
        commits_every_state(a, input, from, ce, u),
    ensures
        commits_every_state(b, input, from, ce, u),
{
    assert forall|n: nat, k: int| is_commit_round(ce, n) && n <= u && 0 <= k < N implies #[trigger] state_bit_committed(
        b,
        input,
        from,
        n,
        k,
    ) by {
        assert(state_bit_committed(a, input, from, n, k));
        let g = choose|g: int| from <= g && commits_state_bit(a, input, g, n, k);
        lemma_commits_state_bit_grows(a, b, input, g, n, k);
    }
}

/// Committing the wires of a state that carries the state after round `n`,
/// in order, commits each bit `k` of that state at position `a.len() + k`.
proof fn lemma_commit_round(a: Seq<Gate>, b: Seq<Gate>, input: Seq<Wire>, state: Seq<Wire>, n: nat)
    requires
        grows(a, b),
        state.len() == N,
        b.len() == a.len() + N,
        forall|g: int| #![trigger b[g]] a.len() <= g < b.len() ==> b[g] == Gate::ForceCommit(state[g - a.len()].0),
        forall|w: Seq<u64>, l: u64|
            #![trigger satisfies(a, w), lane_bits(w, state, l)]
            l < 64 && satisfies(a, w) ==> lane_bits(w, state, l) == lowmc_after(lane_bits(w, input, l), n),
    ensures
        forall|g: int|
            #![trigger b[g]]
            a.len() <= g < b.len() ==> commits_state_bit(b, input, g, n, g - a.len()),
{
    assert forall|g: int| a.len() <= g < b.len() implies #[trigger] commits_state_bit(b, input, g, n, g - a.len()) by {
        let k = g - a.len();
        let x = state[k].0;
        assert(b[g] == Gate::ForceCommit(x));
        assert forall|w: Seq<u64>, l: u64| l < 64 && satisfies(b, w) implies #[trigger] lane(w[x as int], l)
            == lowmc_after(lane_bits(w, input, l), n)[k] by {
            assert(satisfies(a, w));
            assert(lane_bits(w, state, l)[k] == lane(w[x as int], l));
        }
        assert(carries_state_bit(b, input, x, n, k));
    }
}

/// Fixed-key LowMC permutation `pi` over the per-bit state wires, lane by
/// lane: in every lane `l`, the output bits are the permutation of the input
/// bits, whatever `commit_every` is.
///
/// `commit_every` is the number of rounds between forced commitments of the
/// 128 state wires (`0` never commits). Committing caps how deep the linear
/// layers compose before the constraint compiler materializes them; it does
/// not change the computed function. Every commitment the permutation adds
/// is of a wire that carries a bit of the state after a round whose count is
/// a multiple of `commit_every`, and after each such round every bit of the
/// state is committed.
///
/// The permutation adds exactly `3 * M * R` AND gates, the S-box products
/// (its multiplicative complexity); every other gate is XOR-linear.
pub fn lowmc_permutation(b: &mut CircuitBuilder, input: [Wire; N], commit_every: usize) -> (out: [Wire; N])
    requires
        old(b).wf(),
        wires_below(input@, old(b)@.len() as int),
    ensures
        final(b).wf(),
        grows(old(b)@, final(b)@),
        band_count(final(b)@) == band_count(old(b)@) + 3 * M * R,
        commit_count(final(b)@) == commit_count(old(b)@) + commit_gates(commit_every),
        commits_only_state(final(b)@, input@, old(b)@.len() as int, commit_every, R as nat),
        commits_every_state(final(b)@, input@, old(b)@.len() as int, commit_every, R as nat),
        forall|g0: Seq<Gate>| grows(g0, old(b)@) ==> #[trigger] grows(g0, final(b)@),
        wires_below(out@, final(b)@.len() as int),
        forall|w: Seq<u64>, l: u64|
            #![trigger satisfies(final(b)@, w), lane_bits(w, out@, l)]
            l < 64 && satisfies(final(b)@, w) ==> lane_bits(w, out@, l) == lowmc_bits(
                lane_bits(w, input@, l),
            ),
{
    let ghost b0 = b@;
    let p = params();
    let all_ones = b.add_constant_64(0xFFFF_FFFF_FFFF_FFFF);
    let ghost b1 = b@;
    let zero = b.add_constant_64(0);
    let ghost b2 = b@;
    let mut state = input;
    add_constant(b, &mut state, p.rk[0], all_ones);
    proof {
        assert forall|w: Seq<u64>, l: u64|
            #![trigger satisfies(b@, w), lane_bits(w, state@, l)]
            l < 64 && satisfies(b@, w) implies lane_bits(w, state@, l) == lowmc_after(
            lane_bits(w, input@, l),
            0,
        ) by {
            assert(u128_bits(p.rk@[0]) == round_key_bits(0));
        }
        assert(grows(b0, b2));
        assert(grows(b0, b@));
        lemma_commit_count_prefix(b0, b@);
        assert(commits_only_state(b@, input@, b0.len() as int, commit_every, 0));
        assert(commits_every_state(b@, input@, b0.len() as int, commit_every, 0));
    }
    let mut i: usize = 0;
    while i < R
        invariant
            0 <= i <= R,
            b.wf(),
            params_ok(p),
            grows(b0, b@),
            grows(b2, b@),
            band_count(b@) == band_count(b0) + 3 * M * i,
            commit_count(b@) == commit_count(b0) + commits_after(commit_every, i as nat),
            commits_only_state(b@, input@, b0.len() as int, commit_every, i as nat),
            commits_every_state(b@, input@, b0.len() as int, commit_every, i as nat),
            forall|g0: Seq<Gate>| grows(g0, b0) ==> #[trigger] grows(g0, b@),
            forall|g0: Seq<Gate>| grows(g0, b2) ==> #[trigger] grows(g0, b@),
            wires_below(input@, b0.len() as int),
            wires_below(state@, b@.len() as int),
            all_ones.0 < b2.len(),
            zero.0 < b2.len(),
            forall|w: Seq<u64>| #[trigger]
                satisfies(b2, w) ==> w[all_ones.0 as int] == 0xffff_ffff_ffff_ffffu64 && w[zero.0 as int]
                    == 0u64,
            forall|w: Seq<u64>, l: u64|
                #![trigger satisfies(b@, w), lane_bits(w, state@, l)]
                l < 64 && satisfies(b@, w) ==> lane_bits(w, state@, l) == lowmc_after(
                    lane_bits(w, input@, l),
                    i as nat,
                ),
        decreases R - i,
    {
        let ghost bs = b@;
        let ghost st = state;
        state = lowmc_round(b, state, &p, i, all_ones, zero);
        proof {
            lemma_commits_step(commit_every, i as nat);
            assert(3 * M * (i + 1) == 3 * M * i + 3 * M) by (nonlinear_arith);
            assert forall|w: Seq<u64>, l: u64|
                #![trigger satisfies(b@, w), lane_bits(w, state@, l)]
                l < 64 && satisfies(b@, w) implies lane_bits(w, state@, l) == lowmc_after(
                lane_bits(w, input@, l),
                (i + 1) as nat,
            ) by {
                assert(satisfies(bs, w));
                assert(lane_bits(w, st@, l) == lowmc_after(lane_bits(w, input@, l), i as nat));
            }
            lemma_commit_count_prefix(bs, b@);
            assert forall|g: int| bs.len() <= g < b@.len() && b@[g] is ForceCommit implies commits_some_state_bit(
                b@,
                input@,
                g,
                commit_every,
                (i + 1) as nat,
            ) by {}
            lemma_only_state_grows(bs, b@, input@, b0.len() as int, commit_every, i as nat, (i + 1) as nat);
            lemma_every_state_grows(bs, b@, input@, b0.len() as int, commit_every, i as nat);
        }
        if commit_every != 0 && (i + 1) % commit_every == 0 {
            let ghost bc = b@;
            commit_state(b, &state);
            proof {
                lemma_grows_trans(b0, bc, b@);
                lemma_grows_trans(b2, bc, b@);
                assert forall|g0: Seq<Gate>| grows(g0, b0) implies #[trigger] grows(g0, b@) by {
                    lemma_grows_trans(g0, bc, b@);
                }
                assert forall|g0: Seq<Gate>| grows(g0, b2) implies #[trigger] grows(g0, b@) by {
                    lemma_grows_trans(g0, bc, b@);
                }
                let n1 = (i + 1) as nat;
                lemma_commit_round(bc, b@, input@, state@, n1);
                assert(is_commit_round(commit_every, n1));
                assert forall|g: int| bc.len() <= g < b@.len() && b@[g] is ForceCommit implies commits_some_state_bit(
                    b@,
                    input@,
                    g,
                    commit_every,
                    n1,
                ) by {
                    assert(commits_state_bit(b@, input@, g, n1, g - bc.len()));
                }
                lemma_only_state_grows(bc, b@, input@, b0.len() as int, commit_every, n1, n1);
                lemma_every_state_grows(bc, b@, input@, b0.len() as int, commit_every, i as nat);
                assert forall|n: nat, k: int| is_commit_round(commit_every, n) && n <= n1 && 0 <= k < N implies #[trigger] state_bit_committed(
                    b@,
                    input@,
                    b0.len() as int,
                    n,
                    k,
                ) by {
                    if n == n1 {
                        let g = bc.len() + k;
                        assert(b@[g] == Gate::ForceCommit(state@[k].0));
                        assert(commits_state_bit(b@, input@, g, n, k));
                    } else {
                        assert(state_bit_committed(b@, input@, b0.len() as int, n, k));
                    }
                }
            }
        } else {
            proof {
                assert(!is_commit_round(commit_every, (i + 1) as nat));
                assert forall|n: nat, k: int| is_commit_round(commit_every, n) && n <= i + 1 && 0 <= k < N implies #[trigger] state_bit_committed(
                    b@,
                    input@,
                    b0.len() as int,
                    n,
                    k,
                ) by {
                    assert(n <= i);
                }
            }
        }
        i = i + 1;
    }
    state
}

/// The LowMC garbling hash `tccr(t, x) = pi(pi(x) ^ t) ^ pi(x)` on bits.
pub open spec fn lowmc_tccr_bits(t: Seq<bool>, x: Seq<bool>) -> Seq<bool> {
    let px = lowmc_bits(x);
    xor_bits(lowmc_bits(xor_bits(px, t)), px)
}

/// The input of one of the two permutations of the hash, in lane `l`: the
/// lane of `x` for the first, `pi(x) ^ t` for the second.
pub open spec fn tccr_source(w: Seq<u64>, tweak: Seq<Wire>, x: Seq<Wire>, l: u64, second: bool) -> Seq<bool> {
    if second {
        xor_bits(lowmc_bits(lane_bits(w, x, l)), lane_bits(w, tweak, l))
    } else {
        lane_bits(w, x, l)
    }
}

/// Gate `g` forces a commitment of a wire that carries bit `k` of the state
/// after `n` rounds of the first (`second == false`) or the second
/// permutation of the hash, in every lane of every satisfying assignment.
pub open spec fn tccr_commits_bit(
    gates: Seq<Gate>,
    tweak: Seq<Wire>,
    x: Seq<Wire>,
    g: int,
    second: bool,
    n: nat,
    k: int,
) -> bool {
    0 <= g < gates.len() && match gates[g] {
        Gate::ForceCommit(xw) => forall|w: Seq<u64>, l: u64|
            #![trigger satisfies(gates, w), lane(w[xw as int], l)]
            l < 64 && satisfies(gates, w) ==> lane(w[xw as int], l) == lowmc_after(
                tccr_source(w, tweak, x, l, second),
                n,
            )[k],
        _ => false,
    }
}

/// Gate `g` commits a bit of the state of one of the two permutations after
/// a commitment round.
pub open spec fn tccr_commits_some_bit(
    gates: Seq<Gate>,
    tweak: Seq<Wire>,
    x: Seq<Wire>,
    g: int,
    commit_every: usize,
) -> bool {
    exists|second: bool, n: nat, k: int|
        #![trigger tccr_commits_bit(gates, tweak, x, g, second, n, k)]
        is_commit_round(commit_every, n) && 0 <= k < N && tccr_commits_bit(gates, tweak, x, g, second, n, k)
}

/// Some gate from position `from` on commits bit `k` of the state of the
/// first or second permutation after `n` rounds.
pub open spec fn tccr_bit_committed(
    gates: Seq<Gate>,
    tweak: Seq<Wire>,
    x: Seq<Wire>,
    from: int,
    second: bool,
    n: nat,
    k: int,
) -> bool {
    exists|g: int|
        #![trigger tccr_commits_bit(gates, tweak, x, g, second, n, k)]
        from <= g && tccr_commits_bit(gates, tweak, x, g, second, n, k)
}

/// Every forced commitment from position `from` on is of a state bit of one
/// of the two permutations after a commitment round.
pub open spec fn tccr_commits_only_state(
    gates: Seq<Gate>,
    tweak: Seq<Wire>,
    x: Seq<Wire>,
    from: int,
    commit_every: usize,
) -> bool {
    forall|g: int|
        #![trigger gates[g]]
        from <= g < gates.len() && gates[g] is ForceCommit ==> tccr_commits_some_bit(
            gates,
            tweak,
            x,
            g,
            commit_every,
        )
}

/// After every commitment round of each of the two permutations, each of the
/// `N` state bits is committed by some gate from position `from` on.
pub open spec fn tccr_commits_every_state(
    gates: Seq<Gate>,
    tweak: Seq<Wire>,
    x: Seq<Wire>,
    from: int,
    commit_every: usize,
) -> bool {
    forall|second: bool, n: nat, k: int|
        #![trigger tccr_bit_committed(gates, tweak, x, from, second, n, k)]
        is_commit_round(commit_every, n) && 0 <= k < N ==> tccr_bit_committed(
            gates,
            tweak,
            x,
            from,
            second,
            n,
            k,
        )
}

/// A commitment of a state bit of a permutation whose input wires carry one
/// of the two hash inputs stays one after the circuit grows.
proof fn lemma_tccr_bit(
    a: Seq<Gate>,
    b: Seq<Gate>,
    input: Seq<Wire>,
    tweak: Seq<Wire>,
    x: Seq<Wire>,
    g: int,
    second: bool,
    n: nat,
    k: int,
)
    requires
        grows(a, b),
        commits_state_bit(a, input, g, n, k),
        forall|w: Seq<u64>, l: u64|
            #![trigger satisfies(a, w), lane_bits(w, input, l)]
            l < 64 && satisfies(a, w) ==> lane_bits(w, input, l) == tccr_source(w, tweak, x, l, second),
    ensures
        tccr_commits_bit(b, tweak, x, g, second, n, k),
{
    lemma_prefix_index(a, b, g);
    match a[g] {
        Gate::ForceCommit(xw) => {
            assert forall|w: Seq<u64>, l: u64| l < 64 && satisfies(b, w) implies #[trigger] lane(
                w[xw as int],
                l,
            ) == lowmc_after(tccr_source(w, tweak, x, l, second), n)[k] by {
                assert(satisfies(a, w));
                assert(lane_bits(w, input, l) == tccr_source(w, tweak, x, l, second));
            }
        },
        _ => {},
    }
}

/// The commitments of the hash: those of its first permutation, on `x`,
/// and those of its second, on `pi(x) ^ t`; the XOR layers commit nothing.
proof fn lemma_tccr_commits(
    b0: Seq<Gate>,
    b1: Seq<Gate>,
    b2: Seq<Gate>,
    b3: Seq<Gate>,
    b4: Seq<Gate>,
    tweak: Seq<Wire>,
    x: Seq<Wire>,
    px: Seq<Wire>,
    pxt: Seq<Wire>,
    ce: usize,
)
    requires
        grows(b0, b1),
        grows(b1, b2),
        grows(b2, b3),
        grows(b3, b4),
        commit_count(b2) == commit_count(b1),
        commit_count(b4) == commit_count(b3),
        commits_only_state(b1, x, b0.len() as int, ce, R as nat),
        commits_every_state(b1, x, b0.len() as int, ce, R as nat),
        commits_only_state(b3, pxt, b2.len() as int, ce, R as nat),
        commits_every_state(b3, pxt, b2.len() as int, ce, R as nat),
        forall|w: Seq<u64>, l: u64|
            #![trigger satisfies(b1, w), lane_bits(w, px, l)]
            l < 64 && satisfies(b1, w) ==> lane_bits(w, px, l) == lowmc_bits(lane_bits(w, x, l)),
        forall|w: Seq<u64>, l: u64|
            #![trigger satisfies(b2, w), lane_bits(w, pxt, l)]
            l < 64 && satisfies(b2, w) ==> lane_bits(w, pxt, l) == xor_bits(
                lane_bits(w, px, l),
                lane_bits(w, tweak, l),
            ),
    ensures
        tccr_commits_only_state(b4, tweak, x, b0.len() as int, ce),
        tccr_commits_every_state(b4, tweak, x, b0.len() as int, ce),
{
    lemma_grows_trans(b1, b2, b3);
    lemma_grows_trans(b1, b3, b4);
    lemma_grows_trans(b2, b3, b4);
    lemma_commit_count_prefix(b1, b2);
    lemma_commit_count_prefix(b3, b4);
    assert forall|w: Seq<u64>, l: u64| l < 64 && satisfies(b1, w) implies #[trigger] lane_bits(w, x, l)
        == tccr_source(w, tweak, x, l, false) by {}
    assert forall|w: Seq<u64>, l: u64| l < 64 && satisfies(b3, w) implies #[trigger] lane_bits(w, pxt, l)
        == tccr_source(w, tweak, x, l, true) by {
        assert(satisfies(b2, w));
        assert(satisfies(b1, w));
        assert(lane_bits(w, px, l) == lowmc_bits(lane_bits(w, x, l)));
        assert(lane_bits(w, pxt, l) == xor_bits(lane_bits(w, px, l), lane_bits(w, tweak, l)));
    }
    assert forall|g: int| b0.len() <= g < b4.len() && b4[g] is ForceCommit implies tccr_commits_some_bit(
        b4,
        tweak,
        x,
        g,
        ce,
    ) by {
        if g < b1.len() {
            lemma_prefix_index(b1, b4, g);
            assert(b1[g] is ForceCommit);
            assert(commits_some_state_bit(b1, x, g, ce, R as nat));
            let (n, k) = choose|n: nat, k: int|
                is_commit_round(ce, n) && n <= R && 0 <= k < N && commits_state_bit(b1, x, g, n, k);
            lemma_tccr_bit(b1, b4, x, tweak, x, g, false, n, k);
        } else if g < b2.len() {
            lemma_prefix_index(b2, b4, g);
        } else if g < b3.len() {
            lemma_prefix_index(b3, b4, g);
            assert(b3[g] is ForceCommit);
            assert(commits_some_state_bit(b3, pxt, g, ce, R as nat));
            let (n, k) = choose|n: nat, k: int|
                is_commit_round(ce, n) && n <= R && 0 <= k < N && commits_state_bit(b3, pxt, g, n, k);
            lemma_tccr_bit(b3, b4, pxt, tweak, x, g, true, n, k);
        }
    }
    assert forall|second: bool, n: nat, k: int| is_commit_round(ce, n) && 0 <= k < N implies #[trigger] tccr_bit_committed(
        b4,
        tweak,
        x,
        b0.len() as int,
        second,
        n,
        k,
    ) by {
        if second {
            assert(state_bit_committed(b3, pxt, b2.len() as int, n, k));
            let g = choose|g: int| b2.len() <= g && commits_state_bit(b3, pxt, g, n, k);
            lemma_tccr_bit(b3, b4, pxt, tweak, x, g, true, n, k);
        } else {
            assert(state_bit_committed(b1, x, b0.len() as int, n, k));
            let g = choose|g: int| b0.len() <= g && commits_state_bit(b1, x, g, n, k);
            lemma_tccr_bit(b1, b4, x, tweak, x, g, false, n, k);
        }
    }
}

/// The garbling hash `tccr(t, x) = pi(pi(x) ^ t) ^ pi(x)` with the LowMC
/// permutation, lane by lane. See [`lowmc_permutation`] for `commit_every`:
/// the hash commits the states of its two permutations, on `x` and on
/// `pi(x) ^ t`, after the same rounds, and nothing else.
pub fn lowmc_tccr(b: &mut CircuitBuilder, tweak: [Wire; N], x: [Wire; N], commit_every: usize) -> (out: [Wire; N])
    requires
        old(b).wf(),
        wires_below(tweak@, old(b)@.len() as int),
        wires_below(x@, old(b)@.len() as int),
    ensures
        final(b).wf(),
        grows(old(b)@, final(b)@),
        band_count(final(b)@) == band_count(old(b)@) + 2 * (3 * M * R),
        commit_count(final(b)@) == commit_count(old(b)@) + 2 * commit_gates(commit_every),
        tccr_commits_only_state(final(b)@, tweak@, x@, old(b)@.len() as int, commit_every),
        tccr_commits_every_state(final(b)@, tweak@, x@, old(b)@.len() as int, commit_every),
        forall|g0: Seq<Gate>| grows(g0, old(b)@) ==> #[trigger] grows(g0, final(b)@),
        wires_below(out@, final(b)@.len() as int),
        forall|w: Seq<u64>, l: u64|
            #![trigger satisfies(final(b)@, w), lane_bits(w, out@, l)]
            l < 64 && satisfies(final(b)@, w) ==> lane_bits(w, out@, l) == lowmc_tccr_bits(
                lane_bits(w, tweak@, l),
                lane_bits(w, x@, l),
            ),
{
    let ghost b0 = b@;
    let px = lowmc_permutation(b, x, commit_every);
    let ghost b1 = b@;
    let p_xor_t = xor_wires(b, &px, &tweak);
    let ghost b2 = b@;
    let ppt = lowmc_permutation(b, p_xor_t, commit_every);
    let ghost b3 = b@;
    let out = xor_wires(b, &ppt, &px);
    proof {
        assert forall|w: Seq<u64>, l: u64|
            #![trigger satisfies(b@, w), lane_bits(w, out@, l)]
            l < 64 && satisfies(b@, w) implies lane_bits(w, out@, l) == lowmc_tccr_bits(
            lane_bits(w, tweak@, l),
            lane_bits(w, x@, l),
        ) by {
            assert(satisfies(b3, w));
            assert(satisfies(b2, w));
            assert(satisfies(b1, w));
            assert(lane_bits(w, px@, l) == lowmc_bits(lane_bits(w, x@, l)));
            assert(lane_bits(w, p_xor_t@, l) == xor_bits(lane_bits(w, px@, l), lane_bits(w, tweak@, l)));
            assert(lane_bits(w, ppt@, l) == lowmc_bits(lane_bits(w, p_xor_t@, l)));
        }
        lemma_tccr_commits(b0, b1, b2, b3, b@, tweak@, x@, px@, p_xor_t@, commit_every);
    }
    out
}

/// XOR of two lists of wires, position by position.
fn xor_wires(b: &mut CircuitBuilder, a: &[Wire; N], c: &[Wire; N]) -> (out: [Wire; N])
    requires
        old(b).wf(),
        wires_below(a@, old(b)@.len() as int),
        wires_below(c@, old(b)@.len() as int),
    ensures
        final(b).wf(),
        grows(old(b)@, final(b)@),
        band_count(final(b)@) == band_count(old(b)@),
        commit_count(final(b)@) == commit_count(old(b)@),
        forall|g0: Seq<Gate>| grows(g0, old(b)@) ==> #[trigger] grows(g0, final(b)@),
        wires_below(out@, final(b)@.len() as int),
        forall|w: Seq<u64>, l: u64|
            #![trigger satisfies(final(b)@, w), lane_bits(w, out@, l)]
            l < 64 && satisfies(final(b)@, w) ==> lane_bits(w, out@, l) == xor_bits(
                lane_bits(w, a@, l),
                lane_bits(w, c@, l),
            ),
{
    let ghost b0 = b@;
    proof {
        lemma_grows_refl(b0);
    }
    let mut out = [Wire(0); N];
    let mut i: usize = 0;
    while i < N
        invariant
            0 <= i <= N,
            b.wf(),
            grows(b0, b@),
            band_count(b@) == band_count(b0),
            commit_count(b@) == commit_count(b0),
            forall|g0: Seq<Gate>| grows(g0, b0) ==> #[trigger] grows(g0, b@),
            wires_below(a@, b0.len() as int),
            wires_below(c@, b0.len() as int),
            forall|k: int| 0 <= k < i ==> #[trigger] out@[k].0 < b@.len(),
            forall|w: Seq<u64>, k: int|
                #![trigger satisfies(b@, w), out@[k]]
                0 <= k < i && satisfies(b@, w) ==> w[out@[k].0 as int] == w[a@[k].0 as int] ^ w[c@[
                    k
                ].0 as int],
        decreases N - i,
    {
        let ghost bs = b@;
        let o = b.bxor(a[i], c[i]);
        out[i] = o;
        proof {
            assert forall|w: Seq<u64>, k: int|
                #![trigger satisfies(b@, w), out@[k]]
                0 <= k < i + 1 && satisfies(b@, w) implies w[out@[k].0 as int] == w[a@[k].0 as int]
                    ^ w[c@[k].0 as int] by {
                assert(satisfies(bs, w));
            }
        }
        i = i + 1;
    }
    proof {
        assert forall|w: Seq<u64>, l: u64|
            #![trigger satisfies(b@, w), lane_bits(w, out@, l)]
            l < 64 && satisfies(b@, w) implies lane_bits(w, out@, l) == xor_bits(
            lane_bits(w, a@, l),
            lane_bits(w, c@, l),
        ) by {
            assert forall|k: int| 0 <= k < 128 implies #[trigger] lane_bits(w, out@, l)[k] == xor_bits(
                lane_bits(w, a@, l),
                lane_bits(w, c@, l),
            )[k] by {
                assert(w[out@[k].0 as int] == w[a@[k].0 as int] ^ w[c@[k].0 as int]);
                lemma_lane_ops(w[a@[k].0 as int], w[c@[k].0 as int], l);
            }
            assert(lane_bits(w, out@, l) =~= xor_bits(lane_bits(w, a@, l), lane_bits(w, c@, l)));
        }
    }
    out
}

} // verus!
