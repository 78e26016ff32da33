//! The online evaluation kernel of a LowMC-as-garbling-hash circuit: a
//! bitsliced LowMC-128/128/20 permutation evaluated on 512 blocks at once
//! (eight 64-bit lanes per state bit), with several backends for the dense
//! linear layers, and a scalar one-block reference.
//!
//! Bitslicing: state bit `k` of block `L` (`L < 512`) is bit `L mod 64` of
//! word `L / 64` of slice `k`. Every operation is bitwise, so each block is
//! evaluated independently.
use vstd::prelude::*;
use crate::bits::{
    N,
    M,
    lane,
    xor_bits,
    sbox_layer_bit,
    sbox_layer_bits,
    parity,
    linear_bits,
    lemma_lane_ops,
    bit128,
    u128_bits,
};
use crate::lowmc::{sm_state, sm_out, splitmix_mix, GAMMA, sbox_layer_upto, lemma_low_bit, rows_bits};

verus! {

/// Number of rounds.
pub const R: usize = 20;

/// Words per bitsliced state bit.
pub const LANES: usize = 8;

/// Blocks evaluated at once.
pub const W: usize = 512;

/// Seed of the SplitMix64 stream of the bench matrices.
pub const SEED: u64 = 0x1234_5678_9ABC_DEF0;

/// One bitsliced state bit: bit `L mod 64` of word `L / 64` is block `L`.
pub type Slice = [u64; LANES];

/// The all-zero slice.
pub const ZERO: Slice = [0, 0, 0, 0, 0, 0, 0, 0];

/// Block `blk` of a slice.
pub open spec fn slice_bit(s: Slice, blk: int) -> bool {
    lane(s@[blk / 64], (blk % 64) as u64)
}

/// The 128 state bits of block `blk` of a bitsliced state.
pub open spec fn block_bits(st: Seq<Slice>, blk: int) -> Seq<bool> {
    Seq::new(st.len(), |k: int| slice_bit(st[k], blk))
}

/// The 128 bits of a two-word value, least significant word first.
pub open spec fn bits2(x: [u64; 2]) -> Seq<bool> {
    Seq::new(128, |k: int| lane(x@[k / 64], (k % 64) as u64))
}

/// The rows of a two-word matrix, each as its bits.
pub open spec fn rows2(rows: Seq<[u64; 2]>) -> Seq<Seq<bool>> {
    Seq::new(rows.len(), |j: int| bits2(rows[j]))
}

/// Word-wise XOR of two slices.
pub fn xor(a: Slice, b: Slice) -> (o: Slice)
    ensures
        forall|l: int| 0 <= l < LANES ==> #[trigger] o@[l] == a@[l] ^ b@[l],
{
    let mut o = ZERO;
    let mut l: usize = 0;
    while l < LANES
        invariant
            0 <= l <= LANES,
            forall|q: int| 0 <= q < l ==> #[trigger] o@[q] == a@[q] ^ b@[q],
        decreases LANES - l,
    {
        o[l] = a[l] ^ b[l];
        l = l + 1;
    }
    o
}

/// Word-wise AND of two slices.
pub fn and(a: Slice, b: Slice) -> (o: Slice)
    ensures
        forall|l: int| 0 <= l < LANES ==> #[trigger] o@[l] == a@[l] & b@[l],
{
    let mut o = ZERO;
    let mut l: usize = 0;
    while l < LANES
        invariant
            0 <= l <= LANES,
            forall|q: int| 0 <= q < l ==> #[trigger] o@[q] == a@[q] & b@[q],
        decreases LANES - l,
    {
        o[l] = a[l] & b[l];
        l = l + 1;
    }
    o
}

/// Block by block, word-wise XOR of slices is XOR of bits.
pub proof fn lemma_slice_xor(a: Slice, b: Slice, x: Slice, blk: int)
    requires
        0 <= blk < W,
        forall|l: int| 0 <= l < LANES ==> #[trigger] x@[l] == a@[l] ^ b@[l],
    ensures
        slice_bit(x, blk) == (slice_bit(a, blk) != slice_bit(b, blk)),
{
    lemma_lane_ops(a@[blk / 64], b@[blk / 64], (blk % 64) as u64);
}

/// Block by block, word-wise AND of slices is AND of bits.
pub proof fn lemma_slice_and(a: Slice, b: Slice, y: Slice, blk: int)
    requires
        0 <= blk < W,
        forall|l: int| 0 <= l < LANES ==> #[trigger] y@[l] == a@[l] & b@[l],
    ensures
        slice_bit(y, blk) == (slice_bit(a, blk) && slice_bit(b, blk)),
{
    lemma_lane_ops(a@[blk / 64], b@[blk / 64], (blk % 64) as u64);
}

/// SplitMix64 step: advance the state and output the mix of the new state.
pub fn splitmix64(s: &mut u64) -> (r: u64)
    ensures
        *final(s) == (*old(s)).wrapping_add(GAMMA),
        r == splitmix_mix(*final(s)),
{
    crate::lowmc::splitmix64(s)
}

/// The linear layer matrices: `R` matrices of `N` two-word rows, each word
/// the next output of the stream from `SEED`.
pub fn gen_mats() -> (v: Vec<[[u64; 2]; N]>)
    ensures
        v@.len() == R,
        forall|r: int, j: int|
            0 <= r < R && 0 <= j < N ==> #[trigger] v@[r]@[j] == [
                sm_out(SEED, (256 * r + 2 * j) as nat),
                sm_out(SEED, (256 * r + 2 * j + 1) as nat),
            ],
{
    let mut st = SEED;
    let mut v: Vec<[[u64; 2]; N]> = Vec::new();
    let mut r: usize = 0;
    while r < R
        invariant
            0 <= r <= R,
            st == sm_state(SEED, (256 * r) as nat),
            v@.len() == r,
            forall|q: int, j: int|
                0 <= q < r && 0 <= j < N ==> #[trigger] v@[q]@[j] == [
                    sm_out(SEED, (256 * q + 2 * j) as nat),
                    sm_out(SEED, (256 * q + 2 * j + 1) as nat),
                ],
        decreases R - r,
    {
        let mut rows = [[0u64; 2]; N];
        let mut j: usize = 0;
        while j < N
            invariant
                0 <= j <= N,
                r < R,
                st == sm_state(SEED, (256 * r + 2 * j) as nat),
                forall|q: int|
                    0 <= q < j ==> #[trigger] rows@[q] == [
                        sm_out(SEED, (256 * r + 2 * q) as nat),
                        sm_out(SEED, (256 * r + 2 * q + 1) as nat),
                    ],
            decreases N - j,
        {
            let ghost n = (256 * r + 2 * j) as nat;
            proof {
                assert(sm_state(SEED, n + 1) == sm_state(SEED, n).wrapping_add(GAMMA));
                assert(sm_state(SEED, n + 2) == sm_state(SEED, n + 1).wrapping_add(GAMMA));
            }
            let w0 = splitmix64(&mut st);
            let w1 = splitmix64(&mut st);
            rows[j] = [w0, w1];
            proof {
                assert(rows@[j as int] == [sm_out(SEED, n), sm_out(SEED, n + 1)]);
            }
            j = j + 1;
        }
        v.push(rows);
        r = r + 1;
    }
    v
}

/// The round constants: `R` two-word values from the stream seeded with
/// `SEED ^ 0xABCD_EF01_2345_6789`.
pub fn gen_rcs() -> (v: Vec<[u64; 2]>)
    ensures
        v@.len() == R,
        forall|r: int|
            0 <= r < R ==> #[trigger] v@[r] == [
                sm_out(SEED ^ 0xABCD_EF01_2345_6789u64, (2 * r) as nat),
                sm_out(SEED ^ 0xABCD_EF01_2345_6789u64, (2 * r + 1) as nat),
            ],
{
    let seed = SEED ^ 0xABCD_EF01_2345_6789;
    let mut st = seed;
    let mut v: Vec<[u64; 2]> = Vec::new();
    let mut r: usize = 0;
    while r < R
        invariant
            0 <= r <= R,
            seed == SEED ^ 0xABCD_EF01_2345_6789u64,
            st == sm_state(seed, (2 * r) as nat),
            v@.len() == r,
            forall|q: int|
                0 <= q < r ==> #[trigger] v@[q] == [
                    sm_out(seed, (2 * q) as nat),
                    sm_out(seed, (2 * q + 1) as nat),
                ],
        decreases R - r,
    {
        let ghost n = (2 * r) as nat;
        proof {
            assert(sm_state(seed, n + 1) == sm_state(seed, n).wrapping_add(GAMMA));
            assert(sm_state(seed, n + 2) == sm_state(seed, n + 1).wrapping_add(GAMMA));
        }
        let w0 = splitmix64(&mut st);
        let w1 = splitmix64(&mut st);
        v.push([w0, w1]);
        r = r + 1;
    }
    v
}

/// The positions below `n` of the set bits of `b`, in increasing order.
pub open spec fn set_positions(b: Seq<bool>, n: nat) -> Seq<u16>
    decreases n,
{
    if n == 0 {
        Seq::empty()
    } else {
        let p = set_positions(b, (n - 1) as nat);
        if b[n - 1] {
            p.push((n - 1) as u16)
        } else {
            p
        }
    }
}

/// There are at most `n` set positions below `n`, and each is below `n`.
pub proof fn lemma_set_positions_bounds(b: Seq<bool>, n: nat)
    requires
        n <= 0x1_0000,
    ensures
        set_positions(b, n).len() <= n,
        forall|k: int| 0 <= k < set_positions(b, n).len() ==> #[trigger] set_positions(b, n)[k] < n,
    decreases n,
{
    if n > 0 {
        lemma_set_positions_bounds(b, (n - 1) as nat);
    }
}

/// Append to `out` the positions of the set bits of the two-word `row`, in
/// increasing order.
fn push_set_bits(out: &mut Vec<u16>, row: [u64; 2])
    ensures
        final(out)@ == old(out)@ + set_positions(bits2(row), 128),
{
    let ghost start = out@;
    let mut i: u64 = 0;
    while i < 64
        invariant
            0 <= i <= 64,
            out@ == start + set_positions(bits2(row), i as nat),
        decreases 64 - i,
    {
        proof {
            assert(bits2(row)[i as int] == lane(row@[0], i));
        }
        if (row[0] >> i) & 1 == 1 {
            out.push(i as u16);
        }
        proof {
            assert(out@ =~= start + set_positions(bits2(row), (i + 1) as nat));
        }
        i = i + 1;
    }
    let mut i: u64 = 0;
    while i < 64
        invariant
            0 <= i <= 64,
            out@ == start + set_positions(bits2(row), (64 + i) as nat),
        decreases 64 - i,
    {
        proof {
            assert(bits2(row)[64 + i as int] == lane(row@[1], i));
        }
        if (row[1] >> i) & 1 == 1 {
            out.push((64 + i) as u16);
        }
        proof {
            assert(out@ =~= start + set_positions(bits2(row), (64 + i + 1) as nat));
        }
        i = i + 1;
    }
}

/// Per-output index lists: entry `[r][j]` lists, in increasing order, the
/// positions of the set bits of row `j` of matrix `r`.
pub fn gen_idx(mats: &[[[u64; 2]; N]]) -> (idx: Vec<Vec<Vec<u16>>>)
    ensures
        idx@.len() == mats@.len(),
        forall|r: int| 0 <= r < mats@.len() ==> #[trigger] idx@[r]@.len() == N,
        forall|r: int, j: int|
            0 <= r < mats@.len() && 0 <= j < N ==> #[trigger] idx@[r]@[j]@ == set_positions(
                bits2(mats@[r]@[j]),
                128,
            ),
        forall|r: int, j: int|
            0 <= r < mats@.len() && 0 <= j < N ==> indices_below(
                #[trigger] idx@[r]@[j]@,
                0,
                idx@[r]@[j]@.len() as int,
                N as int,
            ),
{
    let mut idx: Vec<Vec<Vec<u16>>> = Vec::new();
    let mut r: usize = 0;
    while r < mats.len()
        invariant
            0 <= r <= mats@.len(),
            idx@.len() == r,
            forall|q: int| 0 <= q < r ==> #[trigger] idx@[q]@.len() == N,
            forall|q: int, j: int|
                0 <= q < r && 0 <= j < N ==> #[trigger] idx@[q]@[j]@ == set_positions(
                    bits2(mats@[q]@[j]),
                    128,
                ),
        decreases mats@.len() - r,
    {
        let mut per_row: Vec<Vec<u16>> = Vec::new();
        let mut j: usize = 0;
        while j < N
            invariant
                0 <= j <= N,
                r < mats@.len(),
                per_row@.len() == j,
                forall|q: int| 0 <= q < j ==> #[trigger] per_row@[q]@ == set_positions(
                    bits2(mats@[r as int]@[q]),
                    128,
                ),
            decreases N - j,
        {
            let mut list: Vec<u16> = Vec::new();
            push_set_bits(&mut list, mats[r][j]);
            proof {
                assert(list@ =~= set_positions(bits2(mats@[r as int]@[j as int]), 128));
            }
            per_row.push(list);
            j = j + 1;
        }
        idx.push(per_row);
        r = r + 1;
    }
    proof {
        assert forall|r: int, j: int| 0 <= r < mats@.len() && 0 <= j < N implies indices_below(
            #[trigger] idx@[r]@[j]@,
            0,
            idx@[r]@[j]@.len() as int,
            N as int,
        ) by {
            lemma_set_positions_bounds(bits2(mats@[r]@[j]), 128);
        }
    }
    idx
}

/// Flattened (CSR) form of the index lists: the lists of all outputs of all
/// matrices stored back to back in `flat`; list `t` (output `t mod N` of
/// matrix `t / N`) is `flat[off[t] .. off[t + 1]]`.
pub struct Csr {
    pub flat: Vec<u16>,
    pub off: Vec<u32>,
}

/// `c` holds `lists` lists: the offsets start at 0, never decrease, end at
/// the length of `flat`, and every index names a state bit.
pub open spec fn csr_wf(c: &Csr, lists: nat) -> bool {
    &&& c.off@.len() == lists + 1
    &&& c.off@[0] == 0
    &&& c.off@[lists as int] == c.flat@.len()
    &&& forall|t: int| 0 <= t < lists ==> #[trigger] c.off@[t] <= c.off@[t + 1]
    &&& forall|t: int| 0 <= t <= lists ==> #[trigger] c.off@[t] <= c.flat@.len()
    &&& forall|k: int| 0 <= k < c.flat@.len() ==> #[trigger] c.flat@[k] < N
}

/// List `t` of `c`: `flat[off[t] .. off[t + 1]]`, empty when the offsets
/// decrease.
pub open spec fn csr_list(c: &Csr, t: int) -> Seq<u16> {
    if c.off@[t] <= c.off@[t + 1] {
        c.flat@.subrange(c.off@[t] as int, c.off@[t + 1] as int)
    } else {
        Seq::empty()
    }
}

/// The number of set bits of the rows `j < n` of a matrix.
pub open spec fn matrix_ones(m: [[u64; 2]; N], n: nat) -> nat
    decreases n,
{
    if n == 0 {
        0
    } else {
        matrix_ones(m, (n - 1) as nat) + set_positions(bits2(m@[n - 1]), 128).len()
    }
}

/// The number of set bits of the matrices `r < n`.
pub open spec fn mats_ones(mats: Seq<[[u64; 2]; N]>, n: nat) -> nat
    decreases n,
{
    if n == 0 {
        0
    } else {
        mats_ones(mats, (n - 1) as nat) + matrix_ones(mats[n - 1], 128)
    }
}

/// Counting more rows counts no fewer bits.
proof fn lemma_matrix_ones_mono(m: [[u64; 2]; N], a: nat, b: nat)
    requires
        a <= b,
    ensures
        matrix_ones(m, a) <= matrix_ones(m, b),
    decreases b,
{
    if a < b {
        lemma_matrix_ones_mono(m, a, (b - 1) as nat);
    }
}

/// Counting more matrices counts no fewer bits.
proof fn lemma_mats_ones_mono(mats: Seq<[[u64; 2]; N]>, a: nat, b: nat)
    requires
        a <= b,
    ensures
        mats_ones(mats, a) <= mats_ones(mats, b),
    decreases b,
{
    if a < b {
        lemma_mats_ones_mono(mats, a, (b - 1) as nat);
    }
}

/// A matrix has at most 128 set bits per row.
proof fn lemma_matrix_ones_bound(m: [[u64; 2]; N], n: nat)
    ensures
        matrix_ones(m, n) <= 128 * n,
    decreases n,
{
    if n > 0 {
        lemma_matrix_ones_bound(m, (n - 1) as nat);
        lemma_set_positions_bounds(bits2(m@[n - 1]), 128);
    }
}

/// Matrices have at most `128 * 128` set bits each.
proof fn lemma_mats_ones_bound(mats: Seq<[[u64; 2]; N]>, n: nat)
    ensures
        mats_ones(mats, n) <= 16384 * n,
    decreases n,
{
    if n > 0 {
        lemma_mats_ones_bound(mats, (n - 1) as nat);
        lemma_matrix_ones_bound(mats[n - 1], 128);
    }
}

/// The CSR form of the matrices: list `r * N + j` holds, in increasing
/// order, the positions of the set bits of row `j` of matrix `r`. The
/// offsets are 32-bit, so the total number of set bits must fit in a `u32`.
pub fn build_csr(mats: &[[[u64; 2]; N]]) -> (c: Csr)
    requires
        mats_ones(mats@, mats@.len() as nat) <= u32::MAX,
    ensures
        csr_wf(&c, (mats@.len() * N) as nat),
        forall|r: int, j: int|
            0 <= r < mats@.len() && 0 <= j < N ==> #[trigger] csr_list(&c, r * N + j)
                == set_positions(bits2(mats@[r]@[j]), 128),
{
    let mut flat: Vec<u16> = Vec::new();
    let mut off: Vec<u32> = Vec::new();
    off.push(0u32);
    let mut r: usize = 0;
    while r < mats.len()
        invariant
            0 <= r <= mats@.len(),
            mats_ones(mats@, mats@.len() as nat) <= u32::MAX,
            off@.len() == r * N + 1,
            off@[0] == 0,
            off@[r * N] == flat@.len(),
            flat@.len() == mats_ones(mats@, r as nat),
            forall|t: int| 0 <= t < r * N ==> #[trigger] off@[t] <= off@[t + 1],
            forall|t: int| 0 <= t <= r * N ==> #[trigger] off@[t] <= flat@.len(),
            forall|k: int| 0 <= k < flat@.len() ==> #[trigger] flat@[k] < N,
            forall|q: int, jj: int|
                0 <= q < r && 0 <= jj < N ==> #[trigger] flat@.subrange(
                    off@[q * N + jj] as int,
                    off@[q * N + jj + 1] as int,
                ) == set_positions(bits2(mats@[q]@[jj]), 128),
        decreases mats@.len() - r,
    {
        let mut j: usize = 0;
        while j < N
            invariant
                0 <= j <= N,
                r < mats@.len(),
                mats_ones(mats@, mats@.len() as nat) <= u32::MAX,
                off@.len() == r * N + j + 1,
                off@[0] == 0,
                off@[r * N + j] == flat@.len(),
                flat@.len() == mats_ones(mats@, r as nat) + matrix_ones(mats@[r as int], j as nat),
                forall|t: int| 0 <= t < r * N + j ==> #[trigger] off@[t] <= off@[t + 1],
                forall|t: int| 0 <= t <= r * N + j ==> #[trigger] off@[t] <= flat@.len(),
                forall|k: int| 0 <= k < flat@.len() ==> #[trigger] flat@[k] < N,
                forall|q: int, jj: int|
                    0 <= q < mats@.len() && 0 <= jj < N && q * N + jj < r * N + j
                        ==> #[trigger] flat@.subrange(
                        off@[q * N + jj] as int,
                        off@[q * N + jj + 1] as int,
                    ) == set_positions(bits2(mats@[q]@[jj]), 128),
            decreases N - j,
        {
            let ghost old_flat = flat@;
            let ghost old_off = off@;
            push_set_bits(&mut flat, mats[r][j]);
            proof {
                let sp = set_positions(bits2(mats@[r as int]@[j as int]), 128);
                lemma_set_positions_bounds(bits2(mats@[r as int]@[j as int]), 128);
                assert(flat@.len() == mats_ones(mats@, r as nat) + matrix_ones(
                    mats@[r as int],
                    (j + 1) as nat,
                ));
                lemma_matrix_ones_mono(mats@[r as int], (j + 1) as nat, 128);
                lemma_mats_ones_mono(mats@, (r + 1) as nat, mats@.len() as nat);
                assert(flat@.len() <= u32::MAX);
                assert forall|k: int| 0 <= k < flat@.len() implies #[trigger] flat@[k] < N by {
                    if k >= old_flat.len() {
                        assert(flat@[k] == sp[k - old_flat.len()]);
                    }
                }
                assert(flat@.subrange(old_flat.len() as int, flat@.len() as int) =~= sp);
            }
            let end = flat.len() as u32;
            off.push(end);
            proof {
                assert(end as int == flat@.len());
                assert(off@[r * N + j + 1] == flat@.len());
                assert forall|q: int, jj: int|
                    0 <= q < mats@.len() && 0 <= jj < N && q * N + jj < r * N + j + 1
                        implies #[trigger] flat@.subrange(
                        off@[q * N + jj] as int,
                        off@[q * N + jj + 1] as int,
                    ) == set_positions(bits2(mats@[q]@[jj]), 128) by {
                    if q * N + jj < r * N + j {
                        assert(off@[q * N + jj] == old_off[q * N + jj]);
                        assert(off@[q * N + jj + 1] == old_off[q * N + jj + 1]);
                        assert(old_off[q * N + jj + 1] <= old_flat.len());
                        assert(flat@.subrange(
                            old_off[q * N + jj] as int,
                            old_off[q * N + jj + 1] as int,
                        ) =~= old_flat.subrange(
                            old_off[q * N + jj] as int,
                            old_off[q * N + jj + 1] as int,
                        ));
                    } else {
                        assert(q == r && jj == j);
                    }
                }
            }
            j = j + 1;
        }
        r = r + 1;
    }
    Csr { flat, off }
}

/// The round constants in bitsliced form: slice `j` of round `r` is all
/// ones when bit `j` of `rcs[r]` is set and all zeros otherwise, so that
/// every block sees the same constant.
pub fn expand_rc(rcs: &[[u64; 2]]) -> (v: Vec<[Slice; N]>)
    ensures
        v@.len() == rcs@.len(),
        forall|r: int, j: int, l: int|
            0 <= r < rcs@.len() && 0 <= j < N && 0 <= l < LANES ==> #[trigger] v@[r]@[j]@[l] == (
            if bits2(rcs@[r])[j] {
                u64::MAX
            } else {
                0u64
            }),
{
    let mut v: Vec<[Slice; N]> = Vec::new();
    let mut r: usize = 0;
    while r < rcs.len()
        invariant
            0 <= r <= rcs@.len(),
            v@.len() == r,
            forall|q: int, j: int, l: int|
                0 <= q < r && 0 <= j < N && 0 <= l < LANES ==> #[trigger] v@[q]@[j]@[l] == (
                if bits2(rcs@[q])[j] {
                    u64::MAX
                } else {
                    0u64
                }),
        decreases rcs@.len() - r,
    {
        let c = rcs[r];
        let mut a = [ZERO; N];
        let mut j: usize = 0;
        while j < N
            invariant
                0 <= j <= N,
                r < rcs@.len(),
                c == rcs@[r as int],
                forall|q: int, l: int|
                    0 <= q < N && 0 <= l < LANES ==> #[trigger] a@[q]@[l] == (if q < j && bits2(
                        c,
                    )[q] {
                        u64::MAX
                    } else {
                        0u64
                    }),
            decreases N - j,
        {
            proof {
                assert(bits2(c)[j as int] == lane(c@[(j / 64) as int], (j % 64) as u64));
            }
            if (c[j / 64] >> ((j % 64) as u64)) & 1 == 1 {
                a[j] = [u64::MAX; LANES];
            }
            j = j + 1;
        }
        v.push(a);
        r = r + 1;
    }
    v
}

/// The partial S-box layer on a bitsliced state: every block goes through
/// the S-box layer.
pub fn sbox_bs(st: &mut [Slice; N])
    ensures
        forall|blk: int|
            0 <= blk < W ==> #[trigger] block_bits(final(st)@, blk) == sbox_layer_bits(
                block_bits(old(st)@, blk),
            ),
{
    let ghost st0 = st@;
    let mut j: usize = 0;
    while j < M
        invariant
            0 <= j <= M,
            st0.len() == N,
            forall|blk: int|
                0 <= blk < W ==> #[trigger] block_bits(st@, blk) == sbox_layer_upto(
                    block_bits(st0, blk),
                    j as int,
                ),
        decreases M - j,
    {
        let ghost prev = st@;
        let c = st[3 * j];
        let b = st[3 * j + 1];
        let a = st[3 * j + 2];
        let bc = and(b, c);
        let ac = and(a, c);
        let ab = and(a, b);
        let ab_x = xor(a, b);
        let na = xor(a, bc);
        let nb = xor(ab_x, ac);
        let abc = xor(ab_x, c);
        let nc = xor(abc, ab);
        st[3 * j + 2] = na;
        st[3 * j + 1] = nb;
        st[3 * j] = nc;
        proof {
            assert forall|blk: int| 0 <= blk < W implies #[trigger] block_bits(st@, blk)
                == sbox_layer_upto(block_bits(st0, blk), (j + 1) as int) by {
                lemma_slice_and(b, c, bc, blk);
                lemma_slice_and(a, c, ac, blk);
                lemma_slice_and(a, b, ab, blk);
                lemma_slice_xor(a, b, ab_x, blk);
                lemma_slice_xor(a, bc, na, blk);
                lemma_slice_xor(ab_x, ac, nb, blk);
                lemma_slice_xor(ab_x, c, abc, blk);
                lemma_slice_xor(abc, ab, nc, blk);
                let s0 = block_bits(st0, blk);
                let t0 = 3 * (j as int);
                assert(block_bits(prev, blk)[t0] == s0[t0]);
                assert(block_bits(prev, blk)[t0 + 1] == s0[t0 + 1]);
                assert(block_bits(prev, blk)[t0 + 2] == s0[t0 + 2]);
                assert forall|k: int| 0 <= k < 128 implies block_bits(st@, blk)[k]
                    == sbox_layer_upto(s0, (j + 1) as int)[k] by {
                    assert(block_bits(prev, blk)[k] == sbox_layer_upto(s0, j as int)[k]);
                    if t0 <= k < t0 + 3 {
                        assert(k / 3 == j);
                    }
                }
                assert(block_bits(st@, blk) =~= sbox_layer_upto(s0, (j + 1) as int));
            }
        }
        j = j + 1;
    }
    proof {
        assert forall|blk: int| 0 <= blk < W implies #[trigger] block_bits(st@, blk)
            == sbox_layer_bits(block_bits(st0, blk)) by {
            assert(sbox_layer_upto(block_bits(st0, blk), M as int) =~= sbox_layer_bits(
                block_bits(st0, blk),
            ));
        }
    }
}

/// Lane `l` of the XOR of the slices `src[ix[k]]` for `a <= k < b`.
pub open spec fn xor_range(src: Seq<Slice>, ix: Seq<u16>, a: int, b: int, l: int) -> u64
    decreases b - a,
{
    if b <= a {
        0
    } else {
        xor_range(src, ix, a, b - 1, l) ^ src[ix[b - 1] as int]@[l]
    }
}

/// The XOR of the bits `s[ix[k]]` for `a <= k < b`.
pub open spec fn sel_range(s: Seq<bool>, ix: Seq<u16>, a: int, b: int) -> bool
    decreases b - a,
{
    if b <= a {
        false
    } else {
        sel_range(s, ix, a, b - 1) != s[ix[b - 1] as int]
    }
}

/// Every index in `ix[a..b]` names one of the `n` state bits.
pub open spec fn indices_below(ix: Seq<u16>, a: int, b: int, n: int) -> bool {
    forall|k: int| a <= k < b ==> #[trigger] ix[k] < n
}

/// Block by block, the XOR of selected slices is the XOR of the selected
/// bits of that block.
pub proof fn lemma_xor_range_bits(src: Seq<Slice>, ix: Seq<u16>, a: int, b: int, blk: int)
    requires
        0 <= blk < W,
        0 <= a,
        b <= ix.len(),
        indices_below(ix, a, b, src.len() as int),
    ensures
        lane(xor_range(src, ix, a, b, blk / 64), (blk % 64) as u64) == sel_range(
            block_bits(src, blk),
            ix,
            a,
            b,
        ),
    decreases b - a,
{
    let l = blk / 64;
    let m = (blk % 64) as u64;
    if b <= a {
        lemma_lane_ops(0, 0, m);
    } else {
        lemma_xor_range_bits(src, ix, a, b - 1, blk);
        lemma_lane_ops(xor_range(src, ix, a, b - 1, l), src[ix[b - 1] as int]@[l], m);
        assert(block_bits(src, blk)[ix[b - 1] as int] == slice_bit(src[ix[b - 1] as int], blk));
    }
}

/// `sel_range` reads only the indices in its range.
pub proof fn lemma_sel_range_same(s: Seq<bool>, ix: Seq<u16>, jx: Seq<u16>, a: int, da: int, b: int)
    requires
        forall|k: int| a <= k < b ==> #[trigger] ix[k] == jx[k + da],
    ensures
        sel_range(s, ix, a, b) == sel_range(s, jx, a + da, b + da),
    decreases b - a,
{
    if b > a {
        lemma_sel_range_same(s, ix, jx, a, da, b - 1);
    }
}

/// `sel_range` over `ix[a..b]` is `sel_range` over the whole of that
/// subsequence.
pub proof fn lemma_sel_range_sub(s: Seq<bool>, ix: Seq<u16>, a: int, b: int)
    requires
        0 <= a <= b <= ix.len(),
    ensures
        sel_range(s, ix, a, b) == sel_range(s, ix.subrange(a, b), 0, b - a),
{
    lemma_sel_range_same(s, ix.subrange(a, b), ix, 0, a, b - a);
}

/// XOR-ing the bits at the set positions of `row` is the parity of the bits
/// of `s` that `row` selects.
pub proof fn lemma_sel_positions(row: Seq<bool>, s: Seq<bool>, n: nat)
    requires
        n <= 128,
    ensures
        sel_range(s, set_positions(row, n), 0, set_positions(row, n).len() as int) == parity(
            row,
            s,
            n,
        ),
    decreases n,
{
    if n > 0 {
        let p = set_positions(row, (n - 1) as nat);
        lemma_sel_positions(row, s, (n - 1) as nat);
        lemma_set_positions_bounds(row, (n - 1) as nat);
        if row[n - 1] {
            let q = p.push((n - 1) as u16);
            lemma_sel_range_same(s, q, p, 0, 0, p.len() as int);
            assert(q[p.len() as int] == (n - 1) as u16);
        }
    }
}

/// The gather linear layer: output `j` is the XOR of the source slices that
/// `idx[j]` lists.
pub fn linear_v1(idx: &[Vec<u16>], src: &[Slice; N], dst: &mut [Slice; N])
    requires
        idx@.len() >= N,
        forall|j: int| 0 <= j < N ==> indices_below(#[trigger] idx@[j]@, 0, idx@[j]@.len() as int, N as int),
    ensures
        forall|j: int, l: int|
            0 <= j < N && 0 <= l < LANES ==> #[trigger] final(dst)@[j]@[l] == xor_range(
                src@,
                idx@[j]@,
                0,
                idx@[j]@.len() as int,
                l,
            ),
{
    let mut j: usize = 0;
    while j < N
        invariant
            0 <= j <= N,
            idx@.len() >= N,
            forall|q: int| 0 <= q < N ==> indices_below(#[trigger] idx@[q]@, 0, idx@[q]@.len() as int, N as int),
            forall|q: int, l: int|
                0 <= q < j && 0 <= l < LANES ==> #[trigger] dst@[q]@[l] == xor_range(
                    src@,
                    idx@[q]@,
                    0,
                    idx@[q]@.len() as int,
                    l,
                ),
        decreases N - j,
    {
        let list = &idx[j];
        let ghost ix = list@;
        let mut acc = ZERO;
        let mut k: usize = 0;
        while k < list.len()
            invariant
                0 <= k <= ix.len(),
                ix == list@,
                indices_below(ix, 0, ix.len() as int, N as int),
                forall|l: int| 0 <= l < LANES ==> #[trigger] acc@[l] == xor_range(src@, ix, 0, k as int, l),
            decreases ix.len() - k,
        {
            let i = list[k];
            let sp = &src[i as usize];
            let mut l: usize = 0;
            while l < LANES
                invariant
                    0 <= l <= LANES,
                    k < ix.len(),
                    i == ix[k as int],
                    i < N,
                    sp == src@[i as int],
                    forall|q: int| 0 <= q < l ==> #[trigger] acc@[q] == xor_range(src@, ix, 0, k + 1, q),
                    forall|q: int| l <= q < LANES ==> #[trigger] acc@[q] == xor_range(src@, ix, 0, k as int, q),
                decreases LANES - l,
            {
                acc[l] ^= sp[l];
                l = l + 1;
            }
            k = k + 1;
        }
        dst[j] = acc;
        j = j + 1;
    }
}

/// The CSR lists of matrix `r` can be read: the offsets of its `N` lists
/// exist and stay within `flat`, and every index names a state bit.
pub open spec fn csr_round_ok(c: &Csr, r: int) -> bool {
    &&& 0 <= r
    &&& (r + 1) * N < c.off@.len()
    &&& forall|t: int| r * N <= t <= r * N + N ==> #[trigger] c.off@[t] <= c.flat@.len()
    &&& forall|k: int| 0 <= k < c.flat@.len() ==> #[trigger] c.flat@[k] < N
}

/// Lane `l` of output `j` of the CSR linear layer of matrix `r`.
pub open spec fn csr_out(c: &Csr, r: int, src: Seq<Slice>, j: int, l: int) -> u64 {
    xor_range(src, c.flat@, c.off@[r * N + j] as int, c.off@[r * N + j + 1] as int, l)
}

/// A well-formed CSR table can be read for each of its matrices.
pub proof fn lemma_csr_round_ok(c: &Csr, lists: nat, r: int)
    requires
        csr_wf(c, lists),
        0 <= r,
        (r + 1) * N <= lists,
    ensures
        csr_round_ok(c, r),
{
}

/// Reading list `t` of `c`: its bounds and the range it covers.
proof fn lemma_csr_bounds(c: &Csr, r: int, j: int)
    requires
        csr_round_ok(c, r),
        0 <= j < N,
    ensures
        r * N + j + 1 < c.off@.len(),
        c.off@[r * N + j] <= c.flat@.len(),
        c.off@[r * N + j + 1] <= c.flat@.len(),
{
    assert(r * N + j + 1 <= (r + 1) * N) by (nonlinear_arith)
        requires j < N;
    assert(c.off@[r * N + j] <= c.flat@.len());
    assert(c.off@[r * N + j + 1] <= c.flat@.len());
}

/// The CSR linear layer of matrix `r`, one lane at a time.
pub fn linear_tight_a(csr: &Csr, r: usize, src: &[Slice; N], dst: &mut [Slice; N])
    requires
        csr_round_ok(csr, r as int),
    ensures
        forall|j: int, l: int|
            0 <= j < N && 0 <= l < LANES ==> #[trigger] final(dst)@[j]@[l] == csr_out(
                csr,
                r as int,
                src@,
                j,
                l,
            ),
{
    let ghost ix = csr.flat@;
    let n_off = csr.off.len();
    let mut j: usize = 0;
    while j < N
        invariant
            0 <= j <= N,
            csr_round_ok(csr, r as int),
            n_off == csr.off@.len(),
            ix == csr.flat@,
            forall|q: int, l: int|
                0 <= q < j && 0 <= l < LANES ==> #[trigger] dst@[q]@[l] == csr_out(
                    csr,
                    r as int,
                    src@,
                    q,
                    l,
                ),
        decreases N - j,
    {
        proof {
            lemma_csr_bounds(csr, r as int, j as int);
        }
        let s = csr.off[r * N + j] as usize;
        let e = csr.off[r * N + j + 1] as usize;
        let mut acc = ZERO;
        let mut k: usize = s;
        while k < e
            invariant
                s <= k,
                s <= e ==> k <= e,
                e < s ==> k == s,
                e <= ix.len(),
                ix == csr.flat@,
                csr_round_ok(csr, r as int),
                forall|l: int| 0 <= l < LANES ==> #[trigger] acc@[l] == xor_range(src@, ix, s as int, k as int, l),
            decreases e - k,
        {
            let i = csr.flat[k];
            let sp = &src[i as usize];
            let mut l: usize = 0;
            while l < LANES
                invariant
                    0 <= l <= LANES,
                    s <= k < ix.len(),
                    i == ix[k as int],
                    i < N,
                    sp == src@[i as int],
                    forall|q: int| 0 <= q < l ==> #[trigger] acc@[q] == xor_range(src@, ix, s as int, k + 1, q),
                    forall|q: int| l <= q < LANES ==> #[trigger] acc@[q] == xor_range(src@, ix, s as int, k as int, q),
                decreases LANES - l,
            {
                acc[l] ^= sp[l];
                l = l + 1;
            }
            k = k + 1;
        }
        proof {
            assert forall|l: int| 0 <= l < LANES implies #[trigger] acc@[l] == csr_out(
                csr,
                r as int,
                src@,
                j as int,
                l,
            ) by {
                assert(xor_range(src@, ix, s as int, k as int, l) == xor_range(src@, ix, s as int, e as int, l));
            }
        }
        dst[j] = acc;
        j = j + 1;
    }
}

/// The CSR linear layer of matrix `r`, accumulating whole slices.
pub fn linear_tight_b(csr: &Csr, r: usize, src: &[Slice; N], dst: &mut [Slice; N])
    requires
        csr_round_ok(csr, r as int),
    ensures
        forall|j: int, l: int|
            0 <= j < N && 0 <= l < LANES ==> #[trigger] final(dst)@[j]@[l] == csr_out(
                csr,
                r as int,
                src@,
                j,
                l,
            ),
{
    let ghost ix = csr.flat@;
    let n_off = csr.off.len();
    let mut j: usize = 0;
    while j < N
        invariant
            0 <= j <= N,
            csr_round_ok(csr, r as int),
            n_off == csr.off@.len(),
            ix == csr.flat@,
            forall|q: int, l: int|
                0 <= q < j && 0 <= l < LANES ==> #[trigger] dst@[q]@[l] == csr_out(
                    csr,
                    r as int,
                    src@,
                    q,
                    l,
                ),
        decreases N - j,
    {
        proof {
            lemma_csr_bounds(csr, r as int, j as int);
        }
        let s = csr.off[r * N + j] as usize;
        let e = csr.off[r * N + j + 1] as usize;
        let mut acc = ZERO;
        let mut k: usize = s;
        while k < e
            invariant
                s <= k,
                s <= e ==> k <= e,
                e < s ==> k == s,
                e <= ix.len(),
                ix == csr.flat@,
                csr_round_ok(csr, r as int),
                forall|l: int| 0 <= l < LANES ==> #[trigger] acc@[l] == xor_range(src@, ix, s as int, k as int, l),
            decreases e - k,
        {
            let i = csr.flat[k];
            acc = xor(acc, src[i as usize]);
            k = k + 1;
        }
        proof {
            assert forall|l: int| 0 <= l < LANES implies #[trigger] acc@[l] == csr_out(
                csr,
                r as int,
                src@,
                j as int,
                l,
            ) by {
                assert(xor_range(src@, ix, s as int, k as int, l) == xor_range(src@, ix, s as int, e as int, l));
            }
        }
        dst[j] = acc;
        j = j + 1;
    }
}

/// How four partial XOR accumulators are combined.
pub open spec fn comb4(a0: u64, a1: u64, a2: u64, a3: u64) -> u64 {
    (a0 ^ a1) ^ (a2 ^ a3)
}

/// How eight partial XOR accumulators are combined, lane `l`.
pub open spec fn comb8(a: [Slice; 8], l: int) -> u64 {
    comb4(a@[0]@[l], a@[1]@[l], a@[2]@[l], a@[3]@[l]) ^ comb4(a@[4]@[l], a@[5]@[l], a@[6]@[l], a@[7]@[l])
}

/// Adding one term to each of four accumulators adds all four terms to
/// their combination; adding one to the first adds it to the combination.
pub proof fn lemma_acc4(a0: u64, a1: u64, a2: u64, a3: u64, v0: u64, v1: u64, v2: u64, v3: u64)
    by (bit_vector)
    ensures
        comb4(a0 ^ v0, a1 ^ v1, a2 ^ v2, a3 ^ v3) == (((comb4(a0, a1, a2, a3) ^ v0) ^ v1) ^ v2)
            ^ v3,
        comb4(a0 ^ v0, a1, a2, a3) == comb4(a0, a1, a2, a3) ^ v0,
        comb4(0, 0, 0, 0) == 0,
{
}

/// Adding one term to each of eight accumulators adds all eight terms to
/// their combination.
pub proof fn lemma_acc8(
    a0: u64,
    a1: u64,
    a2: u64,
    a3: u64,
    a4: u64,
    a5: u64,
    a6: u64,
    a7: u64,
    v0: u64,
    v1: u64,
    v2: u64,
    v3: u64,
    v4: u64,
    v5: u64,
    v6: u64,
    v7: u64,
)
    by (bit_vector)
    ensures
        comb4(a0 ^ v0, a1 ^ v1, a2 ^ v2, a3 ^ v3) ^ comb4(a4 ^ v4, a5 ^ v5, a6 ^ v6, a7 ^ v7) == (((((((
        (comb4(a0, a1, a2, a3) ^ comb4(a4, a5, a6, a7)) ^ v0) ^ v1) ^ v2) ^ v3) ^ v4) ^ v5) ^ v6) ^ v7,
        comb4(a0 ^ v0, a1, a2, a3) ^ comb4(a4, a5, a6, a7) == (comb4(a0, a1, a2, a3) ^ comb4(
            a4,
            a5,
            a6,
            a7,
        )) ^ v0,
        comb4(0, 0, 0, 0) ^ comb4(0, 0, 0, 0) == 0,
{
}

/// The CSR linear layer of matrix `r` with four independent accumulators
/// per output, combined at the end.
pub fn linear_tight_c(csr: &Csr, r: usize, src: &[Slice; N], dst: &mut [Slice; N])
    requires
        csr_round_ok(csr, r as int),
    ensures
        forall|j: int, l: int|
            0 <= j < N && 0 <= l < LANES ==> #[trigger] final(dst)@[j]@[l] == csr_out(
                csr,
                r as int,
                src@,
                j,
                l,
            ),
{
    let flat = &csr.flat;
    let ghost ix = csr.flat@;
    let n_off = csr.off.len();
    let mut j: usize = 0;
    while j < N
        invariant
            0 <= j <= N,
            csr_round_ok(csr, r as int),
            n_off == csr.off@.len(),
            ix == csr.flat@,
            flat@ == ix,
            forall|q: int, l: int|
                0 <= q < j && 0 <= l < LANES ==> #[trigger] dst@[q]@[l] == csr_out(
                    csr,
                    r as int,
                    src@,
                    q,
                    l,
                ),
        decreases N - j,
    {
        proof {
            lemma_csr_bounds(csr, r as int, j as int);
        }
        let s = csr.off[r * N + j] as usize;
        let e = csr.off[r * N + j + 1] as usize;
        let mut a0 = ZERO;
        let mut a1 = ZERO;
        let mut a2 = ZERO;
        let mut a3 = ZERO;
        proof {
            lemma_acc4(0, 0, 0, 0, 0, 0, 0, 0);
        }
        let mut k: usize = s;
        while k < e && e - k >= 4
            invariant
                s <= k,
                s <= e ==> k <= e,
                e < s ==> k == s,
                e <= ix.len(),
                ix == csr.flat@,
                flat@ == ix,
                csr_round_ok(csr, r as int),
                forall|l: int|
                    0 <= l < LANES ==> #[trigger] comb4(a0@[l], a1@[l], a2@[l], a3@[l]) == xor_range(
                        src@,
                        ix,
                        s as int,
                        k as int,
                        l,
                    ),
            decreases e - k,
        {
            let ghost (p0, p1, p2, p3) = (a0, a1, a2, a3);
            a0 = xor(a0, src[flat[k] as usize]);
            a1 = xor(a1, src[flat[k + 1] as usize]);
            a2 = xor(a2, src[flat[k + 2] as usize]);
            a3 = xor(a3, src[flat[k + 3] as usize]);
            proof {
                assert forall|l: int| 0 <= l < LANES implies #[trigger] comb4(
                    a0@[l],
                    a1@[l],
                    a2@[l],
                    a3@[l],
                ) == xor_range(src@, ix, s as int, k + 4, l) by {
                    lemma_acc4(
                        p0@[l],
                        p1@[l],
                        p2@[l],
                        p3@[l],
                        src@[ix[k as int] as int]@[l],
                        src@[ix[k + 1] as int]@[l],
                        src@[ix[k + 2] as int]@[l],
                        src@[ix[k + 3] as int]@[l],
                    );
                    assert(xor_range(src@, ix, s as int, k + 1, l) == xor_range(src@, ix, s as int, k as int, l) ^ src@[ix[k as int] as int]@[l]);
                    assert(xor_range(src@, ix, s as int, k + 2, l) == xor_range(src@, ix, s as int, k + 1, l) ^ src@[ix[k + 1] as int]@[l]);
                    assert(xor_range(src@, ix, s as int, k + 3, l) == xor_range(src@, ix, s as int, k + 2, l) ^ src@[ix[k + 2] as int]@[l]);
                    assert(xor_range(src@, ix, s as int, k + 4, l) == xor_range(src@, ix, s as int, k + 3, l) ^ src@[ix[k + 3] as int]@[l]);
                }
            }
            k = k + 4;
        }
        while k < e
            invariant
                s <= k,
                s <= e ==> k <= e,
                e < s ==> k == s,
                e <= ix.len(),
                ix == csr.flat@,
                flat@ == ix,
                csr_round_ok(csr, r as int),
                forall|l: int|
                    0 <= l < LANES ==> #[trigger] comb4(a0@[l], a1@[l], a2@[l], a3@[l]) == xor_range(
                        src@,
                        ix,
                        s as int,
                        k as int,
                        l,
                    ),
            decreases e - k,
        {
            let ghost p0 = a0;
            a0 = xor(a0, src[flat[k] as usize]);
            proof {
                assert forall|l: int| 0 <= l < LANES implies #[trigger] comb4(
                    a0@[l],
                    a1@[l],
                    a2@[l],
                    a3@[l],
                ) == xor_range(src@, ix, s as int, k + 1, l) by {
                    lemma_acc4(p0@[l], a1@[l], a2@[l], a3@[l], src@[ix[k as int] as int]@[l], 0, 0, 0);
                }
            }
            k = k + 1;
        }
        let acc = xor(xor(a0, a1), xor(a2, a3));
        proof {
            assert forall|l: int| 0 <= l < LANES implies #[trigger] acc@[l] == csr_out(
                csr,
                r as int,
                src@,
                j as int,
                l,
            ) by {
                assert(acc@[l] == comb4(a0@[l], a1@[l], a2@[l], a3@[l]));
                assert(xor_range(src@, ix, s as int, k as int, l) == xor_range(src@, ix, s as int, e as int, l));
            }
        }
        dst[j] = acc;
        j = j + 1;
    }
}

/// The CSR linear layer of matrix `r` with eight independent accumulators
/// per output, combined at the end.
pub fn linear_tight_d(csr: &Csr, r: usize, src: &[Slice; N], dst: &mut [Slice; N])
    requires
        csr_round_ok(csr, r as int),
    ensures
        forall|j: int, l: int|
            0 <= j < N && 0 <= l < LANES ==> #[trigger] final(dst)@[j]@[l] == csr_out(
                csr,
                r as int,
                src@,
                j,
                l,
            ),
{
    let flat = &csr.flat;
    let ghost ix = csr.flat@;
    let n_off = csr.off.len();
    let mut j: usize = 0;
    while j < N
        invariant
            0 <= j <= N,
            csr_round_ok(csr, r as int),
            n_off == csr.off@.len(),
            ix == csr.flat@,
            flat@ == ix,
            forall|q: int, l: int|
                0 <= q < j && 0 <= l < LANES ==> #[trigger] dst@[q]@[l] == csr_out(
                    csr,
                    r as int,
                    src@,
                    q,
                    l,
                ),
        decreases N - j,
    {
        proof {
            lemma_csr_bounds(csr, r as int, j as int);
        }
        let s = csr.off[r * N + j] as usize;
        let e = csr.off[r * N + j + 1] as usize;
        let mut a = [ZERO; 8];
        proof {
            lemma_acc4(0, 0, 0, 0, 0, 0, 0, 0);
            lemma_acc8(0, 0, 0, 0, 0, 0, 0, 0, 0, 0, 0, 0, 0, 0, 0, 0);
            assert forall|l: int| 0 <= l < LANES implies #[trigger] comb8(a, l) == 0u64 by {
                assert(a@[0]@[l] == 0 && a@[1]@[l] == 0 && a@[2]@[l] == 0 && a@[3]@[l] == 0);
                assert(a@[4]@[l] == 0 && a@[5]@[l] == 0 && a@[6]@[l] == 0 && a@[7]@[l] == 0);
            }
        }
        let mut k: usize = s;
        while k < e && e - k >= 8
            invariant
                s <= k,
                s <= e ==> k <= e,
                e < s ==> k == s,
                e <= ix.len(),
                ix == csr.flat@,
                flat@ == ix,
                csr_round_ok(csr, r as int),
                forall|l: int|
                    0 <= l < LANES ==> #[trigger] comb8(a, l) == xor_range(
                        src@,
                        ix,
                        s as int,
                        k as int,
                        l,
                    ),
            decreases e - k,
        {
            let ghost p = a;
            let n0 = xor(a[0], src[flat[k] as usize]);
            let n1 = xor(a[1], src[flat[k + 1] as usize]);
            let n2 = xor(a[2], src[flat[k + 2] as usize]);
            let n3 = xor(a[3], src[flat[k + 3] as usize]);
            let n4 = xor(a[4], src[flat[k + 4] as usize]);
            let n5 = xor(a[5], src[flat[k + 5] as usize]);
            let n6 = xor(a[6], src[flat[k + 6] as usize]);
            let n7 = xor(a[7], src[flat[k + 7] as usize]);
            a = [n0, n1, n2, n3, n4, n5, n6, n7];
            proof {
                assert forall|l: int| 0 <= l < LANES implies #[trigger] comb8(a, l) == xor_range(
                    src@,
                    ix,
                    s as int,
                    k + 8,
                    l,
                ) by {
                    assert(comb8(p, l) == xor_range(src@, ix, s as int, k as int, l));
                    assert(a@[0] == n0 && a@[1] == n1 && a@[2] == n2 && a@[3] == n3);
                    assert(a@[4] == n4 && a@[5] == n5 && a@[6] == n6 && a@[7] == n7);
                    assert(n0@[l] == p@[0]@[l] ^ src@[ix[k as int] as int]@[l]);
                    assert(n1@[l] == p@[1]@[l] ^ src@[ix[k + 1] as int]@[l]);
                    assert(n2@[l] == p@[2]@[l] ^ src@[ix[k + 2] as int]@[l]);
                    assert(n3@[l] == p@[3]@[l] ^ src@[ix[k + 3] as int]@[l]);
                    assert(n4@[l] == p@[4]@[l] ^ src@[ix[k + 4] as int]@[l]);
                    assert(n5@[l] == p@[5]@[l] ^ src@[ix[k + 5] as int]@[l]);
                    assert(n6@[l] == p@[6]@[l] ^ src@[ix[k + 6] as int]@[l]);
                    assert(n7@[l] == p@[7]@[l] ^ src@[ix[k + 7] as int]@[l]);
                    lemma_acc8(
                        p@[0]@[l],
                        p@[1]@[l],
                        p@[2]@[l],
                        p@[3]@[l],
                        p@[4]@[l],
                        p@[5]@[l],
                        p@[6]@[l],
                        p@[7]@[l],
                        src@[ix[k as int] as int]@[l],
                        src@[ix[k + 1] as int]@[l],
                        src@[ix[k + 2] as int]@[l],
                        src@[ix[k + 3] as int]@[l],
                        src@[ix[k + 4] as int]@[l],
                        src@[ix[k + 5] as int]@[l],
                        src@[ix[k + 6] as int]@[l],
                        src@[ix[k + 7] as int]@[l],
                    );
                    assert(xor_range(src@, ix, s as int, k + 1, l) == xor_range(src@, ix, s as int, k as int, l) ^ src@[ix[k as int] as int]@[l]);
                    assert(xor_range(src@, ix, s as int, k + 2, l) == xor_range(src@, ix, s as int, k + 1, l) ^ src@[ix[k + 1] as int]@[l]);
                    assert(xor_range(src@, ix, s as int, k + 3, l) == xor_range(src@, ix, s as int, k + 2, l) ^ src@[ix[k + 2] as int]@[l]);
                    assert(xor_range(src@, ix, s as int, k + 4, l) == xor_range(src@, ix, s as int, k + 3, l) ^ src@[ix[k + 3] as int]@[l]);
                    assert(xor_range(src@, ix, s as int, k + 5, l) == xor_range(src@, ix, s as int, k + 4, l) ^ src@[ix[k + 4] as int]@[l]);
                    assert(xor_range(src@, ix, s as int, k + 6, l) == xor_range(src@, ix, s as int, k + 5, l) ^ src@[ix[k + 5] as int]@[l]);
                    assert(xor_range(src@, ix, s as int, k + 7, l) == xor_range(src@, ix, s as int, k + 6, l) ^ src@[ix[k + 6] as int]@[l]);
                    assert(xor_range(src@, ix, s as int, k + 8, l) == xor_range(src@, ix, s as int, k + 7, l) ^ src@[ix[k + 7] as int]@[l]);
                }
            }
            k = k + 8;
        }
        while k < e
            invariant
                s <= k,
                s <= e ==> k <= e,
                e < s ==> k == s,
                e <= ix.len(),
                ix == csr.flat@,
                flat@ == ix,
                csr_round_ok(csr, r as int),
                forall|l: int|
                    0 <= l < LANES ==> #[trigger] comb8(a, l) == xor_range(
                        src@,
                        ix,
                        s as int,
                        k as int,
                        l,
                    ),
            decreases e - k,
        {
            let ghost p = a;
            let n0 = xor(a[0], src[flat[k] as usize]);
            a = [n0, a[1], a[2], a[3], a[4], a[5], a[6], a[7]];
            proof {
                assert forall|l: int| 0 <= l < LANES implies #[trigger] comb8(a, l) == xor_range(
                    src@,
                    ix,
                    s as int,
                    k + 1,
                    l,
                ) by {
                    assert(comb8(p, l) == xor_range(src@, ix, s as int, k as int, l));
                    assert(a@[0] == n0 && a@[1] == p@[1] && a@[2] == p@[2] && a@[3] == p@[3]);
                    assert(a@[4] == p@[4] && a@[5] == p@[5] && a@[6] == p@[6] && a@[7] == p@[7]);
                    assert(n0@[l] == p@[0]@[l] ^ src@[ix[k as int] as int]@[l]);
                    lemma_acc8(
                        p@[0]@[l],
                        p@[1]@[l],
                        p@[2]@[l],
                        p@[3]@[l],
                        p@[4]@[l],
                        p@[5]@[l],
                        p@[6]@[l],
                        p@[7]@[l],
                        src@[ix[k as int] as int]@[l],
                        0,
                        0,
                        0,
                        0,
                        0,
                        0,
                        0,
                    );
                }
            }
            k = k + 1;
        }
        let acc = xor(xor(xor(a[0], a[1]), xor(a[2], a[3])), xor(xor(a[4], a[5]), xor(a[6], a[7])));
        proof {
            assert forall|l: int| 0 <= l < LANES implies #[trigger] acc@[l] == csr_out(
                csr,
                r as int,
                src@,
                j as int,
                l,
            ) by {
                assert(acc@[l] == comb8(a, l));
                assert(xor_range(src@, ix, s as int, k as int, l) == xor_range(src@, ix, s as int, e as int, l));
            }
        }
        dst[j] = acc;
        j = j + 1;
    }
}

/// A backend for the linear layers, with the tables it reads.
pub enum Linear<'a> {
    /// Per-output index lists, one table per round ([`linear_v1`]).
    Gather(&'a Vec<Vec<Vec<u16>>>),
    /// CSR lists, one lane at a time ([`linear_tight_a`]).
    TightA(&'a Csr),
    /// CSR lists, whole slices ([`linear_tight_b`]).
    TightB(&'a Csr),
    /// CSR lists, four accumulators ([`linear_tight_c`]).
    TightC(&'a Csr),
    /// CSR lists, eight accumulators ([`linear_tight_d`]).
    TightD(&'a Csr),
}

/// The CSR table of a backend that reads one.
pub open spec fn linear_csr(lin: Linear) -> &Csr
    recommends
        !(lin is Gather),
{
    match lin {
        Linear::Gather(_) => arbitrary(),
        Linear::TightA(c) => c,
        Linear::TightB(c) => c,
        Linear::TightC(c) => c,
        Linear::TightD(c) => c,
    }
}

/// The tables of `lin` cover `R` rounds of `N` outputs, and every index
/// names a state bit.
pub open spec fn linear_ok(lin: Linear) -> bool {
    match lin {
        Linear::Gather(idx) => {
            &&& idx@.len() >= R
            &&& forall|r: int| 0 <= r < R ==> #[trigger] idx@[r]@.len() >= N
            &&& forall|r: int, j: int|
                0 <= r < R && 0 <= j < N ==> indices_below(
                    #[trigger] idx@[r]@[j]@,
                    0,
                    idx@[r]@[j]@.len() as int,
                    N as int,
                )
        },
        _ => forall|r: int| 0 <= r < R ==> #[trigger] csr_round_ok(linear_csr(lin), r),
    }
}

/// The list of state bits that output `j` of round `r` XORs together.
pub open spec fn linear_list(lin: Linear, r: int, j: int) -> Seq<u16> {
    match lin {
        Linear::Gather(idx) => idx@[r]@[j]@,
        _ => csr_list(linear_csr(lin), r * N + j),
    }
}

/// The linear layer of round `r` on one block.
pub open spec fn table_bits(lin: Linear, r: int, s: Seq<bool>) -> Seq<bool> {
    Seq::new(N as nat, |j: int| sel_range(s, linear_list(lin, r, j), 0, linear_list(lin, r, j).len() as int))
}

/// Output `j` of a linear backend, read on block `blk`.
proof fn lemma_linear_out(src: Seq<Slice>, ix: Seq<u16>, a: int, b: int, d: Slice, blk: int)
    requires
        0 <= blk < W,
        0 <= a <= b <= ix.len(),
        indices_below(ix, a, b, src.len() as int),
        forall|l: int| 0 <= l < LANES ==> #[trigger] d@[l] == xor_range(src, ix, a, b, l),
    ensures
        slice_bit(d, blk) == sel_range(block_bits(src, blk), ix.subrange(a, b), 0, b - a),
{
    lemma_xor_range_bits(src, ix, a, b, blk);
    lemma_sel_range_sub(block_bits(src, blk), ix, a, b);
    assert(d@[blk / 64] == xor_range(src, ix, a, b, blk / 64));
}

/// One linear layer with the chosen backend: every block goes through the
/// linear layer of round `r` that the backend's tables give.
pub fn apply_linear(lin: &Linear, r: usize, src: &[Slice; N], dst: &mut [Slice; N])
    requires
        linear_ok(*lin),
        r < R,
    ensures
        forall|blk: int|
            0 <= blk < W ==> #[trigger] block_bits(final(dst)@, blk) == table_bits(
                *lin,
                r as int,
                block_bits(src@, blk),
            ),
{
    match lin {
        Linear::Gather(idx) => {
            linear_v1(idx[r].as_slice(), src, dst);
            proof {
                assert forall|blk: int| 0 <= blk < W implies #[trigger] block_bits(dst@, blk)
                    == table_bits(*lin, r as int, block_bits(src@, blk)) by {
                    assert forall|j: int| 0 <= j < N implies block_bits(dst@, blk)[j] == table_bits(
                        *lin,
                        r as int,
                        block_bits(src@, blk),
                    )[j] by {
                        let ix = idx@[r as int]@[j]@;
                        lemma_linear_out(src@, ix, 0, ix.len() as int, dst@[j], blk);
                        assert(ix.subrange(0, ix.len() as int) =~= ix);
                    }
                    assert(block_bits(dst@, blk) =~= table_bits(*lin, r as int, block_bits(src@, blk)));
                }
            }
        },
        Linear::TightA(c) => {
            proof {
                assert(linear_csr(*lin) == c);
                assert(csr_round_ok(linear_csr(*lin), r as int));
            }
            linear_tight_a(c, r, src, dst);
            proof {
                lemma_csr_table(*lin, r as int, src@, dst@);
            }
        },
        Linear::TightB(c) => {
            proof {
                assert(linear_csr(*lin) == c);
                assert(csr_round_ok(linear_csr(*lin), r as int));
            }
            linear_tight_b(c, r, src, dst);
            proof {
                lemma_csr_table(*lin, r as int, src@, dst@);
            }
        },
        Linear::TightC(c) => {
            proof {
                assert(linear_csr(*lin) == c);
                assert(csr_round_ok(linear_csr(*lin), r as int));
            }
            linear_tight_c(c, r, src, dst);
            proof {
                lemma_csr_table(*lin, r as int, src@, dst@);
            }
        },
        Linear::TightD(c) => {
            proof {
                assert(linear_csr(*lin) == c);
                assert(csr_round_ok(linear_csr(*lin), r as int));
            }
            linear_tight_d(c, r, src, dst);
            proof {
                lemma_csr_table(*lin, r as int, src@, dst@);
            }
        },
    }
}

/// The outputs of a CSR backend, read block by block, are the table's
/// linear layer.
proof fn lemma_csr_table(lin: Linear, r: int, src: Seq<Slice>, dst: Seq<Slice>)
    requires
        0 <= r < R,
        !(lin is Gather),
        linear_ok(lin),
        src.len() == N,
        dst.len() == N,
        forall|j: int, l: int|
            0 <= j < N && 0 <= l < LANES ==> #[trigger] dst[j]@[l] == csr_out(linear_csr(lin), r, src, j, l),
    ensures
        forall|blk: int|
            0 <= blk < W ==> #[trigger] block_bits(dst, blk) == table_bits(lin, r, block_bits(src, blk)),
{
    let c = linear_csr(lin);
    assert forall|blk: int| 0 <= blk < W implies #[trigger] block_bits(dst, blk)
        == table_bits(lin, r, block_bits(src, blk)) by {
        assert forall|j: int| 0 <= j < N implies block_bits(dst, blk)[j] == table_bits(
            lin,
            r,
            block_bits(src, blk),
        )[j] by {
            assert(csr_round_ok(c, r));
            lemma_csr_bounds(c, r, j);
            let a = c.off@[r * N + j] as int;
            let b = c.off@[r * N + j + 1] as int;
            if a <= b {
                lemma_linear_out(src, c.flat@, a, b, dst[j], blk);
            } else {
                assert(dst[j]@[blk / 64] == 0u64);
                lemma_lane_ops(0, 0, (blk % 64) as u64);
            }
        }
        assert(block_bits(dst, blk) =~= table_bits(lin, r, block_bits(src, blk)));
    }
}

/// The round constants as bits, as block `blk` of the bitsliced constants
/// sees them.
pub open spec fn rc_blocks(rc: Seq<[Slice; N]>, blk: int) -> Seq<Seq<bool>> {
    Seq::new(rc.len(), |r: int| block_bits(rc[r]@, blk))
}

/// One block after `n` rounds of the bitsliced permutation: S-box layer,
/// the backend's linear layer of the round, then the round constant.
pub open spec fn lin_after(lin: Linear, rcb: Seq<Seq<bool>>, s: Seq<bool>, n: nat) -> Seq<bool>
    decreases n,
{
    if n == 0 {
        s
    } else {
        let p = lin_after(lin, rcb, s, (n - 1) as nat);
        xor_bits(table_bits(lin, n - 1, sbox_layer_bits(p)), rcb[n - 1])
    }
}

/// The bitsliced permutation: `R` rounds on all `W` blocks of `st0` at
/// once, with the linear layers of the chosen backend and the bitsliced
/// round constants `rc`.
pub fn perm(st0: &[Slice; N], rc: &[[Slice; N]], lin: Linear, out: &mut [Slice; N])
    requires
        rc@.len() >= R,
        linear_ok(lin),
    ensures
        forall|blk: int|
            0 <= blk < W ==> #[trigger] block_bits(final(out)@, blk) == lin_after(
                lin,
                rc_blocks(rc@, blk),
                block_bits(st0@, blk),
                R as nat,
            ),
{
    let mut cur = *st0;
    let mut nxt = [ZERO; N];
    let mut round: usize = 0;
    while round < R
        invariant
            0 <= round <= R,
            rc@.len() >= R,
            linear_ok(lin),
            forall|blk: int|
                0 <= blk < W ==> #[trigger] block_bits(cur@, blk) == lin_after(
                    lin,
                    rc_blocks(rc@, blk),
                    block_bits(st0@, blk),
                    round as nat,
                ),
        decreases R - round,
    {
        let ghost before = cur@;
        sbox_bs(&mut cur);
        apply_linear(&lin, round, &cur, &mut nxt);
        let ghost lin_out = nxt@;
        let k = &rc[round];
        let mut j: usize = 0;
        while j < N
            invariant
                0 <= j <= N,
                round < R,
                k == rc@[round as int],
                forall|q: int, l: int|
                    0 <= q < N && 0 <= l < LANES ==> #[trigger] nxt@[q]@[l] == if q < j {
                        lin_out[q]@[l] ^ k@[q]@[l]
                    } else {
                        lin_out[q]@[l]
                    },
            decreases N - j,
        {
            nxt[j] = xor(nxt[j], k[j]);
            j = j + 1;
        }
        proof {
            assert forall|blk: int| 0 <= blk < W implies #[trigger] block_bits(nxt@, blk)
                == lin_after(lin, rc_blocks(rc@, blk), block_bits(st0@, blk), (round + 1) as nat) by {
                assert forall|q: int| 0 <= q < N implies block_bits(nxt@, blk)[q] == xor_bits(
                    block_bits(lin_out, blk),
                    block_bits(k@, blk),
                )[q] by {
                    lemma_slice_xor(lin_out[q], k@[q], nxt@[q], blk);
                }
                assert(block_bits(nxt@, blk) =~= xor_bits(block_bits(lin_out, blk), block_bits(k@, blk)));
                assert(rc_blocks(rc@, blk)[round as int] == block_bits(k@, blk));
                assert(block_bits(before, blk) == lin_after(
                    lin,
                    rc_blocks(rc@, blk),
                    block_bits(st0@, blk),
                    round as nat,
                ));
            }
        }
        core::mem::swap(&mut cur, &mut nxt);
        round = round + 1;
    }
    *out = cur;
}

// ───────────────────────── scalar one-block reference ─────────────────────────

/// Reading, clearing and setting one bit of a word.
pub proof fn lemma_word_bit_ops(a: u64, v: u64, m: u64, i: u64)
    by (bit_vector)
    requires
        m < 64,
        i < 64,
    ensures
        lane((a & !(1u64 << m)) | ((v & 1u64) << m), i) == if i == m {
            v & 1u64 == 1u64
        } else {
            lane(a, i)
        },
        lane(a | (1u64 << m), i) == (i == m || lane(a, i)),
        (a >> m) & 1u64 <= 1,
        ((a >> m) & 1u64 == 1u64) == lane(a, m),
        lane((a >> m) & 1u64, 0) == lane(a, m),
        (a & 1u64 == 1u64) == lane(a, 0),
        a & 1u64 <= 1,
{
}

/// The S-box formulas on bits held in words.
pub proof fn lemma_sbox3_u64(a: u64, b: u64, c: u64)
    by (bit_vector)
    requires
        a <= 1,
        b <= 1,
        c <= 1,
    ensures
        ((a ^ (b & c)) & 1u64 == 1u64) == ((a == 1) != (b == 1 && c == 1)),
        ((a ^ b ^ (a & c)) & 1u64 == 1u64) == (((a == 1) != (b == 1)) != (a == 1 && c == 1)),
        ((a ^ b ^ c ^ (a & b)) & 1u64 == 1u64) == ((((a == 1) != (b == 1)) != (c == 1)) != (a
            == 1 && b == 1)),
{
}

/// Bit `k` of a two-word value, as 0 or 1.
pub fn get(x: &[u64; 2], k: usize) -> (b: u64)
    requires
        k < 128,
    ensures
        b == if bits2(*x)[k as int] {
            1u64
        } else {
            0u64
        },
{
    proof {
        lemma_word_bit_ops(x@[(k / 64) as int], 0, (k % 64) as u64, 0);
    }
    (x[k / 64] >> ((k % 64) as u64)) & 1
}

/// Set bit `k` of a two-word value to the low bit of `v`.
pub fn set(x: &mut [u64; 2], k: usize, v: u64)
    requires
        k < 128,
    ensures
        bits2(*final(x)) == bits2(*old(x)).update(k as int, v & 1u64 == 1u64),
{
    let w = k / 64;
    let sh = (k % 64) as u64;
    let m = 1u64 << sh;
    let ghost a = x@[w as int];
    x[w] = (x[w] & !m) | ((v & 1) << sh);
    proof {
        assert forall|i: int| 0 <= i < 128 implies #[trigger] bits2(*x)[i] == bits2(*old(x)).update(
            k as int,
            v & 1u64 == 1u64,
        )[i] by {
            lemma_word_bit_ops(a, v, sh, (i % 64) as u64);
        }
        assert(bits2(*x) =~= bits2(*old(x)).update(k as int, v & 1u64 == 1u64));
    }
}

/// The partial S-box layer on one two-word block.
pub fn sbox_scalar(x: &mut [u64; 2])
    ensures
        bits2(*final(x)) == sbox_layer_bits(bits2(*old(x))),
{
    let ghost s0 = bits2(*x);
    let mut j: usize = 0;
    while j < M
        invariant
            0 <= j <= M,
            s0.len() == 128,
            bits2(*x) == sbox_layer_upto(s0, j as int),
        decreases M - j,
    {
        let ghost prev = bits2(*x);
        let a = get(x, 3 * j + 2);
        let b = get(x, 3 * j + 1);
        let c = get(x, 3 * j);
        let na = a ^ (b & c);
        let nb = a ^ b ^ (a & c);
        let nc = a ^ b ^ c ^ (a & b);
        proof {
            lemma_sbox3_u64(a, b, c);
            let t0 = 3 * (j as int);
            assert(prev[t0] == s0[t0]);
            assert(prev[t0 + 1] == s0[t0 + 1]);
            assert(prev[t0 + 2] == s0[t0 + 2]);
        }
        set(x, 3 * j + 2, na);
        set(x, 3 * j + 1, nb);
        set(x, 3 * j, nc);
        proof {
            let t0 = 3 * (j as int);
            assert forall|k: int| 0 <= k < 128 implies bits2(*x)[k] == sbox_layer_upto(
                s0,
                (j + 1) as int,
            )[k] by {
                assert(prev[k] == sbox_layer_upto(s0, j as int)[k]);
                if t0 <= k < t0 + 3 {
                    assert(k / 3 == j);
                }
            }
            assert(bits2(*x) =~= sbox_layer_upto(s0, (j + 1) as int));
        }
        j = j + 1;
    }
    proof {
        assert(sbox_layer_upto(s0, M as int) =~= sbox_layer_bits(s0));
    }
}

/// The number of set bits of `x` among its low `n` bits.
pub open spec fn ones64(x: u64, n: nat) -> nat
    decreases n,
{
    if n == 0 {
        0
    } else {
        ones64(x, (n - 1) as nat) + (if lane(x, (n - 1) as u64) {
            1nat
        } else {
            0nat
        })
    }
}

/// The number of ones in the binary representation of `x`, bit by bit.
fn count_ones_u64(x: u64) -> (r: u32)
    ensures
        r as nat == ones64(x, 64),
{
    let mut c: u32 = 0;
    let mut i: u64 = 0;
    while i < 64
        invariant
            0 <= i <= 64,
            c as nat == ones64(x, i as nat),
            c <= i,
        decreases 64 - i,
    {
        if (x >> i) & 1 == 1 {
            c = c + 1;
        }
        i = i + 1;
    }
    c
}

/// The XOR of the low `n` bits of `x`.
pub open spec fn word_parity(x: u64, n: nat) -> bool
    decreases n,
{
    if n == 0 {
        false
    } else {
        word_parity(x, (n - 1) as nat) != lane(x, (n - 1) as u64)
    }
}

/// A count of set bits is odd exactly when their XOR is set.
pub proof fn lemma_ones_word_parity(x: u64, n: nat)
    ensures
        (ones64(x, n) % 2 == 1) == word_parity(x, n),
    decreases n,
{
    if n > 0 {
        lemma_ones_word_parity(x, (n - 1) as nat);
    }
}

/// The parity of a XOR of words is the XOR of their parities.
pub proof fn lemma_word_parity_xor(a: u64, b: u64, n: nat)
    requires
        n <= 64,
    ensures
        word_parity(a ^ b, n) == (word_parity(a, n) != word_parity(b, n)),
    decreases n,
{
    if n > 0 {
        lemma_word_parity_xor(a, b, (n - 1) as nat);
        lemma_lane_ops(a, b, (n - 1) as u64);
    }
}

/// The parity of the bits of a two-word `x` that `row` selects, split by
/// word.
pub proof fn lemma_parity_words(row: [u64; 2], x: [u64; 2], n: nat)
    requires
        n <= 128,
    ensures
        parity(bits2(row), bits2(x), n) == if n <= 64 {
            word_parity(row@[0] & x@[0], n)
        } else {
            word_parity(row@[0] & x@[0], 64) != word_parity(row@[1] & x@[1], (n - 64) as nat)
        },
    decreases n,
{
    if n > 0 {
        lemma_parity_words(row, x, (n - 1) as nat);
        let k = n - 1;
        if k < 64 {
            lemma_lane_ops(row@[0], x@[0], k as u64);
            assert(bits2(row)[k] == lane(row@[0], k as u64));
            assert(bits2(x)[k] == lane(x@[0], k as u64));
        } else {
            lemma_lane_ops(row@[1], x@[1], (k - 64) as u64);
            assert(bits2(row)[k] == lane(row@[1], (k - 64) as u64));
            assert(bits2(x)[k] == lane(x@[1], (k - 64) as u64));
            assert(word_parity(row@[1] & x@[1], (n - 64) as nat) == (word_parity(
                row@[1] & x@[1],
                (k - 64) as nat,
            ) != lane(row@[1] & x@[1], (k - 64) as u64)));
        }
    }
}

/// GF(2) matrix-vector product on two-word values: bit `j` of the result
/// is the parity of the bits of `x` that row `j` selects.
pub fn matvec(rows: &[[u64; 2]; N], x: &[u64; 2]) -> (out: [u64; 2])
    ensures
        bits2(out) == linear_bits(rows2(rows@), bits2(*x)),
{
    let mut out = [0u64; 2];
    proof {
        assert forall|i: int| 0 <= i < 128 implies !#[trigger] bits2(out)[i] by {
            lemma_lane_ops(0, 0, (i % 64) as u64);
        }
    }
    let mut j: usize = 0;
    while j < N
        invariant
            0 <= j <= N,
            forall|q: int| 0 <= q < j ==> #[trigger] bits2(out)[q] == parity(
                bits2(rows@[q]),
                bits2(*x),
                128,
            ),
            forall|q: int| j <= q < 128 ==> !#[trigger] bits2(out)[q],
        decreases N - j,
    {
        let p = (rows[j][0] & x[0]) ^ (rows[j][1] & x[1]);
        let cnt = count_ones_u64(p);
        proof {
            lemma_low_bit(cnt);
            lemma_ones_word_parity(p, 64);
            lemma_word_parity_xor(rows@[j as int]@[0] & x@[0], rows@[j as int]@[1] & x@[1], 64);
            lemma_parity_words(rows@[j as int], *x, 128);
        }
        if cnt & 1 == 1 {
            let ghost prev = out;
            let w = j / 64;
            let sh = (j % 64) as u64;
            out[w] |= 1u64 << sh;
            proof {
                assert forall|i: int| 0 <= i < 128 implies #[trigger] bits2(out)[i] == (i == j
                    || bits2(prev)[i]) by {
                    lemma_word_bit_ops(prev@[w as int], 0, sh, (i % 64) as u64);
                }
            }
        }
        j = j + 1;
    }
    proof {
        assert(bits2(out) =~= linear_bits(rows2(rows@), bits2(*x)));
    }
    out
}

/// Word-wise XOR of two-word values is XOR of their bits.
pub proof fn lemma_bits2_xor(a: [u64; 2], b: [u64; 2], c: [u64; 2])
    requires
        c@[0] == a@[0] ^ b@[0],
        c@[1] == a@[1] ^ b@[1],
    ensures
        bits2(c) == xor_bits(bits2(a), bits2(b)),
{
    assert forall|i: int| 0 <= i < 128 implies #[trigger] bits2(c)[i] == xor_bits(
        bits2(a),
        bits2(b),
    )[i] by {
        lemma_lane_ops(a@[i / 64], b@[i / 64], (i % 64) as u64);
    }
    assert(bits2(c) =~= xor_bits(bits2(a), bits2(b)));
}

/// One block after `n` rounds of the scalar permutation: S-box layer, the
/// round's matrix, then the round constant.
pub open spec fn scalar_after(
    mats: Seq<[[u64; 2]; N]>,
    rcs: Seq<[u64; 2]>,
    s: Seq<bool>,
    n: nat,
) -> Seq<bool>
    decreases n,
{
    if n == 0 {
        s
    } else {
        let p = scalar_after(mats, rcs, s, (n - 1) as nat);
        xor_bits(linear_bits(rows2(mats[n - 1]@), sbox_layer_bits(p)), bits2(rcs[n - 1]))
    }
}

/// The permutation on one two-word block, round by round.
pub fn perm_scalar(mats: &[[[u64; 2]; N]], rcs: &[[u64; 2]], x0: &[u64; 2]) -> (x: [u64; 2])
    requires
        mats@.len() >= R,
        rcs@.len() >= R,
    ensures
        bits2(x) == scalar_after(mats@, rcs@, bits2(*x0), R as nat),
{
    let mut x = *x0;
    let mut r: usize = 0;
    while r < R
        invariant
            0 <= r <= R,
            mats@.len() >= R,
            rcs@.len() >= R,
            bits2(x) == scalar_after(mats@, rcs@, bits2(*x0), r as nat),
        decreases R - r,
    {
        sbox_scalar(&mut x);
        x = matvec(&mats[r], &x);
        let ghost y = x;
        x[0] ^= rcs[r][0];
        x[1] ^= rcs[r][1];
        proof {
            lemma_bits2_xor(y, rcs@[r as int], x);
        }
        r = r + 1;
    }
    x
}

/// The lists of `lin` are the index lists of the matrices `mats`: list `j`
/// of round `r` holds the positions of the set bits of row `j` of
/// `mats[r]`.
pub open spec fn tables_of(lin: Linear, mats: Seq<[[u64; 2]; N]>) -> bool {
    forall|r: int, j: int|
        0 <= r < R && 0 <= j < N ==> #[trigger] linear_list(lin, r, j) == set_positions(
            bits2(mats[r]@[j]),
            128,
        )
}

/// `rc` is the bitsliced form of the round constants `rcs`.
pub open spec fn expands(rc: Seq<[Slice; N]>, rcs: Seq<[u64; 2]>) -> bool {
    forall|r: int, j: int, l: int|
        0 <= r < R && 0 <= j < N && 0 <= l < LANES ==> #[trigger] rc[r]@[j]@[l] == (if bits2(
            rcs[r],
        )[j] {
            u64::MAX
        } else {
            0u64
        })
}

/// A backend's linear layer over the index lists of a matrix is the
/// matrix-vector product.
pub proof fn lemma_table_is_matrix(lin: Linear, mats: Seq<[[u64; 2]; N]>, r: int, t: Seq<bool>)
    requires
        0 <= r < R,
        r < mats.len(),
        tables_of(lin, mats),
    ensures
        table_bits(lin, r, t) == linear_bits(rows2(mats[r]@), t),
{
    assert forall|j: int| 0 <= j < N implies table_bits(lin, r, t)[j] == linear_bits(
        rows2(mats[r]@),
        t,
    )[j] by {
        assert(linear_list(lin, r, j) == set_positions(bits2(mats[r]@[j]), 128));
        lemma_sel_positions(bits2(mats[r]@[j]), t, 128);
    }
    assert(table_bits(lin, r, t) =~= linear_bits(rows2(mats[r]@), t));
}

/// Every block of the bitsliced round constants sees the constants.
pub proof fn lemma_rc_blocks(rc: Seq<[Slice; N]>, rcs: Seq<[u64; 2]>, r: int, blk: int)
    requires
        0 <= r < R,
        r < rc.len(),
        0 <= blk < W,
        expands(rc, rcs),
    ensures
        rc_blocks(rc, blk)[r] == bits2(rcs[r]),
{
    assert forall|j: int| 0 <= j < N implies rc_blocks(rc, blk)[r][j] == bits2(rcs[r])[j] by {
        let l = blk / 64;
        assert(rc[r]@[j]@[l] == (if bits2(rcs[r])[j] { u64::MAX } else { 0u64 }));
        lemma_lane_ops(0, u64::MAX, (blk % 64) as u64);
    }
    assert(rc_blocks(rc, blk)[r] =~= bits2(rcs[r]));
}

/// Bitsliced and scalar permutation agree round by round on every block,
/// when the backend's lists and the bitsliced constants are built from the
/// same matrices and constants.
pub proof fn lemma_rounds_agree(
    lin: Linear,
    mats: Seq<[[u64; 2]; N]>,
    rc: Seq<[Slice; N]>,
    rcs: Seq<[u64; 2]>,
    s: Seq<bool>,
    blk: int,
    n: nat,
)
    requires
        n <= R,
        mats.len() >= R,
        rc.len() >= R,
        rcs.len() >= R,
        tables_of(lin, mats),
        expands(rc, rcs),
        0 <= blk < W,
    ensures
        lin_after(lin, rc_blocks(rc, blk), s, n) == scalar_after(mats, rcs, s, n),
    decreases n,
{
    if n > 0 {
        lemma_rounds_agree(lin, mats, rc, rcs, s, blk, (n - 1) as nat);
        let p = scalar_after(mats, rcs, s, (n - 1) as nat);
        lemma_table_is_matrix(lin, mats, n - 1, sbox_layer_bits(p));
        lemma_rc_blocks(rc, rcs, n - 1, blk);
    }
}

/// The bitsliced permutation computes, on every block, the scalar
/// permutation of that block: for any backend whose lists are the index
/// lists of `mats`, with the bitsliced form of `rcs` as constants.
pub proof fn lemma_bitsliced_matches_scalar(
    lin: Linear,
    mats: Seq<[[u64; 2]; N]>,
    rc: Seq<[Slice; N]>,
    rcs: Seq<[u64; 2]>,
    s: Seq<bool>,
    blk: int,
)
    requires
        mats.len() >= R,
        rc.len() >= R,
        rcs.len() >= R,
        tables_of(lin, mats),
        expands(rc, rcs),
        0 <= blk < W,
    ensures
        lin_after(lin, rc_blocks(rc, blk), s, R as nat) == scalar_after(mats, rcs, s, R as nat),
{
    lemma_rounds_agree(lin, mats, rc, rcs, s, blk, R as nat);
}

/// Two words with the same bits are equal.
pub proof fn lemma_word_eq(a: u64, b: u64)
    requires
        forall|m: u64| m < 64 ==> #[trigger] lane(a, m) == lane(b, m),
    ensures
        a == b,
{
    assert(a == b) by (bit_vector)
        requires
            lane(a, 0u64) == lane(b, 0u64),
            lane(a, 1u64) == lane(b, 1u64),
            lane(a, 2u64) == lane(b, 2u64),
            lane(a, 3u64) == lane(b, 3u64),
            lane(a, 4u64) == lane(b, 4u64),
            lane(a, 5u64) == lane(b, 5u64),
            lane(a, 6u64) == lane(b, 6u64),
            lane(a, 7u64) == lane(b, 7u64),
            lane(a, 8u64) == lane(b, 8u64),
            lane(a, 9u64) == lane(b, 9u64),
            lane(a, 10u64) == lane(b, 10u64),
            lane(a, 11u64) == lane(b, 11u64),
            lane(a, 12u64) == lane(b, 12u64),
            lane(a, 13u64) == lane(b, 13u64),
            lane(a, 14u64) == lane(b, 14u64),
            lane(a, 15u64) == lane(b, 15u64),
            lane(a, 16u64) == lane(b, 16u64),
            lane(a, 17u64) == lane(b, 17u64),
            lane(a, 18u64) == lane(b, 18u64),
            lane(a, 19u64) == lane(b, 19u64),
            lane(a, 20u64) == lane(b, 20u64),
            lane(a, 21u64) == lane(b, 21u64),
            lane(a, 22u64) == lane(b, 22u64),
            lane(a, 23u64) == lane(b, 23u64),
            lane(a, 24u64) == lane(b, 24u64),
            lane(a, 25u64) == lane(b, 25u64),
            lane(a, 26u64) == lane(b, 26u64),
            lane(a, 27u64) == lane(b, 27u64),
            lane(a, 28u64) == lane(b, 28u64),
            lane(a, 29u64) == lane(b, 29u64),
            lane(a, 30u64) == lane(b, 30u64),
            lane(a, 31u64) == lane(b, 31u64),
            lane(a, 32u64) == lane(b, 32u64),
            lane(a, 33u64) == lane(b, 33u64),
            lane(a, 34u64) == lane(b, 34u64),
            lane(a, 35u64) == lane(b, 35u64),
            lane(a, 36u64) == lane(b, 36u64),
            lane(a, 37u64) == lane(b, 37u64),
            lane(a, 38u64) == lane(b, 38u64),
            lane(a, 39u64) == lane(b, 39u64),
            lane(a, 40u64) == lane(b, 40u64),
            lane(a, 41u64) == lane(b, 41u64),
            lane(a, 42u64) == lane(b, 42u64),
            lane(a, 43u64) == lane(b, 43u64),
            lane(a, 44u64) == lane(b, 44u64),
            lane(a, 45u64) == lane(b, 45u64),
            lane(a, 46u64) == lane(b, 46u64),
            lane(a, 47u64) == lane(b, 47u64),
            lane(a, 48u64) == lane(b, 48u64),
            lane(a, 49u64) == lane(b, 49u64),
            lane(a, 50u64) == lane(b, 50u64),
            lane(a, 51u64) == lane(b, 51u64),
            lane(a, 52u64) == lane(b, 52u64),
            lane(a, 53u64) == lane(b, 53u64),
            lane(a, 54u64) == lane(b, 54u64),
            lane(a, 55u64) == lane(b, 55u64),
            lane(a, 56u64) == lane(b, 56u64),
            lane(a, 57u64) == lane(b, 57u64),
            lane(a, 58u64) == lane(b, 58u64),
            lane(a, 59u64) == lane(b, 59u64),
            lane(a, 60u64) == lane(b, 60u64),
            lane(a, 61u64) == lane(b, 61u64),
            lane(a, 62u64) == lane(b, 62u64),
            lane(a, 63u64) == lane(b, 63u64),
    ;
}

/// Block 0 of the bitsliced state `o` is the two-word value `exp`.
pub fn agrees_with(o: &[Slice; N], exp: &[u64; 2]) -> (b: bool)
    ensures
        b == (block_bits(o@, 0) == bits2(*exp)),
{
    let mut j: usize = 0;
    while j < N
        invariant
            0 <= j <= N,
            forall|q: int| 0 <= q < j ==> #[trigger] block_bits(o@, 0)[q] == bits2(*exp)[q],
        decreases N - j,
    {
        proof {
            lemma_word_bit_ops(o@[j as int]@[0], 0, 0, 0);
            lemma_word_bit_ops(exp@[(j / 64) as int], 0, (j % 64) as u64, 0);
        }
        if (o[j][0] & 1) != ((exp[j / 64] >> ((j % 64) as u64)) & 1) {
            proof {
                assert(block_bits(o@, 0)[j as int] != bits2(*exp)[j as int]);
            }
            return false;
        }
        j = j + 1;
    }
    proof {
        assert(block_bits(o@, 0) =~= bits2(*exp));
    }
    true
}

/// Two bitsliced states are equal, word for word.
pub fn same_state(a: &[Slice; N], b: &[Slice; N]) -> (r: bool)
    ensures
        r == (forall|j: int, l: int| 0 <= j < N && 0 <= l < LANES ==> #[trigger] a@[j]@[l] == b@[j]@[l]),
{
    let mut j: usize = 0;
    while j < N
        invariant
            0 <= j <= N,
            forall|q: int, l: int| 0 <= q < j && 0 <= l < LANES ==> #[trigger] a@[q]@[l] == b@[q]@[l],
        decreases N - j,
    {
        let mut l: usize = 0;
        while l < LANES
            invariant
                0 <= l <= LANES,
                j < N,
                forall|q: int, m: int| 0 <= q < j && 0 <= m < LANES ==> #[trigger] a@[q]@[m] == b@[q]@[m],
                forall|m: int| 0 <= m < l ==> #[trigger] a@[j as int]@[m] == b@[j as int]@[m],
            decreases LANES - l,
        {
            if a[j][l] != b[j][l] {
                return false;
            }
            l = l + 1;
        }
        j = j + 1;
    }
    true
}

/// Bitsliced states whose blocks all agree are equal.
pub proof fn lemma_blocks_equal(a: [Slice; N], b: [Slice; N])
    requires
        forall|blk: int| 0 <= blk < W ==> #[trigger] block_bits(a@, blk) == block_bits(b@, blk),
    ensures
        forall|j: int, l: int| 0 <= j < N && 0 <= l < LANES ==> #[trigger] a@[j]@[l] == b@[j]@[l],
{
    assert forall|j: int, l: int| 0 <= j < N && 0 <= l < LANES implies #[trigger] a@[j]@[l]
        == b@[j]@[l] by {
        assert forall|m: u64| m < 64 implies #[trigger] lane(a@[j]@[l], m) == lane(b@[j]@[l], m) by {
            let blk = 64 * l + m;
            assert(block_bits(a@, blk)[j] == block_bits(b@, blk)[j]);
            assert(blk / 64 == l && blk % 64 == m);
        }
        lemma_word_eq(a@[j]@[l], b@[j]@[l]);
    }
}

/// The state holding the single block `x0` as block 0: bit `j` of `x0` in
/// lane 0 of slice `j`, every other block zero.
pub fn load_block(x0: &[u64; 2]) -> (inp: [Slice; N])
    ensures
        block_bits(inp@, 0) == bits2(*x0),
        forall|j: int, l: int| 0 <= j < N && 0 <= l < LANES ==> #[trigger] inp@[j]@[l] == if l == 0 {
            (x0@[j / 64] >> ((j % 64) as u64)) & 1u64
        } else {
            0u64
        },
{
    let mut inp = [ZERO; N];
    let mut j: usize = 0;
    while j < N
        invariant
            0 <= j <= N,
            forall|q: int, l: int| 0 <= q < N && 0 <= l < LANES ==> #[trigger] inp@[q]@[l] == if l == 0 && q < j {
                (x0@[q / 64] >> ((q % 64) as u64)) & 1u64
            } else {
                0u64
            },
        decreases N - j,
    {
        inp[j][0] = (x0[j / 64] >> ((j % 64) as u64)) & 1;
        j = j + 1;
    }
    proof {
        assert forall|q: int| 0 <= q < N implies block_bits(inp@, 0)[q] == bits2(*x0)[q] by {
            lemma_word_bit_ops(x0@[q / 64], 0, (q % 64) as u64, 0);
        }
        assert(block_bits(inp@, 0) =~= bits2(*x0));
    }
    inp
}

/// Runs the bitsliced permutation with a backend built from `mats`: every
/// block of the output is the scalar permutation of that block.
fn run_backend(
    inp: &[Slice; N],
    rc: &[[Slice; N]],
    lin: Linear,
    Ghost(mats): Ghost<Seq<[[u64; 2]; N]>>,
    Ghost(rcs): Ghost<Seq<[u64; 2]>>,
) -> (o: [Slice; N])
    requires
        mats.len() >= R,
        rc@.len() >= R,
        rcs.len() >= R,
        linear_ok(lin),
        tables_of(lin, mats),
        expands(rc@, rcs),
    ensures
        forall|blk: int|
            0 <= blk < W ==> #[trigger] block_bits(o@, blk) == scalar_after(
                mats,
                rcs,
                block_bits(inp@, blk),
                R as nat,
            ),
{
    let mut o = [ZERO; N];
    perm(inp, rc, lin, &mut o);
    proof {
        assert forall|blk: int| 0 <= blk < W implies #[trigger] block_bits(o@, blk) == scalar_after(
            mats,
            rcs,
            block_bits(inp@, blk),
            R as nat,
        ) by {
            lemma_bitsliced_matches_scalar(lin, mats, rc@, rcs, block_bits(inp@, blk), blk);
        }
    }
    o
}

/// The index lists of `mats` as a gather table are usable, and are the
/// lists of the matrices.
proof fn lemma_gather_tables(idx: &Vec<Vec<Vec<u16>>>, mats: Seq<[[u64; 2]; N]>)
    requires
        mats.len() == R,
        idx@.len() == mats.len(),
        forall|r: int| 0 <= r < mats.len() ==> #[trigger] idx@[r]@.len() == N,
        forall|r: int, j: int|
            0 <= r < mats.len() && 0 <= j < N ==> #[trigger] idx@[r]@[j]@ == set_positions(
                bits2(mats[r]@[j]),
                128,
            ),
        forall|r: int, j: int|
            0 <= r < mats.len() && 0 <= j < N ==> indices_below(
                #[trigger] idx@[r]@[j]@,
                0,
                idx@[r]@[j]@.len() as int,
                N as int,
            ),
    ensures
        linear_ok(Linear::Gather(idx)),
        tables_of(Linear::Gather(idx), mats),
{
}

/// The CSR form of `mats` is usable by every CSR backend, and its lists
/// are the lists of the matrices.
proof fn lemma_csr_tables(lin: Linear, mats: Seq<[[u64; 2]; N]>)
    requires
        !(lin is Gather),
        mats.len() == R,
        csr_wf(linear_csr(lin), (R * N) as nat),
        forall|r: int, j: int|
            0 <= r < R && 0 <= j < N ==> #[trigger] csr_list(linear_csr(lin), r * N + j)
                == set_positions(bits2(mats[r]@[j]), 128),
    ensures
        linear_ok(lin),
        tables_of(lin, mats),
{
    assert forall|r: int| 0 <= r < R implies #[trigger] csr_round_ok(linear_csr(lin), r) by {
        lemma_csr_round_ok(linear_csr(lin), (R * N) as nat, r);
    }
}

/// Everything the bench evaluates with: the matrices of [`gen_mats`], their
/// gather and CSR tables, the round constants of [`gen_rcs`] and their
/// bitsliced form.
pub fn bench_tables() -> (t: (Vec<[[u64; 2]; N]>, Vec<Vec<Vec<u16>>>, Csr, Vec<[u64; 2]>, Vec<[Slice; N]>))
    ensures
        t.0@.len() == R,
        t.3@.len() == R,
        t.4@.len() == R,
        forall|r: int, j: int|
            0 <= r < R && 0 <= j < N ==> #[trigger] t.0@[r]@[j] == [
                sm_out(SEED, (256 * r + 2 * j) as nat),
                sm_out(SEED, (256 * r + 2 * j + 1) as nat),
            ],
        forall|r: int|
            0 <= r < R ==> #[trigger] t.3@[r] == [
                sm_out(SEED ^ 0xABCD_EF01_2345_6789u64, (2 * r) as nat),
                sm_out(SEED ^ 0xABCD_EF01_2345_6789u64, (2 * r + 1) as nat),
            ],
        linear_ok(Linear::Gather(&t.1)),
        tables_of(Linear::Gather(&t.1), t.0@),
        csr_wf(&t.2, (R * N) as nat),
        forall|r: int, j: int|
            0 <= r < R && 0 <= j < N ==> #[trigger] csr_list(&t.2, r * N + j) == set_positions(
                bits2(t.0@[r]@[j]),
                128,
            ),
        expands(t.4@, t.3@),
{
    let mats = gen_mats();
    let idx = gen_idx(mats.as_slice());
    proof {
        lemma_mats_ones_bound(mats@, R as nat);
    }
    let csr = build_csr(mats.as_slice());
    let rcs = gen_rcs();
    let rc_bs = expand_rc(rcs.as_slice());
    proof {
        lemma_gather_tables(&idx, mats@);
    }
    (mats, idx, csr, rcs, rc_bs)
}

/// Two outputs that are, block by block, the scalar permutation of the
/// same input agree block by block.
proof fn lemma_same_blocks(
    o: [Slice; N],
    o1: [Slice; N],
    mats: Seq<[[u64; 2]; N]>,
    rcs: Seq<[u64; 2]>,
    inp: [Slice; N],
)
    requires
        forall|blk: int|
            0 <= blk < W ==> #[trigger] block_bits(o@, blk) == scalar_after(
                mats,
                rcs,
                block_bits(inp@, blk),
                R as nat,
            ),
        forall|blk: int|
            0 <= blk < W ==> #[trigger] block_bits(o1@, blk) == scalar_after(
                mats,
                rcs,
                block_bits(inp@, blk),
                R as nat,
            ),
    ensures
        forall|blk: int| 0 <= blk < W ==> #[trigger] block_bits(o@, blk) == block_bits(o1@, blk),
{
    assert forall|blk: int| 0 <= blk < W implies #[trigger] block_bits(o@, blk) == block_bits(
        o1@,
        blk,
    ) by {
        assert(block_bits(o1@, blk) == scalar_after(mats, rcs, block_bits(inp@, blk), R as nat));
    }
}

/// The verdict on one backend's output `o`: whether block 0 is `exp` and,
/// when `whole` is set, whether `o` equals the gather output `o1` word for
/// word.
fn verdict(o: &[Slice; N], o1: &[Slice; N], exp: &[u64; 2], whole: bool) -> (ok: bool)
    ensures
        ok == (block_bits(o@, 0) == bits2(*exp) && (whole ==> forall|j: int, l: int|
            0 <= j < N && 0 <= l < LANES ==> #[trigger] o@[j]@[l] == o1@[j]@[l])),
{
    agrees_with(o, exp) && (!whole || same_state(o, o1))
}

/// Runs a tight backend built from `mats` on `inp` and gives its verdict
/// against the gather output `o1`: it passes exactly when block 0 of the
/// scalar permutation of the input is `exp` and every block of `o1` is the
/// scalar permutation of that block of the input.
fn check_backend(
    inp: &[Slice; N],
    rc: &[[Slice; N]],
    lin: Linear,
    o1: &[Slice; N],
    exp: &[u64; 2],
    Ghost(mats): Ghost<Seq<[[u64; 2]; N]>>,
    Ghost(rcs): Ghost<Seq<[u64; 2]>>,
) -> (ok: bool)
    requires
        mats.len() == R,
        rc@.len() >= R,
        rcs.len() >= R,
        !(lin is Gather),
        csr_wf(linear_csr(lin), (R * N) as nat),
        forall|r: int, j: int|
            0 <= r < R && 0 <= j < N ==> #[trigger] csr_list(linear_csr(lin), r * N + j)
                == set_positions(bits2(mats[r]@[j]), 128),
        expands(rc@, rcs),
    ensures
        ok == (scalar_after(mats, rcs, block_bits(inp@, 0), R as nat) == bits2(*exp) && forall|
            blk: int,
        |
            0 <= blk < W ==> #[trigger] block_bits(o1@, blk) == scalar_after(
                mats,
                rcs,
                block_bits(inp@, blk),
                R as nat,
            )),
{
    proof {
        lemma_csr_tables(lin, mats);
    }
    let o = run_backend(inp, rc, lin, Ghost(mats), Ghost(rcs));
    let ok = verdict(&o, o1, exp, true);
    proof {
        let same = forall|j: int, l: int|
            0 <= j < N && 0 <= l < LANES ==> #[trigger] o@[j]@[l] == o1@[j]@[l];
        let scal = forall|blk: int|
            0 <= blk < W ==> #[trigger] block_bits(o1@, blk) == scalar_after(
                mats,
                rcs,
                block_bits(inp@, blk),
                R as nat,
            );
        assert(block_bits(o@, 0) == scalar_after(mats, rcs, block_bits(inp@, 0), R as nat));
        if same {
            assert(o@ =~= o1@) by {
                assert forall|j: int| 0 <= j < N implies o@[j] == o1@[j] by {
                    assert(o@[j]@ =~= o1@[j]@);
                }
            }
            assert forall|blk: int| 0 <= blk < W implies #[trigger] block_bits(o1@, blk)
                == scalar_after(mats, rcs, block_bits(inp@, blk), R as nat) by {
                assert(block_bits(o@, blk) == scalar_after(mats, rcs, block_bits(inp@, blk), R as nat));
            }
        }
        if scal {
            lemma_same_blocks(o, *o1, mats, rcs, *inp);
            lemma_blocks_equal(o, *o1);
        }
    }
    ok
}

/// The correctness check of the backends on the block `x0`: for each of
/// the gather, tight A, B, C and D backends, block 0 of the bitsliced
/// permutation equals the scalar permutation of `x0`, and (for the tight
/// backends) the whole bitsliced output equals that of the gather backend.
/// Every check passes.
pub fn check_backends(x0: [u64; 2]) -> (ok: [bool; 5])
    ensures
        ok == [true, true, true, true, true],
{
    let (mats, idx, csr, rcs, rc_bs) = bench_tables();
    let exp = perm_scalar(mats.as_slice(), rcs.as_slice(), &x0);
    let inp = load_block(&x0);
    let o1 = run_backend(&inp, rc_bs.as_slice(), Linear::Gather(&idx), Ghost(mats@), Ghost(rcs@));
    proof {
        assert(block_bits(o1@, 0) == scalar_after(mats@, rcs@, block_bits(inp@, 0), R as nat));
        lemma_same_blocks(o1, o1, mats@, rcs@, inp);
    }
    let c1 = verdict(&o1, &o1, &exp, false);
    let ca = check_backend(&inp, rc_bs.as_slice(), Linear::TightA(&csr), &o1, &exp, Ghost(mats@), Ghost(rcs@));
    let cb = check_backend(&inp, rc_bs.as_slice(), Linear::TightB(&csr), &o1, &exp, Ghost(mats@), Ghost(rcs@));
    let cc = check_backend(&inp, rc_bs.as_slice(), Linear::TightC(&csr), &o1, &exp, Ghost(mats@), Ghost(rcs@));
    let cd = check_backend(&inp, rc_bs.as_slice(), Linear::TightD(&csr), &o1, &exp, Ghost(mats@), Ghost(rcs@));
    [c1, ca, cb, cc, cd]
}

/// A two-word value packed into 128 bits, low word first.
pub open spec fn pack(x: [u64; 2]) -> u128 {
    (x@[0] as u128) | ((x@[1] as u128) << 64u128)
}

/// Bit `k` of a packed value is bit `k mod 64` of word `k / 64`.
proof fn lemma_pack_bit(x0: u64, x1: u64, k: u128)
    by (bit_vector)
    requires
        k < 128,
    ensures
        (((x0 as u128) | ((x1 as u128) << 64u128)) >> k) & 1u128 == 1u128 <==> (if k < 64 {
            (x0 >> (k as u64)) & 1u64 == 1u64
        } else {
            (x1 >> ((k - 64) as u64)) & 1u64 == 1u64
        }),
{
}

/// Packing keeps the bits in order.
pub proof fn lemma_pack_bits(x: [u64; 2])
    ensures
        u128_bits(pack(x)) == bits2(x),
{
    assert forall|k: int| 0 <= k < 128 implies #[trigger] u128_bits(pack(x))[k] == bits2(x)[k] by {
        lemma_pack_bit(x@[0], x@[1], k as u128);
    }
    assert(u128_bits(pack(x)) =~= bits2(x));
}

/// 128-bit values with the same bits are equal.
proof fn lemma_u128_eq(a: u128, b: u128)
    requires
        forall|k: int| 0 <= k < 128 ==> #[trigger] bit128(a, k) == bit128(b, k),
    ensures
        a == b,
{
    assert(a == b) by (bit_vector)
        requires
            bit128(a, 0) == bit128(b, 0),
            bit128(a, 1) == bit128(b, 1),
            bit128(a, 2) == bit128(b, 2),
            bit128(a, 3) == bit128(b, 3),
            bit128(a, 4) == bit128(b, 4),
            bit128(a, 5) == bit128(b, 5),
            bit128(a, 6) == bit128(b, 6),
            bit128(a, 7) == bit128(b, 7),
            bit128(a, 8) == bit128(b, 8),
            bit128(a, 9) == bit128(b, 9),
            bit128(a, 10) == bit128(b, 10),
            bit128(a, 11) == bit128(b, 11),
            bit128(a, 12) == bit128(b, 12),
            bit128(a, 13) == bit128(b, 13),
            bit128(a, 14) == bit128(b, 14),
            bit128(a, 15) == bit128(b, 15),
            bit128(a, 16) == bit128(b, 16),
            bit128(a, 17) == bit128(b, 17),
            bit128(a, 18) == bit128(b, 18),
            bit128(a, 19) == bit128(b, 19),
            bit128(a, 20) == bit128(b, 20),
            bit128(a, 21) == bit128(b, 21),
            bit128(a, 22) == bit128(b, 22),
            bit128(a, 23) == bit128(b, 23),
            bit128(a, 24) == bit128(b, 24),
            bit128(a, 25) == bit128(b, 25),
            bit128(a, 26) == bit128(b, 26),
            bit128(a, 27) == bit128(b, 27),
            bit128(a, 28) == bit128(b, 28),
            bit128(a, 29) == bit128(b, 29),
            bit128(a, 30) == bit128(b, 30),
            bit128(a, 31) == bit128(b, 31),
            bit128(a, 32) == bit128(b, 32),
            bit128(a, 33) == bit128(b, 33),
            bit128(a, 34) == bit128(b, 34),
            bit128(a, 35) == bit128(b, 35),
            bit128(a, 36) == bit128(b, 36),
            bit128(a, 37) == bit128(b, 37),
            bit128(a, 38) == bit128(b, 38),
            bit128(a, 39) == bit128(b, 39),
            bit128(a, 40) == bit128(b, 40),
            bit128(a, 41) == bit128(b, 41),
            bit128(a, 42) == bit128(b, 42),
            bit128(a, 43) == bit128(b, 43),
            bit128(a, 44) == bit128(b, 44),
            bit128(a, 45) == bit128(b, 45),
            bit128(a, 46) == bit128(b, 46),
            bit128(a, 47) == bit128(b, 47),
            bit128(a, 48) == bit128(b, 48),
            bit128(a, 49) == bit128(b, 49),
            bit128(a, 50) == bit128(b, 50),
            bit128(a, 51) == bit128(b, 51),
            bit128(a, 52) == bit128(b, 52),
            bit128(a, 53) == bit128(b, 53),
            bit128(a, 54) == bit128(b, 54),
            bit128(a, 55) == bit128(b, 55),
            bit128(a, 56) == bit128(b, 56),
            bit128(a, 57) == bit128(b, 57),
            bit128(a, 58) == bit128(b, 58),
            bit128(a, 59) == bit128(b, 59),
            bit128(a, 60) == bit128(b, 60),
            bit128(a, 61) == bit128(b, 61),
            bit128(a, 62) == bit128(b, 62),
            bit128(a, 63) == bit128(b, 63),
            bit128(a, 64) == bit128(b, 64),
            bit128(a, 65) == bit128(b, 65),
            bit128(a, 66) == bit128(b, 66),
            bit128(a, 67) == bit128(b, 67),
            bit128(a, 68) == bit128(b, 68),
            bit128(a, 69) == bit128(b, 69),
            bit128(a, 70) == bit128(b, 70),
            bit128(a, 71) == bit128(b, 71),
            bit128(a, 72) == bit128(b, 72),
            bit128(a, 73) == bit128(b, 73),
            bit128(a, 74) == bit128(b, 74),
            bit128(a, 75) == bit128(b, 75),
            bit128(a, 76) == bit128(b, 76),
            bit128(a, 77) == bit128(b, 77),
            bit128(a, 78) == bit128(b, 78),
            bit128(a, 79) == bit128(b, 79),
            bit128(a, 80) == bit128(b, 80),
            bit128(a, 81) == bit128(b, 81),
            bit128(a, 82) == bit128(b, 82),
            bit128(a, 83) == bit128(b, 83),
            bit128(a, 84) == bit128(b, 84),
            bit128(a, 85) == bit128(b, 85),
            bit128(a, 86) == bit128(b, 86),
            bit128(a, 87) == bit128(b, 87),
            bit128(a, 88) == bit128(b, 88),
            bit128(a, 89) == bit128(b, 89),
            bit128(a, 90) == bit128(b, 90),
            bit128(a, 91) == bit128(b, 91),
            bit128(a, 92) == bit128(b, 92),
            bit128(a, 93) == bit128(b, 93),
            bit128(a, 94) == bit128(b, 94),
            bit128(a, 95) == bit128(b, 95),
            bit128(a, 96) == bit128(b, 96),
            bit128(a, 97) == bit128(b, 97),
            bit128(a, 98) == bit128(b, 98),
            bit128(a, 99) == bit128(b, 99),
            bit128(a, 100) == bit128(b, 100),
            bit128(a, 101) == bit128(b, 101),
            bit128(a, 102) == bit128(b, 102),
            bit128(a, 103) == bit128(b, 103),
            bit128(a, 104) == bit128(b, 104),
            bit128(a, 105) == bit128(b, 105),
            bit128(a, 106) == bit128(b, 106),
            bit128(a, 107) == bit128(b, 107),
            bit128(a, 108) == bit128(b, 108),
            bit128(a, 109) == bit128(b, 109),
            bit128(a, 110) == bit128(b, 110),
            bit128(a, 111) == bit128(b, 111),
            bit128(a, 112) == bit128(b, 112),
            bit128(a, 113) == bit128(b, 113),
            bit128(a, 114) == bit128(b, 114),
            bit128(a, 115) == bit128(b, 115),
            bit128(a, 116) == bit128(b, 116),
            bit128(a, 117) == bit128(b, 117),
            bit128(a, 118) == bit128(b, 118),
            bit128(a, 119) == bit128(b, 119),
            bit128(a, 120) == bit128(b, 120),
            bit128(a, 121) == bit128(b, 121),
            bit128(a, 122) == bit128(b, 122),
            bit128(a, 123) == bit128(b, 123),
            bit128(a, 124) == bit128(b, 124),
            bit128(a, 125) == bit128(b, 125),
            bit128(a, 126) == bit128(b, 126),
            bit128(a, 127) == bit128(b, 127),
    ;
}

/// The two-word matrix-vector product is the 128-bit one on packed words:
/// if `y` is what [`matvec`] gives for `rows` and `x`, and `z` what the
/// 128-bit product gives for the packed rows and the packed `x`, then `y`
/// packs to `z`.
pub proof fn lemma_matvec_packed(rows: Seq<[u64; 2]>, x: [u64; 2], y: [u64; 2], z: u128)
    requires
        bits2(y) == linear_bits(rows2(rows), bits2(x)),
        u128_bits(z) == linear_bits(
            rows_bits(rows.map_values(|r: [u64; 2]| pack(r))),
            u128_bits(pack(x)),
        ),
    ensures
        pack(y) == z,
{
    lemma_pack_bits(x);
    lemma_pack_bits(y);
    assert forall|j: int| 0 <= j < rows.len() implies #[trigger] rows2(rows)[j] == rows_bits(
        rows.map_values(|r: [u64; 2]| pack(r)),
    )[j] by {
        lemma_pack_bits(rows[j]);
    }
    assert(rows2(rows) =~= rows_bits(rows.map_values(|r: [u64; 2]| pack(r))));
    assert forall|k: int| 0 <= k < 128 implies #[trigger] bit128(pack(y), k) == bit128(z, k) by {
        assert(u128_bits(pack(y))[k] == u128_bits(z)[k]);
    }
    lemma_u128_eq(pack(y), z);
}

} // verus!
