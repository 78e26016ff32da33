use zk_garble::bench::{
    build_csr, check_backends, expand_rc, gen_idx, gen_mats, gen_rcs, get, linear_tight_a,
    linear_tight_b, linear_tight_c, linear_tight_d, linear_v1, perm, perm_scalar, sbox_bs,
    sbox_scalar, splitmix64, Csr, Linear, Slice, LANES, R, W, ZERO,
};

const NB: usize = 128;

/// Bits of block `blk` of a bitsliced state, as a two-word value.
fn block_of(st: &[Slice; NB], blk: usize) -> [u64; 2] {
    let mut x = [0u64; 2];
    for k in 0..NB {
        let bit = (st[k][blk / 64] >> (blk % 64)) & 1;
        x[k / 64] |= bit << (k % 64);
    }
    x
}

/// A bitsliced state filled from a SplitMix64 stream.
fn random_state(seed: u64) -> [Slice; NB] {
    let mut s = seed;
    let mut st = [ZERO; NB];
    for k in 0..NB {
        for l in 0..LANES {
            st[k][l] = splitmix64(&mut s);
        }
    }
    st
}

#[test]
fn every_backend_passes_the_correctness_check() {
    for x0 in [
        [0xDEAD_BEEF_1234_5678u64, 0x9ABC_DEF0_0F1E_2D3Cu64],
        [0, 0],
        [u64::MAX, u64::MAX],
    ] {
        assert_eq!(check_backends(x0), [true; 5]);
    }
}

#[test]
fn scalar_permutation_reference_values() {
    let mats = gen_mats();
    let rcs = gen_rcs();
    let cases = [
        ([0xDEAD_BEEF_1234_5678u64, 0x9ABC_DEF0_0F1E_2D3Cu64], [0xc8ea_3eb4_e62e_a199u64, 0x1be5_5b0e_1d0a_4c80u64]),
        ([0, 0], [0xb0af_eb8a_2a8e_c536, 0xa5ac_76de_40bd_766d]),
        ([u64::MAX, u64::MAX], [0x99c1_4a45_fdf2_92bf, 0x61d1_f2f4_1def_7766]),
    ];
    for (x0, exp) in cases {
        assert_eq!(perm_scalar(&mats, &rcs, &x0), exp);
    }
}

#[test]
fn bitsliced_blocks_match_the_scalar_permutation() {
    let mats = gen_mats();
    let idx = gen_idx(&mats);
    let csr = build_csr(&mats);
    let rcs = gen_rcs();
    let rc_bs = expand_rc(&rcs);
    let inp = random_state(7);
    let mut og = [ZERO; NB];
    perm(&inp, &rc_bs, Linear::Gather(&idx), &mut og);
    let mut od = [ZERO; NB];
    perm(&inp, &rc_bs, Linear::TightD(&csr), &mut od);
    assert_eq!(og, od);
    for blk in [0usize, 1, 63, 64, 200, 383, W - 1] {
        let x = block_of(&inp, blk);
        assert_eq!(block_of(&og, blk), perm_scalar(&mats, &rcs, &x), "block {blk}");
    }
}

#[test]
fn matrices_and_constants_come_from_the_stream() {
    let mats = gen_mats();
    let rcs = gen_rcs();
    assert_eq!(mats.len(), R);
    assert_eq!(rcs.len(), R);
    assert_eq!(mats[0][0], [0x1619_22c6_45ce_50e8, 0xad76_0caf_a169_7b60]);
    assert_eq!(mats[19][127][1], 0x9cd8_14f6_8e2c_4774);
    assert_eq!(rcs[0], [0xce05_a066_d7ee_5e30, 0xe968_1233_e1b3_2f64]);
    let mut s = 0u64;
    assert_eq!(splitmix64(&mut s), 0xe220_a839_7b1d_cdaf);
}

#[test]
fn index_lists_and_csr_agree() {
    let mats = gen_mats();
    let idx = gen_idx(&mats);
    let csr = build_csr(&mats);
    assert_eq!(csr.off.len(), R * NB + 1);
    assert_eq!(csr.off[0], 0);
    assert_eq!(*csr.off.last().unwrap() as usize, csr.flat.len());
    assert_eq!(idx[0][0].len(), 59);
    for r in 0..R {
        for j in 0..NB {
            let (s, e) = (csr.off[r * NB + j] as usize, csr.off[r * NB + j + 1] as usize);
            assert_eq!(&csr.flat[s..e], idx[r][j].as_slice());
            let row = mats[r][j];
            let ones = (row[0].count_ones() + row[1].count_ones()) as usize;
            assert_eq!(idx[r][j].len(), ones);
            for w in idx[r][j].windows(2) {
                assert!(w[0] < w[1]);
            }
            for &i in &idx[r][j] {
                assert_eq!(get(&row, i as usize), 1);
            }
        }
    }
}

#[test]
fn get_and_set_bits() {
    let mut x = [0u64; 2];
    zk_garble::bench::set(&mut x, 0, 1);
    zk_garble::bench::set(&mut x, 64, 3);
    zk_garble::bench::set(&mut x, 127, 1);
    assert_eq!(x, [1, 1 | (1 << 63)]);
    assert_eq!(get(&x, 0), 1);
    assert_eq!(get(&x, 1), 0);
    assert_eq!(get(&x, 64), 1);
    assert_eq!(get(&x, 127), 1);
    // Only the low bit of the value is written.
    zk_garble::bench::set(&mut x, 64, 2);
    assert_eq!(x, [1, 1 << 63]);
}

#[test]
fn expanded_constants_are_full_masks() {
    let rcs = [[0b101u64, 1 << 63]];
    let rc = expand_rc(&rcs);
    assert_eq!(rc.len(), 1);
    assert_eq!(rc[0][0], [u64::MAX; LANES]);
    assert_eq!(rc[0][1], ZERO);
    assert_eq!(rc[0][2], [u64::MAX; LANES]);
    assert_eq!(rc[0][127], [u64::MAX; LANES]);
    assert_eq!(rc[0][126], ZERO);
}

#[test]
fn bitsliced_sbox_matches_scalar_sbox() {
    let st = random_state(11);
    let mut bs = st;
    sbox_bs(&mut bs);
    for blk in [0usize, 5, 64, 511] {
        let mut x = block_of(&st, blk);
        sbox_scalar(&mut x);
        assert_eq!(block_of(&bs, blk), x);
    }
}

#[test]
fn linear_backends_agree_on_uneven_lists() {
    // Lists of every length 0..=19 exercise the accumulator tails.
    let mut flat: Vec<u16> = Vec::new();
    let mut off: Vec<u32> = vec![0];
    let mut idx: Vec<Vec<u16>> = Vec::new();
    let mut s = 3u64;
    for j in 0..NB {
        let len = j % 20;
        let mut list = Vec::new();
        for _ in 0..len {
            list.push((splitmix64(&mut s) % 128) as u16);
        }
        flat.extend_from_slice(&list);
        off.push(flat.len() as u32);
        idx.push(list);
    }
    let csr = Csr { flat, off };
    let src = random_state(5);
    let mut d1 = [ZERO; NB];
    linear_v1(&idx, &src, &mut d1);
    let mut da = [ZERO; NB];
    linear_tight_a(&csr, 0, &src, &mut da);
    let mut db = [ZERO; NB];
    linear_tight_b(&csr, 0, &src, &mut db);
    let mut dc = [ZERO; NB];
    linear_tight_c(&csr, 0, &src, &mut dc);
    let mut dd = [ZERO; NB];
    linear_tight_d(&csr, 0, &src, &mut dd);
    assert_eq!(d1, da);
    assert_eq!(d1, db);
    assert_eq!(d1, dc);
    assert_eq!(d1, dd);
    assert_eq!(d1[0], ZERO);
    assert_eq!(d1[1], src[idx[1][0] as usize]);
    let mut acc = ZERO;
    for &i in &idx[19] {
        for l in 0..LANES {
            acc[l] ^= src[i as usize][l];
        }
    }
    assert_eq!(d1[19], acc);
}

#[test]
fn scalar_matvec_is_row_parity() {
    let mut rows = [[0u64; 2]; NB];
    for j in 0..NB {
        rows[j][j / 64] = 1 << (j % 64);
    }
    let x = [0x0123_4567_89AB_CDEF, 0xFEDC_BA98_7654_3210];
    assert_eq!(zk_garble::bench::matvec(&rows, &x), x);
    let all = [[u64::MAX, u64::MAX]; NB];
    assert_eq!(zk_garble::bench::matvec(&all, &x), [0, 0]);
    assert_eq!(zk_garble::bench::matvec(&all, &[1, 0]), [u64::MAX, u64::MAX]);
}

#[test]
fn decreasing_offsets_give_an_empty_list() {
    let mut off = vec![2u32; NB + 1];
    off[1] = 3;
    off[2] = 1;
    let csr = Csr { flat: vec![7, 9, 11], off };
    let src = random_state(9);
    let outs: Vec<[Slice; NB]> = (0..4)
        .map(|v| {
            let mut d = [[1u64; LANES]; NB];
            match v {
                0 => linear_tight_a(&csr, 0, &src, &mut d),
                1 => linear_tight_b(&csr, 0, &src, &mut d),
                2 => linear_tight_c(&csr, 0, &src, &mut d),
                _ => linear_tight_d(&csr, 0, &src, &mut d),
            }
            d
        })
        .collect();
    for d in &outs {
        assert_eq!(d[0], src[11]);
        assert_eq!(d[1], ZERO);
        assert_eq!(d[2], src[9]);
        assert_eq!(d[3], ZERO);
        assert_eq!(d, &outs[0]);
    }
}

#[test]
fn two_word_matvec_is_the_packed_128_bit_matvec() {
    let pack = |x: [u64; 2]| (x[0] as u128) | ((x[1] as u128) << 64);
    let mats = gen_mats();
    for r in [0usize, 7, 19] {
        let packed: [u128; NB] = std::array::from_fn(|j| pack(mats[r][j]));
        for x in [[0u64, 0], [1, 0], [0xDEAD_BEEF_1234_5678, 0x9ABC_DEF0_0F1E_2D3C]] {
            let y = zk_garble::bench::matvec(&mats[r], &x);
            assert_eq!(pack(y), zk_garble::lowmc::matvec(&packed, pack(x)));
        }
    }
}
