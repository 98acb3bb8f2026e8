//! The CRC-32C implementations agree with each other.

use rand::rngs::StdRng;
use rand::{RngCore, SeedableRng};
use tren::research::crc_impls::{
    build_sliceby8, build_table0, crc32c_branchless_bitwise, crc32c_branchless_bitwise_v2, crc32c_hw,
    crc32c_popcount_xor, crc32c_simd_avx2_x4, crc32c_simd_sse2_x4, crc32c_slice_by_8, crc32c_table,
    warm_popcount_basis, BasisCache,
};

fn rnd(seed: u64, len: usize) -> Vec<u8> {
    let mut r = StdRng::seed_from_u64(seed);
    let mut v = vec![0u8; len];
    r.fill_bytes(&mut v);
    v
}

#[test]
fn known_empty() {
    // CRC-32C of the empty string is 0x00000000.
    assert_eq!(crc32c_hw(b""), 0);
    assert_eq!(crc32c_table(b""), 0);
    assert_eq!(crc32c_slice_by_8(b""), 0);
    assert_eq!(crc32c_branchless_bitwise(b""), 0);
    assert_eq!(crc32c_branchless_bitwise_v2(b""), 0);
}

#[test]
fn known_check_value_123456789() {
    // Standard CRC-32C check value for the ASCII string "123456789".
    let msg = b"123456789";
    assert_eq!(crc32c_hw(msg), 0xE3069283);
    assert_eq!(crc32c_table(msg), 0xE3069283);
    assert_eq!(crc32c_slice_by_8(msg), 0xE3069283);
    assert_eq!(crc32c_branchless_bitwise(msg), 0xE3069283);
    assert_eq!(crc32c_branchless_bitwise_v2(msg), 0xE3069283);
}

#[test]
fn table_matches_hw() {
    for seed in 0..16 {
        let msg = rnd(seed, 128);
        assert_eq!(crc32c_table(&msg), crc32c_hw(&msg), "seed {seed}");
    }
}

#[test]
fn slice8_matches_hw_various_lengths() {
    for len in [0usize, 1, 7, 8, 9, 15, 16, 31, 64, 128, 129, 1023, 1024] {
        for seed in 0..4 {
            let msg = rnd((len * 31 + seed) as u64, len);
            assert_eq!(crc32c_slice_by_8(&msg), crc32c_hw(&msg), "len={len} seed={seed}");
        }
    }
}

#[test]
fn branchless_matches_hw() {
    for seed in 0..16 {
        let msg = rnd(seed, 128);
        assert_eq!(crc32c_branchless_bitwise(&msg), crc32c_hw(&msg), "seed {seed}");
        assert_eq!(crc32c_branchless_bitwise_v2(&msg), crc32c_hw(&msg), "seed {seed}");
    }
}

#[test]
fn popcount_xor_matches_hw_1024() {
    let mut cache = BasisCache::new();
    warm_popcount_basis(&mut cache, 128);
    for seed in 0..32 {
        let msg = rnd(seed, 128);
        assert_eq!(crc32c_popcount_xor(&mut cache, &msg), crc32c_hw(&msg), "seed {seed}");
    }
}

#[test]
fn popcount_xor_matches_hw_other_lengths() {
    let mut cache = BasisCache::new();
    for len in [1usize, 8, 16, 64, 256] {
        warm_popcount_basis(&mut cache, len);
        for seed in 0..4 {
            let msg = rnd((len * 7 + seed) as u64, len);
            assert_eq!(
                crc32c_popcount_xor(&mut cache, &msg),
                crc32c_hw(&msg),
                "len={len} seed={seed}"
            );
        }
    }
}

#[test]
fn simd_sse2_x4_matches_hw() {
    let msgs: [Vec<u8>; 4] = [
        rnd(101, 128),
        rnd(202, 128),
        rnd(303, 128),
        rnd(404, 128),
    ];
    let view: [&[u8]; 4] = [&msgs[0], &msgs[1], &msgs[2], &msgs[3]];
    let got = crc32c_simd_sse2_x4(view);
    for i in 0..4 {
        assert_eq!(got[i], crc32c_hw(&msgs[i]), "lane {i}");
    }
}

#[test]
fn crc_impls_simd_avx2_x4_matches_hw_when_available() {
    let msgs: [Vec<u8>; 4] = [
        rnd(11, 128),
        rnd(22, 128),
        rnd(33, 128),
        rnd(44, 128),
    ];
    let view: [&[u8]; 4] = [&msgs[0], &msgs[1], &msgs[2], &msgs[3]];
    let got = crc32c_simd_avx2_x4(view);
    for i in 0..4 {
        assert_eq!(got[i], crc32c_hw(&msgs[i]), "lane {i}");
    }
}

#[test]
fn all_impls_agree_on_short_messages() {
    let mut cache = BasisCache::new();
    for len in [0usize, 1, 4, 16, 32, 128] {
        warm_popcount_basis(&mut cache, len);
        for seed in 0..4 {
            let msg = rnd((len * 13 + seed) as u64, len);
            let golden = crc32c_hw(&msg);
            assert_eq!(crc32c_table(&msg), golden);
            assert_eq!(crc32c_slice_by_8(&msg), golden);
            assert_eq!(crc32c_branchless_bitwise(&msg), golden);
            assert_eq!(crc32c_branchless_bitwise_v2(&msg), golden);
            assert_eq!(crc32c_popcount_xor(&mut cache, &msg), golden);
        }
    }
}

const TRIALS: usize = 10_000;
const LEN: usize = 128;
const SEED: u64 = 0xA5A5_C3C3_5A5A_3C3Cu64;

fn random_messages(n: usize, len: usize, seed: u64) -> Vec<Vec<u8>> {
    let mut r = StdRng::seed_from_u64(seed);
    (0..n)
        .map(|_| {
            let mut v = vec![0u8; len];
            r.fill_bytes(&mut v);
            v
        })
        .collect()
}

#[test]
fn all_scalar_impls_match_hw_on_10k_random_messages() {
    let mut cache = BasisCache::new();
    warm_popcount_basis(&mut cache, LEN);
    let msgs = random_messages(TRIALS, LEN, SEED);
    let mut mismatches = 0u32;
    for (i, m) in msgs.iter().enumerate() {
        let golden = crc32c_hw(m);
        if crc32c_table(m) != golden {
            mismatches += 1;
            println!("table mismatch at {i}");
        }
        if crc32c_slice_by_8(m) != golden {
            mismatches += 1;
            println!("slice_by_8 mismatch at {i}");
        }
        if crc32c_branchless_bitwise(m) != golden {
            mismatches += 1;
            println!("branchless_bitwise mismatch at {i}");
        }
        if crc32c_branchless_bitwise_v2(m) != golden {
            mismatches += 1;
            println!("branchless_bitwise_v2 mismatch at {i}");
        }
        if crc32c_popcount_xor(&mut cache, m) != golden {
            mismatches += 1;
            println!("popcount_xor mismatch at {i}");
        }
    }
    assert_eq!(mismatches, 0, "scalar implementations diverge from hw");
}

#[test]
fn simd_sse2_x4_matches_hw_on_10k_random_messages() {
    let msgs = random_messages(TRIALS * 4, LEN, SEED.wrapping_add(1));
    let mut mismatches = 0u32;
    for (i, chunk) in msgs.chunks_exact(4).enumerate() {
        let view: [&[u8]; 4] = [&chunk[0], &chunk[1], &chunk[2], &chunk[3]];
        let got = crc32c_simd_sse2_x4(view);
        for lane in 0..4 {
            let golden = crc32c_hw(&chunk[lane]);
            if got[lane] != golden {
                mismatches += 1;
                println!("sse2_x4 mismatch at chunk {i} lane {lane}");
            }
        }
    }
    assert_eq!(mismatches, 0, "SSE2 four-way diverges from hw");
}

#[test]
fn crc_impls_consistency_simd_avx2_x4_matches_hw_when_available() {
    let msgs = random_messages(TRIALS * 4, LEN, SEED.wrapping_add(2));
    let mut mismatches = 0u32;
    for (i, chunk) in msgs.chunks_exact(4).enumerate() {
        let view: [&[u8]; 4] = [&chunk[0], &chunk[1], &chunk[2], &chunk[3]];
        let got = crc32c_simd_avx2_x4(view);
        for lane in 0..4 {
            let golden = crc32c_hw(&chunk[lane]);
            if got[lane] != golden {
                mismatches += 1;
                println!("avx2_x4 mismatch at chunk {i} lane {lane}");
            }
        }
    }
    assert_eq!(mismatches, 0, "AVX2 four-way diverges from hw");
}

#[test]
fn tables_hold_the_remainders_of_single_bytes() {
    let t = build_table0();
    assert_eq!(t[0], 0);
    assert_eq!(t[128], 0x82F6_3B78);
    assert_eq!(t[1], 0xF26B_8303);
    let tables = build_sliceby8();
    assert_eq!(tables.len(), 8);
    assert_eq!(tables[0], t);
    for b in 0..256usize {
        let c = tables[0][b];
        assert_eq!(tables[1][b], t[(c & 0xFF) as usize] ^ (c >> 8));
    }
}

#[test]
fn columns_agree_and_are_affine() {
    for len in [0usize, 1, 7, 128] {
        let a = rnd(31, len);
        let b = rnd(32, len);
        let zero = vec![0u8; len];
        let x: Vec<u8> = a.iter().zip(&b).map(|(p, q)| p ^ q).collect();
        let mut cold = BasisCache::new();
        let of_a = crc32c_popcount_xor(&mut cold, &a);
        assert_eq!(of_a, crc32c_branchless_bitwise(&a));
        assert_eq!(of_a, crc32c_popcount_xor(&mut cold, &a));
        let of_b = crc32c_popcount_xor(&mut cold, &b);
        let of_zero = crc32c_popcount_xor(&mut cold, &zero);
        assert_eq!(crc32c_popcount_xor(&mut cold, &x), of_a ^ of_b ^ of_zero);
    }
}
