//! Random frames, injected damage, check layouts and what they notice.

use rand::rngs::StdRng;
use rand::{Rng, RngCore, SeedableRng};
use tren::research::bench::summarise;
use tren::research::data::{frame_from_words, random_body, random_frame, random_frame_seeded, random_frames};
use tren::research::entropy_sweep::{
    apply_error, count_samples, measure_conditional_entropy, measure_detection_rate, reserved_positions,
    DetectionReport, EntropyReport, ErrorClass,
};
use tren::research::inject::{draw_distinct, flat_positions, flip_bits, flip_burst, flip_random_n};
use tren::research::scatter::{
    update_with, verify_with, AntiDiagonal, Diagonal, Hadamard, Permuted, ScatterPattern,
};
use tren::research::stats::{bucket, fnv1a_32, tally};
use tren::Frame32;

fn rate(r: &DetectionReport) -> f64 {
    r.detected as f64 / r.trials as f64
}

fn entropy(counts: &Vec<((u32, u128), u64)>, n: usize) -> f64 {
    let mut h = 0.0_f64;
    for &(_, c) in counts {
        let p = c as f64 / n as f64;
        h -= p * p.log2();
    }
    h
}

fn bias(outcomes: usize, n: usize) -> f64 {
    (outcomes as f64 - 1.0) / (2.0 * n as f64 * std::f64::consts::LN_2)
}

fn conditional(r: &EntropyReport) -> f64 {
    let n = r.sample_size;
    let plug_in = (entropy(&r.joint_counts, n) - entropy(&r.bucket_counts, n)).max(0.0);
    (plug_in + bias(r.joint_counts.len(), n) - bias(r.bucket_counts.len(), n)).max(0.0)
}

#[test]
fn random_frame_verifies() {
    for seed in 0..32 {
        let frames = random_frames(8, seed);
        for (i, f) in frames.iter().enumerate() {
            assert!(
                f.verify_crc(),
                "random frame seed={} idx={} failed verify_crc",
                seed,
                i
            );
        }
    }
}

#[test]
fn single_bit_flip_breaks_verify() {
    let mut rng = StdRng::seed_from_u64(42);
    for _ in 0..256 {
        let mut f = random_frame(&mut rng);
        assert!(f.verify_crc());
        let positions = flip_random_n(&mut f, 1, &mut rng);
        assert_eq!(positions.len(), 1);
        assert!(
            !f.verify_crc(),
            "1-bit flip at {:?} undetected",
            positions[0]
        );
    }
}

#[test]
fn flip_random_n_zero_is_noop() {
    let mut rng = StdRng::seed_from_u64(7);
    for _ in 0..16 {
        let f0 = random_frame(&mut rng);
        let mut f = f0;
        let positions = flip_random_n(&mut f, 0, &mut rng);
        assert!(positions.is_empty());
        assert_eq!(f.0, f0.0, "0-bit flip mutated the frame");
    }
}

#[test]
fn flip_bits_xor_cancels() {
    let mut rng = StdRng::seed_from_u64(11);
    let f0 = random_frame(&mut rng);
    let mut f = f0;
    let positions = vec![(3, 17), (3, 17), (29, 0), (0, 31), (29, 0), (0, 31)];
    flip_bits(&mut f, &positions);
    assert_eq!(f.0, f0.0);
}

#[test]
fn flip_burst_basic_range() {
    let mut rng = StdRng::seed_from_u64(13);
    let f0 = random_frame(&mut rng);
    // Burst of length 0 is a no-op (boundary check).
    let mut f = f0;
    flip_burst(&mut f, 100, 0);
    assert_eq!(f.0, f0.0);

    // A 5-bit burst at the end of the frame.
    let mut f = f0;
    flip_burst(&mut f, 1019, 5);
    let mut diffs = 0;
    for i in 0..32 {
        diffs += (f.0[i] ^ f0.0[i]).count_ones();
    }
    assert_eq!(diffs, 5);
}

#[test]
fn diagonal_scatter_matches_production() {
    // For a thousand random frames, Diagonal scatter must agree
    // bit-exact with the production `Frame32::update_crc` / `verify_crc`.
    let mut rng = StdRng::seed_from_u64(999);
    let pat = Diagonal;
    for trial in 0..1000 {
        // Start from a random body with the diagonal cleared.
        let mut f = Frame32::new();
        for slot in 0..32 {
            f.0[slot] = rand::Rng::gen::<u32>(&mut rng) & !(1u32 << slot);
        }

        // Apply both methods to fresh copies.
        let mut prod = f;
        prod.update_crc();

        let mut harness = f;
        update_with(&pat, &mut harness);

        assert_eq!(prod.0, harness.0, "trial {} differs from production", trial);
        assert!(verify_with(&pat, &harness));
        assert!(prod.verify_crc());
    }
}

#[test]
fn alt_scatter_patterns_round_trip() {
    let mut rng = StdRng::seed_from_u64(2024);

    // Each pattern, on its own terms, must round-trip.
    fn check<P: ScatterPattern>(label: &str, p: &P, rng: &mut StdRng) {
        for trial in 0..50 {
            let mut f = Frame32::new();
            for slot in 0..32 {
                f.0[slot] = rand::Rng::gen::<u32>(rng);
            }
            update_with(p, &mut f);
            assert!(verify_with(p, &f), "{}: trial {} failed verify", label, trial);

            // Flipping any single non-reserved bit either flips a
            // body bit (must trip verify) OR flips a reserved bit
            // (must also trip verify since the CRC will not match).
            let mut tampered = f;
            tampered.0[7] ^= 1u32 << 11;
            assert!(
                !verify_with(p, &tampered),
                "{}: tamper went undetected (trial {})",
                label,
                trial
            );
        }
    }

    check("AntiDiagonal", &AntiDiagonal, &mut rng);
    check("Permuted(0xC0FFEE)", &Permuted::new(0xC0FF_EE), &mut rng);
    // Hadamard carries only 8 bits, but its own round-trip must hold.
    check("Hadamard", &Hadamard, &mut rng);
}

#[test]
fn permuted_positions_are_distinct() {
    let p = Permuted::new(0xDEAD_BEEF);
    let mut seen = std::collections::HashSet::new();
    for &(s, b) in p.positions() {
        assert!(s < 32 && b < 32);
        assert!(
            seen.insert((s, b)),
            "Permuted produced duplicate position ({}, {})",
            s,
            b
        );
    }
    assert_eq!(seen.len(), 32);
}

#[test]
fn bucket_is_deterministic_and_masked() {
    let body = [0xA5u8; 128];
    let b8 = bucket(&body, 8);
    assert!(b8 < 256);
    assert_eq!(bucket(&body, 8), b8);
    let b16 = bucket(&body, 16);
    assert!(b16 < 65536);
    let full = bucket(&body, 32);
    assert_eq!(full, bucket(&body, 32));
}

#[test]
fn random_body_is_full_length() {
    let mut rng = StdRng::seed_from_u64(5);
    let body = random_body(&mut rng);
    assert_eq!(body.len(), 128);
    // Two seeds should give different bodies (overwhelmingly likely).
    let mut rng2 = StdRng::seed_from_u64(6);
    let body2 = random_body(&mut rng2);
    assert_ne!(body, body2);
}

#[test]
fn reserved_positions_diagonal_count() {
    let p = Diagonal;
    let r = reserved_positions(&p);
    assert_eq!(r.len(), 32);
    for i in 0..32 {
        assert!(r.contains(&(i, i)));
    }
}

#[test]
fn reserved_positions_antidiagonal_count() {
    let p = AntiDiagonal;
    let r = reserved_positions(&p);
    assert_eq!(r.len(), 32);
    for i in 0..32 {
        assert!(r.contains(&(i, 31 - i)));
    }
}

#[test]
fn reserved_positions_hadamard_count() {
    let p = Hadamard;
    let r = reserved_positions(&p);
    // 8 information bits × 4 replicas = 32 reserved positions.
    assert_eq!(r.len(), 32);
}

#[test]
fn reserved_positions_permuted_count() {
    let p = Permuted::new(0xDEAD_BEEF);
    let r = reserved_positions(&p);
    assert_eq!(r.len(), 32);
}

#[test]
fn detection_random_8_bits_all_patterns_high() {
    // 8 random bit flips should be detected with very high
    // probability by all 32-bit-CRC patterns.
    let class = ErrorClass::Random(8);
    for (label, rate) in [
        ("Diagonal", rate(&measure_detection_rate(&Diagonal, "Diagonal", class, 1000, 1))),
        ("AntiDiagonal", rate(&measure_detection_rate(&AntiDiagonal, "AntiDiagonal", class, 1000, 2))),
        (
            "Permuted",
            rate(&measure_detection_rate(&Permuted::new(0x1234), "Permuted(0x1234)", class, 1000, 3)),
        ),
    ] {
        assert!(rate >= 0.999, "{label} detection rate {rate} too low");
    }
}

#[test]
fn detection_diagonal_only_one_bit_full_crc() {
    // Flipping a single reserved bit should always be detected by a full 32-bit CRC pattern (the
    // read CRC differs by 1 bit from the recomputed CRC).
    let class = ErrorClass::DiagonalOnly(1);
    let report = measure_detection_rate(&Diagonal, "Diagonal", class, 500, 4);
    assert_eq!(rate(&report), 1.0);
    assert_eq!(report.pattern_label, "Diagonal");
    assert_eq!(report.class_label, "DiagonalOnly(1)");
    assert_eq!(report.trials, 500);
}

#[test]
fn detection_diagonal_only_one_bit_hadamard_undetected() {
    // Flipping 1 of 4 Hadamard replicas is corrected by majority vote, so the *read* CRC matches
    // the recomputed CRC, undetected.
    let class = ErrorClass::DiagonalOnly(1);
    let report = measure_detection_rate(&Hadamard, "Hadamard", class, 500, 5);
    assert_eq!(rate(&report), 0.0);
}

#[test]
fn entropy_diag_close_to_information_bits() {
    // With N = 4096 samples there are about 4096 distinct values, so the plug-in H(diag) is close
    // to log2(4096) = 12 bits; it cannot exceed the information bits.
    let r = measure_conditional_entropy(&Diagonal, "Diagonal", 4096, 16, 7);
    let h_diag = entropy(&r.diag_counts, r.sample_size) + bias(r.diag_counts.len(), r.sample_size);
    assert!(h_diag <= 32.0 + 0.1);
    assert!(h_diag >= 11.0); // close to log2(4096)
}

#[test]
fn entropy_cond_zero_at_full_resolution() {
    // With bucket_bits = 32 and N small, every bucket is unique, so the conditional entropy
    // estimate is 0 (no within-bucket variation).
    let r = measure_conditional_entropy(&Diagonal, "Diagonal", 1024, 32, 9);
    let h = conditional(&r);
    assert!(h < 0.05, "expected ~0, got {}", h);
}

#[test]
fn seeded_frames_repeat() {
    assert_eq!(random_frame_seeded(17).0, random_frame_seeded(17).0);
    assert_ne!(random_frame_seeded(17).0, random_frame_seeded(18).0);
    let a = random_frames(5, 3);
    let b = random_frames(5, 3);
    for i in 0..5 {
        assert_eq!(a[i].0, b[i].0);
    }
    assert_ne!(a[0].0, a[1].0);
}

#[test]
fn seeded_frames_are_those_of_a_fresh_generator() {
    let frames = random_frames(7, 41);
    let mut rng = StdRng::seed_from_u64(41);
    for f in &frames {
        assert_eq!(f.0, random_frame(&mut rng).0);
    }
    assert_eq!(random_frame_seeded(41).0, frames[0].0);
}

#[test]
fn bodies_and_frames_take_the_next_words() {
    let mut rng = StdRng::seed_from_u64(77);
    let mut twin = StdRng::seed_from_u64(77);
    let body = random_body(&mut rng);
    for k in 0..32 {
        assert_eq!(body[4 * k..4 * k + 4], twin.next_u32().to_le_bytes());
    }
    let mut words = [0u32; 32];
    for w in words.iter_mut() {
        *w = twin.next_u32();
    }
    assert_eq!(random_frame(&mut rng).0, frame_from_words(&words).0);
    assert_eq!(rng, twin);
}

#[test]
fn one_body_is_measured_as_it_is_drawn() {
    // A single sample: its check value is the one that the frame of the same seed carries.
    let r = measure_conditional_entropy(&Diagonal, "Diagonal", 1, 8, 23);
    let f = random_frame_seeded(23);
    assert_eq!(r.diag_counts.len(), 1);
    assert_eq!(r.diag_counts[0].0 .0, Diagonal.read(&f));
    assert_eq!(r.diag_counts[0].1, 1);
    assert_eq!(r.joint_counts.len(), 1);
    assert!(r.bucket_counts[0].0 .1 < 256);
}

#[test]
fn frames_are_made_of_words_and_signed() {
    let mut words = [0u32; 32];
    words[4] = 0xFFFF_FFFF;
    let f = frame_from_words(&words);
    assert!(f.verify_crc());
    assert_eq!(f.get(4), 0x7FFF_FFFF);
    assert_eq!(f.get(5), 0);
}

#[test]
fn drawn_positions_are_distinct_and_in_range() {
    let mut rng = StdRng::seed_from_u64(3);
    let mut v = draw_distinct(&mut rng, 40, 50);
    assert_eq!(v.len(), 40);
    assert!(v.iter().all(|&p| p < 50));
    v.sort();
    v.dedup();
    assert_eq!(v.len(), 40);
    let mut all = draw_distinct(&mut rng, 6, 6);
    all.sort();
    assert_eq!(all, vec![0, 1, 2, 3, 4, 5]);
    assert_eq!(flat_positions(&vec![0, 31, 32, 1023]), vec![(0, 0), (0, 31), (1, 0), (31, 31)]);
}

#[test]
fn drawn_positions_are_those_of_the_generator() {
    let mut rng = StdRng::seed_from_u64(1001);
    let mut twin = StdRng::seed_from_u64(1001);
    let chosen = draw_distinct(&mut rng, 30, 32);
    let mut expected: Vec<usize> = Vec::new();
    while expected.len() < 30 {
        let k = twin.gen_range(0..32usize);
        if !expected.contains(&k) {
            expected.push(k);
        }
    }
    assert_eq!(chosen, expected);
    assert_eq!(rng, twin);

    let mut f = Frame32::new();
    let positions = flip_random_n(&mut f, 9, &mut rng);
    assert_eq!(positions, flat_positions(&draw_distinct(&mut twin, 9, 1024)));
    assert_eq!(rng, twin);
}

#[test]
fn damage_takes_its_positions_from_the_generator() {
    let mut rng = StdRng::seed_from_u64(5);
    let mut twin = StdRng::seed_from_u64(5);
    let mut f = Frame32::new();
    apply_error(ErrorClass::Burst(20), &Diagonal, &mut f, &mut rng);
    let start = twin.gen_range(0..=1004usize);
    let mut g = Frame32::new();
    flip_burst(&mut g, start, 20);
    assert_eq!(f.0, g.0);

    let mut f = Frame32::new();
    apply_error(ErrorClass::DiagonalOnly(3), &Diagonal, &mut f, &mut rng);
    let mut places = reserved_positions(&Diagonal);
    for i in 0..3 {
        let j = twin.gen_range(i..places.len());
        places.swap(i, j);
    }
    let mut g = Frame32::new();
    flip_bits(&mut g, &places[..3]);
    assert_eq!(f.0, g.0);
    assert_eq!(rng, twin);
}

#[test]
fn a_seed_fixes_what_is_detected() {
    let count = |seed| {
        let class = ErrorClass::DiagonalOnly(8);
        let mut rng = StdRng::seed_from_u64(seed);
        let mut detected = 0;
        for _ in 0..60 {
            let mut f = random_frame(&mut rng);
            update_with(&Hadamard, &mut f);
            apply_error(class, &Hadamard, &mut f, &mut rng);
            detected += !verify_with(&Hadamard, &f) as u64;
        }
        let report = measure_detection_rate(&Hadamard, "Hadamard", class, 60, seed);
        assert_eq!(report.detected, detected);
        detected
    };
    let counts: Vec<u64> = (0..12).map(count).collect();
    assert!(counts.iter().any(|c| *c != counts[0]));
}

#[test]
fn flipped_bits_are_those_named() {
    let mut f = Frame32::new();
    flip_bits(&mut f, &[(2, 5), (31, 0)]);
    assert_eq!(f.0[2], 32);
    assert_eq!(f.0[31], 1);
    let mut rng = StdRng::seed_from_u64(9);
    let mut g = Frame32::new();
    let positions = flip_random_n(&mut g, 12, &mut rng);
    let mut ones = 0;
    for i in 0..32 {
        ones += g.0[i].count_ones();
    }
    assert_eq!(ones, 12);
    for &(s, b) in &positions {
        assert_eq!((g.0[s] >> b) & 1, 1);
    }
}

#[test]
fn damage_has_the_size_and_place_of_its_class() {
    let mut rng = StdRng::seed_from_u64(21);
    for class in [
        ErrorClass::Random(7),
        ErrorClass::Burst(7),
        ErrorClass::EvenBit(7),
        ErrorClass::DiagonalOnly(7),
    ] {
        let mut f = Frame32::new();
        apply_error(class, &AntiDiagonal, &mut f, &mut rng);
        let mut flat = Vec::new();
        for s in 0..32usize {
            for b in 0..32usize {
                if (f.0[s] >> b) & 1 == 1 {
                    flat.push(s * 32 + b);
                    if let ErrorClass::EvenBit(_) = class {
                        assert_eq!((s * 32 + b) % 2, 0);
                    }
                    if let ErrorClass::DiagonalOnly(_) = class {
                        assert_eq!(b, 31 - s);
                    }
                }
            }
        }
        assert_eq!(flat.len(), 7, "{}", class.label());
        if let ErrorClass::Burst(_) = class {
            assert_eq!(flat[6] - flat[0], 6);
        }
    }
    assert_eq!(ErrorClass::Random(3).label(), "Random(3)");
    assert_eq!(ErrorClass::Burst(3).label(), "Burst(3)");
    assert_eq!(ErrorClass::EvenBit(3).label(), "EvenBit(3)");
    assert_eq!(ErrorClass::DiagonalOnly(3).label(), "DiagonalOnly(3)");
}

#[test]
fn patterns_read_what_they_wrote() {
    fn check<P: ScatterPattern>(p: &P, bits: u8) {
        assert_eq!(p.information_bits(), bits);
        let mask = if bits == 32 { u32::MAX } else { (1u32 << bits) - 1 };
        assert_eq!(p.mask(), mask);
        let mut f = Frame32::new();
        p.write(&mut f, 0xDEAD_BEEF);
        assert_eq!(p.read(&f), 0xDEAD_BEEF & mask);
        p.clear_reserved(&mut f);
        assert_eq!(f.0, [0u32; 32]);
    }
    check(&Diagonal, 32);
    check(&AntiDiagonal, 32);
    check(&Permuted::new(5), 32);
    check(&Hadamard, 8);
    assert_eq!(Permuted::new(5).seed(), 5);
}

#[test]
fn hashes_and_tallies() {
    assert_eq!(fnv1a_32(b""), 0x811c_9dc5);
    assert_eq!(fnv1a_32(b"a"), 0xE40C_292C);
    assert_eq!(bucket(b"a", 8), 0x2C);
    assert_eq!(bucket(b"a", 0), 0);
    let counts = tally(&[(1, 2), (3, 4), (1, 2)]);
    assert_eq!(counts.len(), 2);
    assert!(counts.contains(&((1, 2), 2)));
    assert!(counts.contains(&((3, 4), 1)));
    let report = count_samples("x", 4, &vec![(1, 2), (1, 3), (5, 2)]);
    assert_eq!(report.sample_size, 3);
    assert!(report.diag_counts.contains(&((1, 0), 2)));
    assert!(report.bucket_counts.contains(&((0, 2), 2)));
}

#[test]
fn run_times_are_summed_up() {
    let s = summarise(&vec![5, 1, 4, 2, 3]);
    assert_eq!(s.min_ns, 1);
    assert_eq!(s.median_ns, 3);
    assert_eq!(s.p99_ns, 5);
    assert_eq!(s.total_ns, 15);
    let many: Vec<u64> = (0..200).rev().collect();
    let m = summarise(&many);
    assert_eq!((m.min_ns, m.median_ns, m.p99_ns), (0, 100, 198));
    assert_eq!(summarise(&vec![7]).p99_ns, 7);
}
