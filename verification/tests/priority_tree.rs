//! The decision tree that predicts priorities.

use tren::priority::{best_split, count_labels, encode_features, Features, Tree32, N_INTERNAL};
use tren::Frame32;

#[test]
fn encode_threshold_bits() {
    let f0 = Features::new(0, 0, 0, b'e');
    let v0 = encode_features(f0);
    assert_eq!(v0 & 1, 0,  "dep_count=0 must clear bit 0");
    assert_ne!(v0 & (1 << 14), 0, "dep_count==0 must set bit 14");
    assert_ne!(v0 & (1 << 10), 0, "cmd 'e' must set bit 10");

    let f1 = Features::new(5, 17, 3, b'F');
    let v1 = encode_features(f1);
    assert_eq!(v1 & 0b111, 0b111, "dep_count=5 sets bits 0,1,2");
    assert_ne!(v1 & (1 << 6), 0,  "subtree_size=17 >= 16");
    assert_eq!(v1 & (1 << 15), 0, "subtree_size=17 < 32");
    assert_ne!(v1 & (1 << 12), 0, "cmd 'F' (lowercased to 'f') set bit 12");
    assert_ne!(v1 & (1 << 13), 0, "cmd alphabetic set bit 13");
    assert_eq!(v1 & (1 << 14), 0, "dep_count!=0 clear bit 14");
}

#[test]
fn frame_round_trip() {
    let mut t = Tree32::baseline();
    for i in 0..N_INTERNAL { t.internals[i] = (i as u8) & 0xF; }
    t.leaves    = 0xA5A5;
    t.leaf_pure = 0x0F0F;
    t.gen       = 42;

    let frame = t.to_frame();
    assert!(frame.verify_parity(), "tree frame must satisfy diagonal parity");
    let restored = Tree32::from_frame(&frame).expect("magic ok");
    assert_eq!(restored, t);
}

#[test]
fn from_frame_rejects_non_tree() {
    let mut not_a_tree = Frame32::new();
    not_a_tree.set_header(tren::OP_SUBMIT, 0);
    not_a_tree.update_parity();
    assert!(Tree32::from_frame(&not_a_tree).is_none());
}

#[test]
fn pure_split_zero_misclassification() {
    // Build a dataset where label is exactly bit 5 of features.
    let mut samples = Vec::new();
    for i in 0..256u16 {
        let label = ((i >> 5) & 1) == 1;
        samples.push((i, label));
    }
    let tree = Tree32::train(&samples, 1);
    let mut wrong = 0;
    for &(feat, label) in &samples {
        let pred = tree.infer(feat) == 1;
        if pred != label { wrong += 1; }
    }
    assert_eq!(wrong, 0, "label = bit5(features) is a depth-1 separable concept; tree must be perfect");
}

#[test]
fn pure_split_conjunction_two_features() {
    // label = bit3 AND bit7 — greedy ID3 splits on bit3 (or bit7),
    // recurses, and reaches conditional entropy 0 well within depth 4.
    // (XOR is the classic ID3 failure case — we deliberately pick a
    // monotone concept here so that greedy info-gain converges.)
    let mut samples = Vec::new();
    for i in 0..1024u16 {
        let f = i & 0xFFFF;
        let label = (((f >> 3) & 1) & ((f >> 7) & 1)) == 1;
        samples.push((f, label));
    }
    let tree = Tree32::train(&samples, 1);
    let mut wrong = 0;
    for &(feat, label) in &samples {
        if (tree.infer(feat) == 1) != label { wrong += 1; }
    }
    assert_eq!(wrong, 0,
        "label = bit3 ∧ bit7 is depth-2 ID3-separable; depth-4 tree must classify perfectly");
}

#[test]
fn empty_training_set_is_baseline() {
    let t = Tree32::train(&[], 7);
    assert_eq!(t.gen, 7);
    // baseline returns class 1 for every input
    for f in [0u16, 0xFFFF, 0x1234, 0xAAAA] {
        assert_eq!(t.infer(f), 1);
    }
}

#[test]
fn baseline_frame_round_trip() {
    let t = Tree32::baseline();
    let f = t.to_frame();
    let r = Tree32::from_frame(&f).expect("baseline magic");
    assert_eq!(r, t);
}

#[test]
fn confidence_marks_pure_leaves() {
    // Wholly-determined dataset should yield pure leaves.
    let mut samples = Vec::new();
    for i in 0..256u16 {
        samples.push((i, ((i >> 2) & 1) == 1));
    }
    let t = Tree32::train(&samples, 0);
    // Every leaf reachable should be pure.
    let mut any_pure = false;
    for f in 0..256u16 {
        if t.confidence(f) == 1 { any_pure = true; }
    }
    assert!(any_pure, "at least one leaf must be flagged pure on a separable dataset");
}

#[test]
fn inference_is_deterministic() {
    let samples: Vec<(u16, bool)> = (0..500u16)
        .map(|i| (i, (i & 0x55) > 30))
        .collect();
    let t = Tree32::train(&samples, 0);
    let a = t.infer(0xBEEF);
    for _ in 0..1000 { assert_eq!(t.infer(0xBEEF), a); }
}

#[test]
fn splits_take_the_first_feature_that_tells_most() {
    // Bit 2 tells the label; bit 9 tells it as well, but comes later.
    let samples: Vec<(u16, bool)> = (0..64u16)
        .map(|i| {
            let bit = (i >> 2) & 1;
            (i | (bit << 9), bit == 1)
        })
        .collect();
    let rows: Vec<usize> = (0..samples.len()).collect();
    assert_eq!(best_split(&samples, &rows), 2);
    assert_eq!(count_labels(&samples, &rows), (32, 32));
    assert_eq!(count_labels(&samples, &vec![0, 1, 4]), (2, 1));
    // Nothing tells anything: the first feature is taken.
    let flat: Vec<(u16, bool)> = vec![(0, true), (0, false)];
    assert_eq!(best_split(&flat, &vec![0, 1]), 0);
}

#[test]
fn pure_leaves_classify_their_training_samples() {
    let samples: Vec<(u16, bool)> = (0..300u16).map(|i| (i.wrapping_mul(257), i % 7 < 3)).collect();
    let t = Tree32::train(&samples, 9);
    assert_eq!(t.gen, 9);
    for &(f, label) in &samples {
        if t.confidence(f) == 1 {
            assert_eq!(t.infer(f) == 1, label);
        }
    }
}

#[test]
fn leaves_take_the_majority_and_ties_are_positive() {
    let t = Tree32::train(&[(0, true), (0, false)], 0);
    assert_eq!(t.infer(0), 1);
    assert_eq!(t.confidence(0), 0);
    let u = Tree32::train(&[(0, false), (0, false), (0, true)], 0);
    assert_eq!(u.infer(0), 0);
}

#[test]
fn every_feature_of_the_eighth_inner_node_comes_back() {
    for feature in 0..16u8 {
        let mut t = Tree32::baseline();
        t.internals[7] = feature;
        t.internals[14] = 15;
        let u = Tree32::from_frame(&t.to_frame()).unwrap();
        assert_eq!(u.internals, t.internals);
    }
    let mut t = Tree32::baseline();
    t.internals = [0; 15];
    t.internals[7] = 9;
    assert_eq!((t.to_frame().get(1), t.to_frame().get(2)), (1 << 28, 1 << 28));
}

#[test]
fn default_features_are_zero() {
    let f = Features::default();
    assert_eq!(f, Features::new(0, 0, 0, 0));
    assert_eq!(encode_features(f), 1 << 14);
}

fn leaf(t: &Tree32, features: u16) -> usize {
    let mut idx = 0;
    for _ in 0..4 {
        idx = idx * 2 + 1 + ((features >> t.internals[idx]) & 1) as usize;
    }
    idx
}

#[test]
fn every_sample_is_outvoted_or_followed() {
    // Enough conflicting labels that some leaves stay mixed.
    let samples: Vec<(u16, bool)> =
        (0..200u32).map(|i| ((i * 7919 % 97) as u16, i * i % 5 < 2)).collect();
    let t = Tree32::train(&samples, 3);
    let mut mixed = 0;
    for &(x, _) in &samples {
        let here: Vec<bool> =
            samples.iter().filter(|s| leaf(&t, s.0) == leaf(&t, x)).map(|s| s.1).collect();
        let yes = here.iter().filter(|l| **l).count();
        let no = here.len() - yes;
        assert_eq!(t.infer(x) == 1, yes >= no);
        assert_eq!(t.confidence(x) == 1, yes == 0 || no == 0);
        mixed += (yes > 0 && no > 0) as usize;
    }
    assert!(mixed > 0);
    assert!(t.internals.iter().all(|f| *f < 16));

    let mut turned = samples.clone();
    turned.reverse();
    turned.rotate_left(61);
    assert_eq!(Tree32::train(&turned, 3), t);
}
