//! The tree of node numbers.

use std::collections::HashSet;

use tren::idtree::{
    are_siblings, depth, is_leaf_at_depth, is_left_child, lca, leaf_range, left_child, merge_id, parent_id, path_bits,
    path_distance, path_to_id, right_child, sibling_id, socket_name_hash, subtree_size, xnor_diversity,
};

#[test]
fn depths_parents_and_siblings() {
    assert!(depth(1) == 0);
    assert!(parent_id(1).is_none());
    assert!(sibling_id(1).is_none());
    assert!(path_bits(1) == 0);
    assert!(left_child(1) == 2);
    assert!(right_child(1) == 3);
    assert!(depth(2) == 1);
    assert!(depth(3) == 1);
    assert!(sibling_id(2) == Some(3));
    assert!(sibling_id(3) == Some(2));
    assert!(parent_id(2) == Some(1));
    assert!(parent_id(3) == Some(1));
    assert!(path_bits(2) == 0);
    assert!(path_bits(3) == 1);
    assert!(depth(4) == 2);
    assert!(depth(7) == 2);
    assert!(is_left_child(4));
    assert!(!is_left_child(5));
    assert!(are_siblings(4, 5));
    assert!(!are_siblings(4, 6));
}

#[test]
fn paths_and_levels() {
    assert!(path_bits(4) == 0b00);
    assert!(path_bits(5) == 0b01);
    assert!(path_bits(6) == 0b10);
    assert!(path_bits(7) == 0b11);
    assert!(path_to_id(0b00, 2) == 4);
    assert!(path_to_id(0b01, 2) == 5);
    assert!(path_to_id(0b10, 2) == 6);
    assert!(path_to_id(0b11, 2) == 7);
    assert!(leaf_range(0) == (1, 1));
    assert!(leaf_range(1) == (2, 3));
    assert!(leaf_range(2) == (4, 7));
    assert!(leaf_range(3) == (8, 15));
    assert!(is_leaf_at_depth(4, 2));
    assert!(!is_leaf_at_depth(3, 2));
    assert!({
    let (lo, hi) = leaf_range(3);
    hi - lo + 1 == 8
});
    assert!(path_bits(8) == 0b000);
    assert!(path_bits(15) == 0b111);
    assert!({
    let paths: Vec<u64> = (4u64..=7).map(path_bits).collect();
    let mut sorted = paths.clone();
    sorted.sort();
    sorted == vec![0, 1, 2, 3]
});
    assert!({
    (0u64..16).all(|p| path_bits(path_to_id(p, 4)) == p)
});
    assert!({
    (8u64..=15).all(|id| path_to_id(path_bits(id), depth(id)) == id)
});
}

#[test]
fn common_nodes_distances_and_subtrees() {
    assert!(lca(4, 5) == 2);
    assert!(lca(4, 6) == 1);
    assert!(lca(4, 7) == 1);
    assert!(lca(6, 7) == 3);
    assert!(lca(2, 3) == 1);
    assert!(lca(13, 13) == 13);
    assert!(path_distance(4, 5) == 2);
    assert!(path_distance(4, 6) == 4);
    assert!(path_distance(4, 4) == 0);
    assert!(path_distance(2, 7) == 3);
    assert!(subtree_size(1, 3) == 15);
    assert!(subtree_size(2, 3) == 7);
    assert!(subtree_size(4, 3) == 3);
    assert!(subtree_size(1, 1) == 3);
    assert!((4u64..=7).all(|id| subtree_size(id, 2) == 1));
    assert!({
    subtree_size(4, 3) + subtree_size(5, 3) + 1 == subtree_size(2, 3)
});
    assert!(lca(13, 17) <= 13u64.min(17));
    assert!(lca(12, 13) == 6);
    assert!(lca(9, 14) == lca(14, 9));
    assert!(path_distance(9, 14) == path_distance(14, 9));
}

#[test]
fn counts_and_merges() {
    assert!(xnor_diversity(7, 7) == 64);
    assert!(xnor_diversity(0, 0) == 64);
    assert!(xnor_diversity(0, 1) == 63);
    assert!(xnor_diversity(u64::MAX, 0) == 0);
    assert!(xnor_diversity(3, 9) == xnor_diversity(9, 3));
    assert!(merge_id(2, 3) == 1);
    assert!(merge_id(4, 5) == 2);
    assert!(merge_id(6, 7) == 3);
    assert!(merge_id(2, 4) >= (1u64 << 60));
    assert!(merge_id(3, 6) >= (1u64 << 60));
    assert!(depth(merge_id(4, 5)) == 1);
    assert!({
    let m1 = merge_id(4, 5);
    let m2 = merge_id(6, 7);
    merge_id(m1, m2) == 1
});
    assert!(xnor_diversity(1, 2) == 62);
    assert!(xnor_diversity(1, 3) == 63);
    assert!(xnor_diversity(2, 3) == 63);
    assert!(xnor_diversity(12345, 12345) == 64);
    assert!({
    let a = 0xAAAA_AAAA_AAAA_AAAAu64;
    let b = 0x5555_5555_5555_5555u64;
    xnor_diversity(a, b) == 0
});
    assert!({
    let a = 100u64; let b = 200u64;
    (!(!(a ^ b))).count_ones() == (a ^ b).count_ones()
});
    assert!({
    let a = 10u64; let b = 10u64;
    let d = xnor_diversity(a, b) as u64;
    a + b + d == 84
});
    assert!({
    (1u64..=10).all(|n| xnor_diversity(0, n) < xnor_diversity(n, n))
});
}

#[test]
fn routing_by_id() {
    assert!(socket_name_hash(1) == 22);
    assert!(is_leaf_at_depth(12, 3));
    assert!(path_bits(20) < 16);
    assert!(is_left_child(20) && !is_left_child(21));
    assert!(sibling_id(20) == Some(21));
    assert!({
    let mut ancestors = Vec::new();
    let mut id = 20u64;
    while id > 1 { id >>= 1; ancestors.push(id); }
    ancestors == vec![10, 5, 2, 1]
});
    assert!({
    let (lo, hi) = leaf_range(3);
    hi - lo + 1 == 8
});
    assert!({
    let total: u64 = (0u32..=4).map(|d| leaf_range(d).1 - leaf_range(d).0 + 1).sum();
    total == 31
});
    assert!({
    let mut paths: Vec<u64> = (32u64..64).map(path_bits).collect();
    paths.sort(); paths.dedup();
    paths.len() == 32
});
    assert!(lca(lca(8, 9), lca(10, 11)) == 2);
    assert!(lca(13, 14) == 3);
    assert!(are_siblings(22, 23));
    assert!(path_distance(22, 23) == 2);
    assert!(subtree_size(1, 5) == 63);
    assert!(xnor_diversity(50, 50) == 64);
    assert!({
    let id = 37u64;
    let name = format!("scheduler-node-{}.sock", id);
    name == "scheduler-node-37.sock"
});
    assert!(depth(4) % 2 == 0 && depth(16) % 2 == 0);
    assert!({
    let l1 = merge_id(8, 9);
    let l2 = merge_id(10, 11);
    let l3 = merge_id(12, 13);
    let l4 = merge_id(14, 15);
    let m1 = merge_id(l1, l2);
    let m2 = merge_id(l3, l4);
    merge_id(m1, m2) == 1
});
    assert!({
    let id = path_to_id(0b10110101, 8);
    path_bits(id) == 0b10110101
});
    assert!({
    let mut seen = HashSet::new();
    (1u64..=7).all(|id| {
        let key = (depth(id), path_bits(id));
        seen.insert(key)
    })
});
}

#[test]
fn edges_of_the_id_tree() {
    assert!(depth(u64::MAX) == 63);
    assert!(depth(1u64 << 63) == 63);
    assert!(path_bits(1u64 << 63) == 0);
    assert!(sibling_id(u64::MAX) == Some(u64::MAX ^ 1));
    assert!(parent_id(2) == Some(1));
    assert!(parent_id(u64::MAX).is_some());
    assert!({
    let child = left_child(1u64 << 62);
    child == (1u64 << 63)
});
    assert!(xnor_diversity(u64::MAX, u64::MAX) == 64);
    assert!(xnor_diversity(0, u64::MAX) == 0);
    assert!(lca(1, 12345) == 1);
    assert!(lca(100, 7) == lca(7, 100));
    assert!(path_distance(100, 7) == path_distance(7, 100));
    assert!(are_siblings(100, 101) == are_siblings(101, 100));
    assert!(xnor_diversity(100, 200) == xnor_diversity(200, 100));
    assert!(merge_id(4, 5) == merge_id(5, 4));
    assert!(merge_id(4, 6) == merge_id(6, 4));
    assert!(depth(5) < depth(10) && depth(10) < depth(20));
    assert!({
    let id = 42u64;
    parent_id(id).map(|p| depth(p)) == Some(depth(id) - 1)
});
    assert!(sibling_id(42).map(|s| depth(s)) == Some(depth(42)));
    assert!(depth(left_child(42)) == depth(42) + 1);
    assert!({
    let a = 0xDEAD_BEEF_u64;
    let b = 0xCAFE_BABEu64;
    xnor_diversity(a, b) + (a ^ b).count_ones() == 64
});
    assert!((0..100u64).all(|i| xnor_diversity(i, i * 3) <= 64));
    assert!((0u64..64).all(|i| xnor_diversity(i, i) == 64));
    assert!(xnor_diversity(0, 1) < 64);
    assert!({
    let a = 0xF0F0_F0F0_F0F0_F0F0u64;
    let b = !a;
    xnor_diversity(a, b) == 0
});
    assert!({
    let d1 = xnor_diversity(10, 20) as u64;
    let d2 = xnor_diversity(10 + 20 + d1, 30) as u64;
    d1 + d2 > 0
});
    assert!(xnor_diversity(1_000_000, 999_999) == 57);
    assert!({
    xnor_diversity(1, 2) == 62
});
    assert!({
    let a = 17u64; let b = 23u64;
    (a ^ b).count_ones() + (!(a ^ b)).count_ones() == 64
});
    assert!(xnor_diversity(1024, 0) == 63);
    assert!({
    let lvl1: Vec<u64> = (0..8).map(|i| merge_id(16+2*i, 16+2*i+1)).collect();
    let lvl2: Vec<u64> = (0..4).map(|i| merge_id(lvl1[2*i], lvl1[2*i+1])).collect();
    let lvl3: Vec<u64> = (0..2).map(|i| merge_id(lvl2[2*i], lvl2[2*i+1])).collect();
    merge_id(lvl3[0], lvl3[1]) == 1
});
    assert!((2u64..16).all(|id| lca(left_child(id), right_child(id)) == id));
    assert!((2u64..32).all(|id| sibling_id(sibling_id(id).unwrap()).unwrap() == id));
    assert!((1u64..32).all(|id| is_left_child(left_child(id))));
    assert!((1u64..32).all(|id| !is_left_child(right_child(id))));
    assert!({
    let mut id = 63u64;
    let mut prev_d = depth(id) + 1;
    let mut ok = true;
    while id > 1 { id >>= 1; let d = depth(id); if d >= prev_d { ok = false; break; } prev_d = d; }
    ok
});
    assert!((8u64..16).all(|id| subtree_size(id, 3) == 1));
    assert!({
    (1u32..=6).all(|d| subtree_size(1, d) == (1u64 << (d+1)) - 1)
});
    assert!({
    (0u32..=6).all(|d| { let (lo,hi) = leaf_range(d); hi-lo+1 == 1u64<<d })
});
    assert!({
    (0u32..=6).all(|d| path_bits(1u64<<d) == 0)
});
    assert!(socket_name_hash(1) == 22);
    assert!(socket_name_hash(9999) == 25);
    assert!(leaf_range(63).0 == (1u64 << 63));
    assert!(path_bits(2)==0 && path_bits(3)==1);
    assert!(merge_id(3, 7) >= (1u64 << 60));
    assert!(merge_id(8, 9) < (1u64 << 60));
    assert!(depth(u64::MAX) == 63);
    assert!({
    (1u64..=15).all(|id| path_bits(id) < (1u64 << depth(id)))
});
    assert!({
    let id = 50u64;
    lca(id, parent_id(id).unwrap()) == parent_id(id).unwrap()
});
    assert!({
    let mut ids = vec![1u64];
    for _ in 0..6 {
        let next: Vec<u64> = ids.iter().flat_map(|&id| vec![left_child(id), right_child(id)]).collect();
        ids = next;
    }
    ids.len() == 64 && ids.iter().all(|&id| depth(id) == 6)
});
}
