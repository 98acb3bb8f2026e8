//! More arithmetic on node numbers: relations between nodes, merging, distances.

use vstd::prelude::*;

use crate::ids;
use crate::text;
use crate::weight;

verus! {

/// The depth of a node.
pub fn depth(id: u64) -> (d: u32)
    ensures
        d == ids::depth_spec(id as nat),
        d < 64,
        id >= 1 ==> id >> d == 1,
{
    ids::depth_of(id)
}

/// The parent; the root has none.
pub fn parent_id(id: u64) -> (parent: Option<u64>)
    ensures
        parent == (if id <= 1 {
            None
        } else {
            Some((id / 2) as u64)
        }),
{
    ids::parent_of(id)
}

/// The left child. The highest bit of a number in the upper half of the range is lost.
pub fn left_child(id: u64) -> (child: u64)
    ensures
        child == id << 1,
        id < 0x8000_0000_0000_0000 ==> child == 2 * id,
{
    proof {
        ids::shift_facts(id, 0);
    }
    id << 1
}

/// The right child. The highest bit of a number in the upper half of the range is lost.
pub fn right_child(id: u64) -> (child: u64)
    ensures
        child == (id << 1) | 1,
        id < 0x8000_0000_0000_0000 ==> child == 2 * id + 1,
{
    proof {
        ids::shift_facts(id, 0);
    }
    (id << 1) | 1
}

/// The other child of the same parent; the root has none.
pub fn sibling_id(id: u64) -> (sibling: Option<u64>)
    ensures
        sibling == (if id <= 1 {
            None
        } else if id % 2 == 0 {
            Some((id + 1) as u64)
        } else {
            Some((id - 1) as u64)
        }),
{
    ids::sibling_of(id)
}

/// The way from the root as bits.
pub fn path_bits(id: u64) -> (path: u64)
    ensures
        id >= 1 ==> path == id - (1u64 << (ids::depth_spec(id as nat) as u64)),
        id == 0 ==> path == 1,
{
    ids::path_of(id)
}

/// Whether a node is a left child.
pub fn is_left_child(id: u64) -> (left: bool)
    ensures
        left == (id % 2 == 0),
{
    proof {
        ids::shift_facts(id, 0);
    }
    id & 1 == 0
}

/// Whether two numbers differ in the lowest bit alone.
pub open spec fn siblings(a: u64, b: u64) -> bool {
    a / 2 == b / 2 && a != b
}

proof fn sibling_bits(a: u64, b: u64)
    by (bit_vector)
    ensures
        (a ^ 1 == b) <==> (a / 2 == b / 2 && a != b),
        a >> 1 == a / 2,
        b >> 1 == b / 2,
{
}

/// Whether two nodes have the same parent.
pub fn are_siblings(a: u64, b: u64) -> (r: bool)
    ensures
        r == siblings(a, b),
{
    proof {
        sibling_bits(a, b);
    }
    a ^ 1 == b
}

/// The number under which two nodes are merged: siblings become their parent, others a number
/// with bit 60 set.
pub fn merge_id(a: u64, b: u64) -> (m: u64)
    ensures
        siblings(a, b) ==> m == a / 2,
        !siblings(a, b) ==> m == (1u64 << 60) | (((a + b) % 0x1_0000_0000_0000_0000) as u64),
{
    proof {
        sibling_bits(a, b);
    }
    if are_siblings(a, b) {
        let low: u64 = if a <= b {
            a
        } else {
            b
        };
        low >> 1
    } else {
        (1u64 << 60) | a.wrapping_add(b)
    }
}

/// How many bits two counts have in common.
pub fn xnor_diversity(count_a: u64, count_b: u64) -> (n: u32)
    ensures
        n == weight::weight((!(count_a ^ count_b)) as nat),
{
    (!(count_a ^ count_b)).count_ones()
}

/// The first and the last node of a level.
pub fn leaf_range(depth_d: u32) -> (range: (u64, u64))
    requires
        depth_d < 64,
    ensures
        range.0 == 1u64 << (depth_d as u64),
        range.1 == 2 * (1u64 << (depth_d as u64)) - 1,
{
    proof {
        ids::shift_facts(0, depth_d as u64);
    }
    let first: u64 = 1u64 << depth_d;
    (first, first + (first - 1))
}

/// Whether a node lies on a level.
pub fn is_leaf_at_depth(id: u64, depth_d: u32) -> (r: bool)
    requires
        depth_d < 64,
    ensures
        r == ((1u64 << (depth_d as u64)) <= id <= 2 * (1u64 << (depth_d as u64)) - 1),
{
    let (lo, hi) = leaf_range(depth_d);
    id >= lo && id <= hi
}

/// Going up never leads to a greater number.
pub proof fn up_shrinks(id: nat, k: nat)
    ensures
        ids::up(id, k) <= id,
        k > 0 && id > 0 ==> ids::up(id, k) < id,
    decreases k,
{
    if k > 0 {
        up_shrinks(id / 2, (k - 1) as nat);
    }
}

/// A node lies above itself.
pub proof fn above_itself(id: nat)
    ensures
        ids::is_above(id, id),
{
    assert(ids::up(id, 0) == id);
}

/// What lies above half of a number lies above the number, and everything else above the number
/// is the number itself.
proof fn above_half(x: nat, id: nat)
    ensures
        ids::is_above(x, id) <==> (x == id || ids::is_above(x, id / 2)),
{
    if ids::is_above(x, id) {
        let k = choose|k: nat| #[trigger] ids::up(id, k) == x;
        if k > 0 {
            assert(ids::up(id / 2, (k - 1) as nat) == x);
        }
    }
    if ids::is_above(x, id / 2) {
        let k = choose|k: nat| #[trigger] ids::up(id / 2, k) == x;
        assert(ids::up(id, k + 1) == x);
    }
    above_itself(id);
}

proof fn above_is_smaller(x: nat, id: nat)
    requires
        ids::is_above(x, id),
    ensures
        x <= id,
{
    let k = choose|k: nat| #[trigger] ids::up(id, k) == x;
    up_shrinks(id, k);
}

/// Whether `r` is the lowest node above both `a` and `b`: it lies above both, and whatever lies
/// above both lies above it.
pub open spec fn lowest_common(r: nat, a: nat, b: nat) -> bool {
    &&& ids::is_above(r, a)
    &&& ids::is_above(r, b)
    &&& forall|x: nat| #[trigger] ids::is_above(x, a) && ids::is_above(x, b) ==> ids::is_above(x, r)
}

/// The lowest node above both.
pub fn lca(a: u64, b: u64) -> (r: u64)
    ensures
        lowest_common(r as nat, a as nat, b as nat),
{
    let mut x: u64 = a;
    let mut y: u64 = b;
    proof {
        above_itself(a as nat);
        above_itself(b as nat);
    }
    while x != y
        invariant
            ids::is_above(x as nat, a as nat),
            ids::is_above(y as nat, b as nat),
            forall|z: nat| #[trigger]
                ids::is_above(z, a as nat) && ids::is_above(z, b as nat) ==> ids::is_above(z, x as nat)
                    && ids::is_above(z, y as nat),
        decreases x + y,
    {
        proof {
            sibling_bits(x, y);
        }
        if x > y {
            proof {
                half_is_above(x as nat, a as nat);
                assert forall|z: nat| #[trigger]
                    ids::is_above(z, a as nat) && ids::is_above(z, b as nat) implies ids::is_above(
                    z,
                    (x / 2) as nat,
                ) && ids::is_above(z, y as nat) by {
                    above_half(z, x as nat);
                    above_is_smaller(z, y as nat);
                }
            }
            x = x >> 1;
        } else {
            proof {
                half_is_above(y as nat, b as nat);
                assert forall|z: nat| #[trigger]
                    ids::is_above(z, a as nat) && ids::is_above(z, b as nat) implies ids::is_above(
                    z,
                    x as nat,
                ) && ids::is_above(z, (y / 2) as nat) by {
                    above_half(z, y as nat);
                    above_is_smaller(z, x as nat);
                }
            }
            y = y >> 1;
        }
    }
    x
}

proof fn half_is_above(x: nat, id: nat)
    requires
        ids::is_above(x, id),
    ensures
        ids::is_above(x / 2, id),
{
    let k = choose|k: nat| #[trigger] ids::up(id, k) == x;
    up_step(id, k);
}

proof fn up_step(id: nat, k: nat)
    ensures
        ids::up(id, k + 1) == ids::up(id, k) / 2,
    decreases k,
{
    reveal_with_fuel(ids::up, 2);
    if k > 0 {
        up_step(id / 2, (k - 1) as nat);
    }
}

/// There is one lowest common node.
pub proof fn law_lowest_common_is_unique(r: nat, s: nat, a: nat, b: nat)
    requires
        lowest_common(r, a, b),
        lowest_common(s, a, b),
    ensures
        r == s,
{
    above_is_smaller(r, s);
    above_is_smaller(s, r);
}

/// The order of the two nodes does not matter.
pub proof fn law_lowest_common_commutes(r: nat, a: nat, b: nat)
    requires
        lowest_common(r, a, b),
    ensures
        lowest_common(r, b, a),
{
}

/// A node and one above it have the upper one as lowest common node.
pub proof fn law_lowest_common_of_ancestor(a: nat, b: nat)
    requires
        ids::is_above(a, b),
    ensures
        lowest_common(a, a, b),
{
    above_itself(a);
}

proof fn depth_above(x: nat, id: nat, k: nat)
    requires
        ids::up(id, k) == x,
    ensures
        ids::depth_spec(x) <= ids::depth_spec(id),
    decreases k,
{
    if k > 0 {
        depth_above(x, id / 2, (k - 1) as nat);
    }
}

/// Whether so many edges lie between two nodes: up from both to their lowest common node.
pub open spec fn is_distance(n: int, a: nat, b: nat) -> bool {
    exists|r: nat| #[trigger]
        lowest_common(r, a, b) && n == ids::depth_spec(a) + ids::depth_spec(b) - 2 * ids::depth_spec(r)
}

/// How many edges lie between two nodes.
pub fn path_distance(a: u64, b: u64) -> (n: u32)
    ensures
        is_distance(n as int, a as nat, b as nat),
{
    let common: u64 = lca(a, b);
    proof {
        let k = choose|k: nat| #[trigger] ids::up(a as nat, k) == common as nat;
        depth_above(common as nat, a as nat, k);
        let l = choose|l: nat| #[trigger] ids::up(b as nat, l) == common as nat;
        depth_above(common as nat, b as nat, l);
        assert(lowest_common(common as nat, a as nat, b as nat));
    }
    depth(a) + depth(b) - 2 * depth(common)
}

/// How many nodes hang from a node with so many levels below it, itself counted.
pub open spec fn nodes_below(levels: nat) -> int {
    2 * (1u64 << (levels as u64)) - 1
}

/// How many nodes the subtree of a node has in a complete tree of the given depth.
pub open spec fn subtree_nodes(id: nat, tree_depth: nat) -> int {
    if ids::depth_spec(id) >= tree_depth {
        1
    } else {
        nodes_below((tree_depth - ids::depth_spec(id)) as nat)
    }
}

/// How many nodes the subtree of a node has in a complete tree of the given depth.
pub fn subtree_size(id: u64, tree_depth: u32) -> (n: u64)
    requires
        tree_depth < ids::depth_spec(id as nat) + 63,
    ensures
        n == subtree_nodes(id as nat, tree_depth as nat),
{
    let d: u32 = depth(id);
    if d >= tree_depth {
        return 1;
    }
    let remaining: u32 = tree_depth - d;
    proof {
        ids::shift_facts(0, remaining as u64);
    }
    (1u64 << (remaining + 1)).saturating_sub(1)
}

/// An estimate of the length of a node's socket name.
pub fn socket_name_hash(id: u64) -> (n: u64)
    ensures
        n == 21 + (if id < 10 {
            1int
        } else if id < 100 {
            2
        } else if id < 1_000 {
            3
        } else if id < 10_000 {
            4
        } else {
            5
        }),
        id < 100_000 ==> n == 21 + text::digits(id as nat, 10).len(),
{
    proof {
        reveal_with_fuel(text::digits, 5);
    }
    let digits: u64 = if id < 10 {
        1
    } else if id < 100 {
        2
    } else if id < 1_000 {
        3
    } else if id < 10_000 {
        4
    } else {
        5
    };
    16 + digits + 5
}

/// The node at the end of a way of `depth_d` steps.
pub fn path_to_id(bits: u64, depth_d: u32) -> (id: u64)
    requires
        depth_d < 64,
    ensures
        id == (1u64 << (depth_d as u64)) | bits,
        bits < (1u64 << (depth_d as u64)) ==> id == (1u64 << (depth_d as u64)) + bits,
{
    proof {
        ids::shift_facts(bits, depth_d as u64);
    }
    (1u64 << depth_d) | bits
}

// ---------------------------------------------------------------------------------------------
// Laws
// ---------------------------------------------------------------------------------------------

/// Children lie one level below their parent and lead back to it.
pub proof fn law_children(id: nat)
    requires
        id >= 1,
    ensures
        ids::depth_spec(2 * id) == ids::depth_spec(id) + 1,
        ids::depth_spec(2 * id + 1) == ids::depth_spec(id) + 1,
        (2 * id) / 2 == id,
        (2 * id + 1) / 2 == id,
{
}

/// The sibling of the sibling is the node itself, and both have one parent.
pub proof fn law_sibling_involution(id: u64)
    requires
        id >= 2,
    ensures
        ({
            let s = if id % 2 == 0 {
                id + 1
            } else {
                id - 1
            };
            &&& s / 2 == id as int / 2
            &&& (if s % 2 == 0 {
                s + 1
            } else {
                s - 1
            }) == id
        }),
{
}

/// Depth and way determine a node: going that way from the root leads to it.
pub proof fn law_path_round_trip(id: u64)
    requires
        id >= 1,
    ensures
        ({
            let d = ids::depth_spec(id as nat) as u64;
            let path = (id - (1u64 << d)) as u64;
            &&& d < 64
            &&& (1u64 << d) <= id
            &&& path < (1u64 << d)
            &&& (1u64 << d) | path == id
        }),
{
    exact_depth(id);
    let d = ids::depth_spec(id as nat) as u64;
    ids::shift_facts(id, d);
    remainder_small(id, d);
    ids::shift_facts((id - (1u64 << d)) as u64, d);
}

proof fn exact_depth(id: u64)
    requires
        id >= 1,
    ensures
        ids::depth_spec(id as nat) < 64,
        id >> (ids::depth_spec(id as nat) as u64) == 1,
    decreases id,
{
    ids::shift_facts(id, 0);
    if id >= 2 {
        exact_depth(id / 2);
        let d = ids::depth_spec(id as nat);
        let e = (d - 1) as u64;
        assert((id >> 1) >> e == 1);
        halved_depth(id, e);
        ids::shift_facts(id, d as u64);
    }
}

proof fn halved_depth(a: u64, e: u64)
    by (bit_vector)
    requires
        e < 64,
        (a >> 1) >> e == 1,
    ensures
        e < 63,
{
}

proof fn remainder_small(a: u64, d: u64)
    by (bit_vector)
    requires
        d < 64,
        a >> d == 1,
    ensures
        a - (1u64 << d) < (1u64 << d),
        a - (1u64 << d) >= 0,
{
}

/// Going a way of `d` bits from the root leads to a node at depth `d` whose way is that one.
pub proof fn law_way_round_trip(path: u64, d: u64)
    requires
        d < 64,
        path < (1u64 << d),
    ensures
        ids::depth_spec(((1u64 << d) | path) as nat) == d,
        ((1u64 << d) | path) - (1u64 << d) == path,
{
    ids::shift_facts(path, d);
    ids::depth_by_shift((1u64 << d) | path, d);
}

/// Every bit of two counts either agrees or differs.
pub proof fn law_xnor_complements_xor(a: u64, b: u64)
    ensures
        weight::weight((!(a ^ b)) as nat) + weight::weight((a ^ b) as nat) == 64,
{
    let x = a ^ b;
    ids::shift_facts(x, 0);
    weight::weight_of_disjoint_or(x, !x);
    all_ones();
}

proof fn all_ones()
    ensures
        weight::weight(0xFFFF_FFFF_FFFF_FFFF) == 64,
{
    reveal_with_fuel(weight::weight, 9);
    assert(weight::weight(0xFF) == 8);
    assert(weight::weight(0xFFFF) == 16);
    assert(weight::weight(0xFF_FFFF) == 24);
    assert(weight::weight(0xFFFF_FFFF) == 32);
    assert(weight::weight(0xFF_FFFF_FFFF) == 40);
    assert(weight::weight(0xFFFF_FFFF_FFFF) == 48);
    assert(weight::weight(0xFF_FFFF_FFFF_FFFF) == 56);
    assert(weight::weight(0xFFFF_FFFF_FFFF_FFFF) == 64);
}

/// A node is the lowest common node of its two children.
pub proof fn law_parent_is_lowest_common_of_children(id: nat)
    requires
        id >= 1,
    ensures
        lowest_common(id, 2 * id, 2 * id + 1),
{
    let l = 2 * id;
    let r = 2 * id + 1;
    assert(l / 2 == id && r / 2 == id);
    above_itself(id);
    above_half(id, l);
    above_half(id, r);
    assert forall|x: nat| #[trigger] ids::is_above(x, l) && ids::is_above(x, r) implies ids::is_above(x, id) by {
        above_half(x, l);
        above_half(x, r);
        if x == r {
            above_is_smaller(x, l);
        }
    }
}

/// Distance does not depend on the order of the nodes, and is zero from a node to itself.
pub proof fn law_distance_is_symmetric(a: nat, b: nat, n: int, m: int)
    requires
        is_distance(n, a, b),
        is_distance(m, b, a),
    ensures
        n == m,
        a == b ==> n == 0,
{
    let r = choose|r: nat| #[trigger]
        lowest_common(r, a, b) && n == ids::depth_spec(a) + ids::depth_spec(b) - 2 * ids::depth_spec(r);
    let s = choose|s: nat| #[trigger]
        lowest_common(s, b, a) && m == ids::depth_spec(b) + ids::depth_spec(a) - 2 * ids::depth_spec(s);
    law_lowest_common_commutes(s, b, a);
    law_lowest_common_is_unique(r, s, a, b);
    if a == b {
        above_itself(a);
        law_lowest_common_of_ancestor(a, a);
        law_lowest_common_is_unique(r, a, a, a);
    }
}

/// The subtrees of two children make up that of their parent, but for the parent itself.
pub proof fn law_subtree_splits(id: nat, tree_depth: nat)
    requires
        id >= 1,
        ids::depth_spec(id) < tree_depth < ids::depth_spec(id) + 63,
    ensures
        subtree_nodes(2 * id, tree_depth) + subtree_nodes(2 * id + 1, tree_depth) + 1 == subtree_nodes(
            id,
            tree_depth,
        ),
{
    law_children(id);
    let k = (tree_depth - ids::depth_spec(id)) as u64;
    ids::shift_facts(0, (k - 1) as u64);
    assert((k - 1 + 1) as u64 == k);
}

/// Being siblings does not depend on the order, and siblings merge into one node.
pub proof fn law_siblings_merge(a: u64, b: u64)
    ensures
        siblings(a, b) == siblings(b, a),
        siblings(a, b) ==> a / 2 == b / 2,
{
}

} // verus!
