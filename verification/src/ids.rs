//! Node numbers of the binary tree.
//!
//! Nodes are numbered as in a binary heap: the root is 1, the children of `k` are `2 * k` and
//! `2 * k + 1`. A node's address is its number in base two.

use vstd::prelude::*;

use crate::text;

verus! {

/// How many levels a node lies below the root.
pub open spec fn depth_spec(id: nat) -> nat
    decreases id,
{
    if id <= 1 {
        0
    } else {
        1 + depth_spec(id / 2)
    }
}

/// The node `k` levels above.
pub open spec fn up(id: nat, k: nat) -> nat
    decreases k,
{
    if k == 0 {
        id
    } else {
        up(id / 2, (k - 1) as nat)
    }
}

/// Whether `x` is `id` or lies above it.
pub open spec fn is_above(x: nat, id: nat) -> bool {
    exists|k: nat| #[trigger] up(id, k) == x
}

/// The number that an address spells, if it spells one that is not zero.
pub open spec fn id_of_addr(addr: Seq<char>) -> Option<nat> {
    match text::unsigned_value(addr, 2, 0xFFFF_FFFF_FFFF_FFFF) {
        Some(n) => if n >= 1 {
            Some(n)
        } else {
            None
        },
        None => None,
    }
}

/// The address of a node.
pub fn id_to_bit_addr(id: u64) -> (addr: String)
    ensures
        addr@ == text::digits(id as nat, 2),
{
    text::number(id, 2)
}

/// The node that an address names; nothing for a text that is no number in base two, and for
/// zero.
pub fn bit_addr_to_id(addr: &str) -> (id: Option<u64>)
    ensures
        match id {
            Some(n) => id_of_addr(addr@) == Some(n as nat),
            None => id_of_addr(addr@) is None,
        },
{
    let v = text::chars_of(addr);
    match text::parse_unsigned(&v, 2, u64::MAX) {
        Some(n) => if n >= 1 {
            Some(n)
        } else {
            None
        },
        None => None,
    }
}

/// Every node but zero is found again under its address.
pub proof fn law_address_round_trip(id: u64)
    requires
        id >= 1,
    ensures
        id_of_addr(text::digits(id as nat, 2)) == Some(id as nat),
{
    text::law_unsigned_round_trip(id as nat, 2, 0xFFFF_FFFF_FFFF_FFFF);
}

/// The address of a left child ends in a zero, that of a right child in a one, and both continue
/// the address of the parent.
pub proof fn law_child_addresses(id: nat)
    requires
        id >= 1,
    ensures
        text::digits(2 * id, 2) == text::digits(id, 2).push('0'),
        text::digits(2 * id + 1, 2) == text::digits(id, 2).push('1'),
{
    assert((2 * id) / 2 == id && (2 * id) % 2 == 0);
    assert((2 * id + 1) / 2 == id && (2 * id + 1) % 2 == 1);
    assert(text::digit(0) == '0');
    assert(text::digit(1) == '1');
}

/// Node numbers as bit patterns.
pub proof fn shift_facts(a: u64, d: u64)
    by (bit_vector)
    requires
        d < 64,
    ensures
        a >> 1 == a / 2,
        a & 1 == a % 2,
        a >= 2 ==> a ^ 1 == (if a % 2 == 0 {
            (a + 1) as u64
        } else {
            (a - 1) as u64
        }),
        (a ^ 1) ^ 1 == a,
        d > 0 ==> (a >> 1) >> ((d - 1) as u64) == a >> d,
        (a >> d) & 1 != 0 && d < 63 && a >> ((d + 1) as u64) == 0 ==> a >> d == 1,
        (a >> 63) & 1 != 0 ==> a >> 63 == 1,
        a >> d == 1 ==> a & (1u64 << d) == 1u64 << d,
        a >> d == 1 ==> a ^ (1u64 << d) == a - (1u64 << d),
        a >> d == 1 ==> (1u64 << d) <= a,
        d > 0 && a >> d == 1 ==> a >= 2,
        a >> 0u64 == a,
        1u64 << 0u64 == 1,
        d < 63 ==> 1u64 << ((d + 1) as u64) == 2 * (1u64 << d),
        1u64 << d >= 1,
        1u64 << d <= 0x8000_0000_0000_0000,
        0u64 ^ 1 == 1,
        a < 1u64 << d ==> (1u64 << d) | a == (1u64 << d) + a,
        a < 1u64 << d ==> ((1u64 << d) | a) >> d == 1,
        a < 0x8000_0000_0000_0000 ==> a << 1 == 2 * a,
        a < 0x8000_0000_0000_0000 ==> (a << 1) | 1 == 2 * a + 1,
        !a == a ^ 0xFFFF_FFFF_FFFF_FFFF,
        a & !a == 0,
        a | !a == 0xFFFF_FFFF_FFFF_FFFF,
{
}

/// The depth is the distance of the highest one bit from the low end.
pub proof fn depth_by_shift(a: u64, d: u64)
    requires
        d < 64,
        a >> d == 1,
    ensures
        depth_spec(a as nat) == d,
    decreases d,
{
    shift_facts(a, d);
    if d > 0 {
        depth_by_shift(a >> 1, (d - 1) as u64);
    }
}

/// The depth of a node; the root has depth zero, and so has the unused number zero.
pub fn depth_of(id: u64) -> (d: u32)
    ensures
        d == depth_spec(id as nat),
        d < 64,
        id >= 1 ==> id >> d == 1,
{
    if id == 0 {
        0
    } else {
        proof {
            vstd::std_specs::bits::axiom_u64_leading_zeros(id);
        }
        let z: u32 = id.leading_zeros();
        let d: u32 = 63 - z;
        proof {
            shift_facts(id, d as u64);
            assert((63u64 - z as u64) as u64 == d as u64);
            if d < 63 {
                assert((64u64 - z as u64) as u64 == (d as u64 + 1) as u64);
            }
            depth_by_shift(id, d as u64);
        }
        d
    }
}

/// The way from the root as bits: the number without its highest one bit.
pub fn path_of(id: u64) -> (path: u64)
    ensures
        id >= 1 ==> path == id - (1u64 << (depth_spec(id as nat) as u64)),
        id == 0 ==> path == 1,
{
    let d: u32 = depth_of(id);
    proof {
        shift_facts(id, d as u64);
    }
    id ^ (1u64 << d)
}

/// The parent; the root has none.
pub fn parent_of(id: u64) -> (parent: Option<u64>)
    ensures
        parent == (if id <= 1 {
            None
        } else {
            Some((id / 2) as u64)
        }),
{
    proof {
        shift_facts(id, 0);
    }
    if id <= 1 {
        None
    } else {
        Some(id >> 1)
    }
}

/// The other child of the same parent; the root has none.
pub fn sibling_of(id: u64) -> (sibling: Option<u64>)
    ensures
        sibling == (if id <= 1 {
            None
        } else if id % 2 == 0 {
            Some((id + 1) as u64)
        } else {
            Some((id - 1) as u64)
        }),
{
    proof {
        shift_facts(id, 0);
    }
    if id <= 1 {
        None
    } else {
        Some(id ^ 1)
    }
}

/// How many of the nodes `1..=n` have no child among them.
pub open spec fn leaf_count(n: nat, k: nat) -> nat
    decreases k,
{
    if k == 0 {
        0
    } else {
        leaf_count(n, (k - 1) as nat) + (if 2 * k > n {
            1nat
        } else {
            0
        })
    }
}

proof fn leaf_count_closed(n: nat, k: nat)
    requires
        k <= n,
    ensures
        leaf_count(n, k) == (if 2 * k <= n {
            0
        } else {
            k - n / 2
        }),
    decreases k,
{
    if k > 0 {
        leaf_count_closed(n, (k - 1) as nat);
    }
}

/// How many leaves the tree of the nodes `1..=node_count` has.
pub fn leaves_for_node_count(node_count: u64) -> (leaves: u64)
    ensures
        leaves == leaf_count(node_count as nat, node_count as nat),
        leaves == (node_count + 1) / 2,
{
    proof {
        leaf_count_closed(node_count as nat, node_count as nat);
    }
    if node_count == 0 {
        0
    } else {
        node_count - (node_count / 2)
    }
}

/// Of the nodes of a tree without gaps every other one is a leaf, the odd one too.
pub proof fn law_half_the_nodes_are_leaves(n: nat)
    ensures
        leaf_count(n, n) == (n + 1) / 2,
{
    leaf_count_closed(n, n);
}

/// An address that is continued by a zero or a one names the left or the right child of the node
/// that it named.
pub proof fn law_address_is_read_digit_by_digit(addr: Seq<char>, n: nat)
    requires
        id_of_addr(addr) == Some(n),
        2 * n + 1 <= u64::MAX,
    ensures
        id_of_addr(addr.push('0')) == Some(2 * n),
        id_of_addr(addr.push('1')) == Some(2 * n + 1),
{
    let u = text::without_plus(addr);
    assert(text::without_plus(addr.push('0')) =~= u.push('0'));
    assert(text::without_plus(addr.push('1')) =~= u.push('1'));
    assert(u.push('0').drop_last() =~= u);
    assert(u.push('1').drop_last() =~= u);
    assert forall|i: int| 0 <= i < u.push('0').len() implies text::is_digit(#[trigger] u.push('0')[i], 2) by {
        if i < u.len() {
            assert(text::is_digit(u[i], 2));
        }
    }
    assert forall|i: int| 0 <= i < u.push('1').len() implies text::is_digit(#[trigger] u.push('1')[i], 2) by {
        if i < u.len() {
            assert(text::is_digit(u[i], 2));
        }
    }
}

proof fn binary_digit(c: char)
    requires
        text::is_digit(c, 2),
    ensures
        c == '0' || c == '1',
{
    assert(c as u32 == '0' as u32 || c as u32 == '1' as u32);
}

/// What has another character in it than zero and one, but for a plus sign in front, is no
/// address, nor is one that stands for zero, nor nothing at all.
pub proof fn law_what_is_no_address(addr: Seq<char>, i: int)
    requires
        0 <= i < addr.len(),
        addr[i] != '0' && addr[i] != '1',
        i > 0 || addr[i] != '+',
    ensures
        id_of_addr(addr) is None,
        id_of_addr(Seq::empty()) is None,
        id_of_addr(seq!['0']) is None,
        id_of_addr(seq!['1']) == Some(1nat),
{
    let u = text::without_plus(addr);
    if u.len() > 0 && text::all_digits(u, 2) {
        let k = if addr[0] == '+' {
            i - 1
        } else {
            i
        };
        assert(u[k] == addr[i]);
        assert(text::is_digit(u[k], 2));
        binary_digit(u[k]);
    }
    assert(seq!['0'].drop_last() =~= Seq::<char>::empty());
    assert(seq!['1'].drop_last() =~= Seq::<char>::empty());
    assert(text::digits_value(Seq::<char>::empty(), 2) == 0);
}

} // verus!
