//! Ordering by a key, equal keys in their given order.

use vstd::prelude::*;

verus! {

/// Whether item `i` comes before item `j`: by key, and by place among equal keys.
pub open spec fn before(keys: Seq<u64>, i: int, j: int) -> bool {
    keys[i] < keys[j] || (keys[i] == keys[j] && i < j)
}

/// Whether `order` lists all items, each once, in order of their keys.
pub open spec fn is_stable_order(keys: Seq<u64>, order: Seq<usize>) -> bool {
    &&& order.len() == keys.len()
    &&& forall|a: int| 0 <= a < order.len() ==> #[trigger] order[a] < keys.len()
    &&& forall|a: int, b: int|
        0 <= a < b < order.len() ==> before(keys, #[trigger] order[a] as int, #[trigger] order[b] as int)
}

/// Places the items in order of their keys.
pub fn stable_order(keys: &Vec<u64>) -> (order: Vec<usize>)
    ensures
        is_stable_order(keys@, order@),
{
    let mut order: Vec<usize> = Vec::new();
    let mut i: usize = 0;
    while i < keys.len()
        invariant
            i <= keys@.len(),
            order@.len() == i,
            forall|a: int| 0 <= a < i ==> #[trigger] order@[a] < i,
            forall|a: int, b: int|
                0 <= a < b < i ==> before(keys@, #[trigger] order@[a] as int, #[trigger] order@[b] as int),
        decreases keys@.len() - i,
    {
        let mut p: usize = i;
        while p > 0 && keys[order[p - 1]] > keys[i]
            invariant
                p <= i,
                i < keys@.len(),
                order@.len() == i,
                forall|a: int| 0 <= a < i ==> #[trigger] order@[a] < i,
                forall|a: int| p <= a < i ==> keys@[#[trigger] order@[a] as int] > keys@[i as int],
            decreases p,
        {
            p -= 1;
        }
        let ghost old_order = order@;
        order.insert(p, i);
        proof {
            assert forall|a: int, b: int| 0 <= a < b < i + 1 implies before(
                keys@,
                #[trigger] order@[a] as int,
                #[trigger] order@[b] as int,
            ) by {
                let oa = if a < p {
                    a
                } else {
                    a - 1
                };
                let ob = if b < p {
                    b
                } else {
                    b - 1
                };
                if a != p {
                    assert(order@[a] == old_order[oa]);
                }
                if b != p {
                    assert(order@[b] == old_order[ob]);
                }
                if a == p {
                    assert(keys@[old_order[ob] as int] > keys@[i as int]);
                } else if b == p {
                    assert(p > 0);
                    assert(keys@[old_order[p - 1] as int] <= keys@[i as int]);
                    if oa < p - 1 {
                        assert(before(keys@, old_order[oa] as int, old_order[p - 1] as int));
                    }
                } else {
                    assert(before(keys@, old_order[oa] as int, old_order[ob] as int));
                }
            }
        }
        i += 1;
    }
    order
}

/// In a stable order every item has a place.
pub proof fn stable_order_is_complete(keys: Seq<u64>, order: Seq<usize>, i: int)
    requires
        is_stable_order(keys, order),
        0 <= i < keys.len(),
    ensures
        exists|a: int| 0 <= a < order.len() && #[trigger] order[a] == i,
{
    let n = keys.len();
    let ints = Seq::new(n, |a: int| order[a] as int);
    assert forall|a: int, b: int| 0 <= a < n && 0 <= b < n && a != b implies #[trigger] ints[a]
        != #[trigger] ints[b] by {
        if a < b {
            assert(before(keys, order[a] as int, order[b] as int));
        } else {
            assert(before(keys, order[b] as int, order[a] as int));
        }
    }
    assert(ints.no_duplicates());
    ints.unique_seq_to_set();
    let range = vstd::set_lib::set_int_range(0, n as int);
    vstd::set_lib::lemma_int_range(0, n as int);
    assert(ints.to_set().subset_of(range)) by {
        assert forall|x: int| ints.to_set().contains(x) implies range.contains(x) by {
            let a = choose|a: int| 0 <= a < ints.len() && ints[a] == x;
            assert(order[a] < n);
        }
    }
    vstd::set_lib::lemma_subset_equality(ints.to_set(), range);
    assert(range.contains(i));
    assert(ints.to_set().contains(i));
    let a = choose|a: int| 0 <= a < ints.len() && ints[a] == i;
    assert(order[a] == i);
}

/// Whether item `i` has the highest key among the selected items, the last of them if several do.
pub open spec fn is_last_highest(keys: Seq<u64>, selected: Seq<bool>, i: int) -> bool {
    &&& 0 <= i < keys.len()
    &&& selected[i]
    &&& forall|j: int| 0 <= j < keys.len() && #[trigger] selected[j] && j != i ==> before(keys, j, i)
}

/// Finds the last item with the highest key among the selected ones.
pub fn last_highest(keys: &Vec<u64>, selected: &Vec<bool>) -> (r: Option<usize>)
    requires
        keys@.len() == selected@.len(),
    ensures
        match r {
            Some(i) => is_last_highest(keys@, selected@, i as int),
            None => forall|j: int| 0 <= j < keys@.len() ==> !#[trigger] selected@[j],
        },
{
    let mut best: Option<usize> = None;
    let mut i: usize = 0;
    while i < keys.len()
        invariant
            i <= keys@.len(),
            keys@.len() == selected@.len(),
            match best {
                Some(b) => b < i && selected@[b as int] && forall|j: int|
                    0 <= j < i && #[trigger] selected@[j] && j != b ==> before(keys@, j, b as int),
                None => forall|j: int| 0 <= j < i ==> !#[trigger] selected@[j],
            },
        decreases keys@.len() - i,
    {
        if selected[i] {
            match best {
                Some(b) => {
                    if keys[b] <= keys[i] {
                        best = Some(i);
                    }
                },
                None => {
                    best = Some(i);
                },
            }
        }
        i += 1;
    }
    best
}

} // verus!
