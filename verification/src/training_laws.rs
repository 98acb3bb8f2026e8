//! What training promises of the tree as a whole: every leaf votes for the samples that the tree
//! sends to it, the order of the samples does not matter, no feature would have split better, and
//! a feature that tells the labels apart is found.

use vstd::arithmetic::power;
use vstd::multiset::Multiset;
use vstd::prelude::*;

use crate::priority;
use crate::priority::Tree32;

verus! {

// ---------------------------------------------------------------------------------------------
// Majority
// ---------------------------------------------------------------------------------------------

/// How many of the first `k` samples have the label and are sent to the leaf.
pub open spec fn routed(internals: Seq<u8>, samples: Seq<(u16, bool)>, leaf: int, label: bool, k: nat) -> nat
    decreases k,
{
    if k == 0 {
        0
    } else {
        let (features, l) = samples[k - 1];
        routed(internals, samples, leaf, label, (k - 1) as nat) + (if priority::leaf_of(internals, features)
            == leaf && l == label {
            1nat
        } else {
            0
        })
    }
}

/// The rows among the first `k` that the first `n` tests send to a node.
spec fn sent(internals: Seq<u8>, samples: Seq<(u16, bool)>, n: nat, idx: int, k: nat) -> Seq<usize>
    decreases k,
{
    if k == 0 {
        Seq::empty()
    } else {
        let rest = sent(internals, samples, n, idx, (k - 1) as nat);
        if priority::walk(internals, samples[k - 1].0, n) == idx {
            rest.push((k - 1) as usize)
        } else {
            rest
        }
    }
}

/// The first node of a level.
spec fn first_of(n: nat) -> int {
    if n == 0 {
        0
    } else if n == 1 {
        1
    } else if n == 2 {
        3
    } else if n == 3 {
        7
    } else {
        15
    }
}

/// The rows that are sent to a node are divided among its children by the feature that it tests.
proof fn sent_on(internals: Seq<u8>, samples: Seq<(u16, bool)>, n: nat, idx: int, side: bool, k: nat)
    requires
        k <= samples.len() <= usize::MAX,
    ensures
        priority::side_rows(
            samples,
            sent(internals, samples, n, idx, k),
            internals[idx] as int % 16,
            side,
        ) == sent(
            internals,
            samples,
            n + 1,
            2 * idx + 1 + (if side {
                1int
            } else {
                0
            }),
            k,
        ),
    decreases k,
{
    if k > 0 {
        let m = (k - 1) as nat;
        let rest = sent(internals, samples, n, idx, m);
        let r = m as usize;
        sent_on(internals, samples, n, idx, side, m);
        assert(samples[r as int] == samples[k - 1]);
        assert((n + 1 - 1) as nat == n);
        if priority::walk(internals, samples[k - 1].0, n) == idx {
            assert(rest.push(r).drop_last() =~= rest);
        }
    }
}

/// Where both labels are left, a node holds exactly the rows that are sent to it.
proof fn mixed_rows_are_sent(t: Tree32, samples: Seq<(u16, bool)>, n: nat, idx: int)
    requires
        priority::is_trained(t, samples),
        samples.len() <= usize::MAX,
        n <= 4,
        first_of(n) <= idx <= 2 * first_of(n),
        !priority::one_label(samples, priority::rows_at(samples, idx as nat)),
    ensures
        priority::rows_at(samples, idx as nat) == sent(t.internals@, samples, n, idx, samples.len()),
    decreases n,
{
    let internals = t.internals@;
    if n == 0 {
        all_are_sent(internals, samples, samples.len());
        assert(priority::rows_at(samples, 0) =~= sent(internals, samples, 0, 0, samples.len()));
    } else {
        let p = (idx - 1) / 2;
        let m = (n - 1) as nat;
        let rows = priority::rows_at(samples, p as nat);
        assert(((idx as nat - 1) / 2) as nat == p as nat);
        assert(!priority::one_label(samples, rows));
        mixed_rows_are_sent(t, samples, m, p);
        priority::best_exists(samples, rows);
        let f = priority::best_feature(samples, rows);
        assert(internals[p] == priority::feature_at(samples, p as nat));
        assert(internals[p] as int % 16 == f);
        let side = idx % 2 == 0;
        sent_on(internals, samples, m, p, side, samples.len());
        assert(2 * p + 1 + (if side {
            1int
        } else {
            0
        }) == idx);
    }
}

proof fn all_are_sent(internals: Seq<u8>, samples: Seq<(u16, bool)>, k: nat)
    requires
        k <= samples.len() <= usize::MAX,
    ensures
        sent(internals, samples, 0, 0, k) == Seq::new(k, |i: int| i as usize),
    decreases k,
{
    if k > 0 {
        all_are_sent(internals, samples, (k - 1) as nat);
    }
    assert(sent(internals, samples, 0, 0, k) =~= Seq::new(k, |i: int| i as usize));
}

proof fn sent_are_routed(internals: Seq<u8>, samples: Seq<(u16, bool)>, leaf: int, label: bool, k: nat)
    requires
        k <= samples.len() <= usize::MAX,
    ensures
        priority::label_count(samples, sent(internals, samples, 4, 15 + leaf, k), label) == routed(
            internals,
            samples,
            leaf,
            label,
            k,
        ),
    decreases k,
{
    if k > 0 {
        let m = (k - 1) as nat;
        let rest = sent(internals, samples, 4, 15 + leaf, m);
        let r = m as usize;
        sent_are_routed(internals, samples, leaf, label, m);
        assert(samples[r as int] == samples[k - 1]);
        assert(rest.push(r).drop_last() =~= rest);
    }
}

proof fn routed_is_some(internals: Seq<u8>, samples: Seq<(u16, bool)>, leaf: int, label: bool, k: nat) -> (i: int)
    requires
        k <= samples.len(),
        routed(internals, samples, leaf, label, k) > 0,
    ensures
        0 <= i < k,
        priority::leaf_of(internals, samples[i].0) == leaf,
        samples[i].1 == label,
    decreases k,
{
    if routed(internals, samples, leaf, label, (k - 1) as nat) > 0 {
        routed_is_some(internals, samples, leaf, label, (k - 1) as nat)
    } else {
        k - 1
    }
}

proof fn routed_counts(internals: Seq<u8>, samples: Seq<(u16, bool)>, i: int, k: nat)
    requires
        0 <= i < k <= samples.len(),
    ensures
        routed(internals, samples, priority::leaf_of(internals, samples[i].0), samples[i].1, k) > 0,
    decreases k,
{
    if i < k - 1 {
        routed_counts(internals, samples, i, (k - 1) as nat);
    }
}

/// A training sample that the tree sends to a leaf is in the rows of the leaf.
proof fn is_among_rows(t: Tree32, samples: Seq<(u16, bool)>, i: int)
    requires
        priority::is_trained(t, samples),
        0 <= i < samples.len() <= usize::MAX,
    ensures
        ({
            let leaf = priority::leaf_of(t.internals@, samples[i].0);
            &&& 0 <= leaf < 16
            &&& priority::label_count(
                samples,
                priority::rows_at(samples, (15 + leaf) as nat),
                samples[i].1,
            ) > 0
        }),
{
    let leaf = priority::leaf_of(t.internals@, samples[i].0);
    priority::walk_range(t.internals@, samples[i].0);
    priority::arrives(t, samples, i as usize, 4);
    assert((15 + leaf) as nat == priority::walk(t.internals@, samples[i].0, 4) as nat);
    priority::label_is_counted(samples, priority::rows_at(samples, (15 + leaf) as nat), i as usize);
}

/// Every training sample is classified by the majority of the training samples that the tree sends
/// to the same leaf, with a tie for the positive class; the leaf is marked as pure exactly if they
/// all have one label; and every inner node tests one of the sixteen features.
pub proof fn law_leaves_vote_by_majority(t: Tree32, samples: Seq<(u16, bool)>, i: int)
    requires
        priority::is_trained(t, samples),
        0 <= i < samples.len() <= usize::MAX,
    ensures
        ({
            let leaf = priority::leaf_of(t.internals@, samples[i].0);
            let yes = routed(t.internals@, samples, leaf, true, samples.len());
            let no = routed(t.internals@, samples, leaf, false, samples.len());
            &&& priority::half_bit(t.leaves, leaf) == (yes >= no)
            &&& priority::half_bit(t.leaf_pure, leaf) == (yes == 0 || no == 0)
        }),
        forall|k: int| 0 <= k < 15 ==> #[trigger] t.internals@[k] < 16,
{
    let internals = t.internals@;
    let label = samples[i].1;
    let leaf = priority::leaf_of(internals, samples[i].0);
    let n = samples.len();
    is_among_rows(t, samples, i);
    let rows = priority::rows_at(samples, (15 + leaf) as nat);
    priority::labels_add_up(samples, rows);
    assert(priority::half_bit(t.leaf_pure, leaf) == priority::leaf_is_pure(samples, leaf as nat));
    assert(priority::half_bit(t.leaves, leaf) == priority::leaf_class(samples, leaf as nat));
    assert((15 + leaf) as nat == 15 + leaf as nat);
    if priority::one_label(samples, rows) {
        routed_counts(internals, samples, i, n);
        if routed(internals, samples, leaf, !label, n) > 0 {
            let j = routed_is_some(internals, samples, leaf, !label, n);
            is_among_rows(t, samples, j);
        }
    } else {
        mixed_rows_are_sent(t, samples, 4, 15 + leaf);
        sent_are_routed(internals, samples, leaf, true, n);
        sent_are_routed(internals, samples, leaf, false, n);
    }
    assert forall|k: int| 0 <= k < 15 implies #[trigger] internals[k] < 16 by {
        priority::best_exists(samples, priority::rows_at(samples, k as nat));
        assert(internals[k] == priority::feature_at(samples, k as nat));
    }
}

// ---------------------------------------------------------------------------------------------
// Order
// ---------------------------------------------------------------------------------------------

/// The samples in rows, regardless of their order.
spec fn bag(samples: Seq<(u16, bool)>, rows: Seq<usize>) -> Multiset<(u16, bool)>
    decreases rows.len(),
{
    if rows.len() == 0 {
        Multiset::empty()
    } else {
        bag(samples, rows.drop_last()).insert(samples[rows.last() as int])
    }
}

spec fn with_label(label: bool) -> spec_fn((u16, bool)) -> bool {
    |s: (u16, bool)| s.1 == label
}

spec fn on_side(f: int, side: bool) -> spec_fn((u16, bool)) -> bool {
    |s: (u16, bool)| priority::half_bit(s.0, f) == side
}

proof fn filter_inserted(m: Multiset<(u16, bool)>, v: (u16, bool), p: spec_fn((u16, bool)) -> bool)
    ensures
        m.insert(v).filter(p) == (if p(v) {
            m.filter(p).insert(v)
        } else {
            m.filter(p)
        }),
{
    broadcast use vstd::multiset::group_multiset_axioms;

    if p(v) {
        assert(m.insert(v).filter(p) =~= m.filter(p).insert(v));
    } else {
        assert(m.insert(v).filter(p) =~= m.filter(p));
    }
}

proof fn filter_nothing(p: spec_fn((u16, bool)) -> bool)
    ensures
        Multiset::<(u16, bool)>::empty().filter(p) == Multiset::<(u16, bool)>::empty(),
{
    broadcast use vstd::multiset::group_multiset_axioms;

    assert(Multiset::<(u16, bool)>::empty().filter(p) =~= Multiset::<(u16, bool)>::empty());
}

proof fn bag_counts(samples: Seq<(u16, bool)>, rows: Seq<usize>, label: bool)
    ensures
        priority::label_count(samples, rows, label) == bag(samples, rows).filter(with_label(label)).len(),
        rows.len() == bag(samples, rows).len(),
    decreases rows.len(),
{
    broadcast use vstd::multiset::group_multiset_axioms;

    if rows.len() == 0 {
        filter_nothing(with_label(label));
    } else {
        bag_counts(samples, rows.drop_last(), label);
        filter_inserted(
            bag(samples, rows.drop_last()),
            samples[rows.last() as int],
            with_label(label),
        );
    }
}

proof fn bag_of_side(samples: Seq<(u16, bool)>, rows: Seq<usize>, f: int, side: bool)
    ensures
        bag(samples, priority::side_rows(samples, rows, f, side)) == bag(samples, rows).filter(
            on_side(f, side),
        ),
    decreases rows.len(),
{
    if rows.len() == 0 {
        filter_nothing(on_side(f, side));
    } else {
        let rest = rows.drop_last();
        let inner = priority::side_rows(samples, rest, f, side);
        bag_of_side(samples, rest, f, side);
        filter_inserted(bag(samples, rest), samples[rows.last() as int], on_side(f, side));
        assert(inner.push(rows.last()).drop_last() =~= inner);
    }
}

/// What a split leaves open depends on the samples, not on their order.
proof fn same_openness(
    a: Seq<(u16, bool)>,
    p: Seq<usize>,
    b: Seq<(u16, bool)>,
    q: Seq<usize>,
    f: int,
)
    requires
        bag(a, p) == bag(b, q),
    ensures
        priority::open_above(a, p, f) == priority::open_above(b, q, f),
        priority::open_below(a, p, f) == priority::open_below(b, q, f),
{
    same_side(a, p, b, q, f, false);
    same_side(a, p, b, q, f, true);
}

proof fn same_side(
    a: Seq<(u16, bool)>,
    p: Seq<usize>,
    b: Seq<(u16, bool)>,
    q: Seq<usize>,
    f: int,
    side: bool,
)
    requires
        bag(a, p) == bag(b, q),
    ensures
        ({
            let x = priority::side_rows(a, p, f, side);
            let y = priority::side_rows(b, q, f, side);
            &&& bag(a, x) == bag(b, y)
            &&& x.len() == y.len()
            &&& priority::label_count(a, x, true) == priority::label_count(b, y, true)
            &&& priority::label_count(a, x, false) == priority::label_count(b, y, false)
        }),
{
    let x = priority::side_rows(a, p, f, side);
    let y = priority::side_rows(b, q, f, side);
    bag_of_side(a, p, f, side);
    bag_of_side(b, q, f, side);
    bag_counts(a, x, true);
    bag_counts(b, y, true);
    bag_counts(a, x, false);
    bag_counts(b, y, false);
}

proof fn same_labels(a: Seq<(u16, bool)>, p: Seq<usize>, b: Seq<(u16, bool)>, q: Seq<usize>)
    requires
        bag(a, p) == bag(b, q),
    ensures
        p.len() == q.len(),
        priority::label_count(a, p, true) == priority::label_count(b, q, true),
        priority::label_count(a, p, false) == priority::label_count(b, q, false),
{
    bag_counts(a, p, true);
    bag_counts(b, q, true);
    bag_counts(a, p, false);
    bag_counts(b, q, false);
}

proof fn same_best(a: Seq<(u16, bool)>, p: Seq<usize>, b: Seq<(u16, bool)>, q: Seq<usize>)
    requires
        bag(a, p) == bag(b, q),
    ensures
        priority::best_feature(a, p) == priority::best_feature(b, q),
        0 <= priority::best_feature(a, p) < 16,
{
    let f = priority::best_feature(a, p);
    priority::best_exists(a, p);
    same_openness(a, p, b, q, f);
    assert forall|g: int| 0 <= g < f implies #[trigger] priority::leaves_less_open(b, q, f, g) by {
        same_openness(a, p, b, q, g);
        assert(priority::leaves_less_open(a, p, f, g));
    }
    assert forall|g: int| f <= g < 16 implies !#[trigger] priority::leaves_less_open(b, q, g, f) by {
        same_openness(a, p, b, q, g);
        assert(!priority::leaves_less_open(a, p, g, f));
    }
    assert(priority::is_best_split(b, q, f));
    priority::best_split_is_unique(b, q, f);
}

proof fn same_rows(a: Seq<(u16, bool)>, b: Seq<(u16, bool)>, idx: nat)
    requires
        a.to_multiset() == b.to_multiset(),
        a.len() <= usize::MAX,
    ensures
        bag(a, priority::rows_at(a, idx)) == bag(b, priority::rows_at(b, idx)),
    decreases idx,
{
    if idx == 0 {
        a.to_multiset_ensures();
        b.to_multiset_ensures();
        whole_bag(a, a.len());
        whole_bag(b, b.len());
        assert(a.take(a.len() as int) =~= a);
        assert(b.take(b.len() as int) =~= b);
    } else {
        let parent = ((idx - 1) / 2) as nat;
        same_rows(a, b, parent);
        let p = priority::rows_at(a, parent);
        let q = priority::rows_at(b, parent);
        same_labels(a, p, b, q);
        same_best(a, p, b, q);
        same_side(a, p, b, q, priority::best_feature(a, p), idx % 2 == 0);
    }
}

proof fn whole_bag(samples: Seq<(u16, bool)>, k: nat)
    requires
        k <= samples.len() <= usize::MAX,
    ensures
        bag(samples, Seq::new(k, |i: int| i as usize)) == samples.take(k as int).to_multiset(),
    decreases k,
{
    let rows = Seq::new(k, |i: int| i as usize);
    if k == 0 {
        samples.take(0).to_multiset_ensures();
        vstd::multiset::lemma_multiset_empty_len(samples.take(0).to_multiset());
    } else {
        let m = (k - 1) as nat;
        whole_bag(samples, m);
        samples.take(m as int).to_multiset_ensures();
        assert(rows.drop_last() =~= Seq::new(m, |i: int| i as usize));
        assert(samples.take(k as int) =~= samples.take(m as int).push(samples[m as int]));
        assert(samples[rows.last() as int] == samples[m as int]);
    }
}

proof fn halves_by_bit(a: u16, b: u16)
    by (bit_vector)
    requires
        (a >> 0u16) & 1 == (b >> 0u16) & 1,
        (a >> 1u16) & 1 == (b >> 1u16) & 1,
        (a >> 2u16) & 1 == (b >> 2u16) & 1,
        (a >> 3u16) & 1 == (b >> 3u16) & 1,
        (a >> 4u16) & 1 == (b >> 4u16) & 1,
        (a >> 5u16) & 1 == (b >> 5u16) & 1,
        (a >> 6u16) & 1 == (b >> 6u16) & 1,
        (a >> 7u16) & 1 == (b >> 7u16) & 1,
        (a >> 8u16) & 1 == (b >> 8u16) & 1,
        (a >> 9u16) & 1 == (b >> 9u16) & 1,
        (a >> 10u16) & 1 == (b >> 10u16) & 1,
        (a >> 11u16) & 1 == (b >> 11u16) & 1,
        (a >> 12u16) & 1 == (b >> 12u16) & 1,
        (a >> 13u16) & 1 == (b >> 13u16) & 1,
        (a >> 14u16) & 1 == (b >> 14u16) & 1,
        (a >> 15u16) & 1 == (b >> 15u16) & 1,
    ensures
        a == b,
{
}

proof fn same_bit(a: u16, b: u16, l: u16)
    requires
        l < 16,
        priority::half_bit(a, l as int) == priority::half_bit(b, l as int),
    ensures
        (a >> l) & 1 == (b >> l) & 1,
{
    priority::half_facts(a, 0, l);
    priority::half_facts(b, 0, l);
}

proof fn same_halves(a: u16, b: u16)
    requires
        forall|l: int| 0 <= l < 16 ==> #[trigger] priority::half_bit(a, l) == priority::half_bit(b, l),
    ensures
        a == b,
{
    same_bit(a, b, 0u16);
    same_bit(a, b, 1u16);
    same_bit(a, b, 2u16);
    same_bit(a, b, 3u16);
    same_bit(a, b, 4u16);
    same_bit(a, b, 5u16);
    same_bit(a, b, 6u16);
    same_bit(a, b, 7u16);
    same_bit(a, b, 8u16);
    same_bit(a, b, 9u16);
    same_bit(a, b, 10u16);
    same_bit(a, b, 11u16);
    same_bit(a, b, 12u16);
    same_bit(a, b, 13u16);
    same_bit(a, b, 14u16);
    same_bit(a, b, 15u16);
    halves_by_bit(a, b);
}

/// The order of the training samples does not matter: the same samples in another order lead to
/// the same tree.
pub proof fn law_order_of_samples_does_not_matter(
    t: Tree32,
    u: Tree32,
    a: Seq<(u16, bool)>,
    b: Seq<(u16, bool)>,
)
    requires
        priority::is_trained(t, a),
        priority::is_trained(u, b),
        a.to_multiset() == b.to_multiset(),
        a.len() <= usize::MAX,
    ensures
        t.internals@ == u.internals@,
        t.leaves == u.leaves,
        t.leaf_pure == u.leaf_pure,
{
    assert forall|k: int| 0 <= k < 15 implies #[trigger] t.internals@[k] == u.internals@[k] by {
        let p = priority::rows_at(a, k as nat);
        let q = priority::rows_at(b, k as nat);
        same_rows(a, b, k as nat);
        same_labels(a, p, b, q);
        same_best(a, p, b, q);
        assert(u.internals@[k] == priority::feature_at(b, k as nat));
    }
    assert(t.internals@ =~= u.internals@);
    assert forall|l: int| 0 <= l < 16 implies #[trigger] priority::half_bit(t.leaves, l) == priority::half_bit(
        u.leaves,
        l,
    ) by {
        same_rows(a, b, 15 + l as nat);
        same_labels(a, priority::rows_at(a, 15 + l as nat), b, priority::rows_at(b, 15 + l as nat));
        assert(priority::half_bit(u.leaves, l) == priority::leaf_class(b, l as nat));
    }
    same_halves(t.leaves, u.leaves);
    assert forall|l: int| 0 <= l < 16 implies #[trigger] priority::half_bit(t.leaf_pure, l)
        == priority::half_bit(u.leaf_pure, l) by {
        same_rows(a, b, 15 + l as nat);
        same_labels(a, priority::rows_at(a, 15 + l as nat), b, priority::rows_at(b, 15 + l as nat));
        assert(priority::half_bit(u.leaf_pure, l) == priority::leaf_is_pure(b, l as nat));
    }
    same_halves(t.leaf_pure, u.leaf_pure);
}

// ---------------------------------------------------------------------------------------------
// The best of sixteen features
// ---------------------------------------------------------------------------------------------

/// How many rows have bit `f` set or clear, as `side` says, and the given label.
pub open spec fn tallied(samples: Seq<(u16, bool)>, rows: Seq<usize>, f: int, side: bool, label: bool) -> nat
    decreases rows.len(),
{
    if rows.len() == 0 {
        0
    } else {
        let (features, l) = samples[rows.last() as int];
        tallied(samples, rows.drop_last(), f, side, label) + (if ((features >> (f as u16)) & 1 == 1) == side
            && l == label {
            1nat
        } else {
            0
        })
    }
}

/// Two to the power of what `yes + no` labels leave open is this over what `apart` gives.
spec fn together(yes: nat, no: nat) -> int {
    power::pow((yes + no) as int, yes + no)
}

spec fn apart(yes: nat, no: nat) -> int {
    power::pow(yes as int, yes) * power::pow(no as int, no)
}

proof fn tallied_by_side(samples: Seq<(u16, bool)>, rows: Seq<usize>, f: int, side: bool, label: bool)
    ensures
        tallied(samples, rows, f, side, label) == priority::label_count(
            samples,
            priority::side_rows(samples, rows, f, side),
            label,
        ),
    decreases rows.len(),
{
    if rows.len() > 0 {
        let rest = rows.drop_last();
        let inner = priority::side_rows(samples, rest, f, side);
        tallied_by_side(samples, rest, f, side, label);
        assert(inner.push(rows.last()).drop_last() =~= inner);
    }
}

proof fn openness_by_tally(samples: Seq<(u16, bool)>, rows: Seq<usize>, f: int)
    ensures
        ({
            let lt = tallied(samples, rows, f, false, true);
            let lf = tallied(samples, rows, f, false, false);
            let rt = tallied(samples, rows, f, true, true);
            let rf = tallied(samples, rows, f, true, false);
            &&& priority::open_above(samples, rows, f) == together(lt, lf) * together(rt, rf)
            &&& priority::open_below(samples, rows, f) == apart(lt, lf) * apart(rt, rf)
        }),
{
    let left = priority::side_rows(samples, rows, f, false);
    let right = priority::side_rows(samples, rows, f, true);
    tallied_by_side(samples, rows, f, false, true);
    tallied_by_side(samples, rows, f, false, false);
    tallied_by_side(samples, rows, f, true, true);
    tallied_by_side(samples, rows, f, true, false);
    priority::labels_add_up(samples, left);
    priority::labels_add_up(samples, right);
    let a = priority::self_power(priority::label_count(samples, left, true));
    let b = priority::self_power(priority::label_count(samples, left, false));
    let c = priority::self_power(priority::label_count(samples, right, true));
    let d = priority::self_power(priority::label_count(samples, right, false));
    assert(a * b * c * d == (a * b) * (c * d)) by (nonlinear_arith);
}

/// No split leaves less open than the one that is made. With `a` and `b` rows of each label on a
/// side, two to the power of the number of rows times the conditional entropy of the label is the
/// product over both sides of `(a + b)` to the power `a + b` over `a` to the power `a` times `b`
/// to the power `b`. For a node whose rows have both labels, this is no greater for the feature
/// that it tests than for any of the sixteen, and less than for every feature with a lower number.
pub proof fn law_no_feature_splits_better(t: Tree32, samples: Seq<(u16, bool)>, idx: int, g: int)
    requires
        priority::is_trained(t, samples),
        0 <= idx < 15,
        0 <= g < 16,
        exists|i: int, j: int|
            0 <= i < priority::rows_at(samples, idx as nat).len() && 0 <= j < priority::rows_at(
                samples,
                idx as nat,
            ).len() && samples[#[trigger] priority::rows_at(samples, idx as nat)[i] as int].1
                && !samples[#[trigger] priority::rows_at(samples, idx as nat)[j] as int].1,
    ensures
        ({
            let rows = priority::rows_at(samples, idx as nat);
            let f = t.internals@[idx] as int;
            let a = tallied(samples, rows, f, false, true);
            let b = tallied(samples, rows, f, false, false);
            let c = tallied(samples, rows, f, true, true);
            let d = tallied(samples, rows, f, true, false);
            let p = tallied(samples, rows, g, false, true);
            let q = tallied(samples, rows, g, false, false);
            let r = tallied(samples, rows, g, true, true);
            let s = tallied(samples, rows, g, true, false);
            let above_f = power::pow((a + b) as int, a + b) * power::pow((c + d) as int, c + d);
            let below_f = (power::pow(a as int, a) * power::pow(b as int, b)) * (power::pow(c as int, c)
                * power::pow(d as int, d));
            let above_g = power::pow((p + q) as int, p + q) * power::pow((r + s) as int, r + s);
            let below_g = (power::pow(p as int, p) * power::pow(q as int, q)) * (power::pow(r as int, r)
                * power::pow(s as int, s));
            &&& above_f * below_g <= above_g * below_f
            &&& g < f ==> above_f * below_g < above_g * below_f
        }),
{
    let rows = priority::rows_at(samples, idx as nat);
    let f = t.internals@[idx] as int;
    let (i, j) = choose|i: int, j: int|
        0 <= i < rows.len() && 0 <= j < rows.len() && samples[#[trigger] rows[i] as int].1
            && !samples[#[trigger] rows[j] as int].1;
    assert(rows.contains(rows[i]) && rows.contains(rows[j]));
    priority::label_is_counted(samples, rows, rows[i]);
    priority::label_is_counted(samples, rows, rows[j]);
    priority::best_exists(samples, rows);
    assert(t.internals@[idx] == priority::feature_at(samples, idx as nat));
    openness_by_tally(samples, rows, f);
    openness_by_tally(samples, rows, g);
    assert(g >= f ==> !priority::leaves_less_open(samples, rows, g, f));
    assert(g < f ==> priority::leaves_less_open(samples, rows, f, g));
}

proof fn larger_base(x: nat, y: nat, n: nat)
    requires
        x <= y,
    ensures
        0 <= power::pow(x as int, n) <= power::pow(y as int, n),
        x < y && n > 0 ==> power::pow(x as int, n) < power::pow(y as int, n),
        x > 0 ==> power::pow(x as int, n) > 0,
    decreases n,
{
    power::lemma_pow0(x as int);
    power::lemma_pow0(y as int);
    if n > 0 {
        let m = (n - 1) as nat;
        larger_base(x, y, m);
        if y > 0 {
            power::lemma_pow_positive(y as int, m);
        }
        let p = power::pow(x as int, m);
        let q = power::pow(y as int, m);
        reveal(power::pow);
        assert(power::pow(x as int, n) == x * p);
        assert(power::pow(y as int, n) == y * q);
        assert(0 <= x * p <= y * q) by (nonlinear_arith)
            requires
                0 <= x <= y,
                0 <= p <= q,
        ;
        assert(x < y ==> x * p < y * q) by (nonlinear_arith)
            requires
                0 <= x <= y,
                0 <= p <= q,
                y > 0 ==> q > 0,
        ;
        assert(x > 0 ==> x * p > 0) by (nonlinear_arith)
            requires
                x > 0 ==> p > 0,
        ;
    }
}

/// Labels leave something open exactly if there are both.
proof fn open_if_mixed(yes: nat, no: nat)
    ensures
        0 < apart(yes, no) <= together(yes, no),
        yes > 0 && no > 0 ==> apart(yes, no) < together(yes, no),
        yes == 0 || no == 0 ==> apart(yes, no) == together(yes, no),
{
    let n = yes + no;
    power::lemma_pow0(0);
    power::lemma_pow_adds(n as int, yes, no);
    larger_base(yes, n, yes);
    larger_base(no, n, no);
    let a = power::pow(yes as int, yes);
    let b = power::pow(no as int, no);
    let c = power::pow(n as int, yes);
    let d = power::pow(n as int, no);
    if yes > 0 {
        power::lemma_pow_positive(yes as int, yes);
    }
    if no > 0 {
        power::lemma_pow_positive(no as int, no);
    }
    assert(0 < a * b <= c * d) by (nonlinear_arith)
        requires
            0 < a <= c,
            0 < b <= d,
    ;
    if yes > 0 && no > 0 {
        assert(a * b < c * d) by (nonlinear_arith)
            requires
                0 < a < c,
                0 < b < d,
        ;
    }
    if yes == 0 {
        assert(a * b == b) by (nonlinear_arith)
            requires
                a == 1,
        ;
    }
    if no == 0 {
        assert(a * b == a) by (nonlinear_arith)
            requires
                b == 1,
        ;
    }
}

proof fn tight_product(a: int, p: int, b: int, q: int)
    requires
        0 < a <= p,
        0 < b <= q,
        p * q <= a * b,
    ensures
        a == p,
        b == q,
{
    if a < p {
        assert(a * b < p * q) by (nonlinear_arith)
            requires
                0 < a < p,
                0 < b <= q,
        ;
    }
    if b < q {
        assert(a * b < p * q) by (nonlinear_arith)
            requires
                0 < a <= p,
                0 < b < q,
        ;
    }
}

/// Whether a feature tells the labels apart, with `side` for the positive label.
pub open spec fn tells_apart(samples: Seq<(u16, bool)>, g: int, side: bool) -> bool {
    forall|i: int|
        0 <= i < samples.len() ==> (#[trigger] samples[i]).1 == (((samples[i].0 >> (g as u16)) & 1 == 1) == side)
}

proof fn nothing_on_the_wrong_side(samples: Seq<(u16, bool)>, rows: Seq<usize>, g: int, side: bool)
    requires
        tells_apart(samples, g, side),
        priority::valid_rows(samples, rows),
    ensures
        tallied(samples, rows, g, side, false) == 0,
        tallied(samples, rows, g, !side, true) == 0,
    decreases rows.len(),
{
    if rows.len() > 0 {
        let rest = rows.drop_last();
        assert(rows[rows.len() - 1] < samples.len());
        assert forall|i: int| 0 <= i < rest.len() implies #[trigger] rest[i] < samples.len() by {
            assert(rest[i] == rows[i]);
        }
        nothing_on_the_wrong_side(samples, rest, g, side);
        assert(samples[rows.last() as int].1 == (((samples[rows.last() as int].0 >> (g as u16)) & 1 == 1)
            == side));
    }
}

/// Where some feature tells the labels apart, the split that is made does so as well.
proof fn split_is_clean(samples: Seq<(u16, bool)>, rows: Seq<usize>, g: int, side: bool, which: bool)
    requires
        0 <= g < 16,
        tells_apart(samples, g, side),
        priority::valid_rows(samples, rows),
    ensures
        priority::one_label(
            samples,
            priority::side_rows(samples, rows, priority::best_feature(samples, rows), which),
        ),
{
    let f = priority::best_feature(samples, rows);
    priority::best_exists(samples, rows);
    openness_by_tally(samples, rows, f);
    openness_by_tally(samples, rows, g);
    nothing_on_the_wrong_side(samples, rows, g, side);
    let a = tallied(samples, rows, f, false, true);
    let b = tallied(samples, rows, f, false, false);
    let c = tallied(samples, rows, f, true, true);
    let d = tallied(samples, rows, f, true, false);
    let p = tallied(samples, rows, g, false, true);
    let q = tallied(samples, rows, g, false, false);
    let r = tallied(samples, rows, g, true, true);
    let s = tallied(samples, rows, g, true, false);
    open_if_mixed(a, b);
    open_if_mixed(c, d);
    open_if_mixed(p, q);
    open_if_mixed(r, s);
    assert(p == 0 || q == 0);
    assert(r == 0 || s == 0);
    let above_f = together(a, b) * together(c, d);
    let below_f = apart(a, b) * apart(c, d);
    let below_g = apart(p, q) * apart(r, s);
    assert(below_g > 0) by (nonlinear_arith)
        requires
            apart(p, q) > 0,
            apart(r, s) > 0,
            below_g == apart(p, q) * apart(r, s),
    ;
    assert(g >= f ==> !priority::leaves_less_open(samples, rows, g, f));
    assert(g < f ==> priority::leaves_less_open(samples, rows, f, g));
    assert(above_f * below_g <= below_g * below_f);
    assert(above_f <= below_f) by (nonlinear_arith)
        requires
            above_f * below_g <= below_g * below_f,
            below_g > 0,
    ;
    tight_product(apart(a, b), together(a, b), apart(c, d), together(c, d));
    tallied_by_side(samples, rows, f, which, true);
    tallied_by_side(samples, rows, f, which, false);
}

proof fn one_label_stays(samples: Seq<(u16, bool)>, idx: nat)
    requires
        priority::one_label(samples, priority::rows_at(samples, idx)),
    ensures
        priority::one_label(samples, priority::rows_at(samples, 2 * idx + 1)),
        priority::one_label(samples, priority::rows_at(samples, 2 * idx + 2)),
{
    assert(((2 * idx + 1 - 1) / 2) as nat == idx);
    assert(((2 * idx + 2 - 1) / 2) as nat == idx);
}

proof fn one_label_below(t: Tree32, samples: Seq<(u16, bool)>, features: u16, g: int, side: bool, n: nat)
    requires
        0 <= g < 16,
        tells_apart(samples, g, side),
        samples.len() <= usize::MAX,
        1 <= n <= 4,
    ensures
        priority::walk(t.internals@, features, n) >= 0,
        priority::one_label(
            samples,
            priority::rows_at(samples, priority::walk(t.internals@, features, n) as nat),
        ),
    decreases n,
{
    priority::walk_range(t.internals@, features);
    let m = (n - 1) as nat;
    let i = priority::walk(t.internals@, features, m) as nat;
    let rows = priority::rows_at(samples, i);
    if n == 1 {
        assert(i == 0);
        if !priority::one_label(samples, rows) {
            split_is_clean(samples, rows, g, side, false);
            split_is_clean(samples, rows, g, side, true);
            assert(((1 - 1) / 2int) as nat == 0 && ((2 - 1) / 2int) as nat == 0);
        } else {
            one_label_stays(samples, 0);
        }
    } else {
        one_label_below(t, samples, features, g, side, m);
        one_label_stays(samples, i);
    }
}

/// A feature that tells the labels apart is not missed, whichever of the sixteen it is and
/// whichever way it points: every training sample is then classified as it was labelled, and its
/// leaf is marked as pure.
pub proof fn law_separating_feature_is_not_missed(
    t: Tree32,
    samples: Seq<(u16, bool)>,
    g: int,
    side: bool,
    i: int,
)
    requires
        priority::is_trained(t, samples),
        0 <= g < 16,
        tells_apart(samples, g, side),
        0 <= i < samples.len() <= usize::MAX,
    ensures
        priority::half_bit(t.leaves, priority::leaf_of(t.internals@, samples[i].0)) == samples[i].1,
        priority::half_bit(t.leaf_pure, priority::leaf_of(t.internals@, samples[i].0)),
{
    let leaf = priority::leaf_of(t.internals@, samples[i].0);
    priority::walk_range(t.internals@, samples[i].0);
    one_label_below(t, samples, samples[i].0, g, side, 4);
    is_among_rows(t, samples, i);
    let rows = priority::rows_at(samples, (15 + leaf) as nat);
    priority::labels_add_up(samples, rows);
    assert((15 + leaf) as nat == 15 + leaf as nat);
    assert((15 + leaf) as nat == priority::walk(t.internals@, samples[i].0, 4) as nat);
    assert(priority::half_bit(t.leaf_pure, leaf) == priority::leaf_is_pure(samples, leaf as nat));
    priority::law_pure_leaves_classify_training_samples(t, samples, i as usize);
}

} // verus!
