//! Reachability in a graph of numbered nodes.

use vstd::prelude::*;

verus! {

/// The lists of a graph.
pub open spec fn lists(edges: Seq<Vec<usize>>) -> Seq<Seq<usize>> {
    Seq::new(edges.len(), |i: int| edges[i]@)
}

/// Whether a graph's edges lead to its own nodes only.
pub open spec fn is_graph(edges: Seq<Seq<usize>>) -> bool {
    forall|i: int, k: int|
        0 <= i < edges.len() && 0 <= k < edges[i].len() ==> #[trigger] edges[i][k] < edges.len()
}

/// Whether there is an edge from `i` to `j`.
pub open spec fn has_edge(edges: Seq<Seq<usize>>, i: int, j: int) -> bool {
    exists|k: int| 0 <= k < edges[i].len() && #[trigger] edges[i][k] == j
}

/// Whether a node is one of those listed.
pub open spec fn is_listed(start: Seq<usize>, i: int) -> bool {
    exists|k: int| 0 <= k < start.len() && #[trigger] start[k] == i
}

/// Whether a node is reached from one of the start nodes along at most `n` edges.
pub open spec fn reached_within(edges: Seq<Seq<usize>>, start: Seq<usize>, n: nat, i: int) -> bool
    decreases n,
{
    if n == 0 {
        is_listed(start, i)
    } else {
        ||| reached_within(edges, start, (n - 1) as nat, i)
        ||| exists|j: int|
            0 <= j < edges.len() && reached_within(edges, start, (n - 1) as nat, j) && #[trigger] has_edge(
                edges,
                j,
                i,
            )
    }
}

/// Whether a node is reached from one of the start nodes; the start nodes themselves are.
pub open spec fn is_reached(edges: Seq<Seq<usize>>, start: Seq<usize>, i: int) -> bool {
    exists|n: nat| reached_within(edges, start, n, i)
}

/// How many nodes have no mark.
spec fn unmarked(marks: Seq<bool>) -> nat
    decreases marks.len(),
{
    if marks.len() == 0 {
        0
    } else {
        unmarked(marks.drop_last()) + (if marks.last() {
            0nat
        } else {
            1nat
        })
    }
}

proof fn marking_lowers(marks: Seq<bool>, i: int)
    requires
        0 <= i < marks.len(),
        !marks[i],
    ensures
        unmarked(marks.update(i, true)) + 1 == unmarked(marks),
    decreases marks.len(),
{
    let after = marks.update(i, true);
    if i == marks.len() - 1 {
        assert(after.drop_last() =~= marks.drop_last());
    } else {
        assert(after.drop_last() =~= marks.drop_last().update(i, true));
        marking_lowers(marks.drop_last(), i);
    }
}

/// What is reached is closed: from a reached node every edge leads to a reached node.
pub proof fn edge_keeps_reached(edges: Seq<Seq<usize>>, start: Seq<usize>, j: int, i: int)
    requires
        0 <= j < edges.len(),
        is_reached(edges, start, j),
        has_edge(edges, j, i),
    ensures
        is_reached(edges, start, i),
{
    let n = choose|n: nat| reached_within(edges, start, n, j);
    assert(reached_within(edges, start, n + 1, i));
}

/// A set that has the start nodes and is closed under the edges has everything that is reached.
pub proof fn closed_set_has_reached(
    edges: Seq<Seq<usize>>,
    start: Seq<usize>,
    inside: spec_fn(int) -> bool,
    n: nat,
    i: int,
)
    requires
        forall|k: int| 0 <= k < start.len() ==> inside(#[trigger] start[k] as int),
        forall|j: int, k: int| 0 <= j < edges.len() && inside(j) && #[trigger] has_edge(edges, j, k) ==> inside(k),
        reached_within(edges, start, n, i),
    ensures
        inside(i),
    decreases n,
{
    if n == 0 {
        let k = choose|k: int| 0 <= k < start.len() && #[trigger] start[k] == i;
        assert(inside(start[k] as int));
    } else if reached_within(edges, start, (n - 1) as nat, i) {
        closed_set_has_reached(edges, start, inside, (n - 1) as nat, i);
    } else {
        let j = choose|j: int|
            0 <= j < edges.len() && reached_within(edges, start, (n - 1) as nat, j) && #[trigger] has_edge(
                edges,
                j,
                i,
            );
        closed_set_has_reached(edges, start, inside, (n - 1) as nat, j);
    }
}

/// Marks every node that is reached from the start nodes.
pub fn reach(edges: &Vec<Vec<usize>>, start: &Vec<usize>) -> (marks: Vec<bool>)
    requires
        is_graph(lists(edges@)),
        forall|k: int| 0 <= k < start@.len() ==> #[trigger] start@[k] < edges@.len(),
    ensures
        marks@.len() == edges@.len(),
        forall|i: int| 0 <= i < marks@.len() ==> #[trigger] marks@[i] == is_reached(lists(edges@), start@, i),
{
    let ghost g = lists(edges@);
    let n: usize = edges.len();
    let mut marks: Vec<bool> = vec![false; n];
    let mut pending: Vec<usize> = Vec::new();
    let mut k: usize = 0;
    while k < start.len()
        invariant
            k <= start@.len(),
            pending@ == start@.take(k as int),
        decreases start@.len() - k,
    {
        pending.push(start[k]);
        assert(start@.take(k + 1) =~= start@.take(k as int).push(start@[k as int]));
        k += 1;
    }
    proof {
        assert(pending@ =~= start@);
        assert forall|k: int| 0 <= k < pending@.len() implies is_reached(
            g,
            start@,
            #[trigger] pending@[k] as int,
        ) by {
            assert(is_listed(start@, start@[k] as int));
            assert(reached_within(g, start@, 0, start@[k] as int));
        }
        assert forall|k: int| 0 <= k < start@.len() implies is_listed(pending@, #[trigger] start@[k] as int) by {
            assert(pending@[k] == start@[k]);
        }
    }
    while pending.len() > 0
        invariant
            n == edges@.len(),
            g == lists(edges@),
            marks@.len() == n,
            is_graph(g),
            forall|k: int| 0 <= k < pending@.len() ==> #[trigger] pending@[k] < n,
            forall|k: int| 0 <= k < pending@.len() ==> is_reached(g, start@, #[trigger] pending@[k] as int),
            forall|i: int| 0 <= i < n && #[trigger] marks@[i] ==> is_reached(g, start@, i),
            forall|k: int|
                0 <= k < start@.len() ==> #[trigger] start@[k] < n && (marks@[start@[k] as int] || is_listed(
                    pending@,
                    start@[k] as int,
                )),
            forall|i: int, j: int|
                0 <= i < n && marks@[i] && #[trigger] has_edge(g, i, j) ==> 0 <= j < n && (marks@[j]
                    || is_listed(pending@, j)),
        decreases unmarked(marks@), pending@.len(),
    {
        let ghost before = pending@;
        let ghost old_marks = marks@;
        let last: usize = pending.len() - 1;
        let a: usize = pending[last];
        pending.pop();
        proof {
            assert forall|i: int| is_listed(before, i) && i != a implies #[trigger] is_listed(pending@, i) by {
                let k = choose|k: int| 0 <= k < before.len() && #[trigger] before[k] == i;
                assert(pending@[k] == i);
            }
            assert(before[last as int] == a);
        }
        if marks[a] {
            continue;
        }
        proof {
            marking_lowers(marks@, a as int);
        }
        marks[a] = true;
        let ghost popped = pending@;
        let next: &Vec<usize> = &edges[a];
        let mut k: usize = 0;
        while k < next.len()
            invariant
                k <= next@.len(),
                n == edges@.len(),
            g == lists(edges@),
                a < n,
                next@ == g[a as int],
                marks@.len() == n,
                marks@[a as int],
                is_reached(g, start@, a as int),
                is_graph(g),
                forall|k: int| 0 <= k < pending@.len() ==> #[trigger] pending@[k] < n,
                forall|k: int|
                    0 <= k < pending@.len() ==> is_reached(g, start@, #[trigger] pending@[k] as int),
                forall|i: int| is_listed(popped, i) ==> #[trigger] is_listed(pending@, i),
                forall|l: int|
                    0 <= l < k ==> 0 <= #[trigger] next@[l] < n && (marks@[next@[l] as int] || is_listed(
                        pending@,
                        next@[l] as int,
                    )),
            decreases next@.len() - k,
        {
            let b: usize = next[k];
            proof {
                assert(g[a as int][k as int] == b);
                assert(has_edge(g, a as int, b as int));
                edge_keeps_reached(g, start@, a as int, b as int);
            }
            if !marks[b] {
                let ghost shorter = pending@;
                pending.push(b);
                proof {
                    assert forall|i: int| is_listed(shorter, i) implies #[trigger] is_listed(pending@, i) by {
                        let m = choose|m: int| 0 <= m < shorter.len() && #[trigger] shorter[m] == i;
                        assert(pending@[m] == i);
                    }
                    assert(pending@[pending@.len() - 1] == b);
                    assert(is_listed(pending@, b as int));
                }
            }
            k += 1;
        }
        proof {
            assert forall|i: int, j: int|
                0 <= i < n && marks@[i] && #[trigger] has_edge(g, i, j) implies 0 <= j < n && (marks@[j]
                || is_listed(pending@, j)) by {
                if i == a {
                    let l = choose|l: int| 0 <= l < g[i].len() && #[trigger] g[i][l] == j;
                    assert(next@[l] == j);
                } else {
                    assert(old_marks[i]);
                    if is_listed(before, j) && j != a {
                        assert(is_listed(popped, j));
                    }
                }
            }
            assert forall|k: int| 0 <= k < start@.len() implies #[trigger] start@[k] < n && (
            marks@[start@[k] as int] || is_listed(pending@, start@[k] as int)) by {
                let i = start@[k] as int;
                if is_listed(before, i) && i != a {
                    assert(is_listed(popped, i));
                }
            }
        }
    }
    proof {
        assert forall|i: int| 0 <= i < marks@.len() implies #[trigger] marks@[i] == is_reached(
            g,
            start@,
            i,
        ) by {
            if is_reached(g, start@, i) {
                let m = choose|m: nat| reached_within(g, start@, m, i);
                let inside = |j: int| 0 <= j < n && marks@[j];
                closed_set_has_reached(g, start@, inside, m, i);
            }
        }
    }
    marks
}

} // verus!
