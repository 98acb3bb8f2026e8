//! A scheduler in miniature: random jobs, a few workers, and the steps they need under an order.

use vstd::prelude::*;

use crate::graph;
use crate::priority;
use crate::priority::{encode_features, Features, Tree32};

verus! {

/// How many jobs run at a time.
pub const WORKERS: usize = 4;

// ---------------------------------------------------------------------------------------------
// Random jobs
// ---------------------------------------------------------------------------------------------

/// A small deterministic source of numbers.
pub struct Rng(pub u64);

/// What follows a state.
pub open spec fn shaken(x: u64) -> u64 {
    let a = x ^ (x << 13);
    let b = a ^ (a >> 7);
    b ^ (b << 17)
}

impl Rng {
    /// A source that starts from a seed; zero counts as one.
    pub fn new(seed: u64) -> (r: Self)
        ensures
            r.0 == (if seed < 1 {
                1
            } else {
                seed
            }),
    {
        Rng(
            if seed < 1 {
                1
            } else {
                seed
            },
        )
    }

    /// The next number.
    pub fn next_u64(&mut self) -> (x: u64)
        ensures
            x == shaken(old(self).0),
            final(self).0 == x,
    {
        let x: u64 = self.0;
        let a: u64 = x ^ (x << 13);
        let b: u64 = a ^ (a >> 7);
        let c: u64 = b ^ (b << 17);
        self.0 = c;
        c
    }

    /// The next number, below a limit.
    pub fn range(&mut self, n: u64) -> (x: u64)
        requires
            n > 0,
        ensures
            x == shaken(old(self).0) % n,
            final(self).0 == shaken(old(self).0),
    {
        self.next_u64() % n
    }
}

/// A job.
pub struct Node {
    /// The jobs that must be done first.
    pub deps: Vec<usize>,
    /// How many steps it takes.
    pub work: u32,
    /// One more than the number of jobs that depend on it, directly or through others.
    pub subtree_size: u32,
    /// Length of the longest chain of jobs before it.
    pub depth: u32,
}

/// What is drawn for a job: what it depends on, and its work.
pub struct Plan {
    pub deps: Seq<usize>,
    pub work: u32,
}

/// Draws `k` jobs below `i` to depend on; what is drawn twice counts once.
pub open spec fn drawn_deps(i: nat, s: u64, k: nat, deps: Seq<usize>) -> (Seq<usize>, u64)
    decreases k,
{
    if k == 0 || i == 0 {
        (deps, s)
    } else {
        let t = shaken(s);
        let d = (t as nat % i) as usize;
        drawn_deps(
            i,
            t,
            (k - 1) as nat,
            if deps.contains(d) {
                deps
            } else {
                deps.push(d)
            },
        )
    }
}

/// Draws job `i`: up to two jobs to depend on, and one to seven steps of work.
pub open spec fn drawn_job(i: nat, s: u64) -> (Plan, u64) {
    let t = shaken(s);
    let (deps, u) = drawn_deps(i, t, (t % 3) as nat, Seq::empty());
    let v = shaken(u);
    (Plan { deps, work: (v % 7 + 1) as u32 }, v)
}

/// Draws the first `n` jobs.
pub open spec fn drawn(n: nat, s: u64) -> (Seq<Plan>, u64)
    decreases n,
{
    if n == 0 {
        (Seq::empty(), s)
    } else {
        let (front, t) = drawn((n - 1) as nat, s);
        let (job, u) = drawn_job((n - 1) as nat, t);
        (front.push(job), u)
    }
}

/// What each job depends on.
pub open spec fn links(plan: Seq<Plan>) -> Seq<Seq<usize>> {
    Seq::new(plan.len(), |i: int| plan[i].deps)
}

/// Whether every job depends on earlier ones only.
pub open spec fn topological(l: Seq<Seq<usize>>) -> bool {
    forall|i: int, k: int| 0 <= i < l.len() && 0 <= k < l[i].len() ==> #[trigger] l[i][k] < i
}

/// The depth of job `i`.
pub open spec fn depth_in(l: Seq<Seq<usize>>, i: nat) -> nat
    decreases i, 1nat, 0nat,
{
    if l[i as int].len() == 0 {
        0
    } else {
        deepest_in(l, i, l[i as int].len()) + 1
    }
}

/// The largest depth among the first `k` jobs that job `i` depends on.
pub open spec fn deepest_in(l: Seq<Seq<usize>>, i: nat, k: nat) -> nat
    decreases i, 0nat, k,
{
    if k == 0 {
        0
    } else {
        let m = deepest_in(l, i, (k - 1) as nat);
        let d = l[i as int][k - 1] as nat;
        if d < i && depth_in(l, d) > m {
            depth_in(l, d)
        } else {
            m
        }
    }
}

/// How many of the first `n` jobs depend on job `a`, directly or through others.
pub open spec fn dependents(l: Seq<Seq<usize>>, a: int, n: nat) -> nat
    decreases n,
{
    if n == 0 {
        0
    } else {
        dependents(l, a, (n - 1) as nat) + (if graph::is_reached(l, l[n - 1], a) {
            1nat
        } else {
            0
        })
    }
}

proof fn drawn_deps_are_earlier(i: nat, s: u64, k: nat, deps: Seq<usize>)
    requires
        i <= usize::MAX,
        forall|j: int| 0 <= j < deps.len() ==> #[trigger] deps[j] < i,
    ensures
        ({
            let r = drawn_deps(i, s, k, deps).0;
            &&& forall|j: int| 0 <= j < r.len() ==> #[trigger] r[j] < i
            &&& r.len() <= deps.len() + k
        }),
    decreases k,
{
    if k > 0 && i > 0 {
        let t = shaken(s);
        let m = t as nat % i;
        assert(0 <= m < i) by (nonlinear_arith)
            requires
                m == t as nat % i,
                i > 0,
        ;
        let d = m as usize;
        let next = if deps.contains(d) {
            deps
        } else {
            deps.push(d)
        };
        drawn_deps_are_earlier(i, t, (k - 1) as nat, next);
    }
}

/// Every drawn job depends on at most two jobs, all of them earlier, and takes one to seven steps.
pub proof fn law_drawn_jobs_are_ordered(n: nat, s: u64)
    requires
        n <= usize::MAX,
    ensures
        drawn(n, s).0.len() == n,
        topological(links(drawn(n, s).0)),
        forall|i: int|
            0 <= i < n ==> 1 <= (#[trigger] drawn(n, s).0[i]).work <= 7 && drawn(n, s).0[i].deps.len() <= 2,
    decreases n,
{
    if n > 0 {
        let m = (n - 1) as nat;
        law_drawn_jobs_are_ordered(m, s);
        let (front, t) = drawn(m, s);
        let (job, u) = drawn_job(m, t);
        let x = shaken(t);
        drawn_deps_are_earlier(m, x, (x % 3) as nat, Seq::empty());
        let all = drawn(n, s).0;
        let l = links(all);
        assert forall|i: int, k: int| 0 <= i < l.len() && 0 <= k < l[i].len() implies #[trigger] l[i][k] < i by {
            if i < m {
                assert(links(front)[i] == l[i]);
                assert(links(front)[i][k] < i);
            } else {
                assert(l[i] == job.deps);
            }
        }
        assert forall|i: int| 0 <= i < n implies 1 <= (#[trigger] all[i]).work <= 7 && all[i].deps.len() <= 2 by {
            if i < m {
                assert(all[i] == front[i]);
            }
        }
    }
}

proof fn depth_is_below(l: Seq<Seq<usize>>, i: nat)
    requires
        topological(l),
        i < l.len(),
    ensures
        depth_in(l, i) <= i,
    decreases i, 1nat, 0nat,
{
    if l[i as int].len() > 0 {
        assert(l[i as int][0] < i);
        deepest_is_below(l, i, l[i as int].len());
    }
}

proof fn deepest_is_below(l: Seq<Seq<usize>>, i: nat, k: nat)
    requires
        topological(l),
        0 < i < l.len(),
    ensures
        deepest_in(l, i, k) < i,
    decreases i, 0nat, k,
{
    if k > 0 {
        deepest_is_below(l, i, (k - 1) as nat);
        let d = l[i as int][k - 1] as nat;
        if d < i {
            depth_is_below(l, d);
        }
    }
}

fn contains(v: &Vec<usize>, d: usize) -> (r: bool)
    ensures
        r == v@.contains(d),
{
    let mut i: usize = 0;
    while i < v.len()
        invariant
            i <= v@.len(),
            forall|k: int| 0 <= k < i ==> #[trigger] v@[k] != d,
        decreases v@.len() - i,
    {
        if v[i] == d {
            return true;
        }
        i += 1;
    }
    false
}

fn draw_job(i: usize, rng: &mut Rng) -> (r: (Vec<usize>, u32))
    ensures
        r.0@ == drawn_job(i as nat, old(rng).0).0.deps,
        r.1 == drawn_job(i as nat, old(rng).0).0.work,
        final(rng).0 == drawn_job(i as nat, old(rng).0).1,
{
    let count: u64 = rng.range(3);
    let ghost t = rng.0;
    let mut deps: Vec<usize> = Vec::new();
    let mut k: u64 = 0;
    while k < count && i > 0
        invariant
            k <= count,
            drawn_deps(i as nat, t, count as nat, Seq::empty()) == drawn_deps(
                i as nat,
                rng.0,
                (count - k) as nat,
                deps@,
            ),
        decreases count - k,
    {
        let ghost s = rng.0;
        let x: u64 = rng.range(i as u64);
        let d: usize = x as usize;
        proof {
            assert(x == shaken(s) % (i as u64));
            assert(shaken(s) as nat % (i as nat) == x);
        }
        if !contains(&deps, d) {
            deps.push(d);
        }
        k += 1;
    }
    let work: u32 = (rng.range(7) + 1) as u32;
    (deps, work)
}

/// What each of the jobs depends on.
pub open spec fn job_links(nodes: Seq<Node>) -> Seq<Seq<usize>> {
    Seq::new(nodes.len(), |i: int| nodes[i].deps@)
}

/// Makes random jobs.
pub fn make_dag(n: usize, seed: u64) -> (nodes: Vec<Node>)
    requires
        n < u32::MAX,
    ensures
        ({
            let plan = drawn(
                n as nat,
                if seed < 1 {
                    1
                } else {
                    seed
                },
            ).0;
            let l = links(plan);
            &&& nodes@.len() == n
            &&& forall|i: int|
                0 <= i < n ==> {
                    &&& (#[trigger] nodes@[i]).deps@ == plan[i].deps
                    &&& nodes@[i].work == plan[i].work
                    &&& nodes@[i].depth == depth_in(l, i as nat)
                    &&& nodes@[i].subtree_size == 1 + dependents(l, i, n as nat)
                }
        }),
{
    let mut rng = Rng::new(seed);
    let ghost s = rng.0;
    let mut edges: Vec<Vec<usize>> = Vec::new();
    let mut works: Vec<u32> = Vec::new();
    let mut i: usize = 0;
    while i < n
        invariant
            i <= n,
            edges@.len() == i,
            works@.len() == i,
            drawn(i as nat, s).0.len() == i,
            rng.0 == drawn(i as nat, s).1,
            forall|k: int|
                0 <= k < i ==> (#[trigger] edges@[k])@ == drawn(i as nat, s).0[k].deps && works@[k] == drawn(
                    i as nat,
                    s,
                ).0[k].work,
        decreases n - i,
    {
        let (deps, work) = draw_job(i, &mut rng);
        edges.push(deps);
        works.push(work);
        i += 1;
    }
    let ghost plan = drawn(n as nat, s).0;
    let ghost l = links(plan);
    proof {
        law_drawn_jobs_are_ordered(n as nat, s);
        assert(graph::lists(edges@) =~= l);
        assert forall|k: int| 0 <= k < n implies #[trigger] works@[k] == plan[k].work by {
            assert(edges@[k]@ == plan[k].deps);
        }
    }
    let depths = find_depths(&edges);
    let sizes = find_sizes(&edges);
    let mut nodes: Vec<Node> = Vec::new();
    let mut i: usize = 0;
    while i < n
        invariant
            i <= n,
            nodes@.len() == i,
            edges@.len() == n,
            works@.len() == n,
            depths@.len() == n,
            sizes@.len() == n,
            plan.len() == n,
            l == links(plan),
            graph::lists(edges@) == l,
            forall|k: int| 0 <= k < n ==> #[trigger] works@[k] == plan[k].work,
            forall|k: int| 0 <= k < n ==> #[trigger] depths@[k] == depth_in(l, k as nat),
            forall|k: int| 0 <= k < n ==> #[trigger] sizes@[k] == 1 + dependents(l, k, n as nat),
            forall|k: int|
                0 <= k < i ==> {
                    &&& (#[trigger] nodes@[k]).deps@ == plan[k].deps
                    &&& nodes@[k].work == plan[k].work
                    &&& nodes@[k].depth == depth_in(l, k as nat)
                    &&& nodes@[k].subtree_size == 1 + dependents(l, k, n as nat)
                },
        decreases n - i,
    {
        let deps = copy_list(&edges[i]);
        assert(l[i as int] == edges@[i as int]@);
        nodes.push(Node { deps, work: works[i], subtree_size: sizes[i], depth: depths[i] });
        i += 1;
    }
    nodes
}

fn copy_list(v: &Vec<usize>) -> (r: Vec<usize>)
    ensures
        r@ == v@,
{
    let mut r: Vec<usize> = Vec::new();
    let mut i: usize = 0;
    while i < v.len()
        invariant
            i <= v@.len(),
            r@ == v@.take(i as int),
        decreases v@.len() - i,
    {
        r.push(v[i]);
        assert(v@.take(i + 1) =~= v@.take(i as int).push(v@[i as int]));
        i += 1;
    }
    assert(v@.take(i as int) =~= v@);
    r
}

fn find_depths(edges: &Vec<Vec<usize>>) -> (depths: Vec<u32>)
    requires
        edges@.len() < u32::MAX,
        topological(graph::lists(edges@)),
    ensures
        depths@.len() == edges@.len(),
        forall|i: int|
            0 <= i < depths@.len() ==> #[trigger] depths@[i] == depth_in(graph::lists(edges@), i as nat),
{
    let ghost l = graph::lists(edges@);
    let mut depths: Vec<u32> = Vec::new();
    let mut i: usize = 0;
    while i < edges.len()
        invariant
            i <= edges@.len(),
            edges@.len() < u32::MAX,
            l == graph::lists(edges@),
            topological(l),
            depths@.len() == i,
            forall|k: int| 0 <= k < i ==> #[trigger] depths@[k] == depth_in(l, k as nat),
        decreases edges@.len() - i,
    {
        let deps: &Vec<usize> = &edges[i];
        assert(l[i as int] == deps@);
        let mut m: u32 = 0;
        let mut k: usize = 0;
        while k < deps.len()
            invariant
                k <= deps@.len(),
                i < l.len(),
                topological(l),
                l[i as int] == deps@,
                depths@.len() == i,
                forall|j: int| 0 <= j < i ==> #[trigger] depths@[j] == depth_in(l, j as nat),
                m == deepest_in(l, i as nat, k as nat),
            decreases deps@.len() - k,
        {
            assert(l[i as int][k as int] < i);
            let d: usize = deps[k];
            if depths[d] > m {
                m = depths[d];
            }
            k += 1;
        }
        proof {
            depth_is_below(l, i as nat);
        }
        if deps.len() == 0 {
            depths.push(0);
        } else {
            depths.push(m + 1);
        }
        i += 1;
    }
    depths
}

proof fn dependents_fit(l: Seq<Seq<usize>>, a: int, n: nat)
    ensures
        dependents(l, a, n) <= n,
    decreases n,
{
    if n > 0 {
        dependents_fit(l, a, (n - 1) as nat);
    }
}

fn find_sizes(edges: &Vec<Vec<usize>>) -> (sizes: Vec<u32>)
    requires
        edges@.len() < u32::MAX,
        topological(graph::lists(edges@)),
    ensures
        sizes@.len() == edges@.len(),
        forall|a: int|
            0 <= a < sizes@.len() ==> #[trigger] sizes@[a] == 1 + dependents(
                graph::lists(edges@),
                a,
                edges@.len(),
            ),
{
    let ghost l = graph::lists(edges@);
    let n: usize = edges.len();
    let mut sizes: Vec<u32> = vec![1u32; n];
    proof {
        assert forall|i: int, k: int| 0 <= i < l.len() && 0 <= k < l[i].len() implies #[trigger] l[i][k]
            < l.len() by {
            assert(l[i][k] < i);
        }
    }
    let mut i: usize = 0;
    while i < n
        invariant
            i <= n,
            n == edges@.len(),
            n < u32::MAX,
            l == graph::lists(edges@),
            graph::is_graph(l),
            sizes@.len() == n,
            forall|a: int| 0 <= a < n ==> #[trigger] sizes@[a] == 1 + dependents(l, a, i as nat),
        decreases n - i,
    {
        proof {
            assert(l[i as int] == edges@[i as int]@);
            assert forall|k: int| 0 <= k < edges@[i as int]@.len() implies #[trigger] edges@[i as int]@[k]
                < n by {
                assert(l[i as int][k] < l.len());
            }
        }
        let marks = graph::reach(edges, &edges[i]);
        let mut a: usize = 0;
        while a < n
            invariant
                a <= n,
                i < n,
                n < u32::MAX,
                n == edges@.len(),
                l == graph::lists(edges@),
                sizes@.len() == n,
                marks@.len() == n,
                forall|b: int| 0 <= b < n ==> #[trigger] marks@[b] == graph::is_reached(l, l[i as int], b),
                forall|b: int|
                    0 <= b < n ==> #[trigger] sizes@[b] == 1 + dependents(
                        l,
                        b,
                        if b < a {
                            (i + 1) as nat
                        } else {
                            i as nat
                        },
                    ),
            decreases n - a,
        {
            proof {
                dependents_fit(l, a as int, i as nat);
            }
            if marks[a] {
                sizes[a] = sizes[a] + 1;
            }
            a += 1;
        }
        i += 1;
    }
    sizes
}

// ---------------------------------------------------------------------------------------------
// Steps
// ---------------------------------------------------------------------------------------------

/// Whether jobs can be simulated: they depend on each other only, and each takes a step or more.
pub open spec fn valid_jobs(nodes: Seq<Node>) -> bool {
    &&& graph::is_graph(job_links(nodes))
    &&& forall|i: int| 0 <= i < nodes.len() ==> 1 <= (#[trigger] nodes[i]).work
}

/// Whether a job is under way: begun and not done.
pub open spec fn under_way(nodes: Seq<Node>, rem: Seq<u32>, j: int) -> bool {
    0 < rem[j] < nodes[j].work
}

/// Whether all that a job depends on is done.
pub open spec fn unblocked(nodes: Seq<Node>, rem: Seq<u32>, j: int) -> bool {
    forall|k: int| 0 <= k < nodes[j].deps@.len() ==> rem[(#[trigger] nodes[j].deps@[k]) as int] == 0
}

/// Whether a job can be begun and is not among those chosen.
pub open spec fn can_begin(nodes: Seq<Node>, rem: Seq<u32>, chosen: Seq<usize>, j: int) -> bool {
    &&& 0 <= j < nodes.len()
    &&& rem[j] == nodes[j].work
    &&& unblocked(nodes, rem, j)
    &&& !chosen.contains(j as usize)
}

/// Whether a job goes before another: by the first number, then by the second, then the one with
/// the lower number of its own.
pub open spec fn goes_before(order: Seq<(u64, u32)>, i: int, j: int) -> bool {
    if order[i].0 != order[j].0 {
        order[i].0 > order[j].0
    } else if order[i].1 != order[j].1 {
        order[i].1 > order[j].1
    } else {
        i < j
    }
}

/// Whether a job is the one to begin next.
pub open spec fn is_next(
    nodes: Seq<Node>,
    order: Seq<(u64, u32)>,
    rem: Seq<u32>,
    chosen: Seq<usize>,
    j: int,
) -> bool {
    &&& can_begin(nodes, rem, chosen, j)
    &&& forall|k: int| #[trigger] can_begin(nodes, rem, chosen, k) && k != j ==> goes_before(order, j, k)
}

/// The job to begin next.
pub open spec fn next_job(nodes: Seq<Node>, order: Seq<(u64, u32)>, rem: Seq<u32>, chosen: Seq<usize>) -> int {
    choose|j: int| is_next(nodes, order, rem, chosen, j)
}

/// The first `n` jobs that are under way.
pub open spec fn carried_on(nodes: Seq<Node>, rem: Seq<u32>, n: nat) -> Seq<usize>
    decreases n,
{
    if n == 0 {
        Seq::empty()
    } else {
        let front = carried_on(nodes, rem, (n - 1) as nat);
        if under_way(nodes, rem, n - 1) {
            front.push((n - 1) as usize)
        } else {
            front
        }
    }
}

/// The chosen jobs and, while workers are free, those that are begun.
pub open spec fn filled_up(
    nodes: Seq<Node>,
    order: Seq<(u64, u32)>,
    rem: Seq<u32>,
    chosen: Seq<usize>,
) -> Seq<usize>
    decreases WORKERS - chosen.len(),
{
    if chosen.len() < WORKERS && exists|j: int| can_begin(nodes, rem, chosen, j) {
        filled_up(nodes, order, rem, chosen.push(next_job(nodes, order, rem, chosen) as usize))
    } else {
        chosen
    }
}

/// The jobs that are worked on in a step: those under way, and as many others as there are free
/// workers.
pub open spec fn worked_on(nodes: Seq<Node>, order: Seq<(u64, u32)>, rem: Seq<u32>) -> Seq<usize> {
    filled_up(nodes, order, rem, carried_on(nodes, rem, nodes.len()))
}

/// What is left after a step.
pub open spec fn after_step(nodes: Seq<Node>, order: Seq<(u64, u32)>, rem: Seq<u32>) -> Seq<u32> {
    Seq::new(
        rem.len(),
        |i: int|
            if worked_on(nodes, order, rem).contains(i as usize) {
                (rem[i] - 1) as u32
            } else {
                rem[i]
            },
    )
}

/// All the work.
pub open spec fn all_work(nodes: Seq<Node>) -> Seq<u32> {
    Seq::new(nodes.len(), |i: int| nodes[i].work)
}

/// What is left after so many steps.
pub open spec fn left_after(nodes: Seq<Node>, order: Seq<(u64, u32)>, steps: nat) -> Seq<u32>
    decreases steps,
{
    if steps == 0 {
        all_work(nodes)
    } else {
        after_step(nodes, order, left_after(nodes, order, (steps - 1) as nat))
    }
}

/// Whether nothing more happens: no job is under way, and none can be begun.
pub open spec fn is_over(nodes: Seq<Node>, order: Seq<(u64, u32)>, rem: Seq<u32>) -> bool {
    worked_on(nodes, order, rem).len() == 0
}

/// The sum of what is left.
pub open spec fn total(rem: Seq<u32>) -> nat
    decreases rem.len(),
{
    if rem.len() == 0 {
        0
    } else {
        total(rem.drop_last()) + rem.last() as nat
    }
}

/// Whether what is left is no more than the work.
pub open spec fn within_work(nodes: Seq<Node>, rem: Seq<u32>) -> bool {
    &&& rem.len() == nodes.len()
    &&& forall|i: int| 0 <= i < rem.len() ==> #[trigger] rem[i] <= nodes[i].work
}

/// Whether jobs are different ones that have work left.
pub open spec fn workable(rem: Seq<u32>, chosen: Seq<usize>) -> bool {
    &&& chosen.no_duplicates()
    &&& forall|k: int| 0 <= k < chosen.len() ==> #[trigger] chosen[k] < rem.len() && rem[chosen[k] as int] > 0
}

proof fn carried_on_is_workable(nodes: Seq<Node>, rem: Seq<u32>, n: nat)
    requires
        n <= nodes.len(),
        nodes.len() <= usize::MAX,
        rem.len() == nodes.len(),
    ensures
        workable(rem, carried_on(nodes, rem, n)),
        forall|k: int|
            0 <= k < carried_on(nodes, rem, n).len() ==> #[trigger] carried_on(nodes, rem, n)[k] < n
                && under_way(nodes, rem, carried_on(nodes, rem, n)[k] as int),
        forall|j: int|
            0 <= j < n && under_way(nodes, rem, j) ==> #[trigger] carried_on(nodes, rem, n).contains(
                j as usize,
            ),
    decreases n,
{
    if n > 0 {
        let m = (n - 1) as nat;
        carried_on_is_workable(nodes, rem, m);
        let front = carried_on(nodes, rem, m);
        let all = carried_on(nodes, rem, n);
        if under_way(nodes, rem, n - 1) {
            assert(all[front.len() as int] == (n - 1) as usize);
            assert forall|j: int| 0 <= j < n && under_way(nodes, rem, j) implies #[trigger] all.contains(
                j as usize,
            ) by {
                if j < m {
                    assert(front.contains(j as usize));
                    let k = choose|k: int| 0 <= k < front.len() && front[k] == j as usize;
                    assert(all[k] == j as usize);
                }
            }
        }
    }
}

proof fn next_exists(
    nodes: Seq<Node>,
    order: Seq<(u64, u32)>,
    rem: Seq<u32>,
    chosen: Seq<usize>,
    best: int,
    n: int,
)
    requires
        0 <= n <= nodes.len(),
        can_begin(nodes, rem, chosen, best),
        forall|k: int|
            #[trigger] can_begin(nodes, rem, chosen, k) && k != best && k < n ==> goes_before(order, best, k),
    ensures
        exists|j: int| is_next(nodes, order, rem, chosen, j),
    decreases nodes.len() - n,
{
    if n == nodes.len() {
        assert(is_next(nodes, order, rem, chosen, best));
    } else if can_begin(nodes, rem, chosen, n) && n != best && !goes_before(order, best, n) {
        assert forall|k: int|
            #[trigger] can_begin(nodes, rem, chosen, k) && k != n && k < n + 1 implies goes_before(order, n, k) by {
            if k != best {
                assert(goes_before(order, best, k));
            }
        }
        next_exists(nodes, order, rem, chosen, n, n + 1);
    } else {
        next_exists(nodes, order, rem, chosen, best, n + 1);
    }
}

proof fn next_is(nodes: Seq<Node>, order: Seq<(u64, u32)>, rem: Seq<u32>, chosen: Seq<usize>, j: int)
    requires
        is_next(nodes, order, rem, chosen, j),
    ensures
        next_job(nodes, order, rem, chosen) == j,
{
    let k = next_job(nodes, order, rem, chosen);
    assert(is_next(nodes, order, rem, chosen, k));
    if k != j {
        assert(can_begin(nodes, rem, chosen, k));
        assert(can_begin(nodes, rem, chosen, j));
        assert(goes_before(order, j, k));
        assert(goes_before(order, k, j));
    }
}

proof fn filled_up_is_workable(nodes: Seq<Node>, order: Seq<(u64, u32)>, rem: Seq<u32>, chosen: Seq<usize>)
    requires
        valid_jobs(nodes),
        nodes.len() <= usize::MAX,
        rem.len() == nodes.len(),
        workable(rem, chosen),
    ensures
        workable(rem, filled_up(nodes, order, rem, chosen)),
        filled_up(nodes, order, rem, chosen).len() >= chosen.len(),
        chosen.len() <= WORKERS ==> filled_up(nodes, order, rem, chosen).len() <= WORKERS,
    decreases WORKERS - chosen.len(),
{
    if chosen.len() < WORKERS && exists|j: int| can_begin(nodes, rem, chosen, j) {
        let c = choose|j: int| can_begin(nodes, rem, chosen, j);
        next_exists(nodes, order, rem, chosen, c, 0);
        let j = next_job(nodes, order, rem, chosen);
        assert(is_next(nodes, order, rem, chosen, j));
        let more = chosen.push(j as usize);
        assert(nodes[j].work >= 1);
        assert(more.no_duplicates()) by {
            assert forall|a: int, b: int| 0 <= a < more.len() && 0 <= b < more.len() && a != b implies more[a]
                != more[b] by {
                if a < chosen.len() && b < chosen.len() {
                    assert(chosen[a] != chosen[b]);
                } else if a < chosen.len() {
                    assert(chosen.contains(chosen[a]));
                } else {
                    assert(chosen.contains(chosen[b]));
                }
            }
        }
        assert forall|k: int| 0 <= k < more.len() implies #[trigger] more[k] < rem.len() && rem[more[k] as int]
            > 0 by {
            if k < chosen.len() {
                assert(more[k] == chosen[k]);
            }
        }
        filled_up_is_workable(nodes, order, rem, more);
    }
}

/// The jobs of a step are different ones with work left.
proof fn step_is_workable(nodes: Seq<Node>, order: Seq<(u64, u32)>, rem: Seq<u32>)
    requires
        valid_jobs(nodes),
        nodes.len() <= usize::MAX,
        rem.len() == nodes.len(),
    ensures
        workable(rem, worked_on(nodes, order, rem)),
        carried_on(nodes, rem, nodes.len()).len() <= WORKERS ==> worked_on(nodes, order, rem).len() <= WORKERS,
{
    carried_on_is_workable(nodes, rem, nodes.len());
    filled_up_is_workable(nodes, order, rem, carried_on(nodes, rem, nodes.len()));
}

/// What is left after one step on some jobs.
spec fn lowered(rem: Seq<u32>, chosen: Seq<usize>) -> Seq<u32> {
    Seq::new(
        rem.len(),
        |i: int|
            if chosen.contains(i as usize) {
                (rem[i] - 1) as u32
            } else {
                rem[i]
            },
    )
}

proof fn total_of_update(rem: Seq<u32>, i: int, v: u32)
    requires
        0 <= i < rem.len(),
    ensures
        total(rem.update(i, v)) + rem[i] == total(rem) + v,
    decreases rem.len(),
{
    let u = rem.update(i, v);
    if i == rem.len() - 1 {
        assert(u.drop_last() =~= rem.drop_last());
    } else {
        assert(u.drop_last() =~= rem.drop_last().update(i, v));
        total_of_update(rem.drop_last(), i, v);
    }
}

proof fn total_of_lowered(rem: Seq<u32>, chosen: Seq<usize>)
    requires
        workable(rem, chosen),
        rem.len() <= usize::MAX,
    ensures
        total(lowered(rem, chosen)) + chosen.len() == total(rem),
    decreases chosen.len(),
{
    if chosen.len() == 0 {
        assert(lowered(rem, chosen) =~= rem);
    } else {
        let front = chosen.drop_last();
        let last = chosen.last();
        assert(workable(rem, front)) by {
            assert forall|k: int| 0 <= k < front.len() implies #[trigger] front[k] < rem.len()
                && rem[front[k] as int] > 0 by {
                assert(front[k] == chosen[k]);
            }
        }
        total_of_lowered(rem, front);
        let low = lowered(rem, front);
        let i = last as int;
        assert(chosen[chosen.len() - 1] == last);
        assert(!front.contains(last)) by {
            if front.contains(last) {
                let k = choose|k: int| 0 <= k < front.len() && front[k] == last;
                assert(chosen[k] == chosen[chosen.len() - 1]);
            }
        }
        total_of_update(low, i, (rem[i] - 1) as u32);
        assert(lowered(rem, chosen) =~= low.update(i, (rem[i] - 1) as u32)) by {
            assert forall|j: int| 0 <= j < rem.len() implies lowered(rem, chosen)[j] == low.update(
                i,
                (rem[i] - 1) as u32,
            )[j] by {
                if j == i {
                    assert(chosen.contains(j as usize));
                } else if front.contains(j as usize) {
                    let k = choose|k: int| 0 <= k < front.len() && front[k] == j as usize;
                    assert(chosen[k] == j as usize);
                } else if chosen.contains(j as usize) {
                    let k = choose|k: int| 0 <= k < chosen.len() && chosen[k] == j as usize;
                    assert(front[k] == j as usize);
                }
            }
        }
    }
}

proof fn step_lowers_total(nodes: Seq<Node>, order: Seq<(u64, u32)>, rem: Seq<u32>)
    requires
        valid_jobs(nodes),
        nodes.len() <= usize::MAX,
        within_work(nodes, rem),
    ensures
        total(after_step(nodes, order, rem)) + worked_on(nodes, order, rem).len() == total(rem),
        within_work(nodes, after_step(nodes, order, rem)),
{
    step_is_workable(nodes, order, rem);
    let chosen = worked_on(nodes, order, rem);
    total_of_lowered(rem, chosen);
    assert(after_step(nodes, order, rem) =~= lowered(rem, chosen));
    let after = after_step(nodes, order, rem);
    assert forall|i: int| 0 <= i < after.len() implies #[trigger] after[i] <= nodes[i].work by {
        assert(rem[i] <= nodes[i].work);
        if chosen.contains(i as usize) {
            let k = choose|k: int| 0 <= k < chosen.len() && chosen[k] == i as usize;
            assert(rem[chosen[k] as int] > 0);
        }
    }
}

fn ready(nodes: &Vec<Node>, rem: &Vec<u32>, chosen: &Vec<usize>, j: usize) -> (r: bool)
    requires
        valid_jobs(nodes@),
        rem@.len() == nodes@.len(),
        j < nodes@.len(),
    ensures
        r == can_begin(nodes@, rem@, chosen@, j as int),
{
    if rem[j] != nodes[j].work || contains(chosen, j) {
        return false;
    }
    let deps: &Vec<usize> = &nodes[j].deps;
    let mut k: usize = 0;
    while k < deps.len()
        invariant
            k <= deps@.len(),
            deps@ == nodes@[j as int].deps@,
            valid_jobs(nodes@),
            rem@.len() == nodes@.len(),
            j < nodes@.len(),
            forall|m: int| 0 <= m < k ==> rem@[(#[trigger] nodes@[j as int].deps@[m]) as int] == 0,
        decreases deps@.len() - k,
    {
        assert(job_links(nodes@)[j as int][k as int] < nodes@.len());
        if rem[deps[k]] != 0 {
            assert(rem@[nodes@[j as int].deps@[k as int] as int] != 0);
            return false;
        }
        k += 1;
    }
    true
}

fn before(order: &Vec<(u64, u32)>, i: usize, j: usize) -> (r: bool)
    requires
        i < order@.len(),
        j < order@.len(),
    ensures
        r == goes_before(order@, i as int, j as int),
{
    let (a, b) = order[i];
    let (c, d) = order[j];
    if a != c {
        a > c
    } else if b != d {
        b > d
    } else {
        i < j
    }
}

fn pick(nodes: &Vec<Node>, order: &Vec<(u64, u32)>, rem: &Vec<u32>, chosen: &Vec<usize>) -> (r: Option<usize>)
    requires
        valid_jobs(nodes@),
        rem@.len() == nodes@.len(),
        order@.len() == nodes@.len(),
    ensures
        match r {
            Some(j) => is_next(nodes@, order@, rem@, chosen@, j as int),
            None => forall|j: int| !#[trigger] can_begin(nodes@, rem@, chosen@, j),
        },
{
    let mut best: Option<usize> = None;
    let mut j: usize = 0;
    while j < nodes.len()
        invariant
            j <= nodes@.len(),
            valid_jobs(nodes@),
            rem@.len() == nodes@.len(),
            order@.len() == nodes@.len(),
            match best {
                Some(b) => b < j && can_begin(nodes@, rem@, chosen@, b as int) && forall|k: int| #[trigger]
                    can_begin(nodes@, rem@, chosen@, k) && k != b && k < j ==> goes_before(
                        order@,
                        b as int,
                        k,
                    ),
                None => forall|k: int| #[trigger] can_begin(nodes@, rem@, chosen@, k) ==> k >= j,
            },
        decreases nodes@.len() - j,
    {
        if ready(nodes, rem, chosen, j) {
            match best {
                Some(b) => {
                    if before(order, j, b) {
                        best = Some(j);
                    }
                },
                None => {
                    best = Some(j);
                },
            }
        }
        j += 1;
    }
    best
}

/// The jobs of a step.
fn choose_jobs(nodes: &Vec<Node>, order: &Vec<(u64, u32)>, rem: &Vec<u32>) -> (chosen: Vec<usize>)
    requires
        valid_jobs(nodes@),
        rem@.len() == nodes@.len(),
        order@.len() == nodes@.len(),
    ensures
        chosen@ == worked_on(nodes@, order@, rem@),
{
    let mut chosen: Vec<usize> = Vec::new();
    let mut i: usize = 0;
    while i < nodes.len()
        invariant
            i <= nodes@.len(),
            rem@.len() == nodes@.len(),
            chosen@ == carried_on(nodes@, rem@, i as nat),
        decreases nodes@.len() - i,
    {
        if rem[i] > 0 && rem[i] < nodes[i].work {
            chosen.push(i);
        }
        i += 1;
    }
    while chosen.len() < WORKERS
        invariant_except_break
            filled_up(nodes@, order@, rem@, chosen@) == worked_on(nodes@, order@, rem@),
        invariant
            valid_jobs(nodes@),
            rem@.len() == nodes@.len(),
            order@.len() == nodes@.len(),
        ensures
            chosen@ == worked_on(nodes@, order@, rem@),
        decreases WORKERS - chosen@.len(),
    {
        match pick(nodes, order, rem, &chosen) {
            Some(j) => {
                proof {
                    next_is(nodes@, order@, rem@, chosen@, j as int);
                }
                chosen.push(j);
            },
            None => {
                break;
            },
        }
    }
    chosen
}

/// Counts the steps until nothing more happens.
pub fn simulate(nodes: &Vec<Node>, order: &Vec<(u64, u32)>) -> (steps: u64)
    requires
        valid_jobs(nodes@),
        order@.len() == nodes@.len(),
        total(all_work(nodes@)) <= u64::MAX,
    ensures
        is_over(nodes@, order@, left_after(nodes@, order@, steps as nat)),
        forall|k: nat| k < steps ==> !is_over(nodes@, order@, #[trigger] left_after(nodes@, order@, k)),
{
    let n: usize = nodes.len();
    let mut rem: Vec<u32> = Vec::new();
    let mut i: usize = 0;
    while i < n
        invariant
            i <= n,
            n == nodes@.len(),
            rem@ == all_work(nodes@).take(i as int),
        decreases n - i,
    {
        rem.push(nodes[i].work);
        i += 1;
        assert(rem@ =~= all_work(nodes@).take(i as int));
    }
    assert(rem@ =~= all_work(nodes@));
    let mut steps: u64 = 0;
    loop
        invariant
            n == nodes@.len(),
            valid_jobs(nodes@),
            order@.len() == n,
            within_work(nodes@, rem@),
            rem@ == left_after(nodes@, order@, steps as nat),
            total(all_work(nodes@)) <= u64::MAX,
            steps + total(rem@) <= total(all_work(nodes@)),
            forall|k: nat| k < steps ==> !is_over(nodes@, order@, #[trigger] left_after(nodes@, order@, k)),
        decreases total(rem@),
    {
        let chosen = choose_jobs(nodes, order, &rem);
        if chosen.len() == 0 {
            return steps;
        }
        let ghost start = rem@;
        proof {
            step_lowers_total(nodes@, order@, start);
            step_is_workable(nodes@, order@, start);
        }
        let mut k: usize = 0;
        while k < chosen.len()
            invariant
                k <= chosen@.len(),
                rem@.len() == start.len(),
                start.len() == n,
                workable(start, chosen@),
                forall|i: int|
                    0 <= i < n ==> #[trigger] rem@[i] == (if chosen@.take(k as int).contains(i as usize) {
                        (start[i] - 1) as u32
                    } else {
                        start[i]
                    }),
            decreases chosen@.len() - k,
        {
            let i: usize = chosen[k];
            proof {
                let done = chosen@.take(k as int);
                let more = chosen@.take(k + 1);
                assert(!done.contains(i)) by {
                    if done.contains(i) {
                        let m = choose|m: int| 0 <= m < done.len() && done[m] == i;
                        assert(chosen@[m] == chosen@[k as int]);
                    }
                }
                assert(start[chosen@[k as int] as int] > 0);
                assert forall|j: int| 0 <= j < n && j != i implies more.contains(j as usize)
                    == #[trigger] done.contains(j as usize) by {
                    if more.contains(j as usize) {
                        let m = choose|m: int| 0 <= m < more.len() && more[m] == j as usize;
                        assert(done[m] == j as usize);
                    }
                    if done.contains(j as usize) {
                        let m = choose|m: int| 0 <= m < done.len() && done[m] == j as usize;
                        assert(more[m] == j as usize);
                    }
                }
                assert(more[k as int] == i);
            }
            rem[i] = rem[i] - 1;
            k += 1;
        }
        proof {
            assert(chosen@.take(k as int) =~= chosen@);
            assert(rem@ =~= after_step(nodes@, order@, start));
        }
        steps += 1;
    }
}

// ---------------------------------------------------------------------------------------------
// Laws
// ---------------------------------------------------------------------------------------------

proof fn done_below(nodes: Seq<Node>, order: Seq<(u64, u32)>, rem: Seq<u32>, n: nat)
    requires
        valid_jobs(nodes),
        nodes.len() <= usize::MAX,
        topological(job_links(nodes)),
        within_work(nodes, rem),
        is_over(nodes, order, rem),
        n <= nodes.len(),
    ensures
        forall|i: int| 0 <= i < n ==> #[trigger] rem[i] == 0,
    decreases n,
{
    if n > 0 {
        done_below(nodes, order, rem, (n - 1) as nat);
        let j = n - 1;
        let under = carried_on(nodes, rem, nodes.len());
        carried_on_is_workable(nodes, rem, nodes.len());
        filled_up_is_workable(nodes, order, rem, under);
        if rem[j] != 0 {
            if rem[j] < nodes[j].work {
                assert(under_way(nodes, rem, j));
                assert(under.contains(j as usize));
            } else {
                assert(rem[j] <= nodes[j].work);
                assert(unblocked(nodes, rem, j)) by {
                    assert forall|k: int| 0 <= k < nodes[j].deps@.len() implies rem[(
                    #[trigger] nodes[j].deps@[k]) as int] == 0 by {
                        assert(job_links(nodes)[j][k] < j);
                    }
                }
                assert(under.len() == 0);
                assert(can_begin(nodes, rem, under, j));
                next_exists(nodes, order, rem, under, j, 0);
                let next = next_job(nodes, order, rem, under);
                assert(is_next(nodes, order, rem, under, next));
                let more = under.push(next as usize);
                assert(nodes[next].work >= 1);
                assert(workable(rem, more));
                filled_up_is_workable(nodes, order, rem, more);
            }
        }
    }
}

/// Jobs that depend on earlier ones only are all done when nothing more happens.
pub proof fn law_ordered_jobs_get_done(nodes: Seq<Node>, order: Seq<(u64, u32)>, rem: Seq<u32>)
    requires
        valid_jobs(nodes),
        nodes.len() <= usize::MAX,
        topological(job_links(nodes)),
        within_work(nodes, rem),
        is_over(nodes, order, rem),
    ensures
        forall|i: int| 0 <= i < rem.len() ==> #[trigger] rem[i] == 0,
{
    done_below(nodes, order, rem, nodes.len());
}

proof fn nothing_under_way_at_first(nodes: Seq<Node>, n: nat)
    requires
        n <= nodes.len(),
    ensures
        carried_on(nodes, all_work(nodes), n).len() == 0,
    decreases n,
{
    if n > 0 {
        nothing_under_way_at_first(nodes, (n - 1) as nat);
    }
}

proof fn few_under_way(nodes: Seq<Node>, order: Seq<(u64, u32)>, k: nat)
    requires
        valid_jobs(nodes),
        nodes.len() <= usize::MAX,
    ensures
        within_work(nodes, left_after(nodes, order, k)),
        carried_on(nodes, left_after(nodes, order, k), nodes.len()).len() <= WORKERS,
    decreases k,
{
    if k == 0 {
        nothing_under_way_at_first(nodes, nodes.len());
    } else {
        let m = (k - 1) as nat;
        few_under_way(nodes, order, m);
        let rem = left_after(nodes, order, m);
        let after = left_after(nodes, order, k);
        step_lowers_total(nodes, order, rem);
        step_is_workable(nodes, order, rem);
        carried_on_is_workable(nodes, rem, nodes.len());
        carried_on_is_workable(nodes, after, nodes.len());
        let worked = worked_on(nodes, order, rem);
        let under = carried_on(nodes, after, nodes.len());
        assert forall|v: usize| under.contains(v) implies #[trigger] worked.contains(v) by {
            let a = choose|a: int| 0 <= a < under.len() && under[a] == v;
            let j = v as int;
            assert(under_way(nodes, after, under[a] as int));
            if !worked.contains(j as usize) {
                assert(after[j] == rem[j]);
                let old_under = carried_on(nodes, rem, nodes.len());
                assert(old_under.contains(j as usize));
                kept_when_filled(nodes, order, rem, old_under, j as usize);
            }
        }
        worked.unique_seq_to_set();
        under.unique_seq_to_set();
        assert(under.to_set().subset_of(worked.to_set()));
        vstd::set_lib::lemma_len_subset(under.to_set(), worked.to_set());
    }
}

proof fn kept_when_filled(
    nodes: Seq<Node>,
    order: Seq<(u64, u32)>,
    rem: Seq<u32>,
    chosen: Seq<usize>,
    v: usize,
)
    requires
        chosen.contains(v),
    ensures
        filled_up(nodes, order, rem, chosen).contains(v),
    decreases WORKERS - chosen.len(),
{
    if chosen.len() < WORKERS && exists|j: int| can_begin(nodes, rem, chosen, j) {
        let more = chosen.push(next_job(nodes, order, rem, chosen) as usize);
        let k = choose|k: int| 0 <= k < chosen.len() && chosen[k] == v;
        assert(more[k] == v);
        kept_when_filled(nodes, order, rem, more, v);
    }
}

proof fn total_of_nothing(rem: Seq<u32>)
    requires
        forall|i: int| 0 <= i < rem.len() ==> #[trigger] rem[i] == 0,
    ensures
        total(rem) == 0,
    decreases rem.len(),
{
    if rem.len() > 0 {
        let front = rem.drop_last();
        assert forall|i: int| 0 <= i < front.len() implies #[trigger] front[i] == 0 by {
            assert(front[i] == rem[i]);
        }
        total_of_nothing(front);
    }
}

proof fn total_after(nodes: Seq<Node>, order: Seq<(u64, u32)>, steps: nat, k: nat)
    requires
        valid_jobs(nodes),
        nodes.len() <= usize::MAX,
        k <= steps,
        forall|m: nat| m < steps ==> !is_over(nodes, order, #[trigger] left_after(nodes, order, m)),
    ensures
        total(left_after(nodes, order, k)) + k <= total(all_work(nodes)),
        total(all_work(nodes)) <= total(left_after(nodes, order, k)) + WORKERS * k,
    decreases k,
{
    if k > 0 {
        let m = (k - 1) as nat;
        total_after(nodes, order, steps, m);
        few_under_way(nodes, order, m);
        let rem = left_after(nodes, order, m);
        step_lowers_total(nodes, order, rem);
        step_is_workable(nodes, order, rem);
        assert(!is_over(nodes, order, rem));
    }
}

/// The number of steps lies between a share of all the work and all of it: jobs that depend on
/// earlier ones only take at least as many steps as if all workers were always busy, and at most
/// as many as with one worker.
pub proof fn law_steps_are_bounded(nodes: Seq<Node>, order: Seq<(u64, u32)>, steps: nat)
    requires
        valid_jobs(nodes),
        nodes.len() <= usize::MAX,
        topological(job_links(nodes)),
        is_over(nodes, order, left_after(nodes, order, steps)),
        forall|k: nat| k < steps ==> !is_over(nodes, order, #[trigger] left_after(nodes, order, k)),
    ensures
        steps <= total(all_work(nodes)) <= WORKERS * steps,
{
    total_after(nodes, order, steps, steps);
    few_under_way(nodes, order, steps);
    let rem = left_after(nodes, order, steps);
    law_ordered_jobs_get_done(nodes, order, rem);
    total_of_nothing(rem);
}

// ---------------------------------------------------------------------------------------------
// Orders
// ---------------------------------------------------------------------------------------------

/// Jobs in the order of their numbers.
pub fn fifo_order(n: usize) -> (order: Vec<(u64, u32)>)
    ensures
        order@ == Seq::new(n as nat, |i: int| ((u64::MAX - i) as u64, 0u32)),
        forall|i: int, j: int| 0 <= i < j < n ==> #[trigger] goes_before(order@, i, j),
{
    let mut order: Vec<(u64, u32)> = Vec::new();
    let mut i: usize = 0;
    while i < n
        invariant
            i <= n,
            order@ == Seq::new(i as nat, |k: int| ((u64::MAX - k) as u64, 0u32)),
        decreases n - i,
    {
        order.push((u64::MAX - i as u64, 0));
        i += 1;
        assert(order@ =~= Seq::new(i as nat, |k: int| ((u64::MAX - k) as u64, 0u32)));
    }
    order
}

/// Jobs on which more depends first.
pub fn subtree_order(nodes: &Vec<Node>) -> (order: Vec<(u64, u32)>)
    ensures
        order@ == Seq::new(nodes@.len(), |i: int| (nodes@[i].subtree_size as u64, 0u32)),
        forall|i: int, j: int|
            0 <= i < nodes@.len() && 0 <= j < nodes@.len() && nodes@[i].subtree_size > nodes@[j].subtree_size
                ==> #[trigger] goes_before(order@, i, j),
{
    let mut order: Vec<(u64, u32)> = Vec::new();
    let mut i: usize = 0;
    while i < nodes.len()
        invariant
            i <= nodes@.len(),
            order@ == Seq::new(i as nat, |k: int| (nodes@[k].subtree_size as u64, 0u32)),
        decreases nodes@.len() - i,
    {
        order.push((nodes[i].subtree_size as u64, 0));
        i += 1;
        assert(order@ =~= Seq::new(i as nat, |k: int| (nodes@[k].subtree_size as u64, 0u32)));
    }
    order
}

/// What a model sees of a job.
pub open spec fn features_of(n: Node) -> Features {
    Features {
        dep_count: priority::as_byte(n.deps@.len() as int),
        subtree_size: n.subtree_size,
        depth: priority::as_byte(n.depth as int),
        cmd_first_byte: 0,
    }
}

fn job_features(n: &Node) -> (v: u16)
    ensures
        priority::encodes(v, features_of(*n)),
{
    let f = Features {
        dep_count: if n.deps.len() < 255 {
            n.deps.len() as u8
        } else {
            255
        },
        subtree_size: n.subtree_size,
        depth: if n.depth < 255 {
            n.depth as u8
        } else {
            255
        },
        cmd_first_byte: 0,
    };
    encode_features(f)
}

/// What a model learns from jobs: the features of each, and whether another depends on it.
pub fn training_samples(nodes: &Vec<Node>) -> (samples: Vec<(u16, bool)>)
    ensures
        samples@.len() == nodes@.len(),
        forall|i: int|
            0 <= i < samples@.len() ==> priority::encodes(
                (#[trigger] samples@[i]).0,
                features_of(nodes@[i]),
            ) && samples@[i].1 == (nodes@[i].subtree_size >= 2),
{
    let mut samples: Vec<(u16, bool)> = Vec::new();
    let mut i: usize = 0;
    while i < nodes.len()
        invariant
            i <= nodes@.len(),
            samples@.len() == i,
            forall|k: int|
                0 <= k < i ==> priority::encodes((#[trigger] samples@[k]).0, features_of(nodes@[k]))
                    && samples@[k].1 == (nodes@[k].subtree_size >= 2),
        decreases nodes@.len() - i,
    {
        samples.push((job_features(&nodes[i]), nodes[i].subtree_size >= 2));
        i += 1;
    }
    samples
}

/// Jobs that a model prefers first, those on which more depends before others.
pub fn tree_order(nodes: &Vec<Node>, model: &Tree32) -> (order: Vec<(u64, u32)>)
    ensures
        order@.len() == nodes@.len(),
        forall|i: int|
            0 <= i < order@.len() ==> (#[trigger] order@[i]).1 == nodes@[i].subtree_size && exists|v: u16|
                #[trigger] priority::encodes(v, features_of(nodes@[i])) && order@[i].0 == (
                if priority::half_bit(model.leaves, priority::leaf_of(model.internals@, v)) {
                    1u64
                } else {
                    0
                }),
{
    let mut order: Vec<(u64, u32)> = Vec::new();
    let mut i: usize = 0;
    while i < nodes.len()
        invariant
            i <= nodes@.len(),
            order@.len() == i,
            forall|k: int|
                0 <= k < i ==> (#[trigger] order@[k]).1 == nodes@[k].subtree_size && exists|v: u16|
                    #[trigger] priority::encodes(v, features_of(nodes@[k])) && order@[k].0 == (
                    if priority::half_bit(model.leaves, priority::leaf_of(model.internals@, v)) {
                        1u64
                    } else {
                        0
                    }),
        decreases nodes@.len() - i,
    {
        let v: u16 = job_features(&nodes[i]);
        assert(priority::encodes(v, features_of(nodes@[i as int])));
        order.push((model.infer(v) as u64, nodes[i].subtree_size));
        i += 1;
    }
    order
}

// ---------------------------------------------------------------------------------------------
// What a step does
// ---------------------------------------------------------------------------------------------

proof fn filled_up_in_order(nodes: Seq<Node>, order: Seq<(u64, u32)>, rem: Seq<u32>, chosen: Seq<usize>)
    requires
        valid_jobs(nodes),
        nodes.len() <= usize::MAX,
        rem.len() == nodes.len(),
    ensures
        ({
            let all = filled_up(nodes, order, rem, chosen);
            &&& forall|x: usize| #[trigger] chosen.contains(x) ==> all.contains(x)
            &&& all.len() < WORKERS ==> forall|k: int| !#[trigger] can_begin(nodes, rem, all, k)
            &&& forall|x: usize| #[trigger]
                all.contains(x) && !chosen.contains(x) ==> can_begin(nodes, rem, chosen, x as int)
            &&& forall|x: usize, k: int| #[trigger]
                all.contains(x) && !chosen.contains(x) && #[trigger] can_begin(nodes, rem, all, k) ==> goes_before(
                    order,
                    x as int,
                    k,
                )
        }),
    decreases WORKERS - chosen.len(),
{
    if chosen.len() < WORKERS && exists|j: int| can_begin(nodes, rem, chosen, j) {
        let c = choose|j: int| can_begin(nodes, rem, chosen, j);
        next_exists(nodes, order, rem, chosen, c, 0);
        let j = next_job(nodes, order, rem, chosen);
        assert(is_next(nodes, order, rem, chosen, j));
        let more = chosen.push(j as usize);
        let all = filled_up(nodes, order, rem, more);
        filled_up_in_order(nodes, order, rem, more);
        assert forall|x: usize| #[trigger] more.contains(x) == (chosen.contains(x) || x == j) by {
            if chosen.contains(x) {
                let a = choose|a: int| 0 <= a < chosen.len() && chosen[a] == x;
                assert(more[a] == x);
            }
            if x == j {
                assert(more[chosen.len() as int] == x);
            }
        }
        assert forall|x: usize| #[trigger] chosen.contains(x) implies all.contains(x) by {
            assert(more.contains(x));
        }
        assert forall|x: usize| #[trigger] all.contains(x) && !chosen.contains(x) implies can_begin(
            nodes,
            rem,
            chosen,
            x as int,
        ) by {
            if x != j {
                assert(!more.contains(x));
                assert(can_begin(nodes, rem, more, x as int));
            }
        }
        assert forall|x: usize, k: int| #[trigger]
            all.contains(x) && !chosen.contains(x) && #[trigger] can_begin(nodes, rem, all, k) implies goes_before(
            order,
            x as int,
            k,
        ) by {
            assert(!more.contains(k as usize));
            assert(can_begin(nodes, rem, chosen, k));
            if x != j {
                assert(!more.contains(x));
            } else {
                assert(k != j);
            }
        }
    } else {
        assert forall|k: int| chosen.len() < WORKERS implies !#[trigger] can_begin(nodes, rem, chosen, k) by {}
    }
}

/// Whether a job that has not been begun could be: all that it depends on is done.
pub open spec fn awaits_a_worker(nodes: Seq<Node>, rem: Seq<u32>, j: int) -> bool {
    &&& rem[j] == nodes[j].work
    &&& forall|k: int| 0 <= k < nodes[j].deps@.len() ==> rem[(#[trigger] nodes[j].deps@[k]) as int] == 0
}

/// In a step every job that was begun is worked on. A job is begun only once all that it depends on
/// is done; while a worker is free no ready job is left lying; and a job that is begun comes before
/// every ready one that is not: it has the higher first number, or with equal ones the higher
/// second, or with equal ones the lower number of its own.
pub proof fn law_workers_take_what_goes_first(
    nodes: Seq<Node>,
    order: Seq<(u64, u32)>,
    rem: Seq<u32>,
    j: int,
    k: int,
)
    requires
        valid_jobs(nodes),
        nodes.len() <= usize::MAX,
        within_work(nodes, rem),
        0 <= j < nodes.len(),
        0 <= k < nodes.len(),
    ensures
        ({
            let at_work = worked_on(nodes, order, rem);
            &&& 0 < rem[j] < nodes[j].work ==> at_work.contains(j as usize)
            &&& at_work.contains(j as usize) ==> rem[j] > 0
            &&& at_work.contains(j as usize) && rem[j] == nodes[j].work ==> awaits_a_worker(nodes, rem, j)
            &&& at_work.len() < 4 && awaits_a_worker(nodes, rem, k) ==> at_work.contains(k as usize)
            &&& at_work.contains(j as usize) && rem[j] == nodes[j].work && awaits_a_worker(nodes, rem, k)
                && !at_work.contains(k as usize) ==> {
                ||| order[j].0 > order[k].0
                ||| order[j].0 == order[k].0 && order[j].1 > order[k].1
                ||| order[j].0 == order[k].0 && order[j].1 == order[k].1 && j < k
            }
        }),
{
    let chosen = carried_on(nodes, rem, nodes.len());
    let at_work = worked_on(nodes, order, rem);
    carried_on_is_workable(nodes, rem, nodes.len());
    filled_up_in_order(nodes, order, rem, chosen);
    step_is_workable(nodes, order, rem);
    if under_way(nodes, rem, j) {
        assert(chosen.contains(j as usize));
    }
    if at_work.contains(j as usize) {
        let a = choose|a: int| 0 <= a < at_work.len() && at_work[a] == j as usize;
        assert(at_work[a] < rem.len() && rem[at_work[a] as int] > 0);
        if rem[j] == nodes[j].work {
            if chosen.contains(j as usize) {
                let b = choose|b: int| 0 <= b < chosen.len() && chosen[b] == j as usize;
                assert(under_way(nodes, rem, chosen[b] as int));
            }
            assert(can_begin(nodes, rem, chosen, j as usize as int));
        }
    }
    if awaits_a_worker(nodes, rem, k) && !at_work.contains(k as usize) {
        assert(can_begin(nodes, rem, at_work, k));
    }
}

/// A step takes one step of work from each job that is worked on and none from any other.
pub proof fn law_step_does_one_step_of_work(nodes: Seq<Node>, order: Seq<(u64, u32)>, rem: Seq<u32>, j: int)
    requires
        valid_jobs(nodes),
        nodes.len() <= usize::MAX,
        within_work(nodes, rem),
        0 <= j < nodes.len(),
    ensures
        after_step(nodes, order, rem).len() == rem.len(),
        worked_on(nodes, order, rem).contains(j as usize) ==> after_step(nodes, order, rem)[j] + 1 == rem[j],
        !worked_on(nodes, order, rem).contains(j as usize) ==> after_step(nodes, order, rem)[j] == rem[j],
{
    law_workers_take_what_goes_first(nodes, order, rem, j, j);
}

/// At no time are more than four jobs worked on.
pub proof fn law_at_most_four_at_work(nodes: Seq<Node>, order: Seq<(u64, u32)>, steps: nat)
    requires
        valid_jobs(nodes),
        nodes.len() <= usize::MAX,
    ensures
        worked_on(nodes, order, left_after(nodes, order, steps)).len() <= 4,
{
    few_under_way(nodes, order, steps);
    step_is_workable(nodes, order, left_after(nodes, order, steps));
}

/// A job is one step deeper than the deepest that it depends on, and one that depends on nothing
/// lies at the top.
pub proof fn law_depth_of_a_job(l: Seq<Seq<usize>>, i: nat)
    requires
        topological(l),
        i < l.len(),
    ensures
        l[i as int].len() == 0 <==> depth_in(l, i) == 0,
        forall|k: int|
            0 <= k < l[i as int].len() ==> depth_in(l, i) > depth_in(l, (#[trigger] l[i as int][k]) as nat),
        l[i as int].len() > 0 ==> exists|k: int|
            0 <= k < l[i as int].len() && depth_in(l, i) == depth_in(l, (#[trigger] l[i as int][k]) as nat) + 1,
{
    let n = l[i as int].len();
    deepest_of_some(l, i, n);
}

proof fn deepest_of_some(l: Seq<Seq<usize>>, i: nat, n: nat)
    requires
        topological(l),
        i < l.len(),
        n <= l[i as int].len(),
    ensures
        forall|k: int|
            0 <= k < n ==> deepest_in(l, i, n) >= depth_in(l, (#[trigger] l[i as int][k]) as nat),
        n > 0 ==> exists|k: int|
            0 <= k < n && deepest_in(l, i, n) == depth_in(l, (#[trigger] l[i as int][k]) as nat),
    decreases n,
{
    if n > 0 {
        let m = (n - 1) as nat;
        deepest_of_some(l, i, m);
        assert(l[i as int][m as int] < i);
        let d = deepest_in(l, i, n);
        if d == deepest_in(l, i, m) && m > 0 {
            let k = choose|k: int| 0 <= k < m && deepest_in(l, i, m) == depth_in(l, (#[trigger] l[i as int][k]) as nat);
            assert(d == depth_in(l, l[i as int][k] as nat));
        } else {
            assert(d == depth_in(l, l[i as int][m as int] as nat));
        }
    }
}

/// The numbers that a job is made of: the first says how many jobs it depends on, nought to two, the
/// next which ones, modulo the number of earlier jobs, and the last how much work it is.
pub proof fn law_drawn_job_is_spelled_out(i: nat, s: u64)
    requires
        0 < i <= usize::MAX,
    ensures
        ({
            let a = shaken(s);
            let b = shaken(a);
            let c = shaken(b);
            let (job, last) = drawn_job(i, s);
            &&& job.work == 1 + last % 7
            &&& a % 3 == 0 ==> job.deps.len() == 0 && last == b
            &&& a % 3 == 1 ==> job.deps.len() == 1 && job.deps[0] == b as nat % i && last == c
            &&& a % 3 == 2 ==> job.deps[0] == b as nat % i && job.deps.last() == c as nat % i && last == shaken(c)
            &&& a % 3 == 2 ==> job.deps.len() == (if b as nat % i == c as nat % i {
                1int
            } else {
                2int
            })
        }),
{
    reveal_with_fuel(drawn_deps, 3);
    let a = shaken(s);
    let b = shaken(a);
    let c = shaken(b);
    let (x, y) = (b as nat % i, c as nat % i);
    assert(x < i && y < i) by (nonlinear_arith)
        requires
            i > 0,
            x == b as nat % i,
            y == c as nat % i,
    ;
    let none = Seq::<usize>::empty();
    let one = none.push(x as usize);
    assert(!none.contains(x as usize));
    assert(one.contains(y as usize) == (x == y)) by {
        if x == y {
            assert(one[0] == y as usize);
        }
    }
}

} // verus!
