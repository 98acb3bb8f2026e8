//! The nodes of a spill: who depends on whom, how deep they are, how much hangs on them.

use vstd::prelude::*;

use crate::graph;
use crate::node_state;
use crate::node_state::{NodeState, StateView};
use crate::priority;
use crate::priority::{encode_features, Features, Tree32};

verus! {

broadcast use vstd::string::group_string_axioms;

/// What is known of a node.
pub struct NodeRecord {
    pub id: u64,
    /// The nodes that must finish first.
    pub deps: Vec<u64>,
    pub pid: Option<u32>,
    pub state: NodeState,
    /// Larger runs earlier among nodes with equally many dependents.
    pub priority: u64,
    /// One more than the number of nodes that were submitted as depending on this one, directly
    /// or through others.
    pub subtree_size: u64,
    /// Length of the longest chain of dependencies.
    pub depth: u32,
    pub cmd_first_byte: u8,
    /// The feature vector at submission, for training.
    pub features: Option<u16>,
}

/// A record with its parts as mathematical values.
pub struct RecordView {
    pub id: u64,
    pub deps: Seq<u64>,
    pub pid: Option<u32>,
    pub state: StateView,
    pub priority: u64,
    pub subtree_size: u64,
    pub depth: u32,
    pub cmd_first_byte: u8,
    pub features: Option<u16>,
}

impl View for NodeRecord {
    type V = RecordView;

    open spec fn view(&self) -> RecordView {
        RecordView {
            id: self.id,
            deps: self.deps@,
            pid: self.pid,
            state: self.state@,
            priority: self.priority,
            subtree_size: self.subtree_size,
            depth: self.depth,
            cmd_first_byte: self.cmd_first_byte,
            features: self.features,
        }
    }
}

/// The records of a spill, in the order in which they were added.
pub struct NodeTable {
    pub nodes: Vec<NodeRecord>,
}

impl View for NodeTable {
    type V = Seq<RecordView>;

    open spec fn view(&self) -> Seq<RecordView> {
        Seq::new(self.nodes@.len(), |i: int| self.nodes@[i]@)
    }
}

/// Whether no two records have the same id.
pub open spec fn distinct(t: Seq<RecordView>) -> bool {
    forall|i: int, j: int| 0 <= i < j < t.len() ==> (#[trigger] t[i]).id != (#[trigger] t[j]).id
}

/// Whether a record has the id.
pub open spec fn is_at(t: Seq<RecordView>, id: u64, i: int) -> bool {
    0 <= i < t.len() && t[i].id == id
}

/// Whether there is a record with the id.
pub open spec fn holds(t: Seq<RecordView>, id: u64) -> bool {
    exists|i: int| is_at(t, id, i)
}

/// The place of the record with the id.
pub open spec fn place(t: Seq<RecordView>, id: u64) -> int {
    choose|i: int| is_at(t, id, i)
}

/// Whether a record is an ancestor through at most `n` records in between.
pub open spec fn ancestor_within(t: Seq<RecordView>, start: Seq<u64>, n: nat, i: int) -> bool
    decreases n,
{
    if n == 0 {
        start.contains(t[i].id)
    } else {
        ||| ancestor_within(t, start, (n - 1) as nat, i)
        ||| exists|j: int|
            0 <= j < t.len() && ancestor_within(t, start, (n - 1) as nat, j) && #[trigger] t[j].deps.contains(
                t[i].id,
            )
    }
}

/// Whether a record is among the start ids or among what they depend on, directly or through
/// others.
pub open spec fn is_ancestor(t: Seq<RecordView>, start: Seq<u64>, i: int) -> bool {
    exists|n: nat| ancestor_within(t, start, n, i)
}

/// A number that is one more, if there is room.
pub open spec fn bumped(n: u64) -> u64 {
    if n < u64::MAX {
        (n + 1) as u64
    } else {
        n
    }
}

/// A record on which one more node depends.
pub open spec fn with_dependent(r: RecordView) -> RecordView {
    RecordView { subtree_size: bumped(r.subtree_size), ..r }
}

/// The records after a node with these dependencies was announced.
pub open spec fn bumped_table(t: Seq<RecordView>, start: Seq<u64>) -> Seq<RecordView> {
    Seq::new(
        t.len(),
        |i: int|
            if is_ancestor(t, start, i) {
                with_dependent(t[i])
            } else {
                t[i]
            },
    )
}

/// The largest depth among those of the ids that have a record; zero if none has.
pub open spec fn deepest(t: Seq<RecordView>, ids: Seq<u64>) -> u32
    decreases ids.len(),
{
    if ids.len() == 0 {
        0
    } else {
        let d = deepest(t, ids.drop_last());
        if holds(t, ids.last()) && t[place(t, ids.last())].depth > d {
            t[place(t, ids.last())].depth
        } else {
            d
        }
    }
}

/// The depth of a node with these dependencies.
pub open spec fn new_depth(t: Seq<RecordView>, deps: Seq<u64>) -> int {
    if deps.len() == 0 {
        0
    } else {
        deepest(t, deps) + 1
    }
}

proof fn place_is(t: Seq<RecordView>, id: u64, i: int)
    requires
        distinct(t),
        is_at(t, id, i),
    ensures
        holds(t, id),
        place(t, id) == i,
{
    let p = place(t, id);
    assert(is_at(t, id, p));
    if p < i {
        assert(t[p].id != t[i].id);
    } else if i < p {
        assert(t[i].id != t[p].id);
    }
}

/// The edges of the index graph are the dependencies.
spec fn mirrors(t: Seq<RecordView>, edges: Seq<Seq<usize>>) -> bool {
    &&& edges.len() == t.len()
    &&& forall|j: int, i: int|
        0 <= j < t.len() && 0 <= i < t.len() ==> #[trigger] graph::has_edge(edges, j, i)
            == t[j].deps.contains(t[i].id)
}

proof fn ancestors_are_reached(
    t: Seq<RecordView>,
    start: Seq<u64>,
    edges: Seq<Seq<usize>>,
    first: Seq<usize>,
    n: nat,
    i: int,
)
    requires
        mirrors(t, edges),
        forall|k: int|
            0 <= k < t.len() ==> #[trigger] graph::is_listed(first, k) == start.contains(t[k].id),
        0 <= i < t.len(),
    ensures
        ancestor_within(t, start, n, i) == graph::reached_within(edges, first, n, i),
    decreases n,
{
    if n == 0 {
        assert(graph::is_listed(first, i) == start.contains(t[i].id));
    } else {
        let m = (n - 1) as nat;
        ancestors_are_reached(t, start, edges, first, m, i);
        if ancestor_within(t, start, n, i) && !ancestor_within(t, start, m, i) {
            let j = choose|j: int|
                0 <= j < t.len() && ancestor_within(t, start, m, j) && #[trigger] t[j].deps.contains(t[i].id);
            ancestors_are_reached(t, start, edges, first, m, j);
            assert(graph::has_edge(edges, j, i));
        }
        if graph::reached_within(edges, first, n, i) && !graph::reached_within(edges, first, m, i) {
            let j = choose|j: int|
                0 <= j < edges.len() && graph::reached_within(edges, first, m, j) && #[trigger] graph::has_edge(
                    edges,
                    j,
                    i,
                );
            ancestors_are_reached(t, start, edges, first, m, j);
            assert(t[j].deps.contains(t[i].id));
        }
    }
}

impl NodeTable {
    /// A table without records.
    pub fn new() -> (t: Self)
        ensures
            t@ == Seq::<RecordView>::empty(),
            distinct(t@),
    {
        let t = NodeTable { nodes: Vec::new() };
        assert(t@ =~= Seq::<RecordView>::empty());
        t
    }

    /// How many records there are.
    pub fn len(&self) -> (n: usize)
        ensures
            n == self@.len(),
    {
        self.nodes.len()
    }

    /// The place of the record with an id.
    pub fn find(&self, id: u64) -> (r: Option<usize>)
        requires
            distinct(self@),
        ensures
            match r {
                Some(i) => is_at(self@, id, i as int) && place(self@, id) == i,
                None => !holds(self@, id),
            },
    {
        let mut i: usize = 0;
        while i < self.nodes.len()
            invariant
                i <= self.nodes@.len(),
                distinct(self@),
                forall|k: int| 0 <= k < i ==> (#[trigger] self@[k]).id != id,
            decreases self.nodes@.len() - i,
        {
            assert(self@[i as int].id == self.nodes@[i as int].id);
            if self.nodes[i].id == id {
                proof {
                    place_is(self@, id, i as int);
                }
                return Some(i);
            }
            i += 1;
        }
        None
    }

    /// The places of the records with one of the ids.
    fn positions(&self, ids: &Vec<u64>) -> (r: Vec<usize>)
        requires
            distinct(self@),
        ensures
            forall|k: int| 0 <= k < r@.len() ==> #[trigger] r@[k] < self@.len(),
            forall|i: int|
                0 <= i < self@.len() ==> #[trigger] graph::is_listed(r@, i) == ids@.contains(self@[i].id),
    {
        let mut r: Vec<usize> = Vec::new();
        let mut k: usize = 0;
        while k < ids.len()
            invariant
                k <= ids@.len(),
                distinct(self@),
                forall|m: int| 0 <= m < r@.len() ==> #[trigger] r@[m] < self@.len(),
                forall|m: int| 0 <= m < r@.len() ==> ids@.contains(self@[#[trigger] r@[m] as int].id),
                forall|m: int|
                    0 <= m < k && holds(self@, #[trigger] ids@[m]) ==> graph::is_listed(
                        r@,
                        place(self@, ids@[m]),
                    ),
            decreases ids@.len() - k,
        {
            let ghost before = r@;
            if let Some(i) = self.find(ids[k]) {
                r.push(i);
                proof {
                    assert(r@[before.len() as int] == i);
                    assert forall|m: int| 0 <= m < k && holds(self@, #[trigger] ids@[m]) implies graph::is_listed(
                        r@,
                        place(self@, ids@[m]),
                    ) by {
                        let p = choose|p: int| 0 <= p < before.len() && #[trigger] before[p] == place(self@, ids@[m]);
                        assert(r@[p] == before[p]);
                    }
                    assert forall|m: int| 0 <= m < r@.len() implies ids@.contains(
                        self@[#[trigger] r@[m] as int].id,
                    ) by {
                        if m < before.len() {
                            assert(r@[m] == before[m]);
                        } else {
                            assert(ids@[k as int] == self@[i as int].id);
                        }
                    }
                }
            }
            k += 1;
        }
        proof {
            assert forall|i: int| 0 <= i < self@.len() implies #[trigger] graph::is_listed(r@, i)
                == ids@.contains(self@[i].id) by {
                if graph::is_listed(r@, i) {
                    let m = choose|m: int| 0 <= m < r@.len() && #[trigger] r@[m] == i;
                    assert(ids@.contains(self@[r@[m] as int].id));
                }
                if ids@.contains(self@[i].id) {
                    let m = choose|m: int| 0 <= m < ids@.len() && ids@[m] == self@[i].id;
                    place_is(self@, self@[i].id, i);
                    assert(holds(self@, ids@[m]));
                }
            }
        }
        r
    }

    /// Counts one more dependent for every record that a node with these dependencies depends on,
    /// directly or through others. A record that is reached in several ways counts it once.
    pub fn bump_ancestor_subtree(&mut self, start: &Vec<u64>)
        requires
            distinct(old(self)@),
        ensures
            final(self)@ == bumped_table(old(self)@, start@),
            distinct(final(self)@),
    {
        let n: usize = self.nodes.len();
        let ghost t = self@;
        let mut edges: Vec<Vec<usize>> = Vec::new();
        let mut j: usize = 0;
        while j < n
            invariant
                j <= n,
                n == self.nodes@.len(),
                t == self@,
                distinct(t),
                edges@.len() == j,
                forall|a: int, k: int|
                    0 <= a < j && 0 <= k < edges@[a]@.len() ==> #[trigger] edges@[a]@[k] < n,
                forall|a: int, i: int|
                    0 <= a < j && 0 <= i < n ==> #[trigger] graph::has_edge(graph::lists(edges@), a, i)
                        == t[a].deps.contains(t[i].id),
            decreases n - j,
        {
            let ghost before = edges@;
            let out = self.positions(&self.nodes[j].deps);
            edges.push(out);
            proof {
                let shorter = graph::lists(before);
                let grown = graph::lists(edges@);
                assert forall|a: int, i: int| 0 <= a < j + 1 && 0 <= i < n implies #[trigger] graph::has_edge(
                    graph::lists(edges@),
                    a,
                    i,
                ) == t[a].deps.contains(t[i].id) by {
                    if a < j {
                        assert(grown[a] == shorter[a]);
                        assert(graph::has_edge(shorter, a, i) == t[a].deps.contains(t[i].id));
                    } else {
                        assert(grown[a] == out@);
                        assert(t[a].deps == self.nodes@[a].deps@);
                        assert(graph::is_listed(out@, i) == t[a].deps.contains(t[i].id));
                        assert(graph::has_edge(grown, a, i) == graph::is_listed(out@, i));
                    }
                }
                assert forall|a: int, k: int|
                    0 <= a < j + 1 && 0 <= k < edges@[a]@.len() implies #[trigger] edges@[a]@[k] < n by {
                    if a < j {
                        assert(edges@[a] == before[a]);
                        assert(before[a]@[k] < n);
                    } else {
                        assert(edges@[a] == out);
                        assert(out@[k] < n);
                    }
                }
            }
            j += 1;
        }
        let first = self.positions(start);
        let marks = graph::reach(&edges, &first);
        proof {
            assert forall|i: int| 0 <= i < n implies #[trigger] marks@[i] == is_ancestor(t, start@, i) by {
                if marks@[i] {
                    let m = choose|m: nat| graph::reached_within(graph::lists(edges@), first@, m, i);
                    ancestors_are_reached(t, start@, graph::lists(edges@), first@, m, i);
                }
                if is_ancestor(t, start@, i) {
                    let m = choose|m: nat| ancestor_within(t, start@, m, i);
                    ancestors_are_reached(t, start@, graph::lists(edges@), first@, m, i);
                }
            }
        }
        let mut i: usize = 0;
        while i < n
            invariant
                i <= n,
                n == self.nodes@.len(),
                t.len() == n,
                marks@.len() == n,
                forall|k: int| 0 <= k < n ==> #[trigger] marks@[k] == is_ancestor(t, start@, k),
                forall|k: int|
                    0 <= k < n ==> #[trigger] self@[k] == (if k < i && is_ancestor(t, start@, k) {
                        with_dependent(t[k])
                    } else {
                        t[k]
                    }),
            decreases n - i,
        {
            let ghost before = self@;
            assert(self@[i as int] == t[i as int]);
            if marks[i] {
                let size: u64 = self.nodes[i].subtree_size;
                if size < u64::MAX {
                    self.nodes[i].subtree_size = size + 1;
                }
                assert(self@[i as int] == with_dependent(t[i as int]));
                assert(forall|k: int| 0 <= k < n && k != i ==> #[trigger] self@[k] == before[k]);
            }
            i += 1;
        }
        proof {
            assert(self@ =~= bumped_table(t, start@));
        }
    }

    /// The depth of a node with these dependencies: one more than the deepest of them.
    pub fn compute_depth(&self, deps: &Vec<u64>) -> (depth: u32)
        requires
            distinct(self@),
            forall|i: int| 0 <= i < self@.len() ==> (#[trigger] self@[i]).depth < u32::MAX,
        ensures
            depth == new_depth(self@, deps@),
    {
        if deps.len() == 0 {
            return 0;
        }
        let mut m: u32 = 0;
        let mut k: usize = 0;
        assert(deps@.take(0) =~= Seq::<u64>::empty());
        while k < deps.len()
            invariant
                k <= deps@.len(),
                distinct(self@),
                forall|i: int| 0 <= i < self@.len() ==> (#[trigger] self@[i]).depth < u32::MAX,
                m == deepest(self@, deps@.take(k as int)),
                m < u32::MAX,
            decreases deps@.len() - k,
        {
            proof {
                assert(deps@.take(k + 1).drop_last() =~= deps@.take(k as int));
            }
            if let Some(i) = self.find(deps[k]) {
                assert(self@[i as int].depth == self.nodes@[i as int].depth);
                if self.nodes[i].depth > m {
                    m = self.nodes[i].depth;
                }
            }
            k += 1;
        }
        assert(deps@.take(k as int) =~= deps@);
        m + 1
    }
}

/// How much hangs on the dependencies: the largest of their sizes, at least one, at most what
/// a word holds.
pub open spec fn estimated_size(t: Seq<RecordView>, ids: Seq<u64>) -> u32
    decreases ids.len(),
{
    if ids.len() == 0 {
        1
    } else {
        let m = estimated_size(t, ids.drop_last());
        let r = t[place(t, ids.last())];
        if holds(t, ids.last()) && r.subtree_size > m {
            if r.subtree_size < u32::MAX {
                r.subtree_size as u32
            } else {
                u32::MAX
            }
        } else {
            m
        }
    }
}

/// The features of a node that is submitted to a table in which its dependencies know of it.
pub open spec fn submit_features(t: Seq<RecordView>, deps: Seq<u64>, cmd_first_byte: u8) -> Features {
    Features {
        dep_count: priority::as_byte(deps.len() as int),
        subtree_size: estimated_size(t, deps),
        depth: priority::as_byte(new_depth(t, deps)),
        cmd_first_byte,
    }
}

/// Whether a record is that of a newly submitted node.
pub open spec fn is_new_record(
    t: Seq<RecordView>,
    r: RecordView,
    id: u64,
    deps: Seq<u64>,
    cmd_first_byte: u8,
    model: Option<Tree32>,
) -> bool {
    &&& r.id == id
    &&& r.deps == deps
    &&& r.pid == None::<u32>
    &&& r.state == (if deps.len() == 0 {
        StateView::Pending
    } else {
        StateView::Waiting
    })
    &&& r.subtree_size == 1
    &&& r.depth == new_depth(t, deps)
    &&& r.cmd_first_byte == cmd_first_byte
    &&& match model {
        None => r.priority == 0 && r.features == None::<u16>,
        Some(tree) => {
            &&& r.features matches Some(v) && priority::encodes(v, submit_features(t, deps, cmd_first_byte))
                && r.priority == (if priority::half_bit(
                tree.leaves,
                priority::leaf_of(tree.internals@, v),
            ) {
                1u64
            } else {
                0
            })
        },
    }
}

/// The records after one was put in, in place of an earlier one with its id or at the end.
pub open spec fn put(t: Seq<RecordView>, r: RecordView) -> Seq<RecordView> {
    if holds(t, r.id) {
        t.update(place(t, r.id), r)
    } else {
        t.push(r)
    }
}

/// What became of the wish to kill a node.
#[derive(Clone, Copy, Debug, PartialEq, Eq)]
pub enum KillOutcome {
    /// There is no such node.
    NotFound,
    /// The node has finished.
    AlreadyFinished,
    /// The node counts as killed; the process that may have to be told.
    Killed(Option<u32>),
}

impl NodeTable {
    fn estimate(&self, deps: &Vec<u64>) -> (m: u32)
        requires
            distinct(self@),
        ensures
            m == estimated_size(self@, deps@),
    {
        let mut m: u32 = 1;
        let mut k: usize = 0;
        assert(deps@.take(0) =~= Seq::<u64>::empty());
        while k < deps.len()
            invariant
                k <= deps@.len(),
                distinct(self@),
                m == estimated_size(self@, deps@.take(k as int)),
            decreases deps@.len() - k,
        {
            proof {
                assert(deps@.take(k + 1).drop_last() =~= deps@.take(k as int));
            }
            if let Some(i) = self.find(deps[k]) {
                assert(self@[i as int].subtree_size == self.nodes@[i as int].subtree_size);
                let size: u64 = self.nodes[i].subtree_size;
                if size > m as u64 {
                    m = if size < u32::MAX as u64 {
                        size as u32
                    } else {
                        u32::MAX
                    };
                }
            }
            k += 1;
        }
        assert(deps@.take(k as int) =~= deps@);
        m
    }

    /// Replaces the record at a place.
    fn put_at(&mut self, i: usize, r: NodeRecord)
        requires
            i < old(self)@.len(),
        ensures
            final(self)@ == old(self)@.update(i as int, r@),
    {
        let ghost t = self@;
        self.nodes[i] = r;
        assert(self@ =~= t.update(i as int, r@));
    }

    /// Puts a record in.
    fn insert(&mut self, r: NodeRecord)
        requires
            distinct(old(self)@),
        ensures
            final(self)@ == put(old(self)@, r@),
            distinct(final(self)@),
    {
        let ghost t = self@;
        match self.find(r.id) {
            Some(i) => {
                self.put_at(i, r);
                proof {
                    assert forall|a: int, b: int| 0 <= a < b < self@.len() implies (#[trigger] self@[a]).id != (
                    #[trigger] self@[b]).id by {
                        assert(t[a].id != t[b].id);
                    }
                }
            },
            None => {
                self.nodes.push(r);
                proof {
                    assert(self@ =~= t.push(r@));
                    assert forall|a: int, b: int| 0 <= a < b < self@.len() implies (#[trigger] self@[a]).id != (
                    #[trigger] self@[b]).id by {
                        if b < t.len() {
                            assert(t[a].id != t[b].id);
                        } else if t[a].id == r@.id {
                            assert(is_at(t, r@.id, a));
                        }
                    }
                }
            },
        }
    }

    /// Takes a submitted node in: tells the nodes it depends on, then adds its record. It waits if
    /// it depends on any node, else it is pending. A model, where there is one, gives the priority.
    pub fn allocate_node(&mut self, id: u64, deps: Vec<u64>, cmd_first_byte: u8, model: Option<&Tree32>)
        requires
            distinct(old(self)@),
            forall|i: int| 0 <= i < old(self)@.len() ==> (#[trigger] old(self)@[i]).depth < u32::MAX,
        ensures
            distinct(final(self)@),
            ({
                let t = bumped_table(old(self)@, deps@);
                let r = final(self)@[place(final(self)@, id)];
                &&& is_new_record(
                    t,
                    r,
                    id,
                    deps@,
                    cmd_first_byte,
                    match model {
                        None => None,
                        Some(m) => Some(*m),
                    },
                )
                &&& final(self)@ == put(t, r)
            }),
    {
        self.bump_ancestor_subtree(&deps);
        let ghost t = self@;
        assert forall|i: int| 0 <= i < t.len() implies (#[trigger] t[i]).depth < u32::MAX by {
            assert(old(self)@[i].depth < u32::MAX);
        }
        let depth: u32 = self.compute_depth(&deps);
        let mut priority: u64 = 0;
        let mut features: Option<u16> = None;
        if let Some(tree) = model {
            let dep_count: u8 = if deps.len() < 255 {
                deps.len() as u8
            } else {
                255
            };
            let f = Features {
                dep_count,
                subtree_size: self.estimate(&deps),
                depth: if depth < 255 {
                    depth as u8
                } else {
                    255
                },
                cmd_first_byte,
            };
            let v: u16 = encode_features(f);
            priority = tree.infer(v) as u64;
            features = Some(v);
        }
        let state = if deps.len() == 0 {
            NodeState::Pending
        } else {
            NodeState::Waiting
        };
        let r = NodeRecord {
            id,
            deps,
            pid: None,
            state,
            priority,
            subtree_size: 1,
            depth,
            cmd_first_byte,
            features,
        };
        let ghost v = r@;
        self.insert(r);
        proof {
            if holds(t, id) {
                let p = place(t, id);
                assert(is_at(t, id, p));
                assert(is_at(self@, id, p));
                place_is(self@, id, p);
            } else {
                assert(is_at(self@, id, t.len() as int));
                place_is(self@, id, t.len() as int);
            }
        }
    }

    /// The largest depth of any record.
    pub fn max_depth(&self) -> (d: u32)
        ensures
            forall|i: int| 0 <= i < self@.len() ==> (#[trigger] self@[i]).depth <= d,
            d == 0 || exists|i: int| 0 <= i < self@.len() && (#[trigger] self@[i]).depth == d,
    {
        let mut d: u32 = 0;
        let mut i: usize = 0;
        while i < self.nodes.len()
            invariant
                i <= self.nodes@.len(),
                forall|k: int| 0 <= k < i ==> (#[trigger] self@[k]).depth <= d,
                d == 0 || exists|k: int| 0 <= k < i && (#[trigger] self@[k]).depth == d,
            decreases self.nodes@.len() - i,
        {
            assert(self@[i as int].depth == self.nodes@[i as int].depth);
            if self.nodes[i].depth > d {
                d = self.nodes[i].depth;
            }
            i += 1;
        }
        d
    }

    /// Sets the state of a node, if there is a record of it.
    pub fn update_record_state(&mut self, id: u64, s: NodeState)
        requires
            distinct(old(self)@),
        ensures
            distinct(final(self)@),
            final(self)@ == (if holds(old(self)@, id) {
                let i = place(old(self)@, id);
                old(self)@.update(i, (RecordView { state: s@, ..old(self)@[i] }))
            } else {
                old(self)@
            }),
    {
        let ghost t = self@;
        if let Some(i) = self.find(id) {
            self.nodes[i].state = s;
            proof {
                assert(self@ =~= t.update(i as int, RecordView { state: s@, ..t[i as int] }));
                updated_stays_distinct(t, i as int, RecordView { state: s@, ..t[i as int] });
            }
        }
    }

    /// Notes that the process of a node was started.
    pub fn note_started(&mut self, id: u64, pid: u32)
        requires
            distinct(old(self)@),
        ensures
            distinct(final(self)@),
            final(self)@ == (if holds(old(self)@, id) {
                let i = place(old(self)@, id);
                old(self)@.update(
                    i,
                    (RecordView { state: StateView::Running, pid: Some(pid), ..old(self)@[i] }),
                )
            } else {
                old(self)@
            }),
    {
        let ghost t = self@;
        if let Some(i) = self.find(id) {
            self.nodes[i].state = NodeState::Running;
            self.nodes[i].pid = Some(pid);
            proof {
                let r = RecordView { state: StateView::Running, pid: Some(pid), ..t[i as int] };
                assert(self@ =~= t.update(i as int, r));
                updated_stays_distinct(t, i as int, r);
            }
        }
    }

    /// Notes that the process of a node is gone.
    pub fn note_ended(&mut self, id: u64)
        requires
            distinct(old(self)@),
        ensures
            distinct(final(self)@),
            final(self)@ == (if holds(old(self)@, id) {
                let i = place(old(self)@, id);
                old(self)@.update(i, (RecordView { pid: None, ..old(self)@[i] }))
            } else {
                old(self)@
            }),
    {
        let ghost t = self@;
        if let Some(i) = self.find(id) {
            self.nodes[i].pid = None;
            proof {
                let r = RecordView { pid: None, ..t[i as int] };
                assert(self@ =~= t.update(i as int, r));
                updated_stays_distinct(t, i as int, r);
            }
        }
    }

    /// Marks a node as killed, unless it is unknown or has finished.
    pub fn kill_node(&mut self, id: u64) -> (outcome: KillOutcome)
        requires
            distinct(old(self)@),
        ensures
            distinct(final(self)@),
            ({
                let t = old(self)@;
                let i = place(t, id);
                if !holds(t, id) {
                    outcome == KillOutcome::NotFound && final(self)@ == t
                } else if node_state::finished(t[i].state) {
                    outcome == KillOutcome::AlreadyFinished && final(self)@ == t
                } else {
                    &&& outcome == KillOutcome::Killed(t[i].pid)
                    &&& final(self)@ == t.update(
                        i,
                        RecordView { state: StateView::Failed("killed"@), ..t[i] },
                    )
                }
            }),
            outcome is NotFound <==> !holds(old(self)@, id),
            forall|j: int|
                is_at(old(self)@, id, j) && !(old(self)@[j].state is Done) && !(old(self)@[j].state is Failed)
                    ==> outcome is Killed && (#[trigger] final(self)@[j]).state is Failed,
            forall|j: int|
                0 <= j < old(self)@.len() && old(self)@[j].id != id ==> #[trigger] final(self)@[j] == old(self)@[j],
    {
        let ghost t = self@;
        match self.find(id) {
            None => KillOutcome::NotFound,
            Some(i) => {
                assert(t[i as int] == self.nodes@[i as int]@);
                if self.nodes[i].state.is_finished() {
                    return KillOutcome::AlreadyFinished;
                }
                let pid: Option<u32> = self.nodes[i].pid;
                self.nodes[i].state = NodeState::Failed("killed".to_owned());
                proof {
                    let r = RecordView { state: StateView::Failed("killed"@), ..t[i as int] };
                    assert(self@ =~= t.update(i as int, r));
                    updated_stays_distinct(t, i as int, r);
                }
                KillOutcome::Killed(pid)
            },
        }
    }

    /// What a finished node teaches: its features at submission, and whether another node came to
    /// depend on it.
    pub fn training_sample(&self, id: u64) -> (r: Option<(u16, bool)>)
        requires
            distinct(self@),
        ensures
            r == (if holds(self@, id) {
                match self@[place(self@, id)].features {
                    Some(v) => Some((v, self@[place(self@, id)].subtree_size >= 2)),
                    None => None,
                }
            } else {
                None
            }),
            sizes_count_dependents(self@) ==> (r matches Some((_, label)) ==> label == (dependents(
                self@,
                place(self@, id),
                self@.len(),
            ) > 0)),
    {
        match self.find(id) {
            None => None,
            Some(i) => {
                assert(self@[i as int] == self.nodes@[i as int]@);
                match self.nodes[i].features {
                    None => None,
                    Some(v) => Some((v, self.nodes[i].subtree_size >= 2)),
                }
            },
        }
    }
}

proof fn updated_stays_distinct(t: Seq<RecordView>, i: int, r: RecordView)
    requires
        distinct(t),
        0 <= i < t.len(),
        r.id == t[i].id,
    ensures
        distinct(t.update(i, r)),
{
    let u = t.update(i, r);
    assert forall|a: int, b: int| 0 <= a < b < u.len() implies (#[trigger] u[a]).id != (#[trigger] u[b]).id by {
        assert(t[a].id != t[b].id);
    }
}

/// A node is deeper than each of the nodes it depends on.
pub proof fn law_node_is_deeper_than_its_dependencies(t: Seq<RecordView>, deps: Seq<u64>, k: int)
    requires
        0 <= k < deps.len(),
        holds(t, deps[k]),
    ensures
        new_depth(t, deps) > t[place(t, deps[k])].depth,
    decreases deps.len(),
{
    if k < deps.len() - 1 {
        let rest = deps.drop_last();
        assert(rest[k] == deps[k]);
        law_node_is_deeper_than_its_dependencies(t, rest, k);
    }
}

// ---------------------------------------------------------------------------------------------
// Sizes count dependents
// ---------------------------------------------------------------------------------------------

/// How many of the first `n` records depend on record `i`, directly or through others.
pub open spec fn dependents(t: Seq<RecordView>, i: int, n: nat) -> nat
    decreases n,
{
    if n == 0 {
        0
    } else {
        dependents(t, i, (n - 1) as nat) + (if is_ancestor(t, t[n - 1].deps, i) {
            1nat
        } else {
            0
        })
    }
}

/// Whether the size of every record is one more than the number of its dependents.
pub open spec fn sizes_count_dependents(t: Seq<RecordView>) -> bool {
    forall|i: int| 0 <= i < t.len() ==> (#[trigger] t[i]).subtree_size == 1 + dependents(t, i, t.len())
}

/// Whether a table has the links of another, and at most one record more, on which none of the
/// others depends.
spec fn extends_links(t: Seq<RecordView>, u: Seq<RecordView>) -> bool {
    &&& u.len() == t.len() || u.len() == t.len() + 1
    &&& forall|i: int| 0 <= i < t.len() ==> (#[trigger] u[i]).id == t[i].id && u[i].deps == t[i].deps
    &&& u.len() > t.len() ==> {
        &&& !u[t.len() as int].deps.contains(u[t.len() as int].id)
        &&& forall|j: int| 0 <= j < t.len() ==> !(#[trigger] t[j]).deps.contains(u[t.len() as int].id)
    }
}

proof fn links_decide_within(t: Seq<RecordView>, u: Seq<RecordView>, start: Seq<u64>, n: nat, i: int)
    requires
        extends_links(t, u),
        u.len() > t.len() ==> !start.contains(u[t.len() as int].id),
        0 <= i < u.len(),
    ensures
        i < t.len() ==> ancestor_within(u, start, n, i) == ancestor_within(t, start, n, i),
        i == t.len() ==> !ancestor_within(u, start, n, i),
    decreases n,
{
    if i < t.len() {
        assert(u[i].id == t[i].id);
    }
    if n > 0 {
        let m = (n - 1) as nat;
        links_decide_within(t, u, start, m, i);
        if ancestor_within(u, start, n, i) && !ancestor_within(u, start, m, i) {
            let j = choose|j: int|
                0 <= j < u.len() && ancestor_within(u, start, m, j) && #[trigger] u[j].deps.contains(u[i].id);
            links_decide_within(t, u, start, m, j);
            assert(j < t.len());
            assert(u[j].deps == t[j].deps);
            assert(t[j].deps.contains(u[i].id));
        }
        if i < t.len() && ancestor_within(t, start, n, i) && !ancestor_within(t, start, m, i) {
            let j = choose|j: int|
                0 <= j < t.len() && ancestor_within(t, start, m, j) && #[trigger] t[j].deps.contains(t[i].id);
            links_decide_within(t, u, start, m, j);
            assert(u[j].deps.contains(u[i].id));
        }
    }
}

proof fn links_decide(t: Seq<RecordView>, u: Seq<RecordView>, start: Seq<u64>, i: int)
    requires
        extends_links(t, u),
        u.len() > t.len() ==> !start.contains(u[t.len() as int].id),
        0 <= i < u.len(),
    ensures
        i < t.len() ==> is_ancestor(u, start, i) == is_ancestor(t, start, i),
        i == t.len() ==> !is_ancestor(u, start, i),
{
    if is_ancestor(u, start, i) {
        let n = choose|n: nat| ancestor_within(u, start, n, i);
        links_decide_within(t, u, start, n, i);
    }
    if i < t.len() && is_ancestor(t, start, i) {
        let n = choose|n: nat| ancestor_within(t, start, n, i);
        links_decide_within(t, u, start, n, i);
    }
}

proof fn links_decide_dependents(t: Seq<RecordView>, u: Seq<RecordView>, i: int, n: nat)
    requires
        extends_links(t, u),
        n <= t.len(),
        0 <= i < u.len(),
    ensures
        i < t.len() ==> dependents(u, i, n) == dependents(t, i, n),
        i == t.len() ==> dependents(u, i, n) == 0,
    decreases n,
{
    if n > 0 {
        links_decide_dependents(t, u, i, (n - 1) as nat);
        assert(u[n - 1].deps == t[n - 1].deps);
        if u.len() > t.len() {
            assert(!t[n - 1].deps.contains(u[t.len() as int].id));
        }
        links_decide(t, u, t[n - 1].deps, i);
    }
}

/// Sizes count dependents: if they do before a node is submitted, they do after it, provided that
/// its id is new and neither its dependencies nor those of earlier nodes name it.
pub proof fn law_sizes_count_dependents(t: Seq<RecordView>, r: RecordView)
    requires
        sizes_count_dependents(t),
        r.subtree_size == 1,
        !holds(t, r.id),
        !r.deps.contains(r.id),
        forall|j: int| 0 <= j < t.len() ==> !(#[trigger] t[j]).deps.contains(r.id),
        forall|j: int| 0 <= j < t.len() ==> (#[trigger] t[j]).subtree_size < u64::MAX,
    ensures
        sizes_count_dependents(put(bumped_table(t, r.deps), r)),
{
    let b = bumped_table(t, r.deps);
    let u = put(b, r);
    if holds(b, r.id) {
        let p = place(b, r.id);
        assert(is_at(b, r.id, p));
        assert(is_at(t, r.id, p));
    }
    assert(u == b.push(r));
    assert(extends_links(t, u));
    assert forall|i: int| 0 <= i < u.len() implies (#[trigger] u[i]).subtree_size == 1 + dependents(
        u,
        i,
        u.len(),
    ) by {
        links_decide_dependents(t, u, i, t.len());
        links_decide(t, u, r.deps, i);
        assert(u[u.len() - 1].deps == r.deps);
        if i < t.len() {
            assert(t[i].subtree_size == 1 + dependents(t, i, t.len()));
            assert(t[i].subtree_size < u64::MAX);
        }
    }
}

// ---------------------------------------------------------------------------------------------
// What a new record says
// ---------------------------------------------------------------------------------------------

/// The size that a node is judged by is that of the largest of its dependencies, as far as they are
/// known and the number has room, and one if there are none.
pub proof fn law_size_is_that_of_the_largest_dependency(t: Seq<RecordView>, deps: Seq<u64>)
    ensures
        estimated_size(t, deps) >= 1,
        forall|k: int|
            0 <= k < deps.len() && holds(t, #[trigger] deps[k]) ==> estimated_size(t, deps) >= t[place(
                t,
                deps[k],
            )].subtree_size || estimated_size(t, deps) == u32::MAX,
        estimated_size(t, deps) == 1 || exists|k: int|
            0 <= k < deps.len() && holds(t, #[trigger] deps[k]) && t[place(t, deps[k])].subtree_size
                >= estimated_size(t, deps),
    decreases deps.len(),
{
    if deps.len() > 0 {
        let rest = deps.drop_last();
        let last = deps.len() - 1;
        let e = estimated_size(t, deps);
        law_size_is_that_of_the_largest_dependency(t, rest);
        assert forall|k: int| 0 <= k < deps.len() && holds(t, #[trigger] deps[k]) implies e >= t[place(
            t,
            deps[k],
        )].subtree_size || e == u32::MAX by {
            if k < last {
                assert(rest[k] == deps[k]);
            }
        }
        if e == estimated_size(t, rest) {
            if e != 1 {
                let k = choose|k: int|
                    0 <= k < rest.len() && holds(t, #[trigger] rest[k]) && t[place(t, rest[k])].subtree_size >= e;
                assert(deps[k] == rest[k]);
            }
        } else {
            assert(deps[last] == deps.last());
        }
    }
}

/// A node is just one step deeper than the deepest of its dependencies, and at the top without any.
pub proof fn law_depth_is_no_more_than_it_must_be(t: Seq<RecordView>, deps: Seq<u64>)
    ensures
        deps.len() == 0 ==> new_depth(t, deps) == 0,
        new_depth(t, deps) > 1 ==> exists|k: int|
            0 <= k < deps.len() && holds(t, #[trigger] deps[k]) && t[place(t, deps[k])].depth + 1 == new_depth(t, deps),
        deps.len() > 0 ==> new_depth(t, deps) >= 1,
    decreases deps.len(),
{
    if deps.len() > 0 {
        let rest = deps.drop_last();
        let d = deepest(t, deps);
        law_depth_is_no_more_than_it_must_be(t, rest);
        if d > 0 {
            if d == deepest(t, rest) {
                if rest.len() > 0 {
                    let k = choose|k: int|
                        0 <= k < rest.len() && holds(t, #[trigger] rest[k]) && t[place(t, rest[k])].depth + 1 == d + 1;
                    assert(deps[k] == rest[k]);
                }
            } else {
                assert(deps[deps.len() - 1] == deps.last());
            }
        }
    }
}

/// A node that depends on nothing can start at once, one that depends on others has to wait; no
/// process belongs to it, and nothing depends on it yet. Without a model it has no priority, and
/// with one it has the priority of its class, nought or one.
pub proof fn law_new_node_waits_for_its_dependencies(
    t: Seq<RecordView>,
    r: RecordView,
    id: u64,
    deps: Seq<u64>,
    first: u8,
    model: Option<Tree32>,
)
    requires
        is_new_record(t, r, id, deps, first, model),
    ensures
        r.id == id && r.deps == deps && r.cmd_first_byte == first,
        r.state == StateView::Pending <==> deps.len() == 0,
        r.state == StateView::Waiting <==> deps.len() > 0,
        r.pid is None,
        r.subtree_size == 1,
        model is None ==> r.priority == 0 && r.features is None,
        model is Some ==> r.priority <= 1 && r.features is Some,
{
}

/// Putting a record in its place leaves every other record as it is, and each id once.
pub proof fn law_putting_changes_one_record(t: Seq<RecordView>, r: RecordView, i: int)
    requires
        distinct(t),
        0 <= i < t.len(),
        t[i].id != r.id,
    ensures
        holds(put(t, r), r.id),
        put(t, r)[i] == t[i],
        put(t, r)[place(put(t, r), r.id)] == r,
        put(t, r).len() == t.len() + (if holds(t, r.id) {
            0int
        } else {
            1int
        }),
{
    let u = put(t, r);
    if holds(t, r.id) {
        let p = place(t, r.id);
        assert(is_at(t, r.id, p));
        assert(is_at(u, r.id, p));
        updated_stays_distinct(t, p, r);
        place_is(u, r.id, p);
    } else {
        let n = t.len() as int;
        assert(is_at(u, r.id, n));
        assert forall|a: int, b: int| 0 <= a < b < u.len() implies (#[trigger] u[a]).id != (#[trigger] u[b]).id by {
            if b == n {
                assert(!is_at(t, r.id, a));
            }
        }
        place_is(u, r.id, n);
    }
}

/// A new node makes every node that it depends on, directly or through others, larger by one, and
/// changes nothing else.
pub proof fn law_dependencies_grow_by_one(t: Seq<RecordView>, start: Seq<u64>, i: int)
    requires
        0 <= i < t.len(),
    ensures
        ({
            let r = bumped_table(t, start)[i];
            &&& is_ancestor(t, start, i) && t[i].subtree_size < u64::MAX ==> r.subtree_size == t[i].subtree_size + 1
            &&& !is_ancestor(t, start, i) ==> r.subtree_size == t[i].subtree_size
            &&& r.id == t[i].id && r.deps == t[i].deps && r.pid == t[i].pid && r.state == t[i].state && r.priority
                == t[i].priority && r.depth == t[i].depth && r.cmd_first_byte == t[i].cmd_first_byte && r.features
                == t[i].features
        }),
{
}

/// The nodes that one depends on are those it names, those that these name, and so on.
pub proof fn law_dependencies_of_dependencies_count(t: Seq<RecordView>, start: Seq<u64>, i: int, j: int)
    requires
        0 <= i < t.len(),
        0 <= j < t.len(),
    ensures
        start.contains(t[i].id) ==> is_ancestor(t, start, i),
        is_ancestor(t, start, j) && t[j].deps.contains(t[i].id) ==> is_ancestor(t, start, i),
        start.len() == 0 ==> !is_ancestor(t, start, i),
{
    if start.contains(t[i].id) {
        assert(ancestor_within(t, start, 0, i));
    }
    if is_ancestor(t, start, j) && t[j].deps.contains(t[i].id) {
        let n = choose|n: nat| ancestor_within(t, start, n, j);
        assert(ancestor_within(t, start, n + 1, i));
    }
    if start.len() == 0 && is_ancestor(t, start, i) {
        let n = choose|n: nat| ancestor_within(t, start, n, i);
        nothing_above_nothing(t, start, n, i);
    }
}

proof fn nothing_above_nothing(t: Seq<RecordView>, start: Seq<u64>, n: nat, i: int)
    requires
        start.len() == 0,
    ensures
        !ancestor_within(t, start, n, i),
    decreases n,
{
    if n > 0 && ancestor_within(t, start, n, i) {
        let m = (n - 1) as nat;
        nothing_above_nothing(t, start, m, i);
        let j = choose|j: int|
            0 <= j < t.len() && ancestor_within(t, start, m, j) && #[trigger] t[j].deps.contains(t[i].id);
        nothing_above_nothing(t, start, m, j);
    }
}

} // verus!
