//! The queue of nodes that are ready to run, and the slots they run in.

use vstd::prelude::*;

use crate::text;

verus! {

broadcast use vstd::string::group_string_axioms;

/// How many nodes run at a time.
pub const MAX_WORKERS: usize = 4;

/// A node that is ready to run.
pub struct QueueItem {
    pub subtree_size: u64,
    pub priority: u64,
    pub addr: String,
}

/// A queued node with its address as a sequence of characters.
pub struct ItemView {
    pub subtree_size: u64,
    pub priority: u64,
    pub addr: Seq<char>,
}

impl View for QueueItem {
    type V = ItemView;

    open spec fn view(&self) -> ItemView {
        ItemView { subtree_size: self.subtree_size, priority: self.priority, addr: self.addr@ }
    }
}

/// Whether two texts are equal before place `k` and differ or end there.
pub open spec fn part_at(a: Seq<char>, b: Seq<char>, k: int) -> bool {
    &&& 0 <= k <= a.len()
    &&& k <= b.len()
    &&& forall|m: int| 0 <= m < k ==> #[trigger] a[m] == b[m]
    &&& k == a.len() || k == b.len() || a[k] != b[k]
}

/// Whether a text comes before another in a dictionary.
pub open spec fn dictionary_before(a: Seq<char>, b: Seq<char>) -> bool {
    exists|k: int|
        #[trigger] part_at(a, b, k) && k < b.len() && (k == a.len() || (a[k] as u32) < (b[k] as u32))
}

/// Whether a node runs before another: the one on which more depends; among those the one of
/// higher priority; among those the one whose address comes first in a dictionary.
pub open spec fn runs_before(a: ItemView, b: ItemView) -> bool {
    if a.subtree_size != b.subtree_size {
        a.subtree_size > b.subtree_size
    } else if a.priority != b.priority {
        a.priority > b.priority
    } else {
        dictionary_before(a.addr, b.addr)
    }
}

proof fn part_exists(a: Seq<char>, b: Seq<char>, k: int)
    requires
        0 <= k <= a.len(),
        k <= b.len(),
        forall|m: int| 0 <= m < k ==> #[trigger] a[m] == b[m],
    ensures
        exists|p: int| #[trigger] part_at(a, b, p) && p >= k,
    decreases a.len() - k,
{
    if k == a.len() || k == b.len() || a[k] != b[k] {
        assert(part_at(a, b, k));
    } else {
        part_exists(a, b, k + 1);
    }
}

proof fn part_is_unique(a: Seq<char>, b: Seq<char>, k: int, p: int)
    requires
        part_at(a, b, k),
        part_at(a, b, p),
    ensures
        k == p,
{
    if k < p {
        assert(a[k] == b[k]);
    } else if p < k {
        assert(a[p] == b[p]);
    }
}

proof fn codes_differ(a: char, b: char)
    requires
        a != b,
    ensures
        a as u32 != b as u32,
{
}

/// Of two texts one comes first, unless they are equal.
pub proof fn law_dictionary_is_total(a: Seq<char>, b: Seq<char>)
    ensures
        dictionary_before(a, b) || dictionary_before(b, a) || a == b,
        !(dictionary_before(a, b) && dictionary_before(b, a)),
        !dictionary_before(a, a),
{
    part_exists(a, b, 0);
    let k = choose|k: int| #[trigger] part_at(a, b, k) && k >= 0;
    assert(part_at(b, a, k));
    if k == a.len() && k == b.len() {
        assert(a =~= b);
    } else if k < a.len() && k < b.len() {
        codes_differ(a[k], b[k]);
    }
    if dictionary_before(a, b) && dictionary_before(b, a) {
        let p = choose|p: int|
            #[trigger] part_at(a, b, p) && p < b.len() && (p == a.len() || (a[p] as u32) < (b[p] as u32));
        let q = choose|q: int|
            #[trigger] part_at(b, a, q) && q < a.len() && (q == b.len() || (b[q] as u32) < (a[q] as u32));
        assert(part_at(a, b, q));
        part_is_unique(a, b, p, q);
    }
    if dictionary_before(a, a) {
        let p = choose|p: int|
            #[trigger] part_at(a, a, p) && p < a.len() && (p == a.len() || (a[p] as u32) < (a[p] as u32));
        assert(false);
    }
}

/// The dictionary order is transitive.
pub proof fn law_dictionary_is_transitive(a: Seq<char>, b: Seq<char>, c: Seq<char>)
    requires
        dictionary_before(a, b),
        dictionary_before(b, c),
    ensures
        dictionary_before(a, c),
{
    let p = choose|p: int|
        #[trigger] part_at(a, b, p) && p < b.len() && (p == a.len() || (a[p] as u32) < (b[p] as u32));
    let q = choose|q: int|
        #[trigger] part_at(b, c, q) && q < c.len() && (q == b.len() || (b[q] as u32) < (c[q] as u32));
    let k = if p < q {
        p
    } else {
        q
    };
    assert forall|m: int| 0 <= m < k implies #[trigger] a[m] == c[m] by {
        assert(a[m] == b[m]);
        assert(b[m] == c[m]);
    }
    if p < q {
        assert(b[p] == c[p]);
    } else if q < p {
        assert(a[q] == b[q]);
    }
    assert(part_at(a, c, k));
}

/// The order of the queue is total up to equality, and a node never runs before itself.
pub proof fn law_queue_order_is_total(a: ItemView, b: ItemView)
    ensures
        runs_before(a, b) || runs_before(b, a) || a == b,
        !(runs_before(a, b) && runs_before(b, a)),
        !runs_before(a, a),
{
    law_dictionary_is_total(a.addr, b.addr);
}

/// The order of the queue is transitive.
pub proof fn law_queue_order_is_transitive(a: ItemView, b: ItemView, c: ItemView)
    requires
        runs_before(a, b),
        runs_before(b, c),
    ensures
        runs_before(a, c),
{
    if a.subtree_size == b.subtree_size && b.subtree_size == c.subtree_size && a.priority == b.priority
        && b.priority == c.priority {
        law_dictionary_is_transitive(a.addr, b.addr, c.addr);
    }
}

/// Whether a text comes before another in a dictionary.
fn text_before(a: &str, b: &str) -> (r: bool)
    ensures
        r == dictionary_before(a@, b@),
{
    let x = text::chars_of(a);
    let y = text::chars_of(b);
    let mut k: usize = 0;
    while k < x.len() && k < y.len() && x[k] == y[k]
        invariant
            k <= x@.len(),
            k <= y@.len(),
            x@ == a@,
            y@ == b@,
            forall|m: int| 0 <= m < k ==> #[trigger] x@[m] == y@[m],
        decreases x@.len() - k,
    {
        k += 1;
    }
    let r: bool = k < y.len() && (k == x.len() || (x[k] as u32) < (y[k] as u32));
    proof {
        assert(part_at(a@, b@, k as int));
        if dictionary_before(a@, b@) {
            let p = choose|p: int|
                #[trigger] part_at(a@, b@, p) && p < b@.len() && (p == a@.len() || (a@[p] as u32) < (
                b@[p] as u32));
            part_is_unique(a@, b@, p, k as int);
        }
    }
    r
}

impl QueueItem {
    /// Whether this node runs before another.
    pub fn before(&self, other: &QueueItem) -> (r: bool)
        ensures
            r == runs_before(self@, other@),
    {
        if self.subtree_size != other.subtree_size {
            self.subtree_size > other.subtree_size
        } else if self.priority != other.priority {
            self.priority > other.priority
        } else {
            text_before(&self.addr, &other.addr)
        }
    }
}

/// Whether item `i` is the first of those before which no other runs.
pub open spec fn is_top(q: Seq<ItemView>, i: int) -> bool {
    &&& 0 <= i < q.len()
    &&& forall|j: int| 0 <= j < q.len() ==> !#[trigger] runs_before(q[j], q[i])
    &&& forall|j: int| 0 <= j < i ==> #[trigger] runs_before(q[i], q[j])
}

/// Whether no node that stays behind should have gone first, said of the fields alone: none has a
/// larger subtree; of those with the same size none has a higher priority; and of those with the
/// same size and priority none has an address that differs first by a smaller character, or that
/// is a beginning of the address that goes.
pub open spec fn goes_first(item: ItemView, others: Seq<ItemView>) -> bool {
    forall|j: int|
        0 <= j < others.len() ==> {
            let other = #[trigger] others[j];
            &&& other.subtree_size <= item.subtree_size
            &&& other.subtree_size == item.subtree_size ==> other.priority <= item.priority
            &&& other.subtree_size == item.subtree_size && other.priority == item.priority ==> forall|k: int|
                0 <= k < item.addr.len() && k <= other.addr.len() && #[trigger] item.addr.take(k)
                    == other.addr.take(k) ==> k < other.addr.len() && item.addr[k] as u32 <= other.addr[k] as u32
        }
}

/// The node that runs next is the one on which most depends, whatever the priorities and addresses
/// are; priority decides between nodes of the same size, and the address between those of the same
/// size and priority.
pub proof fn law_most_dependents_go_first(q: Seq<ItemView>, i: int)
    requires
        is_top(q, i),
    ensures
        goes_first(q[i], q),
        goes_first(q[i], q.remove(i)),
        forall|j: int| 0 <= j < q.len() ==> (#[trigger] q[j]).subtree_size <= q[i].subtree_size,
        forall|j: int|
            0 <= j < q.len() && (#[trigger] q[j]).subtree_size == q[i].subtree_size ==> q[j].priority
                <= q[i].priority,
{
    let item = q[i];
    assert forall|j: int| 0 <= j < q.len() implies {
        let other = #[trigger] q[j];
        &&& other.subtree_size <= item.subtree_size
        &&& other.subtree_size == item.subtree_size ==> other.priority <= item.priority
        &&& other.subtree_size == item.subtree_size && other.priority == item.priority ==> forall|k: int|
            0 <= k < item.addr.len() && k <= other.addr.len() && #[trigger] item.addr.take(k)
                == other.addr.take(k) ==> k < other.addr.len() && item.addr[k] as u32 <= other.addr[k] as u32
    } by {
        let other = q[j];
        assert(!runs_before(q[j], q[i]));
        if other.subtree_size == item.subtree_size && other.priority == item.priority {
            assert forall|k: int|
                0 <= k < item.addr.len() && k <= other.addr.len() && #[trigger] item.addr.take(k)
                    == other.addr.take(k) implies k < other.addr.len() && item.addr[k] as u32
                <= other.addr[k] as u32 by {
                assert forall|m: int| 0 <= m < k implies #[trigger] other.addr[m] == item.addr[m] by {
                    assert(item.addr.take(k)[m] == other.addr.take(k)[m]);
                }
                if k == other.addr.len() || item.addr[k] as u32 > other.addr[k] as u32 {
                    assert(part_at(other.addr, item.addr, k));
                    assert(dictionary_before(other.addr, item.addr));
                }
            }
        }
    }
    assert forall|j: int| 0 <= j < q.remove(i).len() implies q.contains(#[trigger] q.remove(i)[j]) by {
        if j < i {
            assert(q[j] == q.remove(i)[j]);
        } else {
            assert(q[j + 1] == q.remove(i)[j]);
        }
    }
}

/// Nodes that are ready to run, in the order in which they were queued.
pub struct ReadyQueue {
    items: Vec<QueueItem>,
}

impl View for ReadyQueue {
    type V = Seq<ItemView>;

    closed spec fn view(&self) -> Seq<ItemView> {
        Seq::new(self.items@.len(), |i: int| self.items@[i]@)
    }
}

impl ReadyQueue {
    /// An empty queue.
    pub fn new() -> (q: Self)
        ensures
            q@ == Seq::<ItemView>::empty(),
    {
        let q = ReadyQueue { items: Vec::new() };
        assert(q@ =~= Seq::<ItemView>::empty());
        q
    }

    /// How many nodes are queued.
    pub fn len(&self) -> (n: usize)
        ensures
            n == self@.len(),
    {
        self.items.len()
    }

    /// Queues a node.
    pub fn push(&mut self, item: QueueItem)
        ensures
            final(self)@ == old(self)@.push(item@),
    {
        let ghost q = self@;
        self.items.push(item);
        assert(self@ =~= q.push(item@));
    }

    /// The place of the node that runs next.
    pub fn top(&self) -> (r: Option<usize>)
        ensures
            match r {
                None => self@.len() == 0,
                Some(i) => is_top(self@, i as int),
            },
    {
        if self.items.len() == 0 {
            return None;
        }
        let mut best: usize = 0;
        let mut i: usize = 1;
        proof {
            law_queue_order_is_total(self@[0], self@[0]);
        }
        while i < self.items.len()
            invariant
                1 <= i <= self.items@.len(),
                best < i,
                forall|j: int| 0 <= j < i ==> !#[trigger] runs_before(self@[j], self@[best as int]),
                forall|j: int| 0 <= j < best ==> #[trigger] runs_before(self@[best as int], self@[j]),
            decreases self.items@.len() - i,
        {
            if self.items[i].before(&self.items[best]) {
                proof {
                    let b = self@[best as int];
                    let c = self@[i as int];
                    assert(runs_before(c, b));
                    assert forall|j: int| 0 <= j < i implies #[trigger] runs_before(c, self@[j]) by {
                        assert(!runs_before(self@[j], b));
                        law_queue_order_is_total(self@[j], b);
                        if runs_before(b, self@[j]) {
                            law_queue_order_is_transitive(c, b, self@[j]);
                        }
                    }
                    assert forall|j: int| 0 <= j < i + 1 implies !#[trigger] runs_before(self@[j], c) by {
                        law_queue_order_is_total(self@[j], c);
                        if j < i {
                            assert(runs_before(c, self@[j]));
                        }
                    }
                }
                best = i;
            }
            i += 1;
        }
        Some(best)
    }

    /// The node that runs next.
    pub fn peek(&self) -> (r: Option<&QueueItem>)
        ensures
            match r {
                None => self@.len() == 0,
                Some(item) => goes_first(item@, self@) && exists|i: int| #[trigger]
                    is_top(self@, i) && item@ == self@[i],
            },
    {
        match self.top() {
            None => None,
            Some(i) => {
                assert(is_top(self@, i as int));
                proof {
                    law_most_dependents_go_first(self@, i as int);
                }
                Some(&self.items[i])
            },
        }
    }

    /// Takes the node that runs next out of the queue.
    pub fn pop(&mut self) -> (r: Option<QueueItem>)
        ensures
            match r {
                None => old(self)@.len() == 0 && final(self)@ == old(self)@,
                Some(item) => goes_first(item@, final(self)@) && exists|i: int| #[trigger]
                    is_top(old(self)@, i) && item@ == old(self)@[i] && final(self)@ == old(self)@.remove(i),
            },
    {
        let ghost q = self@;
        match self.top() {
            None => None,
            Some(i) => {
                let item = self.items.remove(i);
                assert(is_top(q, i as int));
                assert(self@ =~= q.remove(i as int));
                proof {
                    law_most_dependents_go_first(q, i as int);
                }
                Some(item)
            },
        }
    }
}

/// There is one top.
pub proof fn law_top_is_unique(q: Seq<ItemView>, i: int, j: int)
    requires
        is_top(q, i),
        is_top(q, j),
    ensures
        i == j,
{
    if i < j {
        assert(runs_before(q[j], q[i]));
    } else if j < i {
        assert(runs_before(q[i], q[j]));
    }
}

/// Nodes leave the queue in order: what is taken next does not run before what was taken.
pub proof fn law_queue_pops_in_order(q: Seq<ItemView>, i: int, j: int)
    requires
        is_top(q, i),
        is_top(q.remove(i), j),
    ensures
        !runs_before(q.remove(i)[j], q[i]),
{
    let r = q.remove(i);
    if j < i {
        assert(r[j] == q[j]);
        assert(!runs_before(q[j], q[i]));
    } else {
        assert(r[j] == q[j + 1]);
        assert(!runs_before(q[j + 1], q[i]));
    }
}

/// The queue and the number of nodes that run.
pub struct Slots {
    pub queue: ReadyQueue,
    pub running: usize,
}

impl Slots {
    /// Whether no more nodes run than may.
    pub open spec fn wf(&self) -> bool {
        self.running <= MAX_WORKERS
    }

    /// Nothing queued, nothing running.
    pub fn new() -> (s: Self)
        ensures
            s.wf(),
            s.queue@ == Seq::<ItemView>::empty(),
            s.running == 0,
    {
        Slots { queue: ReadyQueue::new(), running: 0 }
    }

    /// Gives a slot to the node at an address if one is free and the node is next in the queue.
    pub fn try_start(&mut self, addr: &str) -> (started: bool)
        requires
            old(self).wf(),
        ensures
            final(self).wf(),
            started == (old(self).running < MAX_WORKERS && exists|i: int| #[trigger]
                is_top(old(self).queue@, i) && old(self).queue@[i].addr == addr@),
            started ==> final(self).running == old(self).running + 1 && exists|i: int| #[trigger]
                is_top(old(self).queue@, i) && final(self).queue@ == old(self).queue@.remove(i),
            !started ==> final(self).running == old(self).running && final(self).queue@ == old(self).queue@,
            started ==> old(self).running < 4 && exists|i: int|
                0 <= i < old(self).queue@.len() && (#[trigger] old(self).queue@[i]).addr == addr@ && goes_first(
                    old(self).queue@[i],
                    old(self).queue@,
                ) && final(self).queue@ == old(self).queue@.remove(i),
            !started && old(self).running < 4 ==> forall|i: int| #[trigger]
                is_top(old(self).queue@, i) ==> old(self).queue@[i].addr != addr@,
    {
        if self.running >= MAX_WORKERS {
            return false;
        }
        let ghost q = self.queue@;
        match self.queue.top() {
            None => false,
            Some(i) => {
                proof {
                    assert(is_top(q, i as int));
                    assert forall|j: int| #[trigger] is_top(q, j) implies j == i by {
                        law_top_is_unique(q, i as int, j);
                    }
                }
                let next = text::chars_of(&self.queue.items[i].addr);
                if text::equals(&next, addr) {
                    let _ = self.queue.items.remove(i);
                    self.running = self.running + 1;
                    assert(self.queue@ =~= q.remove(i as int));
                    proof {
                        law_most_dependents_go_first(q, i as int);
                        assert(q[i as int].addr == addr@);
                    }
                    true
                } else {
                    false
                }
            },
        }
    }

    /// Frees the slot of a node that no longer runs.
    pub fn release(&mut self)
        requires
            old(self).wf(),
            old(self).running > 0,
        ensures
            final(self).wf(),
            final(self).running == old(self).running - 1,
            final(self).queue@ == old(self).queue@,
    {
        self.running = self.running - 1;
    }
}

/// Whatever is started and released, no more than four nodes run at a time.
pub proof fn law_at_most_four_run(s: Slots)
    requires
        s.wf(),
    ensures
        s.running <= 4,
{
}

/// Pushing a node keeps all the others, and the node that is taken out leaves all the others: no
/// node is lost or doubled.
pub proof fn law_no_node_is_lost(q: Seq<ItemView>, item: ItemView, i: int)
    requires
        is_top(q, i),
    ensures
        q.push(item).to_multiset() == q.to_multiset().insert(item),
        q.remove(i).to_multiset() == q.to_multiset().remove(q[i]),
{
    q.to_multiset_ensures();
    assert(q.push(item).to_multiset() =~= q.to_multiset().insert(item));
    assert(q.remove(i).to_multiset() =~= q.to_multiset().remove(q[i]));
}

} // verus!
