//! What a scheduler does with a request, and whom it tells of a state.

use vstd::prelude::*;

use crate::frame::Frame32;
use crate::message;
use crate::message::{
    build_err, build_ok, build_redirect, build_state, decode_submit, OP_ERR, OP_KILL, OP_OK, OP_PING, OP_QUIT,
    OP_REDIRECT, OP_STATE, OP_SUB, OP_SUBMIT, OP_UNSUB,
};
use crate::node_state;
use crate::node_state::NodeState;
use crate::spill;
use crate::spill::spill_is_full;
use crate::table::KillOutcome;

verus! {

/// What a request asks for.
pub enum Request {
    /// The request is refused with this error code.
    Refuse(u32),
    /// The spill has no room for another node.
    Spill,
    /// A node that depends on these ids; its command is staged under the token.
    Submit(Vec<u64>, u32),
    /// The end of a node.
    Kill(u64),
    /// News of one node, or with zero of all, for this port, or with zero for the sender.
    Subscribe(u32, u16),
    /// No more news for this port, or with zero for the sender.
    Unsubscribe(u16),
    /// The end of the scheduler.
    Quit,
    /// A sign of life.
    Ping,
    /// Nothing that is known.
    Ignore,
}

/// The numbers in a list that are not zero.
pub open spec fn nonzero(ids: Seq<u64>) -> Seq<u64>
    decreases ids.len(),
{
    if ids.len() == 0 {
        ids
    } else if ids.last() > 0 {
        nonzero(ids.drop_last()).push(ids.last())
    } else {
        nonzero(ids.drop_last())
    }
}

/// The dependencies that a submission lists.
pub open spec fn listed(f: Frame32) -> Seq<u64> {
    Seq::new(f.field(1) as nat, |i: int| f.field(i + 2) as u64)
}

/// The operation of a frame.
pub open spec fn op_of(f: Frame32) -> u32 {
    (f.field(0) >> 23) & 0xFF
}

/// Whether a request is what a frame asks for, of a spill with so many nodes.
pub open spec fn asks(f: Frame32, node_count: nat, r: Request) -> bool {
    let op = op_of(f);
    if op == OP_SUBMIT {
        if !message::is_submit(f) {
            r == Request::Refuse(1)
        } else if spill::full(node_count) {
            r == Request::Spill
        } else {
            r matches Request::Submit(deps, token) && deps@ == nonzero(listed(f)) && token == f.field(31)
        }
    } else if op == OP_KILL {
        if f.field(1) == 0 {
            r == Request::Refuse(4)
        } else {
            r == Request::Kill(f.field(1) as u64)
        }
    } else if op == OP_SUB {
        r == Request::Subscribe(f.field(1), f.field(2) as u16)
    } else if op == OP_UNSUB {
        r == Request::Unsubscribe(f.field(1) as u16)
    } else if op == OP_QUIT {
        r == Request::Quit
    } else if op == OP_PING {
        r == Request::Ping
    } else {
        r == Request::Ignore
    }
}

fn keep_nonzero(ids: &Vec<u64>) -> (r: Vec<u64>)
    ensures
        r@ == nonzero(ids@),
{
    let mut r: Vec<u64> = Vec::new();
    let mut i: usize = 0;
    assert(ids@.take(0) =~= Seq::<u64>::empty());
    while i < ids.len()
        invariant
            i <= ids@.len(),
            r@ == nonzero(ids@.take(i as int)),
        decreases ids@.len() - i,
    {
        assert(ids@.take(i + 1).drop_last() =~= ids@.take(i as int));
        if ids[i] > 0 {
            r.push(ids[i]);
        }
        i += 1;
    }
    assert(ids@.take(i as int) =~= ids@);
    r
}

/// Reads a request. A submission is refused with code 1 if it is malformed; it asks for another
/// spill if this one is full. A kill without a node is refused with code 4.
pub fn handle_request(frame: &Frame32, node_count: u64) -> (r: Request)
    requires
        node_count < u64::MAX,
    ensures
        asks(*frame, node_count as nat, r),
{
    let op: u32 = frame.op();
    if op == OP_SUBMIT {
        match decode_submit(frame) {
            None => Request::Refuse(1),
            Some((deps, token)) => {
                if spill_is_full(node_count) {
                    return Request::Spill;
                }
                assert(deps@ =~= listed(*frame));
                Request::Submit(keep_nonzero(&deps), token)
            },
        }
    } else if op == OP_KILL {
        let id: u64 = frame.get(1) as u64;
        if id == 0 {
            Request::Refuse(4)
        } else {
            Request::Kill(id)
        }
    } else if op == OP_SUB {
        Request::Subscribe(frame.get(1), frame.get(2) as u16)
    } else if op == OP_UNSUB {
        Request::Unsubscribe(frame.get(1) as u16)
    } else if op == OP_QUIT {
        Request::Quit
    } else if op == OP_PING {
        Request::Ping
    } else {
        Request::Ignore
    }
}

/// Whether a request is answered without further work: all but a submission, a wish for another
/// spill, and a kill.
pub open spec fn answered_at_once(r: Request) -> bool {
    !(r is Submit || r is Spill || r is Kill)
}

/// The slots of the reply to such a request: a refusal is answered with its code, what is agreed to
/// with zero, and an unknown operation not at all.
pub open spec fn answer_to(r: Request) -> Option<Seq<u32>> {
    match r {
        Request::Refuse(code) => Some(
            message::frame_of(message::short_fields(OP_ERR, message::low31(code as int), 0, 0)),
        ),
        Request::Ignore => None,
        _ => Some(message::frame_of(message::short_fields(OP_OK, 0, 0, 0))),
    }
}

/// The reply to a request that needs no further work.
pub fn reply_at_once(r: &Request) -> (f: Option<Frame32>)
    requires
        answered_at_once(*r),
    ensures
        match f {
            Some(f) => answer_to(*r) == Some(f@),
            None => answer_to(*r) is None,
        },
{
    match r {
        Request::Refuse(code) => Some(build_err(*code)),
        Request::Ignore => None,
        _ => Some(build_ok(0)),
    }
}

/// The reply of a full spill: the port of the next one, or error 2 if there is none.
pub fn spill_reply(next_port: u16) -> (f: Frame32)
    ensures
        f@ == (if next_port == 0 {
            message::frame_of(message::short_fields(OP_ERR, 2, 0, 0))
        } else {
            message::frame_of(message::short_fields(OP_REDIRECT, next_port as u32, 0, 0))
        }),
{
    if next_port == 0 {
        build_err(2)
    } else {
        build_redirect(next_port)
    }
}

/// The reply to a submission: the id of the node, or error 3 if it could not be made.
pub fn submit_reply(id: Option<u64>) -> (f: Frame32)
    ensures
        f@ == (match id {
            Some(id) => message::frame_of(
                message::short_fields(OP_OK, message::low31((id as u32) as int), 0, 0),
            ),
            None => message::frame_of(message::short_fields(OP_ERR, 3, 0, 0)),
        }),
{
    match id {
        Some(id) => build_ok(id as u32),
        None => build_err(3),
    }
}

/// The reply to a kill: agreed, or error 5 if there was nothing to kill.
pub fn kill_reply(outcome: &KillOutcome) -> (f: Frame32)
    ensures
        f@ == (if *outcome is Killed {
            message::frame_of(message::short_fields(OP_OK, 0, 0, 0))
        } else {
            message::frame_of(message::short_fields(OP_ERR, 5, 0, 0))
        }),
{
    match outcome {
        KillOutcome::Killed(_) => build_ok(0),
        _ => build_err(5),
    }
}

/// The news of a node's state.
pub fn state_news(id: u64, state: &NodeState) -> (f: Frame32)
    ensures
        f@ == message::frame_of(
            message::short_fields(
                OP_STATE,
                message::low31(id as int),
                node_state::code_of(state@),
                node_state::payload_of(state@) as u32,
            ),
        ),
{
    build_state(id, state.code(), state.payload())
}

/// Whether a subscription asks for news of a node: zero asks for all nodes.
pub open spec fn wanted(filter: u32, id: u64) -> bool {
    filter == 0 || filter == id
}

/// Who has asked for news, under one number per receiver, and of which node.
pub struct Subscribers {
    entries: Vec<(u64, u32)>,
}

impl Subscribers {
    pub closed spec fn entries(&self) -> Seq<(u64, u32)> {
        self.entries@
    }

    /// Whether no receiver is listed twice.
    pub open spec fn wf(&self) -> bool {
        forall|i: int, j: int|
            0 <= i < j < self.entries().len() ==> (#[trigger] self.entries()[i]).0 != (
            #[trigger] self.entries()[j]).0
    }

    /// Whether a receiver has asked for news under a filter.
    pub open spec fn subscribed(&self, who: u64, filter: u32) -> bool {
        self.entries().contains((who, filter))
    }

    /// Nobody.
    pub fn new() -> (s: Self)
        ensures
            s.wf(),
            forall|who: u64, filter: u32| !#[trigger] s.subscribed(who, filter),
    {
        Subscribers { entries: Vec::new() }
    }

    fn find(&self, who: u64) -> (r: Option<usize>)
        requires
            self.wf(),
        ensures
            match r {
                Some(i) => i < self.entries@.len() && self.entries@[i as int].0 == who,
                None => forall|i: int|
                    0 <= i < self.entries@.len() ==> (#[trigger] self.entries@[i]).0 != who,
            },
    {
        let mut i: usize = 0;
        while i < self.entries.len()
            invariant
                i <= self.entries@.len(),
                forall|k: int| 0 <= k < i ==> (#[trigger] self.entries@[k]).0 != who,
            decreases self.entries@.len() - i,
        {
            if self.entries[i].0 == who {
                return Some(i);
            }
            i += 1;
        }
        None
    }

    /// Notes what a receiver asks for, in place of what it asked for before.
    pub fn subscribe(&mut self, who: u64, filter: u32)
        requires
            old(self).wf(),
        ensures
            final(self).wf(),
            forall|w: u64, f: u32| #[trigger]
                final(self).subscribed(w, f) == (if w == who {
                    f == filter
                } else {
                    old(self).subscribed(w, f)
                }),
    {
        let ghost before = self.entries@;
        match self.find(who) {
            Some(i) => {
                self.entries[i] = (who, filter);
                proof {
                    assert forall|a: int, b: int| 0 <= a < b < self.entries@.len() implies (
                    #[trigger] self.entries()[a]).0 != (#[trigger] self.entries()[b]).0 by {
                        assert(old(self).entries()[a].0 != old(self).entries()[b].0);
                    }
                    assert forall|w: u64, f: u32| #[trigger] self.subscribed(w, f) == (if w == who {
                        f == filter
                    } else {
                        old(self).subscribed(w, f)
                    }) by {
                        if self.entries@.contains((w, f)) {
                            let k = choose|k: int| 0 <= k < self.entries@.len() && self.entries@[k] == (w, f);
                            if k != i {
                                assert(old(self).entries()[k] == (w, f));
                                assert(old(self).entries()[i as int].0 == who);
                            }
                        }
                        if w == who && f == filter {
                            assert(self.entries@[i as int] == (w, f));
                        } else if w != who && before.contains((w, f)) {
                            let k = choose|k: int| 0 <= k < before.len() && before[k] == (w, f);
                            assert(self.entries@[k] == (w, f));
                        }
                    }
                }
            },
            None => {
                self.entries.push((who, filter));
                proof {
                    assert forall|a: int, b: int| 0 <= a < b < self.entries@.len() implies (
                    #[trigger] self.entries()[a]).0 != (#[trigger] self.entries()[b]).0 by {
                        if b < before.len() {
                            assert(old(self).entries()[a].0 != old(self).entries()[b].0);
                        } else {
                            assert(before[a].0 != who);
                        }
                    }
                    assert forall|w: u64, f: u32| #[trigger] self.subscribed(w, f) == (if w == who {
                        f == filter
                    } else {
                        old(self).subscribed(w, f)
                    }) by {
                        if self.entries@.contains((w, f)) {
                            let k = choose|k: int| 0 <= k < self.entries@.len() && self.entries@[k] == (w, f);
                            if k < before.len() {
                                assert(before[k] == (w, f));
                                assert(before[k].0 != who);
                            }
                        }
                        if w == who && f == filter {
                            assert(self.entries@[before.len() as int] == (w, f));
                        } else if w != who && before.contains((w, f)) {
                            let k = choose|k: int| 0 <= k < before.len() && before[k] == (w, f);
                            assert(self.entries@[k] == (w, f));
                        }
                    }
                }
            },
        }
    }

    /// Forgets a receiver.
    pub fn unsubscribe(&mut self, who: u64)
        requires
            old(self).wf(),
        ensures
            final(self).wf(),
            forall|w: u64, f: u32| #[trigger]
                final(self).subscribed(w, f) == (w != who && old(self).subscribed(w, f)),
    {
        let ghost before = self.entries@;
        match self.find(who) {
            Some(i) => {
                let _ = self.entries.remove(i);
                proof {
                    let after = self.entries@;
                    assert(after == before.remove(i as int));
                    assert forall|a: int, b: int| 0 <= a < b < after.len() implies (
                    #[trigger] self.entries()[a]).0 != (#[trigger] self.entries()[b]).0 by {
                        let x = if a < i {
                            a
                        } else {
                            a + 1
                        };
                        let y = if b < i {
                            b
                        } else {
                            b + 1
                        };
                        assert(old(self).entries()[x].0 != old(self).entries()[y].0);
                    }
                    assert forall|w: u64, f: u32| #[trigger] self.subscribed(w, f) == (w != who && old(
                        self,
                    ).subscribed(w, f)) by {
                        if after.contains((w, f)) {
                            let k = choose|k: int| 0 <= k < after.len() && after[k] == (w, f);
                            let x = if k < i {
                                k
                            } else {
                                k + 1
                            };
                            assert(before[x] == (w, f));
                            if x < i {
                                assert(old(self).entries()[x].0 != old(self).entries()[i as int].0);
                            } else {
                                assert(old(self).entries()[i as int].0 != old(self).entries()[x].0);
                            }
                        }
                        if w != who && before.contains((w, f)) {
                            let x = choose|x: int| 0 <= x < before.len() && before[x] == (w, f);
                            let k = if x < i {
                                x
                            } else {
                                x - 1
                            };
                            assert(after[k] == (w, f));
                        }
                    }
                }
            },
            None => {
                proof {
                    assert forall|w: u64, f: u32| #[trigger] self.subscribed(w, f) == (w != who && old(
                        self,
                    ).subscribed(w, f)) by {
                        if before.contains((w, f)) {
                            let k = choose|k: int| 0 <= k < before.len() && before[k] == (w, f);
                            assert(before[k].0 != who);
                        }
                    }
                }
            },
        }
    }

    /// Those who have asked for news of a node.
    pub fn recipients(&self, id: u64) -> (r: Vec<u64>)
        requires
            self.wf(),
        ensures
            forall|w: u64| #[trigger]
                r@.contains(w) == exists|f: u32| #[trigger] self.subscribed(w, f) && wanted(f, id),
            r@.no_duplicates(),
    {
        let mut r: Vec<u64> = Vec::new();
        let mut i: usize = 0;
        let ghost e = self.entries();
        let ghost mut from = Seq::<int>::empty();
        while i < self.entries.len()
            invariant
                i <= self.entries@.len(),
                self.wf(),
                e == self.entries@,
                e == self.entries(),
                from.len() == r@.len(),
                forall|k: int|
                    0 <= k < r@.len() ==> 0 <= #[trigger] from[k] < i && e[from[k]].0 == r@[k] && wanted(
                        e[from[k]].1,
                        id,
                    ),
                forall|a: int, b: int| 0 <= a < b < r@.len() ==> #[trigger] from[a] < #[trigger] from[b],
                forall|m: int|
                    0 <= m < i && wanted((#[trigger] e[m]).1, id) ==> exists|k: int|
                        0 <= k < r@.len() && #[trigger] from[k] == m,
            decreases self.entries@.len() - i,
        {
            let (who, filter) = self.entries[i];
            if filter == 0 || filter as u64 == id {
                let ghost before = from;
                r.push(who);
                proof {
                    from = from.push(i as int);
                    assert forall|m: int| 0 <= m < i + 1 && wanted((#[trigger] e[m]).1, id) implies exists|
                        k: int,
                    |
                        0 <= k < r@.len() && #[trigger] from[k] == m by {
                        if m < i {
                            let k = choose|k: int| 0 <= k < before.len() && #[trigger] before[k] == m;
                            assert(from[k] == m);
                        } else {
                            assert(from[before.len() as int] == m);
                        }
                    }
                }
            }
            i += 1;
        }
        proof {
            assert forall|w: u64| #[trigger] r@.contains(w) == exists|f: u32| #[trigger]
                self.subscribed(w, f) && wanted(f, id) by {
                if r@.contains(w) {
                    let k = choose|k: int| 0 <= k < r@.len() && r@[k] == w;
                    assert(e[from[k]] == (w, e[from[k]].1));
                    assert(self.subscribed(w, e[from[k]].1));
                }
                if exists|f: u32| #[trigger] self.subscribed(w, f) && wanted(f, id) {
                    let f = choose|f: u32| #[trigger] self.subscribed(w, f) && wanted(f, id);
                    let m = choose|m: int| 0 <= m < e.len() && e[m] == (w, f);
                    assert(wanted(e[m].1, id));
                    let k = choose|k: int| 0 <= k < r@.len() && #[trigger] from[k] == m;
                    assert(r@[k] == w);
                }
            }
            assert forall|a: int, b: int| 0 <= a < r@.len() && 0 <= b < r@.len() && a != b implies r@[a]
                != r@[b] by {
                if a < b {
                    assert(from[a] < from[b]);
                    assert(e[from[a]].0 != e[from[b]].0);
                } else {
                    assert(from[b] < from[a]);
                    assert(e[from[b]].0 != e[from[a]].0);
                }
            }
        }
        r
    }
}

// ---------------------------------------------------------------------------------------------
// Requests are understood as they were built
// ---------------------------------------------------------------------------------------------

proof fn short_request_reads_back(f: Frame32, op: u32, a: u32, b: u32)
    requires
        op <= 0xFF,
        a < 0x8000_0000,
        b < 0x8000_0000,
        f@ == message::frame_of(message::short_fields(op, a, b, 0)),
    ensures
        op_of(f) == op,
        f.field(1) == a,
        f.field(2) == b,
{
    message::law_short_message_reads_back(op, a, b, 0);
}

/// A request to kill a node is understood as one, for the id that fits in a frame.
pub proof fn law_kill_is_understood(f: Frame32, id: u64, node_count: nat, r: Request)
    requires
        0 < id < 0x8000_0000,
        f@ == message::frame_of(message::short_fields(OP_KILL, message::low31(id as int), 0, 0)),
        asks(f, node_count, r),
    ensures
        r == Request::Kill(id),
{
    short_request_reads_back(f, OP_KILL, id as u32, 0);
}

/// Every frame that is not to be worked on is answered as its operation asks: a malformed
/// submission is refused with code 1 and a kill without a node with code 4, subscriptions, their
/// end, shutdown and a sign of life are agreed to, and anything else gets no answer.
pub proof fn law_frames_are_answered(f: Frame32, node_count: nat, r: Request)
    requires
        asks(f, node_count, r),
    ensures
        ({
            let op = op_of(f);
            let agreed = Some(message::frame_of(message::short_fields(OP_OK, 0, 0, 0)));
            &&& op == OP_SUBMIT && f.field(1) > 30 ==> answered_at_once(r) && answer_to(r) == Some(
                message::frame_of(message::short_fields(OP_ERR, 1, 0, 0)),
            )
            &&& op == OP_KILL && f.field(1) == 0 ==> answered_at_once(r) && answer_to(r) == Some(
                message::frame_of(message::short_fields(OP_ERR, 4, 0, 0)),
            )
            &&& op == OP_SUB || op == OP_UNSUB || op == OP_QUIT || op == OP_PING ==> answered_at_once(r)
                && answer_to(r) == agreed
            &&& op != OP_SUBMIT && op != OP_KILL && op != OP_SUB && op != OP_UNSUB && op != OP_QUIT && op
                != OP_PING ==> answered_at_once(r) && answer_to(r) is None
        }),
{
}

/// Subscriptions, and their end, are understood as such.
pub proof fn law_subscriptions_are_understood(
    f: Frame32,
    g: Frame32,
    filter: u64,
    port: u16,
    node_count: nat,
    r: Request,
    s: Request,
)
    requires
        filter < 0x8000_0000,
        f@ == message::frame_of(message::short_fields(OP_SUB, message::low31(filter as int), port as u32, 0)),
        g@ == message::frame_of(message::short_fields(OP_UNSUB, port as u32, 0, 0)),
        asks(f, node_count, r),
        asks(g, node_count, s),
    ensures
        r == Request::Subscribe(filter as u32, port),
        s == Request::Unsubscribe(port),
{
    short_request_reads_back(f, OP_SUB, filter as u32, port as u32);
    short_request_reads_back(g, OP_UNSUB, port as u32, 0);
}

/// A submission is understood as one while the spill has room, and as a wish for another spill
/// when it has none.
pub proof fn law_submission_is_understood(
    f: Frame32,
    deps: Seq<u64>,
    client_token: u32,
    msg_seq: u32,
    node_count: nat,
    r: Request,
)
    requires
        deps.len() <= 29,
        forall|i: int| 0 <= i < deps.len() ==> 0 < #[trigger] deps[i] < 0x8000_0000,
        f@ == message::frame_of(message::submit_fields(deps, client_token, msg_seq)),
        asks(f, node_count, r),
    ensures
        spill::full(node_count) ==> r == Request::Spill,
        !spill::full(node_count) ==> (r matches Request::Submit(d, t) && d@ == deps && t == message::low31(
            client_token as int,
        )),
{
    message::law_submit_reads_back(f, deps, client_token, msg_seq);
    assert(listed(f) =~= deps) by {
        assert forall|i: int| 0 <= i < deps.len() implies #[trigger] listed(f)[i] == deps[i] by {
            assert(f.field(i + 2) == message::low31(deps[i] as int));
        }
    }
    nothing_to_drop(deps);
}

proof fn nothing_to_drop(ids: Seq<u64>)
    requires
        forall|i: int| 0 <= i < ids.len() ==> 0 < #[trigger] ids[i],
    ensures
        nonzero(ids) == ids,
    decreases ids.len(),
{
    if ids.len() > 0 {
        let rest = ids.drop_last();
        assert forall|i: int| 0 <= i < rest.len() implies 0 < #[trigger] rest[i] by {
            assert(rest[i] == ids[i]);
        }
        nothing_to_drop(rest);
        assert(rest.push(ids.last()) =~= ids);
    }
}

/// Zeroes are left out of a list of ids, and nothing else is: what was listed stays, as often and
/// in the same order.
pub proof fn law_only_zeroes_are_dropped(a: Seq<u64>, id: u64, b: Seq<u64>)
    ensures
        nonzero(a + b) == nonzero(a) + nonzero(b),
        nonzero(seq![id]) == (if id == 0 {
            Seq::empty()
        } else {
            seq![id]
        }),
        !nonzero(a).contains(0),
    decreases b.len() + a.len(),
{
    assert(seq![id].drop_last() =~= Seq::<u64>::empty());
    assert(seq![id].last() == id);
    assert(nonzero(Seq::<u64>::empty()) =~= Seq::<u64>::empty());
    assert(nonzero(seq![id]) =~= (if id == 0 {
        Seq::empty()
    } else {
        seq![id]
    }));
    if b.len() > 0 {
        law_only_zeroes_are_dropped(a, id, b.drop_last());
        assert((a + b).drop_last() =~= a + b.drop_last());
        assert((a + b).last() == b.last());
        assert((nonzero(a) + nonzero(b.drop_last())).push(b.last()) =~= nonzero(a) + nonzero(b.drop_last()).push(
            b.last(),
        ));
    } else {
        assert(a + b =~= a);
        assert(nonzero(a) + nonzero(b) =~= nonzero(a));
        if a.len() > 0 {
            law_only_zeroes_are_dropped(a.drop_last(), id, b);
            let rest = nonzero(a.drop_last());
            assert forall|i: int| 0 <= i < nonzero(a).len() implies nonzero(a)[i] != 0 by {
                if i < rest.len() {
                    assert(rest.contains(rest[i]));
                }
            }
        }
    }
}

/// What a frame asks for, by the number of its operation and by its slots.
pub proof fn law_operation_numbers(f: Frame32, node_count: nat, r: Request)
    requires
        asks(f, node_count, r),
    ensures
        op_of(f) == 2 ==> r == Request::Subscribe(f.field(1), f.field(2) as u16),
        op_of(f) == 3 ==> r == Request::Unsubscribe(f.field(1) as u16),
        op_of(f) == 7 ==> r == Request::Quit,
        op_of(f) == 8 ==> r == Request::Ping,
        op_of(f) == 9 && f.field(1) > 0 ==> r == Request::Kill(f.field(1) as u64),
        op_of(f) == 9 && f.field(1) == 0 ==> r == Request::Refuse(4),
        op_of(f) == 1 && f.field(1) > 30 ==> r == Request::Refuse(1),
        op_of(f) == 1 && f.field(1) <= 30 && node_count >= 64 ==> r is Spill,
        op_of(f) == 1 && f.field(1) <= 30 && node_count < 64 ==> (r matches Request::Submit(deps, token) && token
            == f.field(31) && deps@ == nonzero(Seq::new(f.field(1) as nat, |i: int| f.field(i + 2) as u64))),
        op_of(f) == 4 || op_of(f) == 5 || op_of(f) == 6 || op_of(f) == 10 || op_of(f) == 0 || op_of(f) > 10
            ==> r is Ignore,
{
    spill::law_spill_takes_64_nodes(node_count);
}

/// News of a node go to those who asked for it and to those who asked for every node, and to no
/// one else.
pub proof fn law_news_go_where_wanted(filter: u32, id: u64)
    ensures
        wanted(0, id),
        filter != 0 ==> (wanted(filter, id) <==> filter as u64 == id),
{
}

} // verus!
