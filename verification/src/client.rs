//! What a client decides while it submits a node or waits for nodes.

use vstd::prelude::*;

use crate::detect;
use crate::frame;
use crate::frame::Frame32;
use crate::ids;
use crate::ids::{bit_addr_to_id, id_to_bit_addr};
use crate::message;
use crate::message::{decode_state, OP_ERR, OP_OK, OP_REDIRECT, OP_STATE};
use crate::node_state;
use crate::node_state::{NodeState, StateView};
use crate::requests;
use crate::text;

verus! {

broadcast use vstd::string::group_string_axioms;

/// How often a submission is tried.
pub const SUBMIT_TRIES: u32 = 3;

/// The reason for refusing an address.
pub open spec fn bad_address(addr: Seq<char>) -> Seq<char> {
    "bad dep addr: "@ + addr
}

/// Whether the first address that is none stands at place `i`.
pub open spec fn first_bad(addrs: Seq<String>, i: int) -> bool {
    &&& 0 <= i < addrs.len()
    &&& ids::id_of_addr(addrs[i]@) is None
    &&& forall|k: int| 0 <= k < i ==> ids::id_of_addr((#[trigger] addrs[k])@) is Some
}

/// The ids of the addresses that a node depends on, or what is wrong with the first that is no
/// address.
pub fn dep_ids(addrs: &Vec<String>) -> (r: Result<Vec<u64>, String>)
    ensures
        match r {
            Ok(v) => {
                &&& v@.len() == addrs@.len()
                &&& forall|i: int|
                    0 <= i < v@.len() ==> ids::id_of_addr(addrs@[i]@) == Some(#[trigger] v@[i] as nat)
            },
            Err(e) => exists|i: int| #[trigger] first_bad(addrs@, i) && e@ == bad_address(addrs@[i]@),
        },
{
    let mut v: Vec<u64> = Vec::new();
    let mut i: usize = 0;
    while i < addrs.len()
        invariant
            i <= addrs@.len(),
            v@.len() == i,
            forall|k: int| 0 <= k < i ==> ids::id_of_addr(addrs@[k]@) == Some(#[trigger] v@[k] as nat),
        decreases addrs@.len() - i,
    {
        match bit_addr_to_id(addrs[i].as_str()) {
            Some(id) => {
                v.push(id);
            },
            None => {
                proof {
                    assert forall|k: int| 0 <= k < i implies ids::id_of_addr(
                        (#[trigger] addrs@[k])@,
                    ) is Some by {
                        assert(ids::id_of_addr(addrs@[k]@) == Some(v@[k] as nat));
                    }
                    assert(first_bad(addrs@, i as int));
                }
                let mut e: String = "bad dep addr: ".to_owned();
                e.append(addrs[i].as_str());
                return Err(e);
            },
        }
        i += 1;
    }
    Ok(v)
}

/// What a reply to a submission means.
pub enum SubmitStep {
    /// The node was made; its address.
    Accepted(String),
    /// The spill is full; the port of another.
    Follow(u16),
    /// It failed, for this reason.
    Failed(String),
}

/// Whether a step is what a reply means.
pub open spec fn means(reply: Frame32, s: SubmitStep) -> bool {
    let op = requests::op_of(reply);
    if op == OP_OK {
        s matches SubmitStep::Accepted(addr) && addr@ == text::digits(reply.field(1) as nat, 2)
    } else if op == OP_REDIRECT {
        s == SubmitStep::Follow(reply.field(1) as u16)
    } else if op == OP_ERR {
        s matches SubmitStep::Failed(e) && e@ == "wrapper ERR code "@ + text::digits(
            reply.field(1) as nat,
            10,
        )
    } else {
        s matches SubmitStep::Failed(e) && e@ == "unexpected reply op "@ + text::digits(op as nat, 10)
    }
}

/// Reads the reply to a submission.
pub fn read_reply(reply: &Frame32) -> (s: SubmitStep)
    ensures
        means(*reply, s),
{
    let op: u32 = reply.op();
    if op == OP_OK {
        SubmitStep::Accepted(id_to_bit_addr(reply.get(1) as u64))
    } else if op == OP_REDIRECT {
        SubmitStep::Follow(reply.get(1) as u16)
    } else if op == OP_ERR {
        let mut e: String = "wrapper ERR code ".to_owned();
        text::push_number(&mut e, reply.get(1) as u64, 10);
        SubmitStep::Failed(e)
    } else {
        let mut e: String = "unexpected reply op ".to_owned();
        text::push_number(&mut e, op as u64, 10);
        SubmitStep::Failed(e)
    }
}

/// Whether to try again after following a redirection, given how often it was tried; the reason to
/// stop otherwise. Two redirections are followed.
pub fn try_again(tries: u32) -> (r: Result<(), String>)
    ensures
        match r {
            Ok(_) => tries < SUBMIT_TRIES,
            Err(e) => tries >= SUBMIT_TRIES && e@ == "too many spillover redirects"@,
        },
{
    if tries < SUBMIT_TRIES {
        Ok(())
    } else {
        Err("too many spillover redirects".to_owned())
    }
}

/// Where a submission stands.
pub enum SubmitState {
    /// A request is to be sent, after so many that were.
    Sending(u32),
    /// After so many requests, the last reply named a port whose spill is looked for.
    Searching(u32, u16),
    /// The node was made; its address.
    Made(String),
    /// It was given up, for this reason.
    GivenUp(String),
}

/// What happens to a submission.
pub enum SubmitEvent {
    /// A request was sent, and this came in reply.
    Reply(Frame32),
    /// The spill that was looked for is there.
    Found,
    /// It is not.
    Missing,
}

/// Where a submission stands, as contracts speak of it.
pub enum SubmitView {
    Sending(nat),
    Searching(nat, u16),
    Made(Seq<char>),
    GivenUp(Seq<char>),
}

impl View for SubmitState {
    type V = SubmitView;

    open spec fn view(&self) -> SubmitView {
        match *self {
            SubmitState::Sending(n) => SubmitView::Sending(n as nat),
            SubmitState::Searching(n, port) => SubmitView::Searching(n as nat, port),
            SubmitState::Made(addr) => SubmitView::Made(addr@),
            SubmitState::GivenUp(e) => SubmitView::GivenUp(e@),
        }
    }
}

/// Whether no more requests were sent than may be.
pub open spec fn within_tries(s: SubmitView) -> bool {
    match s {
        SubmitView::Sending(n) => n < SUBMIT_TRIES,
        SubmitView::Searching(n, _) => n <= SUBMIT_TRIES,
        _ => true,
    }
}

/// What follows from an event. An event that does not belong to the state changes nothing.
pub open spec fn next_submit(s: SubmitView, event: SubmitEvent) -> SubmitView {
    match (s, event) {
        (SubmitView::Sending(n), SubmitEvent::Reply(reply)) => {
            let op = requests::op_of(reply);
            if op == OP_OK {
                SubmitView::Made(text::digits(reply.field(1) as nat, 2))
            } else if op == OP_REDIRECT {
                SubmitView::Searching(n + 1, reply.field(1) as u16)
            } else if op == OP_ERR {
                SubmitView::GivenUp("wrapper ERR code "@ + text::digits(reply.field(1) as nat, 10))
            } else {
                SubmitView::GivenUp("unexpected reply op "@ + text::digits(op as nat, 10))
            }
        },
        (SubmitView::Searching(n, _), SubmitEvent::Found) => if n < SUBMIT_TRIES {
            SubmitView::Sending(n)
        } else {
            SubmitView::GivenUp("too many spillover redirects"@)
        },
        (SubmitView::Searching(_, port), SubmitEvent::Missing) => SubmitView::GivenUp(
            missing_spill(port),
        ),
        _ => s,
    }
}

/// How a submission begins.
pub fn first_submit() -> (s: SubmitState)
    ensures
        s@ == SubmitView::Sending(0),
        within_tries(s@),
{
    SubmitState::Sending(0)
}

/// Follows an event of a submission.
pub fn submit_step(state: SubmitState, event: &SubmitEvent) -> (next: SubmitState)
    requires
        within_tries(state@),
    ensures
        next@ == next_submit(state@, *event),
        within_tries(next@),
{
    match state {
        SubmitState::Sending(n) => match event {
            SubmitEvent::Reply(reply) => match read_reply(reply) {
                SubmitStep::Accepted(addr) => SubmitState::Made(addr),
                SubmitStep::Follow(port) => SubmitState::Searching(n + 1, port),
                SubmitStep::Failed(e) => SubmitState::GivenUp(e),
            },
            _ => SubmitState::Sending(n),
        },
        SubmitState::Searching(n, port) => match event {
            SubmitEvent::Found => match try_again(n) {
                Ok(_) => SubmitState::Sending(n),
                Err(e) => SubmitState::GivenUp(e),
            },
            SubmitEvent::Missing => SubmitState::GivenUp(no_spill_reason(port)),
            SubmitEvent::Reply(_) => SubmitState::Searching(n, port),
        },
        SubmitState::Made(addr) => SubmitState::Made(addr),
        SubmitState::GivenUp(e) => SubmitState::GivenUp(e),
    }
}

/// Where a submission stands after events.
pub open spec fn after_events(events: Seq<SubmitEvent>) -> SubmitView
    decreases events.len(),
{
    if events.len() == 0 {
        SubmitView::Sending(0)
    } else {
        next_submit(after_events(events.drop_last()), events.last())
    }
}

/// How many requests are sent in the course of events: one for every reply that is taken while a
/// request is to be sent.
pub open spec fn requests_sent(events: Seq<SubmitEvent>) -> nat
    decreases events.len(),
{
    if events.len() == 0 {
        0
    } else {
        requests_sent(events.drop_last()) + (if after_events(events.drop_last()) is Sending
            && events.last() is Reply {
            1nat
        } else {
            0
        })
    }
}

/// Whatever happens, no submission sends more than three requests, and while it goes on its state
/// tells how many were sent.
pub proof fn law_at_most_three_requests(events: Seq<SubmitEvent>)
    ensures
        requests_sent(events) <= 3,
        within_tries(after_events(events)),
        after_events(events) matches SubmitView::Sending(n) ==> n == requests_sent(events),
        after_events(events) matches SubmitView::Searching(n, _) ==> n == requests_sent(events),
    decreases events.len(),
{
    if events.len() > 0 {
        law_at_most_three_requests(events.drop_last());
    }
}

/// A submission that is redirected a third time is given up, whatever ports were named.
pub proof fn law_third_redirect_is_too_many(a: Frame32, b: Frame32, c: Frame32)
    requires
        requests::op_of(a) == OP_REDIRECT,
        requests::op_of(b) == OP_REDIRECT,
        requests::op_of(c) == OP_REDIRECT,
    ensures
        ({
            let events = seq![
                SubmitEvent::Reply(a),
                SubmitEvent::Found,
                SubmitEvent::Reply(b),
                SubmitEvent::Found,
                SubmitEvent::Reply(c),
            ];
            &&& after_events(events.push(SubmitEvent::Found)) == SubmitView::GivenUp(
                "too many spillover redirects"@,
            )
            &&& after_events(events.push(SubmitEvent::Missing)) == SubmitView::GivenUp(
                missing_spill(c.field(1) as u16),
            )
        }),
{
    let none = Seq::<SubmitEvent>::empty();
    let e1 = none.push(SubmitEvent::Reply(a));
    let e2 = e1.push(SubmitEvent::Found);
    let e3 = e2.push(SubmitEvent::Reply(b));
    let e4 = e3.push(SubmitEvent::Found);
    let e5 = e4.push(SubmitEvent::Reply(c));
    assert(e1.drop_last() =~= none);
    assert(e2.drop_last() =~= e1);
    assert(e3.drop_last() =~= e2);
    assert(e4.drop_last() =~= e3);
    assert(e5.drop_last() =~= e4);
    assert(after_events(none) == SubmitView::Sending(0));
    assert(after_events(e1) == SubmitView::Searching(1, a.field(1) as u16));
    assert(after_events(e2) == SubmitView::Sending(1));
    assert(after_events(e3) == SubmitView::Searching(2, b.field(1) as u16));
    assert(after_events(e4) == SubmitView::Sending(2));
    assert(after_events(e5) == SubmitView::Searching(3, c.field(1) as u16));
    assert(e5.push(SubmitEvent::Found).drop_last() =~= e5);
    assert(e5.push(SubmitEvent::Missing).drop_last() =~= e5);
    assert(e5 =~= seq![
        SubmitEvent::Reply(a),
        SubmitEvent::Found,
        SubmitEvent::Reply(b),
        SubmitEvent::Found,
        SubmitEvent::Reply(c),
    ]);
}

/// The spill that has a port, among the ports that were read.
pub fn spill_with_port(ports: &Vec<Option<u16>>, port: u16) -> (r: Option<usize>)
    ensures
        match r {
            Some(i) => i < ports@.len() && ports@[i as int] == Some(port) && forall|k: int|
                0 <= k < i ==> #[trigger] ports@[k] != Some(port),
            None => forall|k: int| 0 <= k < ports@.len() ==> #[trigger] ports@[k] != Some(port),
        },
{
    let mut i: usize = 0;
    while i < ports.len()
        invariant
            i <= ports@.len(),
            forall|k: int| 0 <= k < i ==> #[trigger] ports@[k] != Some(port),
        decreases ports@.len() - i,
    {
        if let Some(p) = ports[i] {
            if p == port {
                return Some(i);
            }
        }
        i += 1;
    }
    None
}

/// The reason why a redirection could not be followed, in words.
pub open spec fn missing_spill(port: u16) -> Seq<char> {
    "redirected to port "@ + text::digits(port as nat, 10) + " but no matching spill workdir found"@
}

/// The reason why a redirection could not be followed.
pub fn no_spill_reason(port: u16) -> (e: String)
    ensures
        e@ == missing_spill(port),
{
    let mut e: String = "redirected to port ".to_owned();
    text::push_number(&mut e, port as u64, 10);
    e.append(" but no matching spill workdir found");
    e
}

/// The state of a node of which several spills may know: the first that is more than waiting.
pub fn probe_state(states: &Vec<NodeState>) -> (s: NodeState)
    ensures
        if forall|i: int| 0 <= i < states@.len() ==> (#[trigger] states@[i])@ == StateView::Waiting {
            s@ == StateView::Waiting
        } else {
            exists|i: int|
                0 <= i < states@.len() && s@ == (#[trigger] states@[i])@ && s@ != StateView::Waiting && (
                forall|k: int| 0 <= k < i ==> (#[trigger] states@[k])@ == StateView::Waiting)
        },
{
    let mut i: usize = 0;
    while i < states.len()
        invariant
            i <= states@.len(),
            forall|k: int| 0 <= k < i ==> (#[trigger] states@[k])@ == StateView::Waiting,
        decreases states@.len() - i,
    {
        if !states[i].same(&NodeState::Waiting) {
            return states[i].copy();
        }
        i += 1;
    }
    NodeState::Waiting
}

/// The node that a datagram brings news of, if it is a signed frame with news.
pub open spec fn news_of(b: Seq<u8>) -> Option<nat> {
    let s = frame::slots_of(b);
    if b.len() == 128 && frame::crc_ok(s) && (frame::field(s[0], 0) >> 23) & 0xFF == OP_STATE {
        Some(frame::field(s[1], 1) as nat)
    } else {
        None
    }
}

/// Nodes that are waited for.
pub struct WaitSet {
    targets: Vec<String>,
    done: Vec<bool>,
    failed_any: bool,
}

impl WaitSet {
    /// The addresses.
    pub closed spec fn targets(&self) -> Seq<Seq<char>> {
        Seq::new(self.targets@.len(), |i: int| self.targets@[i]@)
    }

    /// Which of them have finished.
    pub closed spec fn done(&self) -> Seq<bool> {
        self.done@
    }

    /// Whether one of them has finished without success.
    pub closed spec fn has_failed(&self) -> bool {
        self.failed_any
    }

    /// Whether every address has its mark.
    pub open spec fn wf(&self) -> bool {
        self.done().len() == self.targets().len()
    }

    /// Waits for addresses, none of which has finished so far.
    pub fn new(targets: Vec<String>) -> (w: Self)
        ensures
            w.wf(),
            w.targets() == Seq::new(targets@.len(), |i: int| targets@[i]@),
            forall|i: int| 0 <= i < w.done().len() ==> !#[trigger] w.done()[i],
            !w.has_failed(),
    {
        let n: usize = targets.len();
        let done: Vec<bool> = vec![false; n];
        WaitSet { targets, done, failed_any: false }
    }

    /// Whether an address is waited for.
    pub fn contains(&self, addr: &str) -> (r: bool)
        requires
            self.wf(),
        ensures
            r == self.targets().contains(addr@),
    {
        let mut i: usize = 0;
        while i < self.targets.len()
            invariant
                i <= self.targets@.len(),
                forall|k: int| 0 <= k < i ==> #[trigger] self.targets()[k] != addr@,
            decreases self.targets@.len() - i,
        {
            let v = text::chars_of(self.targets[i].as_str());
            assert(self.targets()[i as int] == self.targets@[i as int]@);
            if text::equals(&v, addr) {
                return true;
            }
            i += 1;
        }
        false
    }

    /// The address whose state a datagram gives reason to look up: that of the node it brings news
    /// of, if it is waited for.
    pub fn news(&self, datagram: &[u8]) -> (r: Option<String>)
        requires
            self.wf(),
        ensures
            match r {
                Some(addr) => news_of(datagram@) is Some && addr@ == text::digits(
                    news_of(datagram@)->0,
                    2,
                ) && self.targets().contains(addr@),
                None => news_of(datagram@) is Some ==> !self.targets().contains(
                    text::digits(news_of(datagram@)->0, 2),
                ),
            },
    {
        let f = match Frame32::from_bytes(datagram) {
            Ok(f) => f,
            Err(_) => {
                return None;
            },
        };
        let id: u64 = match decode_state(&f) {
            Some((id, _, _)) => id,
            None => {
                return None;
            },
        };
        let addr = id_to_bit_addr(id);
        if self.contains(addr.as_str()) {
            Some(addr)
        } else {
            None
        }
    }

    /// Whether the node at a place has finished.
    pub fn is_done(&self, i: usize) -> (r: bool)
        requires
            self.wf(),
            i < self.targets().len(),
        ensures
            r == self.done()[i as int],
    {
        self.done[i]
    }

    /// Takes note of the state of a node.
    pub fn note(&mut self, addr: &str, state: &NodeState)
        requires
            old(self).wf(),
        ensures
            final(self).wf(),
            is_noted(*old(self), *final(self), addr@, state@),
    {
        if !state.is_finished() {
            return;
        }
        let ghost before = self.done@;
        let mut i: usize = 0;
        let mut found: bool = false;
        while i < self.targets.len()
            invariant
                i <= self.targets@.len(),
                self.targets@ == old(self).targets@,
                self.targets@.len() == self.done@.len(),
                self.failed_any == old(self).failed_any,
                before == old(self).done@,
                found == (exists|k: int| 0 <= k < i && #[trigger] old(self).targets()[k] == addr@),
                forall|k: int|
                    0 <= k < self.done@.len() ==> #[trigger] self.done@[k] == (before[k] || (k < i && old(
                        self,
                    ).targets()[k] == addr@)),
            decreases self.targets@.len() - i,
        {
            let v = text::chars_of(self.targets[i].as_str());
            assert(old(self).targets()[i as int] == self.targets@[i as int]@);
            if text::equals(&v, addr) {
                self.done[i] = true;
                found = true;
            }
            i += 1;
        }
        if found && !state.is_success() {
            self.failed_any = true;
        }
        assert(self.targets() =~= old(self).targets());
    }

    /// Whether the wait is over: with `any_mode` when one node has finished, else when all have.
    pub fn condition_met(&self, any_mode: bool) -> (r: bool)
        requires
            self.wf(),
        ensures
            r == (if any_mode {
                exists|i: int| 0 <= i < self.done().len() && #[trigger] self.done()[i]
            } else {
                forall|i: int| 0 <= i < self.done().len() ==> #[trigger] self.done()[i]
            }),
    {
        let mut i: usize = 0;
        while i < self.done.len()
            invariant
                i <= self.done@.len(),
                forall|k: int| 0 <= k < i ==> #[trigger] self.done()[k] == !any_mode,
            decreases self.done@.len() - i,
        {
            assert(self.done()[i as int] == self.done@[i as int]);
            if self.done[i] == any_mode {
                return any_mode;
            }
            i += 1;
        }
        !any_mode
    }

    /// How many nodes have finished.
    pub fn done_count(&self) -> (n: usize)
        requires
            self.wf(),
        ensures
            n == marked(self.done()),
    {
        let mut n: usize = 0;
        let mut i: usize = 0;
        assert(self.done@.take(0) =~= Seq::<bool>::empty());
        while i < self.done.len()
            invariant
                i <= self.done@.len(),
                n == marked(self.done@.take(i as int)),
                n <= i,
            decreases self.done@.len() - i,
        {
            assert(self.done@.take(i + 1).drop_last() =~= self.done@.take(i as int));
            if self.done[i] {
                n += 1;
            }
            i += 1;
        }
        assert(self.done@.take(i as int) =~= self.done@);
        n
    }

    /// Whether one of the nodes has finished without success.
    pub fn failed(&self) -> (r: bool)
        ensures
            r == self.has_failed(),
    {
        self.failed_any
    }
}

/// How many marks there are.
pub open spec fn marked(done: Seq<bool>) -> nat
    decreases done.len(),
{
    if done.len() == 0 {
        0
    } else {
        marked(done.drop_last()) + (if done.last() {
            1nat
        } else {
            0
        })
    }
}

/// Whether progress is due: every ten seconds, once.
pub fn progress_due(elapsed: u64, last: u64) -> (r: bool)
    ensures
        r == (elapsed > 0 && elapsed % 10 == 0 && elapsed != last),
        r <==> elapsed >= 10 && 10 * (elapsed / 10) == elapsed && elapsed != last,
{
    elapsed > 0 && elapsed % 10 == 0 && elapsed != last
}

/// Progress in words.
pub fn progress_line(label: &str, done: u64, total: u64, elapsed: u64) -> (s: String)
    ensures
        s@ == "["@ + label@ + "] "@ + text::digits(done as nat, 10) + "/"@ + text::digits(total as nat, 10)
            + " done at "@ + text::digits(elapsed as nat, 10) + "s"@,
{
    let mut s: String = "[".to_owned();
    s.append(label);
    s.append("] ");
    text::push_number(&mut s, done, 10);
    s.append("/");
    text::push_number(&mut s, total, 10);
    s.append(" done at ");
    text::push_number(&mut s, elapsed, 10);
    s.append("s");
    s
}

/// The exit code of a wait.
pub fn exit_code(failed_any: bool) -> (code: i32)
    ensures
        code == (if failed_any {
            1i32
        } else {
            0
        }),
{
    if failed_any {
        1
    } else {
        0
    }
}

/// The mark for an exit code.
pub fn mark(exit: i32) -> (m: &'static str)
    ensures
        m@ == (if exit == 0 {
            "1"@
        } else {
            "-1"@
        }),
{
    if exit == 0 {
        "1"
    } else {
        "-1"
    }
}

/// Whether a wait has taken note of the state of a node: the places where it is waited for are
/// marked if it has finished, and a failure is kept if it ended without success.
pub open spec fn is_noted(before: WaitSet, after: WaitSet, addr: Seq<char>, state: StateView) -> bool {
    &&& after.targets() == before.targets()
    &&& after.done().len() == before.done().len()
    &&& forall|i: int|
        0 <= i < after.done().len() ==> #[trigger] after.done()[i] == (before.done()[i] || (
        node_state::finished(state) && before.targets()[i] == addr))
    &&& after.has_failed() == (before.has_failed() || (node_state::finished(state) && state
        != StateView::Done(0) && before.targets().contains(addr)))
}

/// A node that has finished stays so while further states are noted, and so does a failure.
pub proof fn law_marks_stay(before: WaitSet, after: WaitSet, addr: Seq<char>, state: StateView)
    requires
        before.wf(),
        is_noted(before, after, addr, state),
    ensures
        forall|i: int| 0 <= i < before.done().len() && #[trigger] before.done()[i] ==> after.done()[i],
        before.has_failed() ==> after.has_failed(),
{
    assert forall|i: int| 0 <= i < before.done().len() && #[trigger] before.done()[i] implies after.done()[i] by {
        assert(after.done()[i] == (before.done()[i] || (node_state::finished(state) && before.targets()[i]
            == addr)));
    }
}

/// Whether waits follow one another, each taking note of one more state.
pub open spec fn are_noted(waits: Seq<WaitSet>, notes: Seq<(Seq<char>, StateView)>) -> bool {
    &&& waits.len() == notes.len() + 1
    &&& forall|k: int|
        0 <= k < notes.len() ==> is_noted(
            waits[k],
            waits[k + 1],
            (#[trigger] notes[k]).0,
            notes[k].1,
        )
}

/// Whether a note says that the node at an address has finished.
pub open spec fn says_finished(note: (Seq<char>, StateView), addr: Seq<char>) -> bool {
    note.0 == addr && node_state::finished(note.1)
}

/// Whether a note says that one of the nodes at these addresses has finished without success.
pub open spec fn says_failed(note: (Seq<char>, StateView), targets: Seq<Seq<char>>) -> bool {
    targets.contains(note.0) && node_state::finished(note.1) && note.1 != StateView::Done(0)
}

/// A wait that begins afresh knows, after any number of notes, exactly what they say: a node
/// counts as finished if and only if one of them says so, and the wait has failed if and only if
/// one of them says that a node that is waited for has finished without success.
pub proof fn law_wait_knows_what_was_noted(
    waits: Seq<WaitSet>,
    notes: Seq<(Seq<char>, StateView)>,
    i: int,
)
    requires
        are_noted(waits, notes),
        waits[0].wf(),
        forall|k: int| 0 <= k < waits[0].done().len() ==> !#[trigger] waits[0].done()[k],
        !waits[0].has_failed(),
    ensures
        waits.last().targets() == waits[0].targets(),
        0 <= i < waits[0].targets().len() ==> waits.last().done()[i] == exists|k: int|
            0 <= k < notes.len() && says_finished(#[trigger] notes[k], waits[0].targets()[i]),
        waits.last().has_failed() == exists|k: int|
            0 <= k < notes.len() && says_failed(#[trigger] notes[k], waits[0].targets()),
        waits.last().wf(),
    decreases notes.len(),
{
    if notes.len() > 0 {
        let m = notes.len() - 1;
        let fewer = notes.drop_last();
        let earlier = waits.drop_last();
        assert forall|k: int| 0 <= k < fewer.len() implies is_noted(
            earlier[k],
            earlier[k + 1],
            (#[trigger] fewer[k]).0,
            fewer[k].1,
        ) by {
            assert(fewer[k] == notes[k]);
        }
        law_wait_knows_what_was_noted(earlier, fewer, i);
        let target = waits[0].targets()[i];
        let targets = waits[0].targets();
        assert(earlier.last() == waits[m]);
        assert(waits.last() == waits[m + 1]);
        assert(is_noted(waits[m], waits[m + 1], notes[m].0, notes[m].1));
        assert(0 <= i < targets.len() ==> waits[m + 1].done()[i] == (waits[m].done()[i] || says_finished(
            notes[m],
            target,
        )));
        if exists|k: int| 0 <= k < notes.len() && says_finished(#[trigger] notes[k], target) {
            let k = choose|k: int| 0 <= k < notes.len() && says_finished(#[trigger] notes[k], target);
            if k < m {
                assert(says_finished(fewer[k], target));
            }
        }
        if exists|k: int| 0 <= k < fewer.len() && says_finished(#[trigger] fewer[k], target) {
            let k = choose|k: int| 0 <= k < fewer.len() && says_finished(#[trigger] fewer[k], target);
            assert(says_finished(notes[k], target));
        }
        if exists|k: int| 0 <= k < notes.len() && says_failed(#[trigger] notes[k], targets) {
            let k = choose|k: int| 0 <= k < notes.len() && says_failed(#[trigger] notes[k], targets);
            if k < m {
                assert(says_failed(fewer[k], targets));
            }
        }
        if exists|k: int| 0 <= k < fewer.len() && says_failed(#[trigger] fewer[k], targets) {
            let k = choose|k: int| 0 <= k < fewer.len() && says_failed(#[trigger] fewer[k], targets);
            assert(says_failed(notes[k], targets));
        }
    } else {
        assert(waits.last() == waits[0]);
        assert(0 <= i < waits[0].done().len() ==> !waits[0].done()[i]);
    }
}

proof fn signed_news(s: Seq<u32>)
    requires
        s.len() == 32,
        (frame::field(s[0], 0) >> 23) & 0xFF == OP_STATE,
    ensures
        news_of(frame::wire_bytes(frame::signed(s))) == Some(frame::field(s[1], 1) as nat),
{
    detect::law_signed_bytes_are_accepted(s);
    frame::law_signing_keeps_fields(s, 0);
    frame::law_signing_keeps_fields(s, 1);
}

/// News that a scheduler sends are understood by those who wait: the datagram names the node.
pub proof fn law_news_are_understood(f: Frame32, datagram: Seq<u8>, id: u64, state: StateView)
    requires
        id < 0x8000_0000,
        f@ == message::frame_of(
            message::short_fields(
                OP_STATE,
                message::low31(id as int),
                node_state::code_of(state),
                node_state::payload_of(state) as u32,
            ),
        ),
        datagram == frame::wire_bytes(frame::signed(f@)),
    ensures
        news_of(datagram) == Some(id as nat),
{
    message::law_short_message_reads_back(
        OP_STATE,
        id as u32,
        node_state::code_of(state),
        node_state::payload_of(state) as u32,
    );
    signed_news(f@);
}

/// A client understands the replies of a scheduler: a node that was made by its address, a full
/// spill by the port of the next one, a refusal by its code.
pub proof fn law_replies_are_understood(
    made: Frame32,
    full: Frame32,
    refused: Frame32,
    id: u64,
    port: u16,
    code: u32,
    s: SubmitStep,
    t: SubmitStep,
    u: SubmitStep,
)
    requires
        id < 0x8000_0000,
        code < 0x8000_0000,
        made@ == message::frame_of(message::short_fields(OP_OK, message::low31((id as u32) as int), 0, 0)),
        full@ == message::frame_of(message::short_fields(OP_REDIRECT, port as u32, 0, 0)),
        refused@ == message::frame_of(message::short_fields(OP_ERR, message::low31(code as int), 0, 0)),
        means(made, s),
        means(full, t),
        means(refused, u),
    ensures
        s matches SubmitStep::Accepted(addr) && addr@ == text::digits(id as nat, 2),
        t == SubmitStep::Follow(port),
        u matches SubmitStep::Failed(e) && e@ == "wrapper ERR code "@ + text::digits(code as nat, 10),
{
    message::law_short_message_reads_back(OP_OK, id as u32, 0, 0);
    message::law_short_message_reads_back(OP_REDIRECT, port as u32, 0, 0);
    message::law_short_message_reads_back(OP_ERR, code, 0, 0);
}

/// While a submission is under way every reply moves it on: a node that was made ends it with the
/// address, a redirection sends it to the port that was named, and anything else ends it with a
/// reason. The first two redirections are followed once the spill is found.
pub proof fn law_submission_goes_on(n: nat, port: u16, reply: Frame32)
    requires
        n < 3,
    ensures
        ({
            let next = next_submit(SubmitView::Sending(n), SubmitEvent::Reply(reply));
            let op = (reply.field(0) >> 23) & 0xFF;
            &&& op == 5 <==> next is Made
            &&& op == 10 <==> next is Searching
            &&& op == 5 ==> next == SubmitView::Made(text::digits(reply.field(1) as nat, 2))
            &&& op == 10 ==> next == SubmitView::Searching(n + 1, reply.field(1) as u16)
            &&& op == 6 ==> next == SubmitView::GivenUp(
                "wrapper ERR code "@ + text::digits(reply.field(1) as nat, 10),
            )
            &&& op != 5 && op != 6 && op != 10 ==> next == SubmitView::GivenUp(
                "unexpected reply op "@ + text::digits(op as nat, 10),
            )
        }),
        next_submit(SubmitView::Searching(n, port), SubmitEvent::Found) == SubmitView::Sending(n),
        next_submit(SubmitView::Searching(3, port), SubmitEvent::Found) is GivenUp,
        next_submit(SubmitView::Searching(n, port), SubmitEvent::Missing) == SubmitView::GivenUp(
            "redirected to port "@ + text::digits(port as nat, 10) + " but no matching spill workdir found"@,
        ),
{
}

/// A submission that has ended stays as it is, whatever still comes.
pub proof fn law_ended_submission_stays(s: SubmitView, event: SubmitEvent)
    requires
        s is Made || s is GivenUp,
    ensures
        next_submit(s, event) == s,
{
}

/// Marks are counted one by one: none counts nothing, every further mark one more, and all of them
/// are as many as there are places.
pub proof fn law_marks_are_counted(a: Seq<bool>, b: Seq<bool>)
    ensures
        marked(a + b) == marked(a) + marked(b),
        marked(seq![true]) == 1,
        marked(seq![false]) == 0,
        marked(a) <= a.len(),
        marked(a) == a.len() <==> (forall|i: int| 0 <= i < a.len() ==> #[trigger] a[i]),
        marked(a) == 0 <==> (forall|i: int| 0 <= i < a.len() ==> !#[trigger] a[i]),
    decreases a.len() + b.len(),
{
    assert(seq![true].drop_last() =~= Seq::<bool>::empty());
    assert(seq![false].drop_last() =~= Seq::<bool>::empty());
    assert(seq![true].last() && !seq![false].last());
    assert(marked(Seq::<bool>::empty()) == 0);
    if b.len() > 0 {
        law_marks_are_counted(a, b.drop_last());
        assert((a + b).drop_last() =~= a + b.drop_last());
        assert((a + b).last() == b.last());
    } else {
        assert(a + b =~= a);
        if a.len() > 0 {
            let front = a.drop_last();
            law_marks_are_counted(front, b);
            assert(a.last() == a[a.len() - 1]);
            assert forall|i: int| 0 <= i < front.len() implies #[trigger] front[i] == a[i] by {}
            if marked(a) == a.len() {
                assert forall|i: int| 0 <= i < a.len() implies #[trigger] a[i] by {
                    if i < front.len() {
                        assert(front[i]);
                    }
                }
            } else if forall|i: int| 0 <= i < a.len() ==> #[trigger] a[i] {
                assert forall|i: int| 0 <= i < front.len() implies #[trigger] front[i] by {
                    assert(a[i]);
                }
            }
            if marked(a) == 0 {
                assert forall|i: int| 0 <= i < a.len() implies !#[trigger] a[i] by {
                    if i < front.len() {
                        assert(!front[i]);
                    }
                }
            } else if forall|i: int| 0 <= i < a.len() ==> !#[trigger] a[i] {
                assert forall|i: int| 0 <= i < front.len() implies !#[trigger] front[i] by {
                    assert(!a[i]);
                }
            }
        }
    }
}

} // verus!
