//! The life of a node, from submission to its end, as a machine of phases and events.

use vstd::prelude::*;

use crate::node_state;
use crate::node_state::{NodeState, StateView};

verus! {

broadcast use vstd::string::group_string_axioms;

/// Where a node stands.
#[derive(Clone, Copy, Debug, PartialEq, Eq, Structural)]
pub enum RunPhase {
    /// The nodes it depends on have not all finished.
    AwaitDeps,
    /// It is queued.
    AwaitSlot,
    /// It has a slot; its log is to be created.
    OpenLog,
    /// Its log is to be opened a second time, for errors.
    CloneLog,
    /// Its process is to be started.
    Spawn,
    /// Its process runs.
    Wait,
    /// Nothing more happens.
    Over,
}

/// What happened.
pub enum RunEvent {
    /// The scheduler shuts down.
    Shutdown,
    /// The states of the nodes it depends on, as they are now.
    Deps(Vec<NodeState>),
    /// Whether it was given a slot.
    Slot(bool),
    /// The log was created or opened again.
    Ready,
    /// The process was started.
    Started(u32),
    /// The process ended, with a code or by a signal.
    Exited(Option<i32>),
    /// What was tried failed.
    Error(String),
}

/// An event with its parts as mathematical values.
pub enum EventView {
    Shutdown,
    Deps(Seq<StateView>),
    Slot(bool),
    Ready,
    Started(u32),
    Exited(Option<i32>),
    Error(Seq<char>),
}

/// The states in a list.
pub open spec fn views(states: Seq<NodeState>) -> Seq<StateView> {
    Seq::new(states.len(), |i: int| states[i]@)
}

impl View for RunEvent {
    type V = EventView;

    open spec fn view(&self) -> EventView {
        match self {
            RunEvent::Shutdown => EventView::Shutdown,
            RunEvent::Deps(v) => EventView::Deps(views(v@)),
            RunEvent::Slot(b) => EventView::Slot(*b),
            RunEvent::Ready => EventView::Ready,
            RunEvent::Started(p) => EventView::Started(*p),
            RunEvent::Exited(c) => EventView::Exited(*c),
            RunEvent::Error(e) => EventView::Error(e@),
        }
    }
}

/// What is to be done, and where the node stands then.
pub struct RunStep {
    pub next: RunPhase,
    /// A state to record and to publish.
    pub state: Option<NodeState>,
    /// Whether to queue the node.
    pub enqueue: bool,
    /// Whether to free its slot.
    pub release: bool,
    /// A process that was started.
    pub started: Option<u32>,
    /// Whether its process is gone.
    pub ended: bool,
    /// An exit code to write down.
    pub exit_code: Option<i32>,
    /// Whether the model learns from it.
    pub sample: bool,
}

/// A step with its state as a mathematical value.
pub struct StepView {
    pub next: RunPhase,
    pub state: Option<StateView>,
    pub enqueue: bool,
    pub release: bool,
    pub started: Option<u32>,
    pub ended: bool,
    pub exit_code: Option<i32>,
    pub sample: bool,
}

impl View for RunStep {
    type V = StepView;

    open spec fn view(&self) -> StepView {
        StepView {
            next: self.next,
            state: match self.state {
                None => None,
                Some(s) => Some(s@),
            },
            enqueue: self.enqueue,
            release: self.release,
            started: self.started,
            ended: self.ended,
            exit_code: self.exit_code,
            sample: self.sample,
        }
    }
}

/// Whether a node has finished without success.
pub open spec fn failed(s: StateView) -> bool {
    node_state::finished(s) && s != StateView::Done(0)
}

/// Whether one of the nodes has finished without success.
pub open spec fn some_failed(states: Seq<StateView>) -> bool {
    exists|i: int| 0 <= i < states.len() && failed(#[trigger] states[i])
}

/// Whether all of the nodes have finished.
pub open spec fn all_finished(states: Seq<StateView>) -> bool {
    forall|i: int| 0 <= i < states.len() ==> node_state::finished(#[trigger] states[i])
}

/// Going to a phase with nothing to do.
pub open spec fn just(next: RunPhase) -> StepView {
    StepView {
        next,
        state: None,
        enqueue: false,
        release: false,
        started: None,
        ended: false,
        exit_code: None,
        sample: false,
    }
}

/// Giving the slot back because something failed.
pub open spec fn give_up(reason: Seq<char>) -> StepView {
    StepView { state: Some(StateView::Failed(reason)), release: true, ..just(RunPhase::Over) }
}

/// The end of the process.
pub open spec fn ending(state: StateView, exit_code: Option<i32>) -> StepView {
    StepView {
        state: Some(state),
        release: true,
        ended: true,
        exit_code,
        sample: true,
        ..just(RunPhase::Over)
    }
}

/// What follows from an event in a phase. An event that does not belong to the phase changes
/// nothing.
pub open spec fn next_step(phase: RunPhase, event: EventView) -> StepView {
    match (phase, event) {
        (RunPhase::AwaitDeps, EventView::Shutdown) => just(RunPhase::Over),
        (RunPhase::AwaitDeps, EventView::Deps(states)) => if some_failed(states) {
            StepView {
                state: Some(StateView::Failed("dep failed"@)),
                sample: true,
                ..just(RunPhase::Over)
            }
        } else if all_finished(states) {
            StepView { state: Some(StateView::Pending), enqueue: true, ..just(RunPhase::AwaitSlot) }
        } else {
            just(phase)
        },
        (RunPhase::AwaitSlot, EventView::Shutdown) => just(RunPhase::Over),
        (RunPhase::AwaitSlot, EventView::Slot(given)) => just(
            if given {
                RunPhase::OpenLog
            } else {
                phase
            },
        ),
        (RunPhase::OpenLog, EventView::Ready) => just(RunPhase::CloneLog),
        (RunPhase::OpenLog, EventView::Error(e)) => give_up("log create: "@ + e),
        (RunPhase::CloneLog, EventView::Ready) => just(RunPhase::Spawn),
        (RunPhase::CloneLog, EventView::Error(e)) => give_up("log clone: "@ + e),
        (RunPhase::Spawn, EventView::Started(pid)) => StepView {
            state: Some(StateView::Running),
            started: Some(pid),
            ..just(RunPhase::Wait)
        },
        (RunPhase::Spawn, EventView::Error(e)) => give_up("spawn: "@ + e),
        (RunPhase::Wait, EventView::Exited(Some(c))) => ending(StateView::Done(c as int), Some(c)),
        (RunPhase::Wait, EventView::Exited(None)) => ending(StateView::Failed("signal"@), None),
        (RunPhase::Wait, EventView::Error(e)) => ending(StateView::Failed("wait: "@ + e), None),
        _ => just(phase),
    }
}

/// The phase in which a node begins.
pub fn first_phase(dep_count: usize) -> (phase: RunPhase)
    ensures
        phase == (if dep_count == 0 {
            RunPhase::AwaitSlot
        } else {
            RunPhase::AwaitDeps
        }),
{
    if dep_count == 0 {
        RunPhase::AwaitSlot
    } else {
        RunPhase::AwaitDeps
    }
}

fn nothing(next: RunPhase) -> (s: RunStep)
    ensures
        s@ == just(next),
        s.state is None,
{
    RunStep {
        next,
        state: None,
        enqueue: false,
        release: false,
        started: None,
        ended: false,
        exit_code: None,
        sample: false,
    }
}

fn because(prefix: &str, e: &String) -> (s: NodeState)
    ensures
        s@ == StateView::Failed(prefix@ + e@),
{
    let mut reason: String = prefix.to_owned();
    reason.append(e.as_str());
    NodeState::Failed(reason)
}

fn abandon(state: NodeState) -> (s: RunStep)
    ensures
        state@ is Failed ==> s@ == give_up(state@->Failed_0),
{
    RunStep {
        next: RunPhase::Over,
        state: Some(state),
        enqueue: false,
        release: true,
        started: None,
        ended: false,
        exit_code: None,
        sample: false,
    }
}

fn finish(state: NodeState, exit_code: Option<i32>) -> (s: RunStep)
    ensures
        s@ == ending(state@, exit_code),
{
    RunStep {
        next: RunPhase::Over,
        state: Some(state),
        enqueue: false,
        release: true,
        started: None,
        ended: true,
        exit_code,
        sample: true,
    }
}

/// Judges the nodes that a node depends on: whether one has failed, and whether all have finished.
pub fn judge(states: &Vec<NodeState>) -> (r: (bool, bool))
    ensures
        r.0 == some_failed(views(states@)),
        r.1 == all_finished(views(states@)),
{
    let ghost v = views(states@);
    let mut any_failed: bool = false;
    let mut all_ok: bool = true;
    let mut i: usize = 0;
    while i < states.len()
        invariant
            i <= states@.len(),
            v == views(states@),
            any_failed == (exists|k: int| 0 <= k < i && failed(#[trigger] v[k])),
            all_ok == (forall|k: int| 0 <= k < i ==> node_state::finished(#[trigger] v[k])),
        decreases states@.len() - i,
    {
        let finished: bool = states[i].is_finished();
        let success: bool = states[i].is_success();
        assert(v[i as int] == states@[i as int]@);
        if !finished {
            all_ok = false;
        }
        if finished && !success {
            assert(failed(v[i as int]));
            any_failed = true;
        }
        i += 1;
    }
    (any_failed, all_ok)
}

/// Follows an event.
pub fn step(phase: RunPhase, event: &RunEvent) -> (s: RunStep)
    ensures
        s@ == next_step(phase, event@),
{
    match (phase, event) {
        (RunPhase::AwaitDeps, RunEvent::Shutdown) => nothing(RunPhase::Over),
        (RunPhase::AwaitDeps, RunEvent::Deps(states)) => {
            let (any_failed, all_ok) = judge(states);
            if any_failed {
                let mut s = nothing(RunPhase::Over);
                s.state = Some(NodeState::Failed("dep failed".to_owned()));
                s.sample = true;
                s
            } else if all_ok {
                let mut s = nothing(RunPhase::AwaitSlot);
                s.state = Some(NodeState::Pending);
                s.enqueue = true;
                s
            } else {
                nothing(phase)
            }
        },
        (RunPhase::AwaitSlot, RunEvent::Shutdown) => nothing(RunPhase::Over),
        (RunPhase::AwaitSlot, RunEvent::Slot(given)) => {
            if *given {
                nothing(RunPhase::OpenLog)
            } else {
                nothing(phase)
            }
        },
        (RunPhase::OpenLog, RunEvent::Ready) => nothing(RunPhase::CloneLog),
        (RunPhase::OpenLog, RunEvent::Error(e)) => abandon(because("log create: ", e)),
        (RunPhase::CloneLog, RunEvent::Ready) => nothing(RunPhase::Spawn),
        (RunPhase::CloneLog, RunEvent::Error(e)) => abandon(because("log clone: ", e)),
        (RunPhase::Spawn, RunEvent::Started(pid)) => {
            let mut s = nothing(RunPhase::Wait);
            s.state = Some(NodeState::Running);
            s.started = Some(*pid);
            s
        },
        (RunPhase::Spawn, RunEvent::Error(e)) => abandon(because("spawn: ", e)),
        (RunPhase::Wait, RunEvent::Exited(Some(c))) => finish(NodeState::Done(*c), Some(*c)),
        (RunPhase::Wait, RunEvent::Exited(None)) => finish(NodeState::Failed("signal".to_owned()), None),
        (RunPhase::Wait, RunEvent::Error(e)) => finish(because("wait: ", e), None),
        _ => nothing(phase),
    }
}

/// Whether a node in a phase has a slot.
pub open spec fn in_slot(phase: RunPhase) -> bool {
    phase == RunPhase::OpenLog || phase == RunPhase::CloneLog || phase == RunPhase::Spawn || phase
        == RunPhase::Wait
}

/// A slot is freed exactly when the node that has it leaves it: a node has a slot after a step
/// if it was given one or had one that is not freed, and only a node that has a slot frees one.
pub proof fn law_slot_is_freed_once(phase: RunPhase, event: EventView)
    ensures
        ({
            let s = next_step(phase, event);
            &&& in_slot(s.next) == (in_slot(phase) && !s.release || phase == RunPhase::AwaitSlot && event
                == EventView::Slot(true))
            &&& s.release ==> in_slot(phase)
        }),
{
}

/// A node whose life ends, other than by shutdown, ends in a finished state.
pub proof fn law_life_ends_finished(phase: RunPhase, event: EventView)
    requires
        phase != RunPhase::Over,
        event != EventView::Shutdown,
        next_step(phase, event).next == RunPhase::Over,
    ensures
        next_step(phase, event).state matches Some(s) && node_state::finished(s),
{
}

/// After the end nothing happens.
pub proof fn law_over_is_final(event: EventView)
    ensures
        next_step(RunPhase::Over, event) == just(RunPhase::Over),
{
}

/// A node that waits for others is queued only when all of them have finished with success, and
/// fails as soon as one of them has finished without.
pub proof fn law_dependencies_decide(states: Seq<StateView>)
    ensures
        ({
            let s = next_step(RunPhase::AwaitDeps, EventView::Deps(states));
            &&& s.next == RunPhase::AwaitSlot <==> (forall|i: int|
                0 <= i < states.len() ==> #[trigger] states[i] == StateView::Done(0))
            &&& s.next == RunPhase::Over <==> some_failed(states)
            &&& s.next == RunPhase::Over ==> s.state == Some(StateView::Failed("dep failed"@))
        }),
{
    let s = next_step(RunPhase::AwaitDeps, EventView::Deps(states));
    if s.next == RunPhase::AwaitSlot {
        assert forall|i: int| 0 <= i < states.len() implies #[trigger] states[i] == StateView::Done(0) by {
            assert(node_state::finished(states[i]));
            assert(!failed(states[i]));
        }
    }
    if forall|i: int| 0 <= i < states.len() ==> #[trigger] states[i] == StateView::Done(0) {
        assert(!some_failed(states));
        assert(all_finished(states));
    }
}

/// A process that ends with a code, whatever the code, leaves its node done with that code, which
/// is also written down; only an end without a code counts as one by a signal. Either way the slot
/// is free, the process is gone, the model learns from the node, and its life is over.
pub proof fn law_exit_code_is_kept(c: i32)
    ensures
        ({
            let s = next_step(RunPhase::Wait, EventView::Exited(Some(c)));
            &&& s.state == Some(StateView::Done(c as int))
            &&& s.exit_code == Some(c)
            &&& s.next == RunPhase::Over && s.release && s.ended && s.sample && !s.enqueue
            &&& s.started == None::<u32>
        }),
        ({
            let s = next_step(RunPhase::Wait, EventView::Exited(None));
            &&& s.state == Some(StateView::Failed("signal"@))
            &&& s.exit_code == None::<i32>
            &&& s.next == RunPhase::Over && s.release && s.ended && s.sample && !s.enqueue
        }),
{
}

/// A node is done only because its process ended, and with the code that it ended with; in
/// particular it succeeds exactly if that code is zero. An exit code is written down then and
/// never else.
pub proof fn law_done_means_exited(phase: RunPhase, event: EventView, c: i32)
    ensures
        next_step(phase, event).state == Some(StateView::Done(c as int)) <==> phase == RunPhase::Wait && event
            == EventView::Exited(Some(c)),
        next_step(phase, event).exit_code == Some(c) <==> phase == RunPhase::Wait && event == EventView::Exited(
            Some(c),
        ),
        next_step(phase, event).ended <==> phase == RunPhase::Wait && (event is Exited || event is Error),
{
}

/// A node counts as running exactly from when its process was started, and that process is noted.
pub proof fn law_running_means_started(phase: RunPhase, event: EventView, pid: u32)
    ensures
        next_step(phase, event).started == Some(pid) <==> phase == RunPhase::Spawn && event == EventView::Started(
            pid,
        ),
        next_step(phase, event).state == Some(StateView::Running) <==> phase == RunPhase::Spawn
            && event is Started,
        phase != RunPhase::Wait && next_step(phase, event).next == RunPhase::Wait <==> phase == RunPhase::Spawn
            && event is Started,
{
}

/// What went wrong is told in full: the reason of a failure ends in the error that happened, after
/// what was being tried.
pub proof fn law_errors_are_told(e: Seq<char>)
    ensures
        next_step(RunPhase::OpenLog, EventView::Error(e)).state == Some(StateView::Failed("log create: "@ + e)),
        next_step(RunPhase::CloneLog, EventView::Error(e)).state == Some(StateView::Failed("log clone: "@ + e)),
        next_step(RunPhase::Spawn, EventView::Error(e)).state == Some(StateView::Failed("spawn: "@ + e)),
        next_step(RunPhase::Wait, EventView::Error(e)).state == Some(StateView::Failed("wait: "@ + e)),
{
}

/// A node that failed in a slot gives it back and is over, and one that never ran a process
/// teaches the model nothing.
pub proof fn law_failure_frees_the_slot(phase: RunPhase, e: Seq<char>)
    requires
        in_slot(phase),
    ensures
        ({
            let s = next_step(phase, EventView::Error(e));
            &&& s.next == RunPhase::Over && s.release && !s.enqueue
            &&& s.exit_code == None::<i32> && s.started == None::<u32>
            &&& s.sample <==> phase == RunPhase::Wait
        }),
{
}

/// A node goes through its life in order: a slot, its log, its log again, its process; and it
/// stays where it is for as long as nothing happens that it waits for.
pub proof fn law_life_goes_on(phase: RunPhase, event: EventView)
    ensures
        next_step(RunPhase::AwaitSlot, EventView::Slot(true)).next == RunPhase::OpenLog,
        next_step(RunPhase::AwaitSlot, EventView::Slot(false)).next == RunPhase::AwaitSlot,
        next_step(RunPhase::OpenLog, EventView::Ready).next == RunPhase::CloneLog,
        next_step(RunPhase::CloneLog, EventView::Ready).next == RunPhase::Spawn,
        next_step(phase, event).next == phase ==> {
            let s = next_step(phase, event);
            &&& s.state is None && s.started is None && s.exit_code is None
            &&& !s.enqueue && !s.release && !s.ended && !s.sample
        },
        next_step(phase, event).next != phase ==> match phase {
            RunPhase::AwaitDeps => event is Shutdown || event is Deps,
            RunPhase::AwaitSlot => event is Shutdown || event == EventView::Slot(true),
            RunPhase::OpenLog => event is Ready || event is Error,
            RunPhase::CloneLog => event is Ready || event is Error,
            RunPhase::Spawn => event is Started || event is Error,
            RunPhase::Wait => event is Exited || event is Error,
            RunPhase::Over => false,
        },
        (phase == RunPhase::AwaitDeps || phase == RunPhase::AwaitSlot) && event is Shutdown ==> next_step(
            phase,
            event,
        ).next == RunPhase::Over && next_step(phase, event).state is None,
        in_slot(phase) && event is Shutdown ==> next_step(phase, event).next == phase,
{
}

/// What a node does about the nodes it depends on, said of their states: if one of them failed, or
/// is done with a code that is not zero, the node fails, whatever the others do, and is not queued;
/// if all are done with code zero it is pending and queued, and never else; in between it waits.
pub proof fn law_dependents_follow(states: Seq<StateView>)
    ensures
        ({
            let s = next_step(RunPhase::AwaitDeps, EventView::Deps(states));
            let bad = exists|i: int|
                0 <= i < states.len() && ((#[trigger] states[i]) is Failed || (states[i] matches StateView::Done(c)
                    && c != 0));
            let good = forall|i: int| 0 <= i < states.len() ==> #[trigger] states[i] == StateView::Done(0);
            &&& bad ==> s.next == RunPhase::Over && s.state == Some(StateView::Failed("dep failed"@)) && s.sample
                && !s.enqueue
            &&& good ==> s.next == RunPhase::AwaitSlot && s.state == Some(StateView::Pending) && s.enqueue
                && !s.sample
            &&& !bad && !good ==> s == just(RunPhase::AwaitDeps)
            &&& !s.release && !s.ended && s.started is None && s.exit_code is None
        }),
{
    let s = next_step(RunPhase::AwaitDeps, EventView::Deps(states));
    assert forall|i: int| 0 <= i < states.len() implies (#[trigger] failed(states[i]) <==> (states[i] is Failed || (
    states[i] matches StateView::Done(c) && c != 0))) by {}
    law_dependencies_decide(states);
    if exists|i: int|
        0 <= i < states.len() && ((#[trigger] states[i]) is Failed || (states[i] matches StateView::Done(c) && c
            != 0)) {
        let i = choose|i: int|
            0 <= i < states.len() && ((#[trigger] states[i]) is Failed || (states[i] matches StateView::Done(c)
                && c != 0));
        assert(failed(states[i]));
    } else {
        assert(!some_failed(states));
    }
}

/// A node is queued only after waiting for others; one that depends on nothing begins queued.
pub proof fn law_queued_once(phase: RunPhase, event: EventView)
    ensures
        next_step(phase, event).enqueue ==> phase == RunPhase::AwaitDeps && next_step(phase, event).next
            == RunPhase::AwaitSlot,
        phase == RunPhase::AwaitDeps && next_step(phase, event).next == RunPhase::AwaitSlot ==> next_step(
            phase,
            event,
        ).enqueue,
{
}

} // verus!
