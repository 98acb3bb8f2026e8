//! How a scheduler is looked for, started and waited for.
//!
//! A client looks for a living scheduler, clears away one that is dead, starts one and waits for
//! it. A full spill starts its successor in the same way, unless it knows one; and a client that
//! was sent on to another spill only waits for it.

use vstd::prelude::*;

verus! {

/// For how many seconds a scheduler that was started is waited for.
pub const START_WAIT_SECS: u64 = 5;

/// For how many seconds a spill is waited for to which a client was sent on.
pub const FOLLOW_WAIT_SECS: u64 = 3;

/// How many milliseconds pass between two looks.
pub const LOOK_PAUSE_MILLIS: u64 = 50;

/// What is to be done next.
#[derive(Clone, Copy, Debug, PartialEq, Eq, Structural)]
pub enum SpawnState {
    /// Look whether there is one.
    Look,
    /// Remove what a dead one has left.
    Remove,
    /// Start one.
    Start,
    /// Look again, until it is there or the time is up.
    Wait,
    /// It is there.
    Ready,
    /// It could not be started, or did not come up.
    GivenUp,
}

/// What happened.
#[derive(Clone, Copy, Debug, PartialEq, Eq, Structural)]
pub enum SpawnEvent {
    /// There is a living one.
    Alive,
    /// There is a dead one.
    Stale,
    /// There is none.
    Nothing,
    /// The dead one was removed, as far as it could be.
    Removed,
    /// One was started.
    Started,
    /// None could be started.
    Failed,
    /// The time is up.
    DeadlinePassed,
}

/// What follows from an event. One that does not belong to the state changes nothing.
pub open spec fn next_spawn(state: SpawnState, event: SpawnEvent) -> SpawnState {
    match (state, event) {
        (SpawnState::Look, SpawnEvent::Alive) => SpawnState::Ready,
        (SpawnState::Look, SpawnEvent::Stale) => SpawnState::Remove,
        (SpawnState::Look, SpawnEvent::Nothing) => SpawnState::Start,
        (SpawnState::Remove, SpawnEvent::Removed) => SpawnState::Start,
        (SpawnState::Start, SpawnEvent::Started) => SpawnState::Wait,
        (SpawnState::Start, SpawnEvent::Failed) => SpawnState::GivenUp,
        (SpawnState::Wait, SpawnEvent::Alive) => SpawnState::Ready,
        (SpawnState::Wait, SpawnEvent::DeadlinePassed) => SpawnState::GivenUp,
        _ => state,
    }
}

/// Follows an event.
pub fn spawn_step(state: SpawnState, event: SpawnEvent) -> (next: SpawnState)
    ensures
        next == next_spawn(state, event),
{
    match state {
        SpawnState::Look => match event {
            SpawnEvent::Alive => SpawnState::Ready,
            SpawnEvent::Stale => SpawnState::Remove,
            SpawnEvent::Nothing => SpawnState::Start,
            _ => SpawnState::Look,
        },
        SpawnState::Remove => match event {
            SpawnEvent::Removed => SpawnState::Start,
            _ => SpawnState::Remove,
        },
        SpawnState::Start => match event {
            SpawnEvent::Started => SpawnState::Wait,
            SpawnEvent::Failed => SpawnState::GivenUp,
            _ => SpawnState::Start,
        },
        SpawnState::Wait => match event {
            SpawnEvent::Alive => SpawnState::Ready,
            SpawnEvent::DeadlinePassed => SpawnState::GivenUp,
            _ => SpawnState::Wait,
        },
        SpawnState::Ready => SpawnState::Ready,
        SpawnState::GivenUp => SpawnState::GivenUp,
    }
}

/// What a look at a working directory shows: whether there is one, and whether it is alive.
pub fn seen(there: bool, alive: bool) -> (event: SpawnEvent)
    ensures
        event == (if !there {
            SpawnEvent::Nothing
        } else if alive {
            SpawnEvent::Alive
        } else {
            SpawnEvent::Stale
        }),
{
    if !there {
        SpawnEvent::Nothing
    } else if alive {
        SpawnEvent::Alive
    } else {
        SpawnEvent::Stale
    }
}

/// The reason for giving up a scheduler that does not come up.
pub fn not_up_reason() -> (e: String)
    ensures
        e@ == "tren-wrapper failed to come up within 5s"@,
{
    "tren-wrapper failed to come up within 5s".to_owned()
}

/// What is to be done after events.
pub open spec fn spawn_after(first: SpawnState, events: Seq<SpawnEvent>) -> SpawnState
    decreases events.len(),
{
    if events.len() == 0 {
        first
    } else {
        next_spawn(spawn_after(first, events.drop_last()), events.last())
    }
}

/// How often one is started in the course of events.
pub open spec fn starts(first: SpawnState, events: Seq<SpawnEvent>) -> nat
    decreases events.len(),
{
    if events.len() == 0 {
        0
    } else {
        starts(first, events.drop_last()) + (if spawn_after(first, events.drop_last()) == SpawnState::Start
            && events.last() == SpawnEvent::Started {
            1nat
        } else {
            0
        })
    }
}

/// Whatever happens, at most one scheduler is started, and none while a living one is known or
/// something is still to be removed.
pub proof fn law_at_most_one_start(events: Seq<SpawnEvent>)
    ensures
        starts(SpawnState::Look, events) <= 1,
        ({
            let s = spawn_after(SpawnState::Look, events);
            s == SpawnState::Look || s == SpawnState::Remove || s == SpawnState::Start ==> starts(
                SpawnState::Look,
                events,
            ) == 0
        }),
    decreases events.len(),
{
    if events.len() > 0 {
        law_at_most_one_start(events.drop_last());
    }
}

/// The end is reached only by seeing a living one; and what was seen alive is never removed, nor
/// is another started beside it.
pub proof fn law_ready_means_seen_alive(state: SpawnState, event: SpawnEvent)
    ensures
        next_spawn(state, event) == SpawnState::Ready && state != SpawnState::Ready ==> event == SpawnEvent::Alive,
        (state == SpawnState::Look || state == SpawnState::Wait) && event == SpawnEvent::Alive ==> next_spawn(
            state,
            event,
        ) == SpawnState::Ready,
        next_spawn(state, event) == SpawnState::Remove && state != SpawnState::Remove ==> event
            == SpawnEvent::Stale,
        next_spawn(SpawnState::Ready, event) == SpawnState::Ready,
        next_spawn(SpawnState::GivenUp, event) == SpawnState::GivenUp,
{
}

/// Whether events are fruitless looks: none of them shows a living scheduler, and the time is not up.
pub open spec fn fruitless(events: Seq<SpawnEvent>) -> bool {
    forall|i: int|
        0 <= i < events.len() ==> #[trigger] events[i] == SpawnEvent::Nothing || events[i] == SpawnEvent::Stale
}

/// A scheduler that was started is waited for through any number of fruitless looks: it is ready
/// once it is seen alive, and given up once the time is up. What a dead one has left is removed
/// before another is started.
pub proof fn law_started_one_is_waited_for(looks: Seq<SpawnEvent>)
    requires
        fruitless(looks),
    ensures
        ({
            let fresh = seq![SpawnEvent::Nothing, SpawnEvent::Started] + looks;
            let again = seq![SpawnEvent::Stale, SpawnEvent::Removed, SpawnEvent::Started] + looks;
            &&& spawn_after(SpawnState::Look, fresh) == SpawnState::Wait
            &&& spawn_after(SpawnState::Look, again) == SpawnState::Wait
            &&& spawn_after(SpawnState::Look, fresh.push(SpawnEvent::Alive)) == SpawnState::Ready
            &&& spawn_after(SpawnState::Look, again.push(SpawnEvent::Alive)) == SpawnState::Ready
            &&& spawn_after(SpawnState::Look, fresh.push(SpawnEvent::DeadlinePassed)) == SpawnState::GivenUp
            &&& spawn_after(SpawnState::Look, again.push(SpawnEvent::DeadlinePassed)) == SpawnState::GivenUp
        }),
        spawn_after(SpawnState::Look, seq![SpawnEvent::Stale]) == SpawnState::Remove,
        spawn_after(SpawnState::Look, seq![SpawnEvent::Nothing, SpawnEvent::Failed]) == SpawnState::GivenUp,
        spawn_after(SpawnState::Look, seq![SpawnEvent::Alive]) == SpawnState::Ready,
        START_WAIT_SECS == 5 && FOLLOW_WAIT_SECS == 3 && LOOK_PAUSE_MILLIS == 50,
    decreases looks.len(),
{
    let a = seq![SpawnEvent::Nothing, SpawnEvent::Started];
    let b = seq![SpawnEvent::Stale, SpawnEvent::Removed, SpawnEvent::Started];
    reveal_with_fuel(spawn_after, 4);
    assert(a.drop_last() =~= seq![SpawnEvent::Nothing]);
    assert(b.drop_last() =~= seq![SpawnEvent::Stale, SpawnEvent::Removed]);
    assert(b.drop_last().drop_last() =~= seq![SpawnEvent::Stale]);
    assert(seq![SpawnEvent::Nothing, SpawnEvent::Failed].drop_last() =~= seq![SpawnEvent::Nothing]);
    assert(seq![SpawnEvent::Nothing].drop_last() =~= Seq::<SpawnEvent>::empty());
    assert(seq![SpawnEvent::Stale].drop_last() =~= Seq::<SpawnEvent>::empty());
    assert(seq![SpawnEvent::Alive].drop_last() =~= Seq::<SpawnEvent>::empty());
    if looks.len() == 0 {
        assert(a + looks =~= a);
        assert(b + looks =~= b);
    } else {
        let fewer = looks.drop_last();
        assert forall|i: int| 0 <= i < fewer.len() implies #[trigger] fewer[i] == SpawnEvent::Nothing || fewer[i]
            == SpawnEvent::Stale by {
            assert(fewer[i] == looks[i]);
        }
        law_started_one_is_waited_for(fewer);
        assert((a + looks).drop_last() =~= a + fewer);
        assert((b + looks).drop_last() =~= b + fewer);
        assert((a + looks).last() == looks[looks.len() - 1]);
        assert((b + looks).last() == looks[looks.len() - 1]);
    }
    assert((a + looks).push(SpawnEvent::Alive).drop_last() =~= a + looks);
    assert((b + looks).push(SpawnEvent::Alive).drop_last() =~= b + looks);
    assert((a + looks).push(SpawnEvent::DeadlinePassed).drop_last() =~= a + looks);
    assert((b + looks).push(SpawnEvent::DeadlinePassed).drop_last() =~= b + looks);
}

} // verus!
