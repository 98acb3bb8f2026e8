//! Nodes, their queue, their life, and the requests that reach a scheduler.

use tren::client::{
    dep_ids, exit_code, first_submit, mark, no_spill_reason, probe_state, progress_due, progress_line,
    read_reply, spill_with_port, submit_step, try_again, SubmitEvent, SubmitState, SubmitStep, WaitSet,
};
use tren::gc::{classify_entry, sweepable, Entry, GcAction, GcRun, Verdict};
use tren::graph::reach;
use tren::model::Model;
use tren::priority::Tree32;
use tren::queue::{QueueItem, ReadyQueue, Slots, MAX_WORKERS};
use tren::requests::{
    handle_request, kill_reply, reply_at_once, spill_reply, state_news, submit_reply, Request, Subscribers,
};
use tren::runner::{first_phase, judge, step, RunEvent, RunPhase};
use tren::simulation::{
    fifo_order, make_dag, simulate, subtree_order, training_samples, tree_order, Node, Rng,
};
use tren::spill::{no_command_reason, no_room_reason};
use tren::startup::{not_up_reason, seen, spawn_step, SpawnEvent, SpawnState};
use tren::table::{KillOutcome, NodeRecord, NodeTable};
use tren::{
    build_err, build_kill, build_ok, build_ping, build_quit, build_redirect, build_sub, build_submit,
    build_unsub, decode_state, id_to_bit_addr, Frame32, NodeState, OP_ERR, OP_OK, OP_REDIRECT,
};

fn qi(subtree_size: u64, priority: f64, addr: &str) -> QueueItem {
    // Bit patterns of floats that are not negative order as the floats do.
    QueueItem { subtree_size, priority: priority.to_bits(), addr: addr.into() }
}

#[test]
fn queue_item_orders_by_subtree_size_desc_then_priority_then_addr() {
    // Bigger subtree_size pops first; ties on subtree_size break by bigger priority; final tie
    // breaks by lexicographically smaller addr.
    let mut h = ReadyQueue::new();
    h.push(qi(1, 0.0, "10")); // small chain, leaf
    h.push(qi(5, 0.0, "11")); // long chain root
    h.push(qi(1, 0.0, "100")); // small chain, deeper leaf
    h.push(qi(3, 0.0, "101")); // medium chain root
    h.push(qi(5, 0.0, "111")); // tied with first long chain root, larger addr

    let popped: Vec<String> = (0..5).map(|_| h.pop().unwrap().addr).collect();
    // Expect: subtree_size 5/addr "11", subtree_size 5/addr "111",
    //         subtree_size 3, then the two size-1 leaves by addr.
    assert_eq!(popped, vec!["11", "111", "101", "10", "100"]);
}

#[test]
fn queue_item_priority_breaks_size_ties() {
    // When subtree_size is tied, higher `priority` pops first. Same-priority falls back to the
    // addr tiebreaker.
    let mut h = ReadyQueue::new();
    h.push(qi(2, 0.10, "1"));
    h.push(qi(2, 0.90, "100")); // higher priority, should win despite bigger addr
    h.push(qi(2, 0.50, "10"));

    let popped: Vec<String> = (0..3).map(|_| h.pop().unwrap().addr).collect();
    assert_eq!(popped, vec!["100", "10", "1"]);
}

fn id(addr: &str) -> u64 {
    tren::bit_addr_to_id(addr).unwrap()
}

fn mk(addr: &str, deps: Vec<&str>) -> NodeRecord {
    NodeRecord {
        id: id(addr),
        deps: deps.iter().map(|s| id(s)).collect(),
        pid: None,
        state: NodeState::Pending,
        priority: 0,
        subtree_size: 1,
        depth: 0,
        cmd_first_byte: 0,
        features: None,
    }
}

fn size(t: &NodeTable, addr: &str) -> u64 {
    t.nodes[t.find(id(addr)).unwrap()].subtree_size
}

#[test]
fn bump_ancestor_subtree_walks_transitive_dag() {
    // Build a small DAG in memory and verify bump_ancestor_subtree increments every transitive
    // ancestor exactly once per call, including diamond shapes where two paths share an ancestor.
    let mut tree = NodeTable::new();
    tree.nodes.push(mk("1", vec![]));
    tree.nodes.push(mk("10", vec!["1"]));
    tree.nodes.push(mk("11", vec!["1"]));
    tree.nodes.push(mk("110", vec!["10", "11"])); // diamond
    tree.nodes.push(mk("111", vec!["110"]));

    // Each SUBMIT bumps its dep ancestors once. Simulate the whole submission sequence in order.
    tree.bump_ancestor_subtree(&vec![]); // node "1"
    tree.bump_ancestor_subtree(&vec![id("1")]); // node "10"
    tree.bump_ancestor_subtree(&vec![id("1")]); // node "11"
    tree.bump_ancestor_subtree(&vec![id("10"), id("11")]); // node "110"
    tree.bump_ancestor_subtree(&vec![id("110")]); // node "111"

    // "1" sits above everyone: bumped by 10, 11, 110 (via both paths but counted once thanks to
    // the visited set), and 111.
    assert_eq!(size(&tree, "1"), 5);
    assert_eq!(size(&tree, "10"), 3); // bumped by 110, 111
    assert_eq!(size(&tree, "11"), 3); // bumped by 110, 111
    assert_eq!(size(&tree, "110"), 2); // bumped by 111
    assert_eq!(size(&tree, "111"), 1); // never an ancestor
}

#[test]
fn cycles_and_unknown_ids_do_not_stop_the_walk() {
    let mut tree = NodeTable::new();
    tree.nodes.push(mk("1", vec!["10"]));
    tree.nodes.push(mk("10", vec!["1", "1111"]));
    tree.nodes.push(mk("11", vec![]));
    tree.bump_ancestor_subtree(&vec![id("1"), id("1110")]);
    assert_eq!(size(&tree, "1"), 2);
    assert_eq!(size(&tree, "10"), 2);
    assert_eq!(size(&tree, "11"), 1);
    tree.nodes[2].subtree_size = u64::MAX;
    tree.bump_ancestor_subtree(&vec![id("11")]);
    assert_eq!(size(&tree, "11"), u64::MAX);
}

#[test]
fn reached_nodes_are_marked() {
    let edges = vec![vec![1], vec![2], vec![0], vec![4], vec![]];
    assert_eq!(reach(&edges, &vec![1]), vec![true, true, true, false, false]);
    assert_eq!(reach(&edges, &vec![]), vec![false; 5]);
}

#[test]
fn submitted_nodes_know_depth_state_and_dependents() {
    let mut t = NodeTable::new();
    t.allocate_node(1, vec![], b'e', None);
    t.allocate_node(2, vec![1], b't', None);
    t.allocate_node(3, vec![1, 2, 9], 0, None);
    assert_eq!(t.len(), 3);
    assert_eq!(t.nodes[0].state, NodeState::Pending);
    assert_eq!(t.nodes[1].state, NodeState::Waiting);
    assert_eq!(t.nodes[0].depth, 0);
    assert_eq!(t.nodes[1].depth, 1);
    assert_eq!(t.nodes[2].depth, 2);
    assert_eq!(t.max_depth(), 2);
    assert_eq!(t.compute_depth(&vec![3]), 3);
    assert_eq!(t.compute_depth(&vec![77]), 1);
    // One more than the number of nodes that depend on each.
    assert_eq!(t.nodes[0].subtree_size, 3);
    assert_eq!(t.nodes[1].subtree_size, 2);
    assert_eq!(t.nodes[2].subtree_size, 1);
    assert_eq!(t.nodes[0].cmd_first_byte, b'e');
    assert_eq!(t.training_sample(1), None);
    // The same id again takes the place of the record.
    t.allocate_node(2, vec![], 0, None);
    assert_eq!(t.len(), 3);
    assert_eq!(t.nodes[1].subtree_size, 1);
}

#[test]
fn models_give_priorities_and_learn_from_finished_nodes() {
    let mut t = NodeTable::new();
    let mut all_low = Tree32::baseline();
    all_low.leaves = 0;
    t.allocate_node(1, vec![], b'e', Some(&Tree32::baseline()));
    t.allocate_node(2, vec![1], b'e', Some(&all_low));
    assert_eq!(t.nodes[0].priority, 1);
    assert_eq!(t.nodes[1].priority, 0);
    // No dependencies, the letter e, and a letter.
    assert_eq!(t.nodes[0].features, Some((1 << 14) | (1 << 10) | (1 << 13)));
    // One dependency with two nodes under it, depth one.
    assert_eq!(t.nodes[1].features, Some(1 | (1 << 3) | (1 << 7) | (1 << 10) | (1 << 13)));
    assert_eq!(t.training_sample(1), Some((t.nodes[0].features.unwrap(), true)));
    assert_eq!(t.training_sample(2), Some((t.nodes[1].features.unwrap(), false)));
    assert_eq!(t.training_sample(3), None);
}

#[test]
fn records_follow_their_process() {
    let mut t = NodeTable::new();
    t.allocate_node(1, vec![], 0, None);
    t.note_started(1, 4242);
    assert_eq!(t.nodes[0].state, NodeState::Running);
    assert_eq!(t.nodes[0].pid, Some(4242));
    assert_eq!(t.kill_node(2), KillOutcome::NotFound);
    assert_eq!(t.kill_node(1), KillOutcome::Killed(Some(4242)));
    assert_eq!(t.nodes[0].state, NodeState::Failed("killed".into()));
    assert_eq!(t.kill_node(1), KillOutcome::AlreadyFinished);
    t.note_ended(1);
    assert_eq!(t.nodes[0].pid, None);
    t.update_record_state(1, NodeState::Done(0));
    assert_eq!(t.nodes[0].state, NodeState::Done(0));
    t.update_record_state(9, NodeState::Done(1));
    assert_eq!(t.len(), 1);
}

#[test]
fn models_keep_the_latest_samples_and_retrain() {
    let mut m = Model::new(3, 2);
    m.record_training_sample(1, true);
    assert_eq!((m.buffer.len(), m.new_since_train, m.generation), (1, 1, 0));
    m.record_training_sample(0, false);
    assert_eq!((m.buffer.len(), m.new_since_train, m.generation), (2, 0, 1));
    assert_eq!(m.tree.gen, 1);
    assert_eq!(m.tree.infer(1), 1);
    assert_eq!(m.tree.infer(0), 0);
    m.record_training_sample(2, true);
    m.record_training_sample(3, true);
    assert_eq!(m.buffer, vec![(0, false), (2, true), (3, true)]);
    assert_eq!(m.generation, 2);
}

#[test]
fn slots_go_to_the_first_in_the_queue_only() {
    let mut s = Slots::new();
    assert!(!s.try_start("1"));
    s.queue.push(qi(1, 0.0, "1"));
    s.queue.push(qi(2, 0.0, "10"));
    assert!(!s.try_start("1"));
    assert!(s.try_start("10"));
    assert_eq!(s.running, 1);
    assert_eq!(s.queue.peek().unwrap().addr, "1");
    for k in 0..4 {
        s.queue.push(qi(10 - k, 0.0, &id_to_bit_addr(100 + k)));
    }
    for k in 0..3 {
        assert!(s.try_start(&id_to_bit_addr(100 + k)));
    }
    assert_eq!(s.running, MAX_WORKERS);
    assert!(!s.try_start(&id_to_bit_addr(103)));
    s.release();
    assert!(s.try_start(&id_to_bit_addr(103)));
    assert_eq!(s.queue.len(), 1);
}

#[test]
fn a_node_runs_from_dependencies_to_its_end() {
    assert_eq!(first_phase(0), RunPhase::AwaitSlot);
    assert_eq!(first_phase(2), RunPhase::AwaitDeps);
    let wait = step(
        RunPhase::AwaitDeps,
        &RunEvent::Deps(vec![NodeState::Done(0), NodeState::Running]),
    );
    assert_eq!(wait.next, RunPhase::AwaitDeps);
    assert!(wait.state.is_none());
    let go = step(RunPhase::AwaitDeps, &RunEvent::Deps(vec![NodeState::Done(0), NodeState::Done(0)]));
    assert_eq!(go.next, RunPhase::AwaitSlot);
    assert_eq!(go.state, Some(NodeState::Pending));
    assert!(go.enqueue);
    assert_eq!(step(RunPhase::AwaitSlot, &RunEvent::Slot(false)).next, RunPhase::AwaitSlot);
    assert_eq!(step(RunPhase::AwaitSlot, &RunEvent::Slot(true)).next, RunPhase::OpenLog);
    assert_eq!(step(RunPhase::OpenLog, &RunEvent::Ready).next, RunPhase::CloneLog);
    assert_eq!(step(RunPhase::CloneLog, &RunEvent::Ready).next, RunPhase::Spawn);
    let started = step(RunPhase::Spawn, &RunEvent::Started(7));
    assert_eq!(started.next, RunPhase::Wait);
    assert_eq!(started.started, Some(7));
    assert_eq!(started.state, Some(NodeState::Running));
    let done = step(RunPhase::Wait, &RunEvent::Exited(Some(3)));
    assert_eq!(done.next, RunPhase::Over);
    assert_eq!(done.state, Some(NodeState::Done(3)));
    assert_eq!(done.exit_code, Some(3));
    assert!(done.release && done.ended && done.sample);
}

#[test]
fn a_node_fails_for_a_named_reason() {
    for (phase, event, reason, release) in [
        (
            RunPhase::AwaitDeps,
            RunEvent::Deps(vec![NodeState::Running, NodeState::Done(1)]),
            "dep failed",
            false,
        ),
        (RunPhase::OpenLog, RunEvent::Error("no".into()), "log create: no", true),
        (RunPhase::CloneLog, RunEvent::Error("no".into()), "log clone: no", true),
        (RunPhase::Spawn, RunEvent::Error("no".into()), "spawn: no", true),
        (RunPhase::Wait, RunEvent::Error("no".into()), "wait: no", true),
        (RunPhase::Wait, RunEvent::Exited(None), "signal", true),
    ] {
        let s = step(phase, &event);
        assert_eq!(s.next, RunPhase::Over);
        assert_eq!(s.state, Some(NodeState::Failed(reason.into())));
        assert_eq!(s.release, release);
    }
    for phase in [RunPhase::AwaitDeps, RunPhase::AwaitSlot] {
        let s = step(phase, &RunEvent::Shutdown);
        assert_eq!(s.next, RunPhase::Over);
        assert!(s.state.is_none() && !s.release);
    }
    // What does not belong to a phase changes nothing.
    assert_eq!(step(RunPhase::Wait, &RunEvent::Shutdown).next, RunPhase::Wait);
    assert_eq!(step(RunPhase::Over, &RunEvent::Slot(true)).next, RunPhase::Over);
    assert_eq!(judge(&vec![]), (false, true));
    assert_eq!(judge(&vec![NodeState::Failed("x".into()), NodeState::Waiting]), (true, false));
}

#[test]
fn requests_are_told_apart() {
    match handle_request(&build_submit(&[3, 0, 5], 0x77, 0), 10) {
        Request::Submit(deps, token) => {
            assert_eq!(deps, vec![3, 5]);
            assert_eq!(token, 0x77);
        }
        _ => panic!("not a submission"),
    }
    assert!(matches!(handle_request(&build_submit(&[], 1, 0), 63), Request::Submit(_, 1)));
    assert!(matches!(handle_request(&build_submit(&[], 1, 0), 64), Request::Spill));
    let mut bad = build_submit(&[], 1, 0);
    bad.set(1, 31);
    assert!(matches!(handle_request(&bad, 0), Request::Refuse(1)));
    assert!(matches!(handle_request(&build_kill(9), 0), Request::Kill(9)));
    assert!(matches!(handle_request(&build_kill(0), 0), Request::Refuse(4)));
    assert!(matches!(handle_request(&build_sub(4, 99), 0), Request::Subscribe(4, 99)));
    assert!(matches!(handle_request(&build_unsub(99), 0), Request::Unsubscribe(99)));
    assert!(matches!(handle_request(&build_quit(), 0), Request::Quit));
    assert!(matches!(handle_request(&build_ping(), 0), Request::Ping));
    assert!(matches!(handle_request(&build_ok(1), 0), Request::Ignore));
    assert!(matches!(handle_request(&Frame32::new(), 0), Request::Ignore));
}

#[test]
fn replies_name_what_became_of_a_request() {
    assert_eq!((spill_reply(0).op(), spill_reply(0).get(1)), (OP_ERR, 2));
    assert_eq!((spill_reply(8080).op(), spill_reply(8080).get(1)), (OP_REDIRECT, 8080));
    assert_eq!((submit_reply(None).op(), submit_reply(None).get(1)), (OP_ERR, 3));
    assert_eq!((submit_reply(Some(12)).op(), submit_reply(Some(12)).get(1)), (OP_OK, 12));
    assert_eq!(kill_reply(&KillOutcome::Killed(None)).op(), OP_OK);
    assert_eq!(kill_reply(&KillOutcome::NotFound).get(1), 5);
    assert_eq!(kill_reply(&KillOutcome::AlreadyFinished).get(1), 5);
    assert_eq!(decode_state(&state_news(6, &NodeState::Done(2))), Some((6, 3, 2)));
}

#[test]
fn news_goes_to_those_who_asked() {
    let mut s = Subscribers::new();
    s.subscribe(10, 0);
    s.subscribe(11, 5);
    s.subscribe(12, 6);
    s.subscribe(12, 5);
    let mut r = s.recipients(5);
    r.sort();
    assert_eq!(r, vec![10, 11, 12]);
    assert_eq!(s.recipients(6), vec![10]);
    s.unsubscribe(10);
    s.unsubscribe(99);
    assert_eq!(s.recipients(7), Vec::<u64>::new());
    let mut r = s.recipients(5);
    r.sort();
    assert_eq!(r, vec![11, 12]);
}

#[test]
fn clients_read_replies() {
    assert!(matches!(read_reply(&build_ok(6)), SubmitStep::Accepted(a) if a == "110"));
    assert!(matches!(read_reply(&build_redirect(81)), SubmitStep::Follow(81)));
    assert!(matches!(read_reply(&build_err(3)), SubmitStep::Failed(e) if e == "wrapper ERR code 3"));
    assert!(matches!(read_reply(&build_ping()), SubmitStep::Failed(e) if e == "unexpected reply op 8"));
    assert_eq!(try_again(2), Ok(()));
    assert_eq!(try_again(3), Err("too many spillover redirects".to_string()));
    assert_eq!(spill_with_port(&vec![None, Some(5), Some(6), Some(5)], 5), Some(1));
    assert_eq!(spill_with_port(&vec![None, Some(5)], 7), None);
    assert_eq!(no_spill_reason(9), "redirected to port 9 but no matching spill workdir found");
    assert_eq!(dep_ids(&vec!["1".into(), "101".into()]), Ok(vec![1, 5]));
    assert_eq!(dep_ids(&vec!["1".into(), "x".into(), "y".into()]), Err("bad dep addr: x".to_string()));
}

#[test]
fn waits_end_when_all_or_any_are_done() {
    let mut w = WaitSet::new(vec!["1".into(), "10".into()]);
    assert!(w.contains("10") && !w.contains("11"));
    assert!(!w.condition_met(true) && !w.condition_met(false));
    w.note("10", &NodeState::Running);
    assert_eq!(w.done_count(), 0);
    w.note("11", &NodeState::Failed("x".into()));
    assert!(!w.failed());
    w.note("10", &NodeState::Done(0));
    assert!(w.condition_met(true) && !w.condition_met(false));
    assert!(w.is_done(1) && !w.is_done(0));
    assert!(!w.failed());
    w.note("1", &NodeState::Done(7));
    assert!(w.condition_met(false));
    assert!(w.failed());
    assert_eq!(w.done_count(), 2);
    assert!(WaitSet::new(vec![]).condition_met(false));
    assert_eq!((exit_code(true), exit_code(false)), (1, 0));
    assert_eq!((mark(0), mark(3)), ("1", "-1"));
}

#[test]
fn news_name_the_node_to_look_at() {
    let w = WaitSet::new(vec!["101".into(), "11".into()]);
    let datagram = state_news(5, &NodeState::Done(0)).to_bytes();
    assert_eq!(w.news(&datagram), Some("101".to_string()));
    assert_eq!(w.news(&datagram[..127]), None);
    assert_eq!(w.news(&state_news(4, &NodeState::Running).to_bytes()), None);
    assert_eq!(w.news(&build_ok(5).to_bytes()), None);
    let mut damaged = datagram;
    damaged[9] ^= 4;
    assert_eq!(w.news(&damaged), None);
}

#[test]
fn nodes_are_refused_for_a_reason() {
    assert_eq!(no_room_reason(64), None);
    assert_eq!(no_room_reason(65), Some("spill node cap 64 exceeded".to_string()));
    assert_eq!(no_command_reason(0x1f), "inbox file missing for token 0000001f");
}

#[test]
fn frames_are_answered_as_they_ask() {
    let answer = |f: &Frame32| reply_at_once(&handle_request(f, 0)).map(|r| (r.op(), r.get(1)));
    let mut malformed = build_submit(&[1, 2], 9, 0);
    malformed.set(1, 31);
    assert_eq!(answer(&malformed), Some((OP_ERR, 1)));
    assert_eq!(answer(&build_kill(0)), Some((OP_ERR, 4)));
    assert_eq!(answer(&build_sub(0, 700)), Some((OP_OK, 0)));
    assert_eq!(answer(&build_unsub(700)), Some((OP_OK, 0)));
    assert_eq!(answer(&build_quit()), Some((OP_OK, 0)));
    assert_eq!(answer(&build_ping()), Some((OP_OK, 0)));
    assert_eq!(answer(&build_ok(5)), None);
    let mut unknown = Frame32::new();
    unknown.set_header(0xEE, 0);
    assert_eq!(answer(&unknown), None);
}

fn spawn_run(first: SpawnState, events: &[SpawnEvent]) -> SpawnState {
    events.iter().fold(first, |s, e| spawn_step(s, *e))
}

#[test]
fn schedulers_are_started_once_and_waited_for() {
    assert_eq!((seen(false, true), seen(true, false), seen(true, true)), (SpawnEvent::Nothing, SpawnEvent::Stale, SpawnEvent::Alive));
    assert_eq!(spawn_run(SpawnState::Look, &[SpawnEvent::Alive]), SpawnState::Ready);
    assert_eq!(spawn_run(SpawnState::Look, &[SpawnEvent::Stale]), SpawnState::Remove);
    assert_eq!(spawn_run(SpawnState::Look, &[SpawnEvent::Stale, SpawnEvent::Removed]), SpawnState::Start);
    assert_eq!(spawn_run(SpawnState::Look, &[SpawnEvent::Nothing, SpawnEvent::Failed]), SpawnState::GivenUp);
    assert_eq!(spawn_run(SpawnState::Look, &[SpawnEvent::Nothing, SpawnEvent::Started, SpawnEvent::Stale, SpawnEvent::Nothing]), SpawnState::Wait);
    assert_eq!(spawn_run(SpawnState::Look, &[SpawnEvent::Nothing, SpawnEvent::Started, SpawnEvent::Nothing, SpawnEvent::Alive]), SpawnState::Ready);
    assert_eq!(spawn_run(SpawnState::Wait, &[SpawnEvent::Nothing, SpawnEvent::DeadlinePassed, SpawnEvent::Alive]), SpawnState::GivenUp);
    assert_eq!(spawn_run(SpawnState::Look, &[SpawnEvent::DeadlinePassed, SpawnEvent::Removed, SpawnEvent::Started]), SpawnState::Look);
    assert_eq!(not_up_reason(), "tren-wrapper failed to come up within 5s");
}

#[test]
fn submissions_follow_two_redirects_and_no_more() {
    let mut s = first_submit();
    let mut sent = 0;
    for port in [7001u16, 7002, 7003] {
        assert!(matches!(s, SubmitState::Sending(n) if n == sent));
        s = submit_step(s, &SubmitEvent::Reply(build_redirect(port)));
        sent += 1;
        assert!(matches!(s, SubmitState::Searching(n, p) if n == sent && p == port));
        s = submit_step(s, &SubmitEvent::Found);
    }
    assert_eq!(sent, 3);
    assert!(matches!(&s, SubmitState::GivenUp(e) if e == "too many spillover redirects"));
    s = submit_step(s, &SubmitEvent::Found);
    assert!(matches!(s, SubmitState::GivenUp(_)));

    let s = submit_step(first_submit(), &SubmitEvent::Reply(build_ok(5)));
    assert!(matches!(&s, SubmitState::Made(addr) if addr == "101"));
    let s = submit_step(first_submit(), &SubmitEvent::Reply(build_err(3)));
    assert!(matches!(&s, SubmitState::GivenUp(e) if e == "wrapper ERR code 3"));
    let s = submit_step(first_submit(), &SubmitEvent::Reply(build_redirect(9)));
    let s = submit_step(s, &SubmitEvent::Missing);
    assert!(matches!(
        &s,
        SubmitState::GivenUp(e) if e == "redirected to port 9 but no matching spill workdir found"
    ));
    let s = submit_step(first_submit(), &SubmitEvent::Missing);
    assert!(matches!(s, SubmitState::Sending(0)));
}

#[test]
fn waits_tell_of_progress() {
    assert!(!progress_due(0, 0) && !progress_due(9, 0) && progress_due(10, 0) && !progress_due(10, 10));
    assert_eq!(progress_line("qwait", 1, 3, 20), "[qwait] 1/3 done at 20s");
    assert_eq!(
        probe_state(&vec![NodeState::Waiting, NodeState::Running, NodeState::Done(0)]),
        NodeState::Running
    );
    assert_eq!(probe_state(&vec![NodeState::Waiting]), NodeState::Waiting);
    assert_eq!(probe_state(&vec![]), NodeState::Waiting);
}

fn entry(name: &str, files: bool, alive: bool) -> Entry {
    Entry {
        name: name.into(),
        is_symlink: false,
        is_dir: true,
        has_port: files,
        has_pid: files,
        alive,
    }
}

#[test]
fn only_dead_spills_are_collected() {
    assert_eq!(classify_entry(&entry(".tren-000-a", true, false)), Verdict::Stale);
    assert_eq!(classify_entry(&entry(".tren-000-a", true, true)), Verdict::Alive);
    assert_eq!(classify_entry(&entry(".tren-foo", false, false)), Verdict::Foreign);
    assert_eq!(classify_entry(&entry(".git", true, false)), Verdict::Skip);
    assert_eq!(classify_entry(&entry("src", false, false)), Verdict::Descend);
    let mut link = entry(".tren-000-a", true, false);
    link.is_symlink = true;
    assert_eq!(classify_entry(&link), Verdict::Skip);
    assert!(sweepable(&entry(".tren-000-a", true, false), false));
    assert!(!sweepable(&entry(".tren-000-a", true, false), true));
    assert!(!sweepable(&entry(".tren-000-a", true, true), false));
}

#[test]
fn collections_walk_and_count() {
    let mut g = GcRun::new("/w".into(), false);
    assert_eq!(g.next_dir(), Some("/w".to_string()));
    assert_eq!(g.consider(&entry("a", false, false), "/w/a".into()), GcAction::Nothing);
    assert_eq!(g.consider(&entry(".tren-1-x", true, false), "/w/x".into()), GcAction::Remove);
    g.note_removed();
    assert_eq!(g.consider(&entry(".tren-1-y", true, true), "/w/y".into()), GcAction::ReportAlive);
    assert_eq!(g.consider(&entry(".tren-z", false, true), "/w/z".into()), GcAction::ReportForeign);
    assert_eq!(g.next_dir(), Some("/w/a".to_string()));
    assert_eq!(g.next_dir(), None);
    assert_eq!(g.summary(), "qworkdir --gc: removed 1 stale workdir(s), kept 1 alive");
    let mut d = GcRun::new("/w".into(), true);
    assert_eq!(d.consider(&entry(".tren-1-x", true, false), "/w/x".into()), GcAction::ReportStale);
    assert_eq!(
        d.summary(),
        "qworkdir --gc (dry-run): 1 stale workdir(s) would be removed, 0 alive kept"
    );
}

fn job(deps: Vec<usize>, work: u32) -> Node {
    Node { deps, work, subtree_size: 1, depth: 0 }
}

#[test]
fn simulated_workers_share_the_work() {
    // Four workers, five jobs of two steps: two rounds.
    let five: Vec<Node> = (0..5).map(|_| job(vec![], 2)).collect();
    assert_eq!(simulate(&five, &fifo_order(5)), 4);
    // A chain runs one after the other.
    let chain = vec![job(vec![], 3), job(vec![0], 1), job(vec![1], 2)];
    assert_eq!(simulate(&chain, &fifo_order(3)), 6);
    // Jobs that wait for each other never run.
    let stuck = vec![job(vec![1], 1), job(vec![0], 1), job(vec![], 2)];
    assert_eq!(simulate(&stuck, &fifo_order(3)), 2);
    assert_eq!(simulate(&vec![], &vec![]), 0);
    // The order decides: the long job first saves a step.
    let mut jobs: Vec<Node> = (0..4).map(|_| job(vec![], 1)).collect();
    jobs.push(job(vec![], 3));
    assert_eq!(simulate(&jobs, &fifo_order(5)), 4);
    jobs[4].subtree_size = 9;
    assert_eq!(simulate(&jobs, &subtree_order(&jobs)), 3);
}

#[test]
fn random_jobs_are_ordered_and_get_done() {
    let nodes = make_dag(128, 0xCAFE_F00D_DEAD_BEEF);
    assert_eq!(nodes.len(), 128);
    let mut work = 0u64;
    for (i, n) in nodes.iter().enumerate() {
        assert!(n.deps.len() <= 2 && n.deps.iter().all(|&d| d < i));
        assert!(1 <= n.work && n.work <= 7);
        let deepest = n.deps.iter().map(|&d| nodes[d].depth + 1).max().unwrap_or(0);
        assert_eq!(n.depth, deepest);
        work += n.work as u64;
    }
    assert_eq!(nodes[127].subtree_size, 1);
    let samples = training_samples(&nodes);
    let model = Tree32::train(&samples, 1);
    for order in [fifo_order(128), subtree_order(&nodes), tree_order(&nodes, &model)] {
        let steps = simulate(&nodes, &order);
        assert!(steps <= work && work <= 4 * steps);
    }
}

#[test]
fn the_number_source_is_a_xorshift() {
    let mut r = Rng::new(1);
    assert_eq!(r.next_u64(), 1082269761);
    assert_eq!(Rng::new(0).0, 1);
    let mut s = Rng::new(1);
    assert_eq!(s.range(1000), 761);
}
