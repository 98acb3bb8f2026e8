//! Command lines, settings, names and logs.

use tren::args::{
    expand_template, items_in_file, items_in_list, join, parse_qbind, parse_qclone, parse_qmap, parse_qrun,
    parse_qsub, parse_qwait, parse_qwait_mark, qbind_body, qsub_body, qwait_words, split_commands, status_row,
    ArgError,
};
use tren::autogc::read_autogc_log_lines;
use tren::idtree;
use tren::settings::{
    autogc_enabled, autogc_interval, determine_spill_seq, first_nonws_byte, model_buffer_capacity,
    model_retrain_every, next_seq,
};
use tren::spill::{find_next_spill, join_path, spill_is_full, Candidate, SpillEntry};
use tren::{
    bit_addr_to_id, depth_of, find_all_alive_spills, find_workdir, format_spill_name, fresh_client_token,
    fresh_token, id_to_bit_addr, inbox_path, leaves_for_node_count, list_nodes, node_dir, parent_of,
    parse_spill_seq, path_of, read_autogc_log, read_port, read_state, read_wrapper_pid,
    record_autogc_removal, sibling_of, NodeState, AUTOGC_LOG_MAX, SPILL_LEAF_CAP, SPILL_NODE_CAP,
};

fn v(words: &[&str]) -> Vec<String> {
    words.iter().map(|s| s.to_string()).collect()
}

#[test]
fn spill_name_format_3digit_then_4digit() {
    assert_eq!(format_spill_name(0, "abc"), ".tren-000-abc");
    assert_eq!(format_spill_name(7, "abc"), ".tren-007-abc");
    assert_eq!(format_spill_name(999, "abc"), ".tren-999-abc");
    assert_eq!(format_spill_name(1000, "abc"), ".tren-1000-abc");
    assert_eq!(format_spill_name(9999, "abc"), ".tren-9999-abc");
    // Inverse parse.
    assert_eq!(parse_spill_seq(".tren-000-abc"), Some(0));
    assert_eq!(parse_spill_seq(".tren-007-abc"), Some(7));
    assert_eq!(parse_spill_seq(".tren-1000-abc"), Some(1000));
    // Legacy: name without numeric prefix → None.
    assert_eq!(parse_spill_seq(".tren-deadbeef"), None);
}

#[test]
fn submissions_are_read() {
    let a = parse_qsub(&v(&["--after", "1", "10", "--owner", "me", "--", "echo", "--owner"])).ok().unwrap();
    assert_eq!(a.deps, v(&["1", "10"]));
    assert_eq!(a.owner, Some("me".to_string()));
    assert_eq!(a.cmd, v(&["echo", "--owner"]));
    assert_eq!(qsub_body(&a), "export TREN_OWNER=me\necho --owner");
    let b = parse_qsub(&v(&["echo", "hi"])).ok().unwrap();
    assert_eq!(qsub_body(&b), "echo hi");
    assert_eq!(parse_qsub(&v(&[])).err(), Some(ArgError::Usage));
    assert_eq!(parse_qsub(&v(&["--after", "1"])).err(), Some(ArgError::Missing));
    assert_eq!(parse_qsub(&v(&["--owner"])).err(), Some(ArgError::Missing));
}

#[test]
fn gatherings_are_read() {
    let (deps, cmd) = parse_qbind(&v(&["1", "10", "--", "echo", "--", "x"])).ok().unwrap();
    assert_eq!(deps, v(&["1", "10"]));
    assert_eq!(cmd, v(&["echo", "--", "x"]));
    assert_eq!(qbind_body("n", &cmd), "export TREN_NS=n\necho -- x");
    assert_eq!(parse_qbind(&v(&[])).err(), Some(ArgError::Usage));
    assert_eq!(parse_qbind(&v(&["1", "--"])).err(), Some(ArgError::Missing));
    assert_eq!(parse_qbind(&v(&["--", "x"])).err(), Some(ArgError::Missing));
    assert_eq!(parse_qbind(&v(&["1", "x"])).err(), Some(ArgError::Missing));
}

#[test]
fn scatterings_are_read() {
    let a = parse_qmap(&v(&["--after", "1", "--", "a:b", "echo", "{}"])).ok().unwrap();
    assert_eq!(a.deps, v(&["1"]));
    assert_eq!(a.items, "a:b");
    assert_eq!(a.template, "echo {}");
    assert_eq!(parse_qmap(&v(&["x"])).err(), Some(ArgError::Usage));
    assert_eq!(parse_qmap(&v(&["--after", "1", "x"])).err(), Some(ArgError::Missing));
    assert_eq!(items_in_list("a: b ::c"), v(&["a", "b", "c"]));
    assert_eq!(items_in_list(" one "), v(&[" one "]));
    assert_eq!(items_in_list(":"), v(&[]));
    assert_eq!(items_in_file("x\r\n\n  y \n \nz"), v(&["x", "y", "z"]));
    assert_eq!(expand_template("cp {} {}.bak {", "f"), "cp f f.bak {");
    assert_eq!(expand_template("{{}}", "x"), "{x}");
    assert_eq!(expand_template("", "x"), "");
}

#[test]
fn runs_and_waits_are_read() {
    let a = parse_qrun(&v(&["--marker", "m", "--any", "--parallel", "a", "b", ":::", ":::", "c"])).ok().unwrap();
    assert_eq!(a.marker, Some("m".to_string()));
    assert!(a.any_mode && a.parallel);
    assert_eq!(split_commands(&a.tail, true), v(&["a b", "c"]));
    assert_eq!(split_commands(&a.tail, false), v(&["a b ::: ::: c"]));
    assert_eq!(parse_qrun(&v(&[])).err(), Some(ArgError::Usage));
    assert_eq!(parse_qrun(&v(&["--marker"])).err(), Some(ArgError::NeedsValue));
    assert_eq!(parse_qrun(&v(&["--any"])).err(), Some(ArgError::Missing));
    assert_eq!(parse_qwait(&v(&["--any", "1"])), Ok((true, v(&["1"]))));
    assert_eq!(parse_qwait(&v(&["1", "--any"])), Ok((false, v(&["1", "--any"]))));
    assert_eq!(parse_qwait(&v(&["--any"])), Err(ArgError::Missing));
    assert_eq!(parse_qwait(&v(&[])), Err(ArgError::Usage));
    assert_eq!(join(&v(&["a", "b", "c"]), ", "), "a, b, c");
    assert_eq!(join(&v(&[]), ", "), "");
}

#[test]
fn marked_waits_are_read() {
    let a = parse_qwait_mark(&v(&["1", "--any", "10", "out.txt"])).ok().unwrap();
    assert_eq!(a.marker, Some("out.txt".to_string()));
    assert_eq!(a.any_count, 1);
    assert_eq!(a.targets, v(&["1", "10"]));
    let b = parse_qwait_mark(&v(&["--marker", "m", "1", "out.txt"])).ok().unwrap();
    assert_eq!(b.marker, Some("m".to_string()));
    assert_eq!(b.targets, v(&["1", "out.txt"]));
    let c = parse_qwait_mark(&v(&["1"])).ok().unwrap();
    assert_eq!(c.marker, None);
    assert_eq!(parse_qwait_mark(&v(&[])).err(), Some(ArgError::Usage));
    assert_eq!(parse_qwait_mark(&v(&["-h"])).err(), Some(ArgError::Help));
    assert_eq!(parse_qwait_mark(&v(&["1", "--marker"])).err(), Some(ArgError::NeedsValue));
    assert_eq!(parse_qwait_mark(&v(&["012"])).err(), Some(ArgError::Missing));
}

#[test]
fn clones_are_read() {
    assert_eq!(parse_qclone(&v(&[])), Ok(1));
    assert_eq!(parse_qclone(&v(&["--depth", "5"])), Ok(5));
    assert_eq!(parse_qclone(&v(&["--depth", "9", "--depth", "0"])), Ok(0));
    assert_eq!(parse_qclone(&v(&["--depth", "6"])), Err(ArgError::TooDeep));
    assert_eq!(parse_qclone(&v(&["--depth"])), Err(ArgError::NeedsValue));
    assert_eq!(parse_qclone(&v(&["--depth", "x"])), Err(ArgError::NeedsValue));
    assert_eq!(parse_qclone(&v(&["--depth", "1", "y"])), Err(ArgError::Unknown(2)));
}

#[test]
fn status_rows_are_aligned() {
    assert_eq!(
        status_row("10", "1", "DONE(0)", "77", "echo hi"),
        format!("{:<10} {:>4} {:<14} {:<12} {}", "10", "1", "DONE(0)", "77", "echo hi")
    );
    assert_eq!(
        status_row("10101010101", "12345", "FAILED(dep failed)", "", ""),
        format!("{:<10} {:>4} {:<14} {:<12} {}", "10101010101", "12345", "FAILED(dep failed)", "", "")
    );
}

#[test]
fn settings_have_defaults() {
    assert_eq!(model_buffer_capacity(None), 256);
    assert_eq!(model_buffer_capacity(Some(" 12 ")), 12);
    assert_eq!(model_buffer_capacity(Some("0")), 256);
    assert_eq!(model_buffer_capacity(Some("-3")), 256);
    assert_eq!(model_retrain_every(None), 32);
    assert_eq!(model_retrain_every(Some("7")), 7);
    assert!(autogc_enabled(None) && autogc_enabled(Some("yes")) && autogc_enabled(Some("")));
    for s in ["0", " OFF ", "False", "nO"] {
        assert!(!autogc_enabled(Some(s)), "{}", s);
    }
    assert_eq!(autogc_interval(None), 120);
    assert_eq!(autogc_interval(Some("0")), 1);
    assert_eq!(autogc_interval(Some("5\n")), 5);
    assert_eq!(autogc_interval(Some("x")), 120);
    assert_eq!(next_seq(None), 1);
    assert_eq!(next_seq(Some("41\n")), 42);
    assert_eq!(determine_spill_seq(Some("9"), &v(&[".tren-020-x"])), 9);
    assert_eq!(determine_spill_seq(None, &v(&[".tren-003-x", "y", ".tren-001-z"])), 4);
    assert_eq!(determine_spill_seq(Some("x"), &v(&[])), 0);
    assert_eq!(first_nonws_byte(b" \t\r\n\x0Cecho"), Some(b'e'));
    assert_eq!(first_nonws_byte(b"   "), None);
    assert_eq!(first_nonws_byte(&[b' '; 64]), None);
    let mut long = vec![b' '; 64];
    long.push(b'x');
    assert_eq!(first_nonws_byte(&long), None);
}

#[test]
fn states_are_written_and_read() {
    for s in [
        NodeState::Waiting,
        NodeState::Pending,
        NodeState::Running,
        NodeState::Done(0),
        NodeState::Done(-7),
        NodeState::Failed("a (b) c".into()),
    ] {
        assert_eq!(NodeState::parse(&s.label()), s);
        assert!(s.same(&s.copy()));
    }
    assert_eq!(NodeState::Done(-7).label(), "DONE(-7)");
    assert_eq!(NodeState::parse(" DONE(x) "), NodeState::Done(0));
    assert_eq!(NodeState::parse("FAILED"), NodeState::Failed("FAILED".into()));
    assert_eq!(NodeState::parse("whatever"), NodeState::Waiting);
    assert_eq!(read_state(None), NodeState::Waiting);
    assert_eq!(read_state(Some("PENDING\n")), NodeState::Pending);
    assert_eq!(NodeState::Done(300).payload(), 300);
    assert_eq!(NodeState::Done(-1).payload(), 0x7FFF_FFFF);
    assert_eq!(NodeState::Failed("a".into()).payload(), 0x640C_292C);
    assert_eq!(NodeState::Running.payload(), 0);
    let codes: Vec<u32> = [
        NodeState::Waiting,
        NodeState::Pending,
        NodeState::Running,
        NodeState::Done(1),
        NodeState::Failed("x".into()),
    ]
    .iter()
    .map(|s| s.code())
    .collect();
    assert_eq!(codes, vec![0, 1, 2, 3, 4]);
    assert!(NodeState::Done(0).is_success() && !NodeState::Done(1).is_success());
}

#[test]
fn ids_form_a_tree() {
    assert_eq!(id_to_bit_addr(6), "110");
    assert_eq!(bit_addr_to_id("110"), Some(6));
    assert_eq!(bit_addr_to_id("0"), None);
    assert_eq!(bit_addr_to_id("12"), None);
    assert_eq!(depth_of(1), 0);
    assert_eq!(depth_of(13), 3);
    assert_eq!(path_of(13), 5);
    assert_eq!(parent_of(13), Some(6));
    assert_eq!(parent_of(1), None);
    assert_eq!(sibling_of(13), Some(12));
    assert_eq!(sibling_of(1), None);
    assert_eq!((leaves_for_node_count(0), leaves_for_node_count(1), leaves_for_node_count(64)), (0, 1, 32));
    assert_eq!((SPILL_LEAF_CAP, SPILL_NODE_CAP), (32, 64));
    assert!(!spill_is_full(63) && spill_is_full(64));
    assert_eq!(idtree::lca(12, 13), 6);
    assert_eq!(idtree::lca(8, 15), 1);
    assert_eq!(idtree::path_distance(12, 13), 2);
    assert_eq!(idtree::leaf_range(3), (8, 15));
    assert_eq!(idtree::merge_id(12, 13), 6);
    assert_eq!(idtree::path_to_id(idtree::path_bits(13), 3), 13);
    assert_eq!(idtree::subtree_size(1, 3), 15);
    assert_eq!(idtree::subtree_size(2, 63), u64::MAX >> 1);
    assert_eq!(idtree::subtree_size(u64::MAX, 100), (1 << 38) - 1);
    assert!(idtree::are_siblings(12, 13) && !idtree::are_siblings(13, 14));
    assert_eq!(idtree::xnor_diversity(0, 0), 64);
    assert_eq!((idtree::left_child(5), idtree::right_child(5)), (10, 11));
}

#[test]
fn nodes_are_listed_by_id() {
    let names = v(&["11", "x", "1", "10"]);
    let order = list_nodes(&names);
    let sorted: Vec<&str> = order.iter().map(|&i| names[i].as_str()).collect();
    assert_eq!(sorted, vec!["x", "1", "10", "11"]);
}

#[test]
fn paths_are_joined() {
    assert_eq!(node_dir("/w", "10"), "/w/tree/10");
    assert_eq!(inbox_path("/w", 0xAB), "/w/inbox/000000ab.sh");
    assert_eq!(join_path("/", "x"), "/x");
    assert_eq!(read_port(" 8080\n"), Some(8080));
    assert_eq!(read_port("65536"), None);
    assert_eq!(read_wrapper_pid("4294967295"), Some(u32::MAX));
    assert_eq!(read_wrapper_pid("pid"), None);
}

#[test]
fn tokens_depend_on_their_sources() {
    assert_ne!(fresh_token(1, 2), fresh_token(2, 2));
    assert_ne!(fresh_token(1, 2), fresh_token(1, 3));
    let a = fresh_client_token(1, 2, 3);
    assert!(a < 0x8000_0000);
    assert_ne!(a, fresh_client_token(1, 2, 4));
}

fn candidate(seq: u64, alive: bool) -> Candidate {
    Candidate { seq, alive }
}

#[test]
fn the_newest_live_spill_nearby_is_found() {
    let levels = vec![
        vec![],
        vec![candidate(0, true), candidate(3, true), candidate(5, false)],
        vec![candidate(9, true)],
    ];
    assert_eq!(find_workdir(&levels), Some((1, 1)));
    assert_eq!(find_all_alive_spills(&levels), Some((1, vec![0, 1])));
    assert_eq!(find_workdir(&vec![vec![]]), None);
}

#[test]
fn the_next_spill_is_found_once_it_is_ready() {
    let e = |name: &str, port: Option<u16>, alive: bool| SpillEntry { name: name.into(), port, alive };
    let entries = vec![
        e(".tren-001-a", Some(1), true),
        e(".tren-002-b", None, true),
        e(".tren-002-c", Some(3), false),
        e(".tren-002-d", Some(4), true),
    ];
    assert_eq!(find_next_spill(&entries, 2), Some(4));
    assert_eq!(find_next_spill(&entries, 3), None);
}

#[test]
fn removals_are_logged_newest_last() {
    let mut log = record_autogc_removal(None, 5, "/a b");
    assert_eq!(log, "5 /a b\n");
    for i in 0..20u64 {
        log = record_autogc_removal(Some(&log), 100 + i, "/x");
    }
    let entries = read_autogc_log(Some(&log));
    assert_eq!(entries.len(), AUTOGC_LOG_MAX);
    assert_eq!(entries[AUTOGC_LOG_MAX - 1], (119, "/x".to_string()));
    assert_eq!(entries[0], (104, "/x".to_string()));
    assert_eq!(read_autogc_log(Some("bad\n7 /y\n\nx /z\n8\n")), vec![(7, "/y".to_string())]);
    assert_eq!(read_autogc_log_lines(Some("a\r\n\nb")), v(&["a", "b"]));
    assert!(read_autogc_log(None).is_empty());
}

#[test]
fn only_the_first_any_is_an_option_of_the_wait() {
    let args: Vec<String> =
        ["--any", "101", "--any", "11", "out"].iter().map(|s| s.to_string()).collect();
    let a = parse_qwait_mark(&args).unwrap();
    assert_eq!(a.marker.as_deref(), Some("out"));
    let words = qwait_words(&a);
    assert_eq!(words, ["--any", "--any", "101", "11"]);
    assert_eq!(parse_qwait(&words).unwrap(), (true, words[1..].to_vec()));
    let plain: Vec<String> = vec!["101".into()];
    let b = parse_qwait_mark(&plain).unwrap();
    assert_eq!(qwait_words(&b), plain);
}
