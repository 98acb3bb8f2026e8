//! Frames, node trees and scheduling rules of a job queue that lives in a directory.

pub mod args;
pub mod args_laws;
pub mod autogc;
pub mod bignat;
pub mod bits;
pub mod client;
pub mod crc;
pub mod detect;
pub mod frame;
pub mod gc;
pub mod graph;
pub mod ids;
pub mod idtree;
pub mod message;
pub mod model;
pub mod node_state;
pub mod order;
pub mod priority;
pub mod queue;
pub mod requests;
pub mod research;
pub mod runner;
pub mod settings;
pub mod simulation;
pub mod spill;
pub mod startup;
pub mod table;
pub mod text;
pub mod training_laws;
pub mod weight;

pub use autogc::{read_autogc_log, record_autogc_removal, AUTOGC_LOG_MAX, AUTOGC_LOG_NAME};
pub use frame::{Frame32, FrameError};
pub use ids::{
    bit_addr_to_id, depth_of, id_to_bit_addr, leaves_for_node_count, parent_of, path_of, sibling_of,
};
pub use message::{
    build_err, build_kill, build_ok, build_ping, build_quit, build_redirect, build_state, build_sub,
    build_submit, build_unsub, decode_state, decode_submit, OP_ERR, OP_KILL, OP_OK, OP_PING, OP_QUIT,
    OP_REDIRECT, OP_STATE, OP_SUB, OP_SUBMIT, OP_UNSUB,
};
pub use node_state::{
    read_state, NodeState, STATE_DONE, STATE_FAILED, STATE_PENDING, STATE_RUNNING, STATE_WAITING,
};
pub use spill::{
    find_all_alive_spills, find_workdir, format_spill_name, fresh_client_token, fresh_token, inbox_path,
    list_nodes, node_dir, parse_spill_seq, read_port, read_wrapper_pid, SPILL_LEAF_CAP, SPILL_NODE_CAP,
    WORKDIR_PREFIX,
};
