//! States of a node, and how they are written down.

use vstd::prelude::*;

use crate::args_laws;
use crate::research::stats;
use crate::text;

verus! {

broadcast use vstd::string::group_string_axioms;

pub const STATE_WAITING: u32 = 0;

pub const STATE_PENDING: u32 = 1;

pub const STATE_RUNNING: u32 = 2;

pub const STATE_DONE: u32 = 3;

pub const STATE_FAILED: u32 = 4;

/// The state of a node.
#[derive(Clone, Debug, PartialEq, Eq)]
pub enum NodeState {
    /// Dependencies are not finished.
    Waiting,
    /// Ready to run.
    Pending,
    /// A process is running.
    Running,
    /// The process ended with this code.
    Done(i32),
    /// The node could not be run, for this reason.
    Failed(String),
}

/// A state with its text as a sequence of characters.
pub enum StateView {
    Waiting,
    Pending,
    Running,
    Done(int),
    Failed(Seq<char>),
}

impl View for NodeState {
    type V = StateView;

    open spec fn view(&self) -> StateView {
        match self {
            NodeState::Waiting => StateView::Waiting,
            NodeState::Pending => StateView::Pending,
            NodeState::Running => StateView::Running,
            NodeState::Done(c) => StateView::Done(*c as int),
            NodeState::Failed(e) => StateView::Failed(e@),
        }
    }
}

/// A state as text.
pub open spec fn label_of(s: StateView) -> Seq<char> {
    match s {
        StateView::Waiting => "WAITING"@,
        StateView::Pending => "PENDING"@,
        StateView::Running => "RUNNING"@,
        StateView::Done(c) => "DONE("@ + text::signed_digits(c) + ")"@,
        StateView::Failed(e) => "FAILED("@ + e + ")"@,
    }
}

/// The code between the parenthesis after `DONE` and the first closing one, if it is a number.
pub open spec fn done_code(rest: Seq<char>) -> Option<int> {
    if rest.contains(')') {
        let end = choose|i: int| text::first_at(rest, ')', i);
        text::signed_value(rest.take(end))
    } else {
        None
    }
}

/// The text between the parenthesis after `FAILED` and the last closing one.
pub open spec fn failed_reason(rest: Seq<char>) -> Option<Seq<char>> {
    if rest.contains(')') {
        let end = choose|i: int| text::last_at(rest, ')', i);
        Some(rest.take(end))
    } else {
        None
    }
}

/// The state that a text stands for, white space around it ignored. What is not recognised
/// counts as waiting.
pub open spec fn state_of(s: Seq<char>) -> StateView {
    let t = text::trimmed(s);
    let done = t.skip("DONE("@.len() as int);
    let failed = t.skip("FAILED("@.len() as int);
    if t == "WAITING"@ {
        StateView::Waiting
    } else if t == "PENDING"@ {
        StateView::Pending
    } else if t == "RUNNING"@ {
        StateView::Running
    } else if text::begins_with(t, "DONE("@) && done_code(done) is Some {
        StateView::Done(done_code(done).unwrap())
    } else if text::begins_with(t, "FAILED("@) && failed_reason(failed) is Some {
        StateView::Failed(failed_reason(failed).unwrap())
    } else if text::begins_with(t, "DONE"@) {
        StateView::Done(0)
    } else if text::begins_with(t, "FAILED"@) {
        StateView::Failed(t)
    } else {
        StateView::Waiting
    }
}

/// The code of a state in a frame.
pub open spec fn code_of(s: StateView) -> u32 {
    match s {
        StateView::Waiting => STATE_WAITING,
        StateView::Pending => STATE_PENDING,
        StateView::Running => STATE_RUNNING,
        StateView::Done(_) => STATE_DONE,
        StateView::Failed(_) => STATE_FAILED,
    }
}

/// What a frame says beside the code: the exit code or a hash of the reason, 31 bits of it.
pub open spec fn payload_of(s: StateView) -> int {
    match s {
        StateView::Done(c) => c % 0x8000_0000,
        StateView::Failed(e) => (stats::fnv(0x811c_9dc5, vstd::utf8::encode_utf8(e)) % 0x8000_0000) as int,
        _ => 0,
    }
}

/// Whether a node in this state will change no more.
pub open spec fn finished(s: StateView) -> bool {
    s is Done || s is Failed
}

impl NodeState {
    /// The same state again.
    pub fn copy(&self) -> (s: Self)
        ensures
            s@ == self@,
    {
        match self {
            NodeState::Waiting => NodeState::Waiting,
            NodeState::Pending => NodeState::Pending,
            NodeState::Running => NodeState::Running,
            NodeState::Done(c) => NodeState::Done(*c),
            NodeState::Failed(e) => NodeState::Failed(e.clone()),
        }
    }

    /// Whether two states are the same.
    pub fn same(&self, other: &NodeState) -> (r: bool)
        ensures
            r == (self@ == other@),
    {
        match (self, other) {
            (NodeState::Waiting, NodeState::Waiting) => true,
            (NodeState::Pending, NodeState::Pending) => true,
            (NodeState::Running, NodeState::Running) => true,
            (NodeState::Done(a), NodeState::Done(b)) => *a == *b,
            (NodeState::Failed(a), NodeState::Failed(b)) => *a == *b,
            _ => false,
        }
    }

    /// The state as text.
    pub fn label(&self) -> (s: String)
        ensures
            s@ == label_of(self@),
    {
        match self {
            NodeState::Waiting => "WAITING".to_owned(),
            NodeState::Pending => "PENDING".to_owned(),
            NodeState::Running => "RUNNING".to_owned(),
            NodeState::Done(c) => {
                let mut s = "DONE(".to_owned();
                text::push_signed(&mut s, *c);
                s.append(")");
                s
            },
            NodeState::Failed(e) => {
                let mut s = "FAILED(".to_owned();
                s.append(e.as_str());
                s.append(")");
                s
            },
        }
    }

    /// Reads a state.
    pub fn parse(s: &str) -> (r: Self)
        ensures
            r@ == state_of(s@),
    {
        let v = text::chars_of(s);
        let t = text::trim(&v);
        if text::equals(&t, "WAITING") {
            return NodeState::Waiting;
        }
        if text::equals(&t, "PENDING") {
            return NodeState::Pending;
        }
        if text::equals(&t, "RUNNING") {
            return NodeState::Running;
        }
        if let Some(rest) = text::strip_prefix(&t, "DONE(") {
            if let Some(end) = text::find(&rest, ')') {
                proof {
                    text::first_is_unique(rest@, ')', end as int);
                }
                let inner = text::cut(&rest, 0, end);
                assert(inner@ =~= rest@.take(end as int));
                if let Some(c) = text::parse_i32(&inner) {
                    return NodeState::Done(c);
                }
            }
        }
        if let Some(rest) = text::strip_prefix(&t, "FAILED(") {
            if let Some(end) = text::rfind(&rest, ')') {
                proof {
                    text::last_is_unique(rest@, ')', end as int);
                }
                let inner = text::cut(&rest, 0, end);
                assert(inner@ =~= rest@.take(end as int));
                return NodeState::Failed(text::string_of(&inner));
            }
        }
        if text::strip_prefix(&t, "DONE").is_some() {
            return NodeState::Done(0);
        }
        if text::strip_prefix(&t, "FAILED").is_some() {
            return NodeState::Failed(text::string_of(&t));
        }
        NodeState::Waiting
    }

    /// Whether the node will change no more.
    pub fn is_finished(&self) -> (r: bool)
        ensures
            r == finished(self@),
    {
        match self {
            NodeState::Done(_) => true,
            NodeState::Failed(_) => true,
            _ => false,
        }
    }

    /// Whether the node ended with code zero.
    pub fn is_success(&self) -> (r: bool)
        ensures
            r == (self@ == StateView::Done(0)),
    {
        match self {
            NodeState::Done(c) => *c == 0,
            _ => false,
        }
    }

    /// The code of the state in a frame.
    pub fn code(&self) -> (c: u32)
        ensures
            c == code_of(self@),
    {
        match self {
            NodeState::Waiting => STATE_WAITING,
            NodeState::Pending => STATE_PENDING,
            NodeState::Running => STATE_RUNNING,
            NodeState::Done(_) => STATE_DONE,
            NodeState::Failed(_) => STATE_FAILED,
        }
    }

    /// What a frame says beside the code.
    pub fn payload(&self) -> (p: u32)
        ensures
            p == payload_of(self@),
    {
        match self {
            NodeState::Done(c) => {
                proof {
                    low_bits_of_code(*c);
                }
                (*c as i64 as u64) as u32 & 0x7FFF_FFFF
            },
            NodeState::Failed(e) => {
                let h: u32 = stats::fnv1a_32(e.as_str().as_bytes());
                proof {
                    crate::frame::header_bits(h, 0);
                }
                h & 0x7FFF_FFFF
            },
            _ => 0,
        }
    }
}

proof fn low_bits_of_code(c: i32)
    by (bit_vector)
    ensures
        (c as i64 as u64) as u32 & 0x7FFF_FFFF == (if c >= 0 {
            c as int
        } else {
            c + 0x8000_0000
        }),
{
}

/// The state that a state file stands for; a missing file means that the node waits.
pub fn read_state(contents: Option<&str>) -> (r: NodeState)
    ensures
        r@ == (match contents {
            Some(s) => state_of(s@),
            None => StateView::Waiting,
        }),
{
    match contents {
        Some(s) => NodeState::parse(s),
        None => NodeState::Waiting,
    }
}

/// A state that was written down is read back as itself.
pub proof fn law_label_reads_back(s: NodeState)
    ensures
        state_of(label_of(s@)) == s@,
{
    reveal_strlit("WAITING");
    reveal_strlit("PENDING");
    reveal_strlit("RUNNING");
    reveal_strlit("DONE(");
    reveal_strlit("DONE");
    reveal_strlit("FAILED(");
    reveal_strlit("FAILED");
    reveal_strlit(")");
    let l = label_of(s@);
    match s {
        NodeState::Waiting => {
            text::trimmed_is_identity(l);
        },
        NodeState::Pending => {
            text::trimmed_is_identity(l);
        },
        NodeState::Running => {
            text::trimmed_is_identity(l);
        },
        NodeState::Done(c) => {
            let d = text::signed_digits(c as int);
            text::law_signed_round_trip(c);
            signed_digits_plain(c);
            assert(l[0] == 'D' && l.last() == ')');
            text::trimmed_is_identity(l);
            assert(l.take(5) =~= "DONE("@);
            let rest = l.skip(5);
            assert(rest =~= d + ")"@);
            assert(text::first_at(rest, ')', d.len() as int));
            text::first_is_unique(rest, ')', d.len() as int);
            assert(rest.take(d.len() as int) =~= d);
        },
        NodeState::Failed(e) => {
            assert(l[0] == 'F' && l.last() == ')');
            text::trimmed_is_identity(l);
            assert(l.take(7) =~= "FAILED("@);
            let rest = l.skip(7);
            assert(rest =~= e@ + ")"@);
            assert(text::last_at(rest, ')', e@.len() as int));
            text::last_is_unique(rest, ')', e@.len() as int);
            assert(rest.take(e@.len() as int) =~= e@);
        },
    }
}

/// A written number has no closing parenthesis.
proof fn signed_digits_plain(c: i32)
    ensures
        forall|i: int| 0 <= i < text::signed_digits(c as int).len() ==> text::signed_digits(c as int)[i] != ')',
{
    let d = text::signed_digits(c as int);
    if c < 0 {
        text::law_digits_read_back((-c) as nat, 10);
        let u = text::digits((-c) as nat, 10);
        assert forall|i: int| 0 <= i < d.len() implies d[i] != ')' by {
            if i > 0 {
                assert(d[i] == u[i - 1]);
                assert(text::is_digit(u[i - 1], 10));
            }
        }
    } else {
        text::law_digits_read_back(c as nat, 10);
        assert forall|i: int| 0 <= i < d.len() implies d[i] != ')' by {
            assert(text::is_digit(d[i], 10));
        }
    }
}

/// A state that was written down is read, whatever white space stands around it: each name for its
/// state, a number in parentheses after `DONE` as the exit code, and any text at all in parentheses
/// after `FAILED` as the reason.
pub proof fn law_written_state_is_read(before: Seq<char>, after: Seq<char>, c: i32, e: Seq<char>)
    requires
        args_laws::white(before),
        args_laws::white(after),
    ensures
        state_of(before + "WAITING"@ + after) == StateView::Waiting,
        state_of(before + "PENDING"@ + after) == StateView::Pending,
        state_of(before + "RUNNING"@ + after) == StateView::Running,
        state_of(before + ("DONE("@ + text::signed_digits(c as int) + ")"@) + after) == StateView::Done(c as int),
        state_of(before + ("FAILED("@ + e + ")"@) + after) == StateView::Failed(e),
        state_of(before + "DONE"@ + after) == StateView::Done(0),
        state_of(before + "FAILED"@ + after) == StateView::Failed("FAILED"@),
{
    reveal_strlit("WAITING");
    reveal_strlit("PENDING");
    reveal_strlit("RUNNING");
    reveal_strlit("DONE(");
    reveal_strlit("DONE");
    reveal_strlit("FAILED(");
    reveal_strlit("FAILED");
    reveal_strlit(")");
    args_laws::law_trimming_cuts_white_space_only(before, "WAITING"@, after);
    args_laws::law_trimming_cuts_white_space_only(before, "PENDING"@, after);
    args_laws::law_trimming_cuts_white_space_only(before, "RUNNING"@, after);
    args_laws::law_trimming_cuts_white_space_only(before, "DONE"@, after);
    args_laws::law_trimming_cuts_white_space_only(before, "FAILED"@, after);
    assert("DONE"@.take(4) =~= "DONE"@);
    assert("FAILED"@.take(6) =~= "FAILED"@);
    assert("FAILED"@.take(4)[0] == 'F');
    assert("FAILED"@.take(5)[0] == 'F');
    assert("FAILED"@[0] == 'F' && "PENDING"@[0] == 'P' && "RUNNING"@[0] == 'R' && "WAITING"@[0] == 'W');
    let d = "DONE("@ + text::signed_digits(c as int) + ")"@;
    assert(d[0] == 'D' && d.last() == ')');
    args_laws::law_trimming_cuts_white_space_only(before, d, after);
    text::trimmed_is_identity(d);
    law_label_reads_back(NodeState::Done(c));
    let f = "FAILED("@ + e + ")"@;
    assert(f[0] == 'F' && f.last() == ')');
    args_laws::law_trimming_cuts_white_space_only(before, f, after);
    assert(f.take(7) =~= "FAILED("@);
    assert(f.take(5)[0] == 'F');
    assert("DONE("@[0] == 'D');
    let rest = f.skip(7);
    assert(rest =~= e + ")"@);
    assert(text::last_at(rest, ')', e.len() as int));
    text::last_is_unique(rest, ')', e.len() as int);
    assert(rest.take(e.len() as int) =~= e);
}

/// Whatever begins otherwise than a name of a state counts as waiting, and so does nothing at all.
pub proof fn law_unknown_state_waits(s: Seq<char>)
    requires
        s.len() == 0 || !text::white_space(s[0]) && !text::white_space(s.last()),
        s.len() > 0 ==> s[0] != 'P' && s[0] != 'R' && s[0] != 'D' && s[0] != 'F',
    ensures
        state_of(s) == StateView::Waiting,
{
    reveal_strlit("PENDING");
    reveal_strlit("RUNNING");
    reveal_strlit("DONE(");
    reveal_strlit("DONE");
    reveal_strlit("FAILED(");
    reveal_strlit("FAILED");
    if s.len() > 0 {
        text::trimmed_is_identity(s);
        assert(s.len() >= 4 ==> s.take(4)[0] == s[0]);
        assert(s.len() >= 5 ==> s.take(5)[0] == s[0]);
        assert(s.len() >= 6 ==> s.take(6)[0] == s[0]);
        assert(s.len() >= 7 ==> s.take(7)[0] == s[0]);
    }
    assert("PENDING"@[0] == 'P' && "RUNNING"@[0] == 'R' && "DONE("@[0] == 'D' && "DONE"@[0] == 'D' && "FAILED("@[0]
        == 'F' && "FAILED"@[0] == 'F');
}

/// The codes count the states in the order in which a node goes through them, and only the two
/// last are final. An exit code that is not negative is told as it is, and other states than the
/// final ones tell nothing more.
pub proof fn law_codes_of_states(s: StateView)
    ensures
        code_of(s) == 0 <==> s is Waiting,
        code_of(s) == 1 <==> s is Pending,
        code_of(s) == 2 <==> s is Running,
        code_of(s) == 3 <==> s is Done,
        code_of(s) == 4 <==> s is Failed,
        finished(s) <==> code_of(s) >= 3,
        s matches StateView::Done(c) ==> (0 <= c <= i32::MAX ==> payload_of(s) == c) && (i32::MIN <= c < 0
            ==> payload_of(s) == c + 2147483648),
        !finished(s) ==> payload_of(s) == 0,
        0 <= payload_of(s) < 2147483648,
{
}

} // verus!
