//! The messages that frames carry.

use vstd::prelude::*;

use crate::bits;
use crate::frame;
use crate::frame::Frame32;

verus! {

pub const OP_SUBMIT: u32 = 1;

pub const OP_SUB: u32 = 2;

pub const OP_UNSUB: u32 = 3;

pub const OP_STATE: u32 = 4;

pub const OP_OK: u32 = 5;

pub const OP_ERR: u32 = 6;

pub const OP_QUIT: u32 = 7;

pub const OP_PING: u32 = 8;

pub const OP_KILL: u32 = 9;

pub const OP_REDIRECT: u32 = 10;

/// The frame whose data fields are given and whose diagonal is zero.
pub open spec fn frame_of(fields: Seq<u32>) -> Seq<u32> {
    Seq::new(32, |i: int| frame::with_field(0, i as u32, fields[i]))
}

/// The low 31 bits of a number.
pub open spec fn low31(n: int) -> u32 {
    (n % 0x8000_0000) as u32
}

/// The fields of a message with up to three values.
pub open spec fn short_fields(op: u32, a: u32, b: u32, c: u32) -> Seq<u32> {
    Seq::new(
        32,
        |i: int|
            if i == 0 {
                frame::header(op, 0)
            } else if i == 1 {
                a
            } else if i == 2 {
                b
            } else if i == 3 {
                c
            } else {
                0
            },
    )
}

/// How many dependencies a submission carries.
pub open spec fn carried(n: nat) -> nat {
    if n < 30 {
        n
    } else {
        30
    }
}

/// The fields of a submission: count, dependencies, token. The last slot belongs to the token.
pub open spec fn submit_fields(deps: Seq<u64>, client_token: u32, msg_seq: u32) -> Seq<u32> {
    Seq::new(
        32,
        |i: int|
            if i == 0 {
                frame::header(OP_SUBMIT, msg_seq)
            } else if i == 1 {
                carried(deps.len()) as u32
            } else if i == 31 {
                low31(client_token as int)
            } else if i - 2 < carried(deps.len()) {
                low31(deps[i - 2] as int)
            } else {
                0
            },
    )
}

proof fn low31_of_u64(n: u64)
    by (bit_vector)
    ensures
        (n as u32) & 0x7FFF_FFFF == n % 0x8000_0000,
{
}

proof fn zero_fields(slot: u32)
    requires
        slot < 32,
    ensures
        frame::with_field(0, slot, 0) == 0,
{
    frame::field_bits(0, slot, 0);
}

fn short_message(op: u32, a: u32, b: u32, c: u32) -> (f: Frame32)
    ensures
        f@ == frame_of(short_fields(op, a, b, c)),
{
    let mut f = Frame32::new();
    f.set_header(op, 0);
    f.set(1, a);
    f.set(2, b);
    f.set(3, c);
    proof {
        assert forall|i: int| 0 <= i < 32 implies #[trigger] f@[i] == frame_of(short_fields(op, a, b, c))[i] by {
            zero_fields(i as u32);
        }
        assert(f@ =~= frame_of(short_fields(op, a, b, c)));
    }
    f
}

/// A submission: up to 30 dependencies, then the token of the command file in the last slot.
pub fn build_submit(deps: &[u64], client_token: u32, msg_seq: u32) -> (f: Frame32)
    ensures
        f@ == frame_of(submit_fields(deps@, client_token, msg_seq)),
{
    let mut f = Frame32::new();
    f.set_header(OP_SUBMIT, msg_seq);
    let n: usize = if deps.len() < 30 {
        deps.len()
    } else {
        30
    };
    f.set(1, n as u32);
    let mut i: usize = 0;
    let ghost fields = submit_fields(deps@, client_token, msg_seq);
    proof {
        bits::unit_facts(0, 0, 0, 31, 0);
    }
    while i < n
        invariant
            i <= n,
            n == carried(deps@.len()),
            fields == submit_fields(deps@, client_token, msg_seq),
            f@.len() == 32,
            f@[0] == frame::with_field(0, 0, fields[0]),
            f@[1] == frame::with_field(0, 1, fields[1]),
            forall|k: int|
                2 <= k < i + 2 && k < 31 ==> #[trigger] f@[k] == frame::with_field(0, k as u32, fields[k]),
            forall|k: int| i + 2 <= k < 32 ==> #[trigger] f@[k] == 0,
            i < 30 ==> f@[31] == 0,
            f@[31] & (1u32 << 31u32) == 0,
        decreases n - i,
    {
        let d: u64 = deps[i];
        proof {
            low31_of_u64(d);
            frame::field_bits(0, (i + 2) as u32, (d as u32) & 0x7FFF_FFFF);
        }
        f.set(i + 2, (d as u32) & 0x7FFF_FFFF);
        proof {
            bits::unit_facts(0, 0, 0, 31, 0);
        }
        i += 1;
    }
    proof {
        frame::header_bits(client_token, 0);
        diagonal_only(f@[31]);
        frame::field_bits(f@[31], 31, client_token & 0x7FFF_FFFF);
    }
    f.set(31, client_token & 0x7FFF_FFFF);
    proof {
        assert forall|k: int| 0 <= k < 32 implies #[trigger] f@[k] == frame_of(fields)[k] by {
            zero_fields(k as u32);
        }
        assert(f@ =~= frame_of(fields));
    }
    f
}

/// A row without its diagonal bit counts as empty for a store.
proof fn diagonal_only(w: u32)
    by (bit_vector)
    requires
        w & (1u32 << 31u32) == 0,
    ensures
        forall|v: u32| #[trigger] frame::with_field(w, 31, v) == frame::with_field(0, 31, v),
{
}

/// Whether a frame is a submission.
pub open spec fn is_submit(f: Frame32) -> bool {
    (f.field(0) >> 23) & 0xFF == OP_SUBMIT && f.field(1) <= 30
}

/// The dependencies and the token of a submission.
pub fn decode_submit(f: &Frame32) -> (r: Option<(Vec<u64>, u32)>)
    ensures
        match r {
            Some((deps, token)) => {
                &&& is_submit(*f)
                &&& deps@.len() == f.field(1)
                &&& forall|i: int| 0 <= i < deps@.len() ==> #[trigger] deps@[i] == f.field(i + 2)
                &&& token == f.field(31)
            },
            None => !is_submit(*f),
        },
{
    if f.op() != OP_SUBMIT {
        return None;
    }
    let n: usize = f.get(1) as usize;
    if n > 30 {
        return None;
    }
    let mut deps: Vec<u64> = Vec::with_capacity(n);
    let mut i: usize = 0;
    while i < n
        invariant
            i <= n <= 30,
            deps@.len() == i,
            forall|k: int| 0 <= k < i ==> #[trigger] deps@[k] == f.field(k + 2),
        decreases n - i,
    {
        deps.push(f.get(i + 2) as u64);
        i += 1;
    }
    let token: u32 = f.get(31);
    Some((deps, token))
}

/// A notice that a node changed its state.
pub fn build_state(addr_id: u64, state_code: u32, payload: u32) -> (f: Frame32)
    ensures
        f@ == frame_of(
            short_fields(
                OP_STATE,
                low31(addr_id as int),
                low31(state_code as int),
                low31(payload as int),
            ),
        ),
{
    proof {
        low31_of_u64(addr_id);
        frame::header_bits(state_code, 0);
        frame::header_bits(payload, 0);
    }
    short_message(
        OP_STATE,
        (addr_id as u32) & 0x7FFF_FFFF,
        state_code & 0x7FFF_FFFF,
        payload & 0x7FFF_FFFF,
    )
}

/// Node, state code and payload of a notice.
pub fn decode_state(f: &Frame32) -> (r: Option<(u64, u32, u32)>)
    ensures
        match r {
            Some((id, code, payload)) => (f.field(0) >> 23) & 0xFF == OP_STATE && id == f.field(1)
                && code == f.field(2) && payload == f.field(3),
            None => (f.field(0) >> 23) & 0xFF != OP_STATE,
        },
{
    if f.op() != OP_STATE {
        return None;
    }
    Some((f.get(1) as u64, f.get(2), f.get(3)))
}

/// A positive reply with a value.
pub fn build_ok(value: u32) -> (f: Frame32)
    ensures
        f@ == frame_of(short_fields(OP_OK, low31(value as int), 0, 0)),
{
    proof {
        frame::header_bits(value, 0);
    }
    short_message(OP_OK, value & 0x7FFF_FFFF, 0, 0)
}

/// A negative reply with an error code.
pub fn build_err(code: u32) -> (f: Frame32)
    ensures
        f@ == frame_of(short_fields(OP_ERR, low31(code as int), 0, 0)),
{
    proof {
        frame::header_bits(code, 0);
    }
    short_message(OP_ERR, code & 0x7FFF_FFFF, 0, 0)
}

/// A reply that sends the client to another port.
pub fn build_redirect(new_port: u16) -> (f: Frame32)
    ensures
        f@ == frame_of(short_fields(OP_REDIRECT, new_port as u32, 0, 0)),
{
    short_message(OP_REDIRECT, new_port as u32, 0, 0)
}

/// A subscription to one node, or with zero to all.
pub fn build_sub(filter_id: u64, sub_port: u16) -> (f: Frame32)
    ensures
        f@ == frame_of(short_fields(OP_SUB, low31(filter_id as int), sub_port as u32, 0)),
{
    proof {
        low31_of_u64(filter_id);
    }
    short_message(OP_SUB, (filter_id as u32) & 0x7FFF_FFFF, sub_port as u32, 0)
}

/// The end of a subscription.
pub fn build_unsub(sub_port: u16) -> (f: Frame32)
    ensures
        f@ == frame_of(short_fields(OP_UNSUB, sub_port as u32, 0, 0)),
{
    short_message(OP_UNSUB, sub_port as u32, 0, 0)
}

/// A request to kill the job of a node.
pub fn build_kill(addr_id: u64) -> (f: Frame32)
    ensures
        f@ == frame_of(short_fields(OP_KILL, low31(addr_id as int), 0, 0)),
{
    proof {
        low31_of_u64(addr_id);
    }
    short_message(OP_KILL, (addr_id as u32) & 0x7FFF_FFFF, 0, 0)
}

/// A request to shut down.
pub fn build_quit() -> (f: Frame32)
    ensures
        f@ == frame_of(short_fields(OP_QUIT, 0, 0, 0)),
{
    short_message(OP_QUIT, 0, 0, 0)
}

/// A request for a sign of life.
pub fn build_ping() -> (f: Frame32)
    ensures
        f@ == frame_of(short_fields(OP_PING, 0, 0, 0)),
{
    short_message(OP_PING, 0, 0, 0)
}

// ---------------------------------------------------------------------------------------------
// Laws
// ---------------------------------------------------------------------------------------------

/// Every field of a built frame is read back, its low 31 bits.
pub proof fn law_fields_read_back(fields: Seq<u32>, i: int)
    requires
        fields.len() == 32,
        0 <= i < 32,
    ensures
        frame::field(frame_of(fields)[i], i as u32) == fields[i] & 0x7FFF_FFFF,
{
    frame::field_bits(0, i as u32, fields[i]);
}

/// The operation of a short message is read back.
pub proof fn law_short_message_reads_back(op: u32, a: u32, b: u32, c: u32)
    requires
        op <= 0xFF,
        a < 0x8000_0000,
        b < 0x8000_0000,
        c < 0x8000_0000,
    ensures
        ({
            let s = frame_of(short_fields(op, a, b, c));
            &&& (frame::field(s[0], 0) >> 23) & 0xFF == op
            &&& frame::field(s[1], 1) == a
            &&& frame::field(s[2], 2) == b
            &&& frame::field(s[3], 3) == c
        }),
{
    let fields = short_fields(op, a, b, c);
    law_fields_read_back(fields, 0);
    law_fields_read_back(fields, 1);
    law_fields_read_back(fields, 2);
    law_fields_read_back(fields, 3);
    frame::header_bits(op, 0);
    frame::header_bits(a, 0);
    frame::header_bits(b, 0);
    frame::header_bits(c, 0);
}

/// A submission of at most 29 dependencies is decoded to what was submitted, its numbers cut to
/// 31 bits. With 30 the token would take the place of the last one.
pub proof fn law_submit_reads_back(f: Frame32, deps: Seq<u64>, client_token: u32, msg_seq: u32)
    requires
        deps.len() <= 29,
        f@ == frame_of(submit_fields(deps, client_token, msg_seq)),
    ensures
        is_submit(f),
        f.field(1) == deps.len(),
        f.field(31) == low31(client_token as int),
        forall|i: int| 0 <= i < deps.len() ==> #[trigger] f.field(i + 2) == low31(deps[i] as int),
        f.field(0) & 0x007F_FFFF == msg_seq & 0x007F_FFFF,
{
    let fields = submit_fields(deps, client_token, msg_seq);
    assert forall|i: int| 0 <= i < 32 implies #[trigger] f.field(i) == fields[i] & 0x7FFF_FFFF by {
        law_fields_read_back(fields, i);
    }
    frame::header_bits(OP_SUBMIT, msg_seq);
    assert forall|i: int| 0 <= i < deps.len() implies #[trigger] f.field(i + 2) == low31(deps[i] as int) by {
        frame::header_bits(low31(deps[i] as int), 0);
    }
    frame::header_bits(low31(client_token as int), 0);
    frame::header_bits(deps.len() as u32, 0);
    assert(f.field(0) == fields[0] & 0x7FFF_FFFF);
    assert(f.field(1) == fields[1] & 0x7FFF_FFFF);
    assert(f.field(31) == fields[31] & 0x7FFF_FFFF);
}

/// The operations have these numbers.
pub proof fn law_numbers_of_operations()
    ensures
        OP_SUBMIT == 1 && OP_SUB == 2 && OP_UNSUB == 3 && OP_STATE == 4 && OP_OK == 5,
        OP_ERR == 6 && OP_QUIT == 7 && OP_PING == 8 && OP_KILL == 9 && OP_REDIRECT == 10,
{
}

/// A short message has its values in slots 1 to 3, and nothing behind them; a submission has the
/// number of its dependencies in slot 1, the first thirty of them from slot 2 on, and the token in
/// slot 31.
pub proof fn law_slots_of_a_message(
    op: u32,
    a: u32,
    b: u32,
    c: u32,
    deps: Seq<u64>,
    token: u32,
    msg_seq: u32,
    i: int,
)
    requires
        0 <= i < 32,
    ensures
        short_fields(op, a, b, c)[1] == a && short_fields(op, a, b, c)[2] == b && short_fields(op, a, b, c)[3] == c,
        i > 3 ==> short_fields(op, a, b, c)[i] == 0,
        short_fields(op, a, b, c)[0] == (op % 256) * 8388608,
        submit_fields(deps, token, msg_seq)[0] == 8388608 + msg_seq % 8388608,
        submit_fields(deps, token, msg_seq)[1] == (if deps.len() < 30 {
            deps.len() as int
        } else {
            30
        }),
        2 <= i <= 30 && i - 2 < deps.len() ==> submit_fields(deps, token, msg_seq)[i] == deps[i - 2] % 2147483648,
        2 <= i <= 30 && i - 2 >= deps.len() ==> submit_fields(deps, token, msg_seq)[i] == 0,
        submit_fields(deps, token, msg_seq)[31] == token % 2147483648,
{
    frame::law_header_is_a_sum(op, 0);
    frame::law_header_is_a_sum(OP_SUBMIT, msg_seq);
}

} // verus!
