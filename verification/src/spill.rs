//! Working directories: one per spill, their names, and which one a client uses.

use vstd::prelude::*;

use crate::ids;
use crate::order;
use crate::text;

verus! {

broadcast use vstd::string::group_string_axioms;

/// How the name of a working directory begins.
pub const WORKDIR_PREFIX: &'static str = ".tren-";

/// How many leaves a spill may have.
pub const SPILL_LEAF_CAP: u64 = 32;

/// How many nodes a spill may have.
pub const SPILL_NODE_CAP: u64 = SPILL_LEAF_CAP * 2;

/// The sequence number in the name of a working directory: the digits between the prefix and the
/// next dash.
pub open spec fn spill_seq_of(name: Seq<char>) -> Option<nat> {
    let rest = name.skip(WORKDIR_PREFIX@.len() as int);
    if !text::begins_with(name, WORKDIR_PREFIX@) || !rest.contains('-') {
        None
    } else {
        let head = rest.take(choose|i: int| text::first_at(rest, '-', i));
        if head.len() == 0 || !text::all_digits(head, 10) || text::digits_value(head, 10)
            > 0xFFFF_FFFF_FFFF_FFFF {
            None
        } else {
            Some(text::digits_value(head, 10))
        }
    }
}

/// The name of a working directory: at least three digits, then the token.
pub open spec fn spill_name(seq: nat, token: Seq<char>) -> Seq<char> {
    WORKDIR_PREFIX@ + text::padded(seq, 10, 3) + "-"@ + token
}

/// Reads the sequence number from the name of a working directory; a name without one has none.
pub fn parse_spill_seq(name: &str) -> (seq: Option<u64>)
    ensures
        match seq {
            Some(n) => spill_seq_of(name@) == Some(n as nat),
            None => spill_seq_of(name@) is None,
        },
{
    let v = text::chars_of(name);
    match text::strip_prefix(&v, WORKDIR_PREFIX) {
        None => None,
        Some(rest) => match text::find(&rest, '-') {
            None => None,
            Some(dash) => {
                proof {
                    text::first_is_unique(rest@, '-', dash as int);
                }
                let head = text::cut(&rest, 0, dash);
                assert(head@ =~= rest@.take(dash as int));
                if head.len() > 0 && head[0] == '+' {
                    assert(!text::is_digit(head@[0], 10));
                    None
                } else {
                    text::parse_unsigned(&head, 10, u64::MAX)
                }
            },
        },
    }
}

/// The name of a working directory.
pub fn format_spill_name(seq: u64, token: &str) -> (name: String)
    ensures
        name@ == spill_name(seq as nat, token@),
{
    let mut s = WORKDIR_PREFIX.to_owned();
    let n = text::padded_number(seq, 10, 3);
    s.append(n.as_str());
    s.append("-");
    s.append(token);
    s
}

/// The sequence number is found again in the name.
pub proof fn law_spill_name_reads_back(seq: u64, token: Seq<char>)
    ensures
        spill_seq_of(spill_name(seq as nat, token)) == Some(seq as nat),
{
    let p = WORKDIR_PREFIX@;
    let d = text::padded(seq as nat, 10, 3);
    let name = spill_name(seq as nat, token);
    text::law_padded_round_trip(seq as nat, 3);
    reveal_strlit("-");
    assert(name.take(p.len() as int) =~= p);
    let rest = name.skip(p.len() as int);
    assert(rest =~= d + "-"@ + token);
    assert(text::first_at(rest, '-', d.len() as int)) by {
        assert(rest[d.len() as int] == '-');
        assert forall|j: int| 0 <= j < d.len() implies rest[j] != '-' by {
            assert(rest[j] == d[j]);
            assert(text::is_digit(d[j], 10));
        }
    }
    text::first_is_unique(rest, '-', d.len() as int);
    assert(rest.take(d.len() as int) =~= d);
}

/// A spill with `node_count` nodes has no room for another: the next node would be one leaf too
/// many.
pub open spec fn full(node_count: nat) -> bool {
    ids::leaf_count(node_count + 1, node_count + 1) > SPILL_LEAF_CAP
}

/// Whether a spill has no room for another node.
pub fn spill_is_full(node_count: u64) -> (r: bool)
    requires
        node_count < u64::MAX,
    ensures
        r == full(node_count as nat),
        r == (node_count >= SPILL_NODE_CAP),
{
    ids::leaves_for_node_count(node_count + 1) > SPILL_LEAF_CAP
}

/// The reason for refusing a node its id: the ids of a spill end with the number of nodes that it
/// takes.
pub fn no_room_reason(id: u64) -> (e: Option<String>)
    ensures
        match e {
            Some(e) => id > SPILL_NODE_CAP && e@ == "spill node cap "@ + text::digits(
                SPILL_NODE_CAP as nat,
                10,
            ) + " exceeded"@,
            None => id <= SPILL_NODE_CAP,
        },
{
    if id <= SPILL_NODE_CAP {
        return None;
    }
    let mut e: String = "spill node cap ".to_owned();
    text::push_number(&mut e, SPILL_NODE_CAP, 10);
    e.append(" exceeded");
    Some(e)
}

/// The reason for refusing a node whose command is not there to be picked up.
pub fn no_command_reason(token: u32) -> (e: String)
    ensures
        e@ == "inbox file missing for token "@ + text::padded(token as nat, 16, 8),
{
    let mut e: String = "inbox file missing for token ".to_owned();
    let t = text::padded_number(token as u64, 16, 8);
    e.append(t.as_str());
    e
}

// ---------------------------------------------------------------------------------------------
// Tokens
// ---------------------------------------------------------------------------------------------

/// The token of a working directory, mixed from a time in nanoseconds and a process number.
pub fn fresh_token(nanos: u128, pid: u32) -> (token: String)
    ensures
        ({
            let mix = nanos.wrapping_mul(0x9E37_79B9_7F4A_7C15).wrapping_add(
                (pid as u128).wrapping_mul(0xBF58_476D_1CE4_E5B9),
            );
            token@ == text::padded(((mix as u64) ^ ((mix >> 64) as u64)) as nat, 16, 16)
        }),
{
    let p: u128 = pid as u128;
    let mix: u128 = nanos.wrapping_mul(0x9E37_79B9_7F4A_7C15).wrapping_add(
        p.wrapping_mul(0xBF58_476D_1CE4_E5B9),
    );
    text::padded_number((mix as u64) ^ ((mix >> 64) as u64), 16, 16)
}

/// The token of a submission, mixed from a time, a process number and a counter; it fits a frame
/// slot.
pub fn fresh_client_token(nanos: u64, pid: u64, counter: u64) -> (token: u32)
    ensures
        ({
            let mix = nanos.wrapping_mul(0x9E37_79B9_7F4A_7C15).wrapping_add(
                pid.wrapping_mul(0xBF58_476D_1CE4_E5B9),
            ).wrapping_add(counter.wrapping_mul(0x94D0_49BB_1331_11EB));
            token == ((mix as u32) ^ ((mix >> 32) as u32)) & 0x7FFF_FFFF
        }),
        token <= 0x7FFF_FFFF,
{
    let mix: u64 = nanos.wrapping_mul(0x9E37_79B9_7F4A_7C15).wrapping_add(
        pid.wrapping_mul(0xBF58_476D_1CE4_E5B9),
    ).wrapping_add(counter.wrapping_mul(0x94D0_49BB_1331_11EB));
    let x: u32 = (mix as u32) ^ ((mix >> 32) as u32);
    proof {
        crate::frame::header_bits(x, 0);
    }
    x & 0x7FFF_FFFF
}

// ---------------------------------------------------------------------------------------------
// Files
// ---------------------------------------------------------------------------------------------

/// A path continued by another: an absolute one replaces it, others are appended after a
/// separator.
pub open spec fn joined(base: Seq<char>, part: Seq<char>) -> Seq<char> {
    if part.len() > 0 && part[0] == '/' {
        part
    } else if base.len() == 0 || base.last() == '/' {
        base + part
    } else {
        base + "/"@ + part
    }
}

/// Continues a path.
pub fn join_path(base: &str, part: &str) -> (path: String)
    ensures
        path@ == joined(base@, part@),
{
    if part.unicode_len() > 0 && part.get_char(0) == '/' {
        return part.to_owned();
    }
    let n: usize = base.unicode_len();
    let mut s = base.to_owned();
    if n > 0 && base.get_char(n - 1) != '/' {
        s.append("/");
    }
    s.append(part);
    s
}

/// The directory of a node.
pub fn node_dir(workdir: &str, addr: &str) -> (path: String)
    ensures
        path@ == joined(joined(workdir@, "tree"@), addr@),
{
    let tree = join_path(workdir, "tree");
    join_path(tree.as_str(), addr)
}

/// The name of a command file that waits to be picked up.
pub open spec fn inbox_name(token: u32) -> Seq<char> {
    text::padded(token as nat, 16, 8) + ".sh"@
}

/// The path of a command file that waits to be picked up.
pub fn inbox_path(workdir: &str, token: u32) -> (path: String)
    ensures
        path@ == joined(joined(workdir@, "inbox"@), inbox_name(token)),
{
    let inbox = join_path(workdir, "inbox");
    let mut name = text::padded_number(token as u64, 16, 8);
    name.append(".sh");
    join_path(inbox.as_str(), name.as_str())
}

/// The port in a port file.
pub fn read_port(contents: &str) -> (port: Option<u16>)
    ensures
        match port {
            Some(p) => text::unsigned_value(text::trimmed(contents@), 10, 0xFFFF) == Some(p as nat),
            None => text::unsigned_value(text::trimmed(contents@), 10, 0xFFFF) is None,
        },
{
    let v = text::chars_of(contents);
    let t = text::trim(&v);
    match text::parse_unsigned(&t, 10, 0xFFFF) {
        Some(n) => Some(n as u16),
        None => None,
    }
}

/// The process number in a pid file.
pub fn read_wrapper_pid(contents: &str) -> (pid: Option<u32>)
    ensures
        match pid {
            Some(p) => text::unsigned_value(text::trimmed(contents@), 10, 0xFFFF_FFFF) == Some(p as nat),
            None => text::unsigned_value(text::trimmed(contents@), 10, 0xFFFF_FFFF) is None,
        },
{
    let v = text::chars_of(contents);
    let t = text::trim(&v);
    match text::parse_unsigned(&t, 10, 0xFFFF_FFFF) {
        Some(n) => Some(n as u32),
        None => None,
    }
}

/// The number of an address, zero if it is none.
pub open spec fn addr_key(addr: Seq<char>) -> nat {
    match ids::id_of_addr(addr) {
        Some(n) => n,
        None => 0,
    }
}

/// The directory names of nodes in order of their numbers; names that are no address come first.
/// The result says which name comes at which place.
pub fn list_nodes(names: &Vec<String>) -> (order: Vec<usize>)
    ensures
        exists|keys: Seq<u64>|
            keys.len() == names@.len() && (forall|i: int|
                0 <= i < keys.len() ==> #[trigger] keys[i] == addr_key(names@[i]@))
                && #[trigger] order::is_stable_order(keys, order@),
{
    let mut keys: Vec<u64> = Vec::new();
    let mut i: usize = 0;
    while i < names.len()
        invariant
            i <= names@.len(),
            keys@.len() == i,
            forall|j: int| 0 <= j < i ==> #[trigger] keys@[j] == addr_key(names@[j]@),
        decreases names@.len() - i,
    {
        let key: u64 = match ids::bit_addr_to_id(names[i].as_str()) {
            Some(n) => n,
            None => 0,
        };
        keys.push(key);
        i += 1;
    }
    order::stable_order(&keys)
}

// ---------------------------------------------------------------------------------------------
// Which working directory
// ---------------------------------------------------------------------------------------------

/// A working directory found in some directory.
#[derive(Clone, Copy, Debug)]
pub struct Candidate {
    /// Its sequence number, zero if its name has none.
    pub seq: u64,
    /// Whether its wrapper is running.
    pub alive: bool,
}

/// The sequence number of a directory name, zero if it has none; nothing if the name is not that
/// of a working directory.
pub fn candidate_seq(name: &str) -> (seq: Option<u64>)
    ensures
        match seq {
            Some(n) => text::begins_with(name@, WORKDIR_PREFIX@) && n == (match spill_seq_of(name@) {
                Some(m) => m,
                None => 0,
            }),
            None => !text::begins_with(name@, WORKDIR_PREFIX@),
        },
{
    let v = text::chars_of(name);
    match text::strip_prefix(&v, WORKDIR_PREFIX) {
        None => None,
        Some(_) => Some(
            match parse_spill_seq(name) {
                Some(n) => n,
                None => 0,
            },
        ),
    }
}

/// The sequence numbers of candidates.
pub open spec fn seqs(level: Seq<Candidate>) -> Seq<u64> {
    Seq::new(level.len(), |i: int| level[i].seq)
}

/// Which candidates are alive.
pub open spec fn alive_of(level: Seq<Candidate>) -> Seq<bool> {
    Seq::new(level.len(), |i: int| level[i].alive)
}

/// Which candidates are not.
pub open spec fn stale_of(level: Seq<Candidate>) -> Seq<bool> {
    Seq::new(level.len(), |i: int| !level[i].alive)
}

/// Whether some candidate is alive.
pub open spec fn some_alive(level: Seq<Candidate>) -> bool {
    exists|i: int| 0 <= i < level.len() && (#[trigger] level[i]).alive
}

/// Whether this is the working directory to use. The levels are the start directory and those
/// above it, nearest first: the highest-numbered living one of the nearest level that has any; if
/// no level has any, the highest-numbered one of the nearest level that has one at all.
pub open spec fn is_choice(levels: Seq<Vec<Candidate>>, l: int, i: int) -> bool {
    if exists|k: int| 0 <= k < levels.len() && some_alive((#[trigger] levels[k])@) {
        &&& 0 <= l < levels.len()
        &&& order::is_last_highest(seqs(levels[l]@), alive_of(levels[l]@), i)
        &&& forall|k: int| 0 <= k < l ==> !some_alive((#[trigger] levels[k])@)
    } else {
        &&& 0 <= l < levels.len()
        &&& order::is_last_highest(seqs(levels[l]@), stale_of(levels[l]@), i)
        &&& forall|k: int| 0 <= k < l ==> (#[trigger] levels[k])@.len() == 0
    }
}

fn columns(level: &Vec<Candidate>) -> (r: (Vec<u64>, Vec<bool>, Vec<bool>))
    ensures
        r.0@ == seqs(level@),
        r.1@ == alive_of(level@),
        r.2@ == stale_of(level@),
{
    let mut keys: Vec<u64> = Vec::new();
    let mut alive: Vec<bool> = Vec::new();
    let mut stale: Vec<bool> = Vec::new();
    let mut i: usize = 0;
    while i < level.len()
        invariant
            i <= level@.len(),
            keys@.len() == i,
            alive@.len() == i,
            stale@.len() == i,
            forall|j: int| 0 <= j < i ==> #[trigger] keys@[j] == level@[j].seq,
            forall|j: int| 0 <= j < i ==> #[trigger] alive@[j] == level@[j].alive,
            forall|j: int| 0 <= j < i ==> #[trigger] stale@[j] == !level@[j].alive,
        decreases level@.len() - i,
    {
        keys.push(level[i].seq);
        alive.push(level[i].alive);
        stale.push(!level[i].alive);
        i += 1;
    }
    assert(keys@ =~= seqs(level@));
    assert(alive@ =~= alive_of(level@));
    assert(stale@ =~= stale_of(level@));
    (keys, alive, stale)
}

/// Chooses the working directory to use: its level, and its place there.
pub fn find_workdir(levels: &Vec<Vec<Candidate>>) -> (r: Option<(usize, usize)>)
    ensures
        match r {
            Some((l, i)) => is_choice(levels@, l as int, i as int),
            None => forall|k: int| 0 <= k < levels@.len() ==> (#[trigger] levels@[k])@.len() == 0,
        },
{
    let mut fallback: Option<(usize, usize)> = None;
    let mut l: usize = 0;
    while l < levels.len()
        invariant
            l <= levels@.len(),
            forall|k: int| 0 <= k < l ==> !some_alive((#[trigger] levels@[k])@),
            match fallback {
                Some((m, i)) => m < l && order::is_last_highest(
                    seqs(levels@[m as int]@),
                    stale_of(levels@[m as int]@),
                    i as int,
                ) && forall|k: int| 0 <= k < m ==> (#[trigger] levels@[k])@.len() == 0,
                None => forall|k: int| 0 <= k < l ==> (#[trigger] levels@[k])@.len() == 0,
            },
        decreases levels@.len() - l,
    {
        let level: &Vec<Candidate> = &levels[l];
        let (keys, alive, stale) = columns(level);
        if let Some(i) = order::last_highest(&keys, &alive) {
            proof {
                assert(level@[i as int].alive);
                assert(some_alive(levels@[l as int]@));
            }
            return Some((l, i));
        }
        proof {
            assert forall|j: int| 0 <= j < level@.len() implies !(#[trigger] level@[j]).alive by {
                assert(!alive@[j]);
            }
        }
        if fallback.is_none() {
            if let Some(i) = order::last_highest(&keys, &stale) {
                fallback = Some((l, i));
            } else {
                proof {
                    if level@.len() > 0 {
                        assert(!stale@[0]);
                        assert(!level@[0].alive);
                    }
                }
            }
        }
        l += 1;
    }
    fallback
}

/// The places of the living candidates, in order of their sequence numbers.
pub open spec fn is_alive_order(level: Seq<Candidate>, places: Seq<usize>) -> bool {
    &&& forall|a: int| 0 <= a < places.len() ==> #[trigger] places[a] < level.len() && level[places[a] as int].alive
    &&& forall|a: int, b: int|
        0 <= a < b < places.len() ==> order::before(
            seqs(level),
            #[trigger] places[a] as int,
            #[trigger] places[b] as int,
        )
    &&& forall|i: int|
        0 <= i < level.len() && (#[trigger] level[i]).alive ==> exists|a: int|
            0 <= a < places.len() && #[trigger] places[a] == i
}

/// All living working directories of the nearest level that has any, in order of their sequence
/// numbers.
pub fn find_all_alive_spills(levels: &Vec<Vec<Candidate>>) -> (r: Option<(usize, Vec<usize>)>)
    ensures
        match r {
            Some((l, places)) => {
                &&& l < levels@.len()
                &&& some_alive(levels@[l as int]@)
                &&& forall|k: int| 0 <= k < l ==> !some_alive((#[trigger] levels@[k])@)
                &&& is_alive_order(levels@[l as int]@, places@)
            },
            None => forall|k: int| 0 <= k < levels@.len() ==> !some_alive((#[trigger] levels@[k])@),
        },
{
    let mut l: usize = 0;
    while l < levels.len()
        invariant
            l <= levels@.len(),
            forall|k: int| 0 <= k < l ==> !some_alive((#[trigger] levels@[k])@),
        decreases levels@.len() - l,
    {
        let level: &Vec<Candidate> = &levels[l];
        let places = alive_order(level);
        if places.len() > 0 {
            proof {
                assert(level@[places@[0] as int].alive);
            }
            return Some((l, places));
        }
        proof {
            if some_alive(level@) {
                let i = choose|i: int| 0 <= i < level@.len() && (#[trigger] level@[i]).alive;
                let a = choose|a: int| 0 <= a < places@.len() && #[trigger] places@[a] == i;
                assert(false);
            }
        }
        l += 1;
    }
    None
}

fn alive_order(level: &Vec<Candidate>) -> (places: Vec<usize>)
    ensures
        is_alive_order(level@, places@),
{
    let (keys, alive, _stale) = columns(level);
    let all = order::stable_order(&keys);
    let mut places: Vec<usize> = Vec::new();
    let mut a: usize = 0;
    while a < all.len()
        invariant
            a <= all@.len(),
            keys@ == seqs(level@),
            alive@ == alive_of(level@),
            order::is_stable_order(keys@, all@),
            forall|b: int|
                0 <= b < places@.len() ==> #[trigger] places@[b] < level@.len()
                    && level@[places@[b] as int].alive,
            forall|b: int|
                0 <= b < places@.len() && a < all@.len() ==> order::before(
                    keys@,
                    #[trigger] places@[b] as int,
                    all@[a as int] as int,
                ),
            forall|b: int, c: int|
                0 <= b < c < places@.len() ==> order::before(
                    keys@,
                    #[trigger] places@[b] as int,
                    #[trigger] places@[c] as int,
                ),
            forall|k: int|
                0 <= k < a && alive@[#[trigger] all@[k] as int] ==> exists|b: int|
                    0 <= b < places@.len() && #[trigger] places@[b] == all@[k],
        decreases all@.len() - a,
    {
        let i: usize = all[a];
        let ghost old_places = places@;
        if alive[i] {
            places.push(i);
        }
        proof {
            if a + 1 < all@.len() {
                assert(order::before(keys@, all@[a as int] as int, all@[a + 1] as int));
                assert forall|b: int| 0 <= b < places@.len() implies order::before(
                    keys@,
                    #[trigger] places@[b] as int,
                    all@[a + 1] as int,
                ) by {
                    if b < old_places.len() {
                        assert(places@[b] == old_places[b]);
                        assert(order::before(keys@, old_places[b] as int, all@[a as int] as int));
                    }
                }
            }
            assert forall|b: int, c: int| 0 <= b < c < places@.len() implies order::before(
                keys@,
                #[trigger] places@[b] as int,
                #[trigger] places@[c] as int,
            ) by {
                assert(places@[b] == old_places[b]);
                if c < old_places.len() {
                    assert(places@[c] == old_places[c]);
                } else {
                    assert(order::before(keys@, old_places[b] as int, all@[a as int] as int));
                }
            }
            assert forall|k: int| 0 <= k < a + 1 && alive@[#[trigger] all@[k] as int] implies exists|b: int|
                0 <= b < places@.len() && #[trigger] places@[b] == all@[k] by {
                if k < a {
                    let b = choose|b: int| 0 <= b < old_places.len() && #[trigger] old_places[b] == all@[k];
                    assert(places@[b] == old_places[b]);
                } else {
                    assert(places@[old_places.len() as int] == i);
                }
            }
        }
        a += 1;
    }
    proof {
        assert forall|i: int| 0 <= i < level@.len() && (#[trigger] level@[i]).alive implies exists|b: int|
            0 <= b < places@.len() && #[trigger] places@[b] == i by {
            order::stable_order_is_complete(keys@, all@, i);
            let k = choose|k: int| 0 <= k < all@.len() && #[trigger] all@[k] == i;
            assert(alive@[i]);
            assert(alive@[all@[k] as int]);
        }
    }
    places
}

/// What is known of an entry of the directory in which spills lie.
pub struct SpillEntry {
    pub name: String,
    /// The port in its port file.
    pub port: Option<u16>,
    /// Its scheduler is alive.
    pub alive: bool,
}

/// Whether an entry is the spill with a number, and ready for requests.
pub open spec fn is_ready(e: SpillEntry, seq: u64) -> bool {
    spill_seq_of(e.name@) == Some(seq as nat) && e.port is Some && e.alive
}

/// The port of the spill with a number, once it is ready.
pub fn find_next_spill(entries: &Vec<SpillEntry>, seq: u64) -> (port: Option<u16>)
    ensures
        match port {
            Some(p) => exists|i: int|
                0 <= i < entries@.len() && is_ready(#[trigger] entries@[i], seq) && entries@[i].port
                    == Some(p) && (forall|k: int| 0 <= k < i ==> !is_ready(#[trigger] entries@[k], seq)),
            None => forall|k: int| 0 <= k < entries@.len() ==> !is_ready(#[trigger] entries@[k], seq),
        },
{
    let mut i: usize = 0;
    while i < entries.len()
        invariant
            i <= entries@.len(),
            forall|k: int| 0 <= k < i ==> !is_ready(#[trigger] entries@[k], seq),
        decreases entries@.len() - i,
    {
        let e: &SpillEntry = &entries[i];
        if let Some(n) = parse_spill_seq(e.name.as_str()) {
            if n == seq && e.alive {
                if let Some(p) = e.port {
                    assert(is_ready(entries@[i as int], seq));
                    return Some(p);
                }
            }
        }
        i += 1;
    }
    None
}

// ---------------------------------------------------------------------------------------------
// Laws
// ---------------------------------------------------------------------------------------------

/// A spill takes 64 nodes and no more.
pub proof fn law_spill_takes_64_nodes(node_count: nat)
    ensures
        full(node_count) <==> node_count >= 64,
        SPILL_NODE_CAP == 64,
{
    ids::law_half_the_nodes_are_leaves(node_count + 1);
}

proof fn first_exists(s: Seq<char>, c: char, k: int)
    requires
        0 <= k < s.len(),
        s[k] == c,
    ensures
        exists|i: int| text::first_at(s, c, i),
    decreases k,
{
    if exists|j: int| 0 <= j < k && #[trigger] s[j] == c {
        let j = choose|j: int| 0 <= j < k && #[trigger] s[j] == c;
        first_exists(s, c, j);
    } else {
        assert(text::first_at(s, c, k));
    }
}

/// A name that does not begin with the prefix has no number, nor has one without a dash after it,
/// nor one in which something else than digits stands in between.
pub proof fn law_only_numbered_names_have_a_number(name: Seq<char>, i: int)
    ensures
        spill_seq_of(name) is Some ==> name.len() >= 8 && name[0] == '.' && name[1] == 't' && name[2] == 'r' && name[3]
            == 'e' && name[4] == 'n' && name[5] == '-' && text::is_digit(name[6], 10),
        spill_seq_of(name) is Some && 6 <= i < name.len() && (forall|j: int| 6 <= j < i ==> #[trigger] name[j] != '-')
            ==> name[i] == '-' || text::is_digit(name[i], 10),
{
    reveal_strlit(".tren-");
    let p = WORKDIR_PREFIX@;
    if spill_seq_of(name) is Some {
        let rest = name.skip(6);
        let k = choose|k: int| 0 <= k < rest.len() && rest[k] == '-';
        assert(rest[k] == '-');
        first_exists(rest, '-', k);
        let end = choose|i: int| text::first_at(rest, '-', i);
        let head = rest.take(end);
        assert(name.take(6) == p);
        assert(name.take(6)[0] == p[0] && name.take(6)[1] == p[1] && name.take(6)[2] == p[2] && name.take(6)[3]
            == p[3] && name.take(6)[4] == p[4] && name.take(6)[5] == p[5]);
        assert(text::is_digit(head[0], 10));
        assert(head[0] == name[6]);
        if 6 <= i < name.len() && (forall|j: int| 6 <= j < i ==> #[trigger] name[j] != '-') {
            assert(rest[end] == name[end + 6]);
            assert(i <= end + 6);
            if i < end + 6 {
                assert(text::is_digit(head[i - 6], 10));
                assert(head[i - 6] == name[i]);
            }
        }
    }
}

/// The name of a working directory: the prefix, the number with at least three digits, a dash and
/// the token.
pub proof fn law_spill_name_is_spelled_out(seq: u64, token: Seq<char>)
    ensures
        ({
            let name = spill_name(seq as nat, token);
            let n = name.len() - token.len() - 7;
            &&& n >= 3
            &&& name.take(6) == seq!['.', 't', 'r', 'e', 'n', '-']
            &&& text::digits_value(name.subrange(6, 6 + n), 10) == seq
            &&& name[6 + n] == '-'
            &&& name.skip(7 + n) == token
            &&& n > 3 ==> name[6] != '0'
        }),
{
    reveal_strlit(".tren-");
    reveal_strlit("-");
    let name = spill_name(seq as nat, token);
    let d = text::padded(seq as nat, 10, 3);
    text::law_padded_round_trip(seq as nat, 3);
    text::law_digits_read_back(seq as nat, 10);
    assert(WORKDIR_PREFIX@ =~= seq!['.', 't', 'r', 'e', 'n', '-']);
    assert(name.len() == 7 + d.len() + token.len());
    assert(name.take(6) =~= WORKDIR_PREFIX@);
    assert(name.subrange(6, 6 + d.len() as int) =~= d);
    assert(name.skip(7 + d.len() as int) =~= token);
    if d.len() > 3 {
        assert(d =~= text::digits(seq as nat, 10));
        if seq == 0 {
            assert(d.len() == 1);
        }
        assert(name[6] == d[0]);
    }
}

/// Of working directories the one to use is alive wherever any is, then as near as any such is,
/// and then has the highest number of those on its level.
pub proof fn law_nearest_living_spill_is_chosen(levels: Seq<Vec<Candidate>>, l: int, i: int, k: int, j: int)
    requires
        is_choice(levels, l, i),
        0 <= k < levels.len(),
        0 <= j < levels[k]@.len(),
    ensures
        0 <= l < levels.len() && 0 <= i < levels[l]@.len(),
        levels[k]@[j].alive ==> levels[l]@[i].alive && l <= k,
        levels[k]@[j].alive && k == l ==> levels[k]@[j].seq <= levels[l]@[i].seq,
        !levels[l]@[i].alive ==> l <= k,
        !levels[l]@[i].alive && k == l ==> levels[k]@[j].seq <= levels[l]@[i].seq,
{
    let c = levels[k]@[j];
    if c.alive {
        assert(some_alive(levels[k]@));
        assert(alive_of(levels[l]@)[i]);
        if k == l && j != i {
            assert(alive_of(levels[l]@)[j]);
            assert(order::before(seqs(levels[l]@), j, i));
        }
    }
    if exists|m: int| 0 <= m < levels.len() && some_alive((#[trigger] levels[m])@) {
        assert(alive_of(levels[l]@)[i]);
    } else {
        assert(!some_alive(levels[k]@));
        assert(stale_of(levels[l]@)[i]);
        if k == l && j != i {
            assert(stale_of(levels[l]@)[j]);
            assert(order::before(seqs(levels[l]@), j, i));
        }
    }
}

/// A path that is continued keeps both parts with one separator between them; an absolute path is
/// not continued but replaces what it is joined to.
pub proof fn law_joined_path_keeps_both_parts(base: Seq<char>, part: Seq<char>)
    requires
        base.len() > 0,
    ensures
        part.len() > 0 && part[0] == '/' ==> joined(base, part) == part,
        !(part.len() > 0 && part[0] == '/') && base.last() != '/' ==> joined(base, part) == base.push('/') + part,
        !(part.len() > 0 && part[0] == '/') && base.last() == '/' ==> joined(base, part) == base + part,
        joined(Seq::empty(), part) == part,
{
    reveal_strlit("/");
    assert("/"@ =~= seq!['/']);
    assert(base + "/"@ + part =~= base.push('/') + part);
    assert(Seq::<char>::empty() + part =~= part);
}

} // verus!
