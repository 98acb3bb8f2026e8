//! What the diagonal CRC-32C detects: laws about frames that were damaged on the wire.
//!
//! An error is a set of flipped wire bits, written as 128 bytes that are combined with the
//! transmitted ones by exclusive or. Wire bit `k` is bit `k % 8` of byte `k / 8`.

use vstd::prelude::*;

use crate::bits;
use crate::crc;
use crate::frame;
use crate::weight;

verus! {

/// Whether [`frame::Frame32::from_bytes`] accepts the bytes.
pub open spec fn accepted(b: Seq<u8>) -> bool {
    b.len() == 128 && frame::crc_ok(frame::slots_of(b))
}

/// The data bits of 128 wire bytes, the diagonal cleared.
pub open spec fn body_of(e: Seq<u8>) -> Seq<u8> {
    frame::wire_bytes(frame::clear_diagonal(frame::slots_of(e)))
}

/// What an error does to the difference between the check value of the data and the diagonal.
pub open spec fn syndrome(e: Seq<u8>) -> u32 {
    crc::register(0, body_of(e)) ^ frame::diagonal(frame::slots_of(e))
}

/// Whether wire bit `k` is one of the 32 diagonal bits.
pub open spec fn on_diagonal(k: int) -> bool {
    8 * (3 - (k % 32) / 8) + k % 8 == k / 32
}

/// The error that flips wire bit `k` alone.
pub open spec fn single(k: int) -> Seq<u8> {
    Seq::new(
        128,
        |i: int|
            if i == k / 8 {
                1u8 << ((k % 8) as u8)
            } else {
                0
            },
    )
}

/// Slots combined with exclusive or.
pub open spec fn xor_slots(a: Seq<u32>, b: Seq<u32>) -> Seq<u32> {
    Seq::new(32, |i: int| a[i] ^ b[i])
}

// ---------------------------------------------------------------------------------------------
// Everything is linear
// ---------------------------------------------------------------------------------------------

proof fn slots_linear(a: Seq<u8>, b: Seq<u8>)
    requires
        a.len() == 128,
        b.len() == 128,
    ensures
        frame::slots_of(crc::xor_bytes(a, b)) == xor_slots(frame::slots_of(a), frame::slots_of(b)),
{
    let x = crc::xor_bytes(a, b);
    assert forall|i: int| 0 <= i < 32 implies #[trigger] frame::word_at(x, i) == frame::word_at(a, i)
        ^ frame::word_at(b, i) by {
        bits::be_linear(
            0,
            0,
            a[4 * i],
            a[4 * i + 1],
            a[4 * i + 2],
            a[4 * i + 3],
            b[4 * i],
            b[4 * i + 1],
            b[4 * i + 2],
            b[4 * i + 3],
            0,
        );
    }
    assert(frame::slots_of(x) =~= xor_slots(frame::slots_of(a), frame::slots_of(b)));
}

/// Serialising slots commutes with exclusive or.
pub proof fn wire_linear(a: Seq<u32>, b: Seq<u32>)
    requires
        a.len() == 32,
        b.len() == 32,
    ensures
        frame::wire_bytes(xor_slots(a, b)) == crc::xor_bytes(frame::wire_bytes(a), frame::wire_bytes(b)),
{
    assert forall|k: int| 0 <= k < 128 implies #[trigger] frame::wire_bytes(xor_slots(a, b))[k]
        == frame::wire_bytes(a)[k] ^ frame::wire_bytes(b)[k] by {
        bits::be_linear(a[k / 4], b[k / 4], 0, 0, 0, 0, 0, 0, 0, 0, k % 4);
    }
    assert(frame::wire_bytes(xor_slots(a, b)) =~= crc::xor_bytes(
        frame::wire_bytes(a),
        frame::wire_bytes(b),
    ));
}

/// Clearing the diagonal commutes with exclusive or.
pub proof fn clear_linear(a: Seq<u32>, b: Seq<u32>)
    requires
        a.len() == 32,
        b.len() == 32,
    ensures
        frame::clear_diagonal(xor_slots(a, b)) == xor_slots(
            frame::clear_diagonal(a),
            frame::clear_diagonal(b),
        ),
{
    assert forall|i: int| 0 <= i < 32 implies #[trigger] frame::clear_diagonal(xor_slots(a, b))[i]
        == frame::clear_diagonal(a)[i] ^ frame::clear_diagonal(b)[i] by {
        bits::unit_facts(a[i], b[i], 0, i as u32, 0);
    }
    assert(frame::clear_diagonal(xor_slots(a, b)) =~= xor_slots(
        frame::clear_diagonal(a),
        frame::clear_diagonal(b),
    ));
}

/// Reading the diagonal commutes with exclusive or.
pub proof fn diagonal_linear(a: Seq<u32>, b: Seq<u32>, n: nat)
    requires
        a.len() == 32,
        b.len() == 32,
        n <= 32,
    ensures
        frame::diagonal_part(xor_slots(a, b), n) == frame::diagonal_part(a, n) ^ frame::diagonal_part(
            b,
            n,
        ),
    decreases n,
{
    bits::word_rules(0, 0, 0, 0);
    if n > 0 {
        let m = (n - 1) as nat;
        diagonal_linear(a, b, m);
        bits::unit_facts(a[m as int], b[m as int], 0, m as u32, 0);
        bits::word_rules(
            frame::diagonal_part(a, m),
            frame::diagonal_part(b, m),
            a[m as int] & bits::unit(m as int),
            b[m as int] & bits::unit(m as int),
        );
    }
}

proof fn body_linear(a: Seq<u8>, b: Seq<u8>)
    requires
        a.len() == 128,
        b.len() == 128,
    ensures
        body_of(crc::xor_bytes(a, b)) == crc::xor_bytes(body_of(a), body_of(b)),
{
    slots_linear(a, b);
    clear_linear(frame::slots_of(a), frame::slots_of(b));
    wire_linear(
        frame::clear_diagonal(frame::slots_of(a)),
        frame::clear_diagonal(frame::slots_of(b)),
    );
}

/// The syndrome of two errors together is the exclusive or of their syndromes.
pub proof fn syndrome_linear(a: Seq<u8>, b: Seq<u8>)
    requires
        a.len() == 128,
        b.len() == 128,
    ensures
        syndrome(crc::xor_bytes(a, b)) == syndrome(a) ^ syndrome(b),
{
    body_linear(a, b);
    slots_linear(a, b);
    diagonal_linear(frame::slots_of(a), frame::slots_of(b), 32);
    crc::register_linear(0, 0, body_of(a), body_of(b));
    bits::word_rules(0, 0, 0, 0);
    bits::word_rules(
        crc::register(0, body_of(a)),
        crc::register(0, body_of(b)),
        frame::diagonal(frame::slots_of(a)),
        frame::diagonal(frame::slots_of(b)),
    );
}

// ---------------------------------------------------------------------------------------------
// Laws
// ---------------------------------------------------------------------------------------------

/// Slots and wire bytes determine each other.
pub proof fn law_wire_round_trip(s: Seq<u32>, b: Seq<u8>)
    requires
        s.len() == 32,
        b.len() == 128,
    ensures
        frame::slots_of(frame::wire_bytes(s)) == s,
        frame::wire_bytes(frame::slots_of(b)) == b,
{
    let w = frame::wire_bytes(s);
    assert forall|i: int| 0 <= i < 32 implies #[trigger] frame::word_at(w, i) == s[i] by {
        bits::be_round_trip(s[i], 0, 0, 0, 0);
        assert((4 * i) / 4 == i && (4 * i + 1) / 4 == i && (4 * i + 2) / 4 == i && (4 * i + 3) / 4 == i);
    }
    assert(frame::slots_of(w) =~= s);
    let t = frame::slots_of(b);
    assert forall|k: int| 0 <= k < 128 implies #[trigger] frame::wire_bytes(t)[k] == b[k] by {
        let i = k / 4;
        bits::be_round_trip(0, b[4 * i], b[4 * i + 1], b[4 * i + 2], b[4 * i + 3]);
        assert(t[i] == frame::word_at(b, i));
        assert(k == 4 * i + k % 4);
    }
    assert(frame::wire_bytes(t) =~= b);
}

/// What [`frame::Frame32::to_bytes`] writes, [`frame::Frame32::from_bytes`] accepts, and it reads
/// back the signed frame; the data is the data that was written.
pub proof fn law_signed_bytes_are_accepted(s: Seq<u32>)
    requires
        s.len() == 32,
    ensures
        accepted(frame::wire_bytes(frame::signed(s))),
        frame::slots_of(frame::wire_bytes(frame::signed(s))) == frame::signed(s),
        frame::clear_diagonal(frame::signed(s)) == frame::clear_diagonal(s),
{
    frame::signing_verifies(s);
    law_wire_round_trip(frame::signed(s), frame::wire_bytes(s));
}

/// The same for the parity format: written rows are even, are accepted, and keep the data.
pub proof fn law_even_rows_are_accepted(s: Seq<u32>)
    requires
        s.len() == 32,
    ensures
        frame::parity_ok(frame::even_rows(s)),
        frame::slots_of(frame::wire_bytes(frame::even_rows(s))) == frame::even_rows(s),
        frame::clear_diagonal(frame::even_rows(s)) == frame::clear_diagonal(s),
{
    let t = frame::even_rows(s);
    assert forall|i: int| 0 <= i < 32 implies weight::weight(#[trigger] t[i] as nat) % 2 == 0
        && frame::clear_diagonal(t)[i] == frame::clear_diagonal(s)[i] by {
        let d = s[i] & !bits::unit(i);
        let u = bits::unit(i);
        bits::unit_facts(s[i], u, 0, i as u32, 0);
        bits::unit_facts(s[i], 0, 0, i as u32, 0);
        weight::weight_of_unit(i as u32);
        bits::word_rules(d, u, 0, 0);
        bits::word_rules(d, 0, 0, 0);
        weight::weight_of_disjoint_or(d as u64, u as u64);
    }
    assert(frame::clear_diagonal(t) =~= frame::clear_diagonal(s));
    law_wire_round_trip(t, frame::wire_bytes(s));
}

/// An odd number of flipped bits in one row is always noticed by the row parities.
pub proof fn law_parity_detects_odd_row_error(s: Seq<u32>, i: int, e: u32)
    requires
        s.len() == 32,
        frame::parity_ok(s),
        0 <= i < 32,
        weight::weight(e as nat) % 2 == 1,
    ensures
        !frame::parity_ok(s.update(i, s[i] ^ e)),
{
    crc::parity_of_xor(s[i], e);
    let t = s.update(i, s[i] ^ e);
    assert(weight::weight(s[i] as nat) % 2 == 0);
    assert(weight::weight(t[i] as nat) % 2 == 1);
}

/// A damaged frame gets past the check exactly if the syndrome of the damage is zero.
pub proof fn law_undetected_iff_syndrome_zero(b: Seq<u8>, e: Seq<u8>)
    requires
        accepted(b),
        e.len() == 128,
    ensures
        accepted(crc::xor_bytes(b, e)) <==> syndrome(e) == 0,
{
    body_linear(b, e);
    slots_linear(b, e);
    diagonal_linear(frame::slots_of(b), frame::slots_of(e), 32);
    crc::checksum_of_xor(body_of(b), body_of(e));
    let c = crc::checksum(body_of(b));
    let r = crc::register(0, body_of(e));
    let d = frame::diagonal(frame::slots_of(e));
    bits::word_rules(c, r, c, d);
    bits::word_rules(r, d, 0, 0);
    bits::word_rules(c ^ r, c ^ d, 0, 0);
    bits::word_rules(c, c, r, d);
    bits::word_rules(r ^ d, 0, 0, 0);
}

proof fn wire_bit_of_word(a: u8, b: u8, c: u8, d: u8, i: u32, t: u32)
    by (bit_vector)
    requires
        i < 32,
        t < 8,
    ensures
        ((((be_cleared(a, b, c, d, i) >> 24) as u8) as u32) >> t) & 1 == (if 24 + t == i {
            0
        } else {
            ((a as u32) >> t) & 1
        }),
        ((((be_cleared(a, b, c, d, i) >> 16) as u8) as u32) >> t) & 1 == (if 16 + t == i {
            0
        } else {
            ((b as u32) >> t) & 1
        }),
        ((((be_cleared(a, b, c, d, i) >> 8) as u8) as u32) >> t) & 1 == (if 8 + t == i {
            0
        } else {
            ((c as u32) >> t) & 1
        }),
        (((be_cleared(a, b, c, d, i) as u8) as u32) >> t) & 1 == (if t == i {
            0
        } else {
            ((d as u32) >> t) & 1
        }),
        (bits::be_word(a, b, c, d) >> ((24 + t) as u32)) & 1 == ((a as u32) >> t) & 1,
        (bits::be_word(a, b, c, d) >> ((16 + t) as u32)) & 1 == ((b as u32) >> t) & 1,
        (bits::be_word(a, b, c, d) >> ((8 + t) as u32)) & 1 == ((c as u32) >> t) & 1,
        (bits::be_word(a, b, c, d) >> t) & 1 == ((d as u32) >> t) & 1,
{
}

spec fn be_cleared(a: u8, b: u8, c: u8, d: u8, i: u32) -> u32 {
    bits::be_word(a, b, c, d) & !(1u32 << i)
}

/// The data bits are the wire bits that are not on the diagonal.
pub proof fn body_bit(e: Seq<u8>, k: int)
    requires
        e.len() == 128,
        0 <= k < 1024,
    ensures
        crc::message_bit(body_of(e), k) == (if on_diagonal(k) {
            0
        } else {
            crc::message_bit(e, k)
        }),
        (frame::slots_of(e)[k / 32] >> ((8 * (3 - (k % 32) / 8) + k % 8) as u32)) & 1
            == crc::message_bit(e, k),
{
    let i = k / 32;
    let j = (k % 32) / 8;
    let t = k % 8;
    let a = e[4 * i];
    let b = e[4 * i + 1];
    let c = e[4 * i + 2];
    let d = e[4 * i + 3];
    wire_bit_of_word(a, b, c, d, i as u32, t as u32);
    assert(k / 8 == 4 * i + j);
    assert((4 * i + j) / 4 == i);
    assert((4 * i + j) % 4 == j);
    assert(frame::slots_of(e)[i] == frame::word_at(e, i));
    assert(body_of(e)[k / 8] == bits::be_byte(be_cleared(a, b, c, d, i as u32), j));
}

proof fn single_bits(k: int, l: int)
    requires
        0 <= k < 1024,
        0 <= l < 1024,
    ensures
        crc::message_bit(single(k), l) == (if k == l {
            1u32
        } else {
            0
        }),
{
    bits::byte_rules(0, 0, (k % 8) as u8, (l % 8) as u32);
    assert(k == 8 * (k / 8) + k % 8);
    assert(l == 8 * (l / 8) + l % 8);
}

/// A diagonal that is zero bit by bit is zero; one with a single bit is that bit.
proof fn diagonal_from_bits(s: Seq<u32>, n: nat, p: int)
    requires
        s.len() == 32,
        n <= 32,
        forall|i: int|
            0 <= i < 32 ==> (#[trigger] s[i] >> (i as u32)) & 1 == (if i == p {
                1u32
            } else {
                0
            }),
    ensures
        frame::diagonal_part(s, n) == (if 0 <= p < n {
            bits::unit(p)
        } else {
            0
        }),
    decreases n,
{
    bits::word_rules(0, 0, 0, 0);
    if n > 0 {
        let m = n - 1;
        diagonal_from_bits(s, m as nat, p);
        bits::unit_facts(s[m], 0, 0, m as u32, 0);
        assert((s[m] >> (m as u32)) & 1 == (if m == p {
            1u32
        } else {
            0
        }));
        bits::word_rules(bits::unit(m), 0, 0, 0);
        if 0 <= p < m {
            bits::word_rules(bits::unit(p), 0, 0, 0);
        }
    }
}

/// The wire bit that carries bit `i` of slot `i`.
pub open spec fn diagonal_wire_bit(i: int) -> int {
    32 * i + 8 * (3 - i / 8) + i % 8
}

proof fn diagonal_positions(i: int)
    requires
        0 <= i < 32,
    ensures
        0 <= diagonal_wire_bit(i) < 1024,
        on_diagonal(diagonal_wire_bit(i)),
        diagonal_wire_bit(i) / 32 == i,
        8 * (3 - (diagonal_wire_bit(i) % 32) / 8) + diagonal_wire_bit(i) % 8 == i,
{
    let k = diagonal_wire_bit(i);
    let r = 8 * (3 - i / 8) + i % 8;
    assert(0 <= r < 32);
    assert(k / 32 == i);
    assert(k % 32 == r);
    assert(r / 8 == 3 - i / 8);
    assert(k % 8 == i % 8);
}

proof fn diagonal_wire_bit_unique(k: int)
    requires
        0 <= k < 1024,
        on_diagonal(k),
    ensures
        k == diagonal_wire_bit(k / 32),
{
    let i = k / 32;
    let j = (k % 32) / 8;
    assert(k == 32 * i + 8 * j + k % 8);
    assert(i == 8 * (3 - j) + k % 8);
    assert(i / 8 == 3 - j);
    assert(i % 8 == k % 8);
}

/// What flipping one wire bit does: a diagonal bit changes its own bit of the difference, a data
/// bit changes it by a one that was stepped to the end of the data.
pub proof fn syndrome_of_single(k: int)
    requires
        0 <= k < 1024,
    ensures
        syndrome(single(k)) == (if on_diagonal(k) {
            bits::unit(k / 32)
        } else {
            crc::shifts(1, (1024 - k) as nat)
        }),
{
    let e = single(k);
    let s = frame::slots_of(e);
    let body = body_of(e);
    assert forall|l: int| 0 <= l < 1024 implies #[trigger] crc::message_bit(body, l) == (if k == l
        && !on_diagonal(k) {
        1u32
    } else {
        0
    }) by {
        body_bit(e, l);
        single_bits(k, l);
    }
    let p = if on_diagonal(k) {
        k / 32
    } else {
        -1
    };
    assert forall|i: int| 0 <= i < 32 implies (#[trigger] s[i] >> (i as u32)) & 1 == (if i == p {
        1u32
    } else {
        0
    }) by {
        let l = diagonal_wire_bit(i);
        diagonal_positions(i);
        body_bit(e, l);
        single_bits(k, l);
        if on_diagonal(k) {
            diagonal_wire_bit_unique(k);
        }
    }
    diagonal_from_bits(s, 32, p);
    crc::register_by_bits(0, body, 128);
    assert(body.take(128) =~= body);
    if on_diagonal(k) {
        zero_word_bits();
        crc::window_register(body, 0, 0, 1024);
        crc::shifts_linear(0, 0, 1024);
        bits::word_rules(bits::unit(k / 32), 0, 0, 0);
    } else {
        one_word_bits();
        crc::window_register(body, k as nat, 1, 1024);
        bits::word_rules(crc::shifts(1, (1024 - k) as nat), 0, 0, 0);
    }
}

proof fn zero_word_bits()
    ensures
        forall|j: int| 0 <= j < 32 ==> #[trigger] bits::word_bit(0, j) == 0,
{
    assert forall|j: int| 0 <= j < 32 implies #[trigger] bits::word_bit(0, j) == 0 by {
        bits::unit_facts(0, 0, 0, j as u32, 0);
    }
}

proof fn one_word_bits()
    ensures
        forall|j: int|
            0 <= j < 32 ==> #[trigger] bits::word_bit(1, j) == (if j == 0 {
                1u32
            } else {
                0
            }),
{
    assert forall|j: int| 0 <= j < 32 implies #[trigger] bits::word_bit(1, j) == (if j == 0 {
        1u32
    } else {
        0
    }) by {
        bits::unit_facts(0, 0, 0, j as u32, 0);
    }
}

/// What a single one bit leaves in the register.
pub proof fn register_of_single(k: int)
    requires
        0 <= k < 1024,
    ensures
        crc::register(0, single(k)) == crc::shifts(1, (1024 - k) as nat),
        crc::register(0, single(k)) != 0,
{
    let e = single(k);
    assert forall|l: int| 0 <= l < 1024 implies #[trigger] crc::message_bit(e, l) == (if k == l {
        1u32
    } else {
        0
    }) by {
        single_bits(k, l);
    }
    crc::register_by_bits(0, e, 128);
    assert(e.take(128) =~= e);
    one_word_bits();
    crc::window_register(e, k as nat, 1, 1024);
    crc::shifts_injective(1, 0, (1024 - k) as nat);
}

/// Every single flipped bit is detected, wherever it lies.
pub proof fn law_single_bit_error_detected(b: Seq<u8>, k: int)
    requires
        accepted(b),
        0 <= k < 1024,
    ensures
        !accepted(crc::xor_bytes(b, single(k))),
{
    law_undetected_iff_syndrome_zero(b, single(k));
    syndrome_of_single(k);
    if on_diagonal(k) {
        bits::unit_facts(0, 0, 0, (k / 32) as u32, 0);
    } else {
        crc::shifts_injective(1, 0, (1024 - k) as nat);
    }
}

/// Any two flipped bits are detected, wherever they lie.
pub proof fn law_double_bit_error_detected(b: Seq<u8>, k: int, l: int)
    requires
        accepted(b),
        0 <= k < 1024,
        0 <= l < 1024,
        k != l,
    ensures
        !accepted(crc::xor_bytes(b, crc::xor_bytes(single(k), single(l)))),
{
    law_undetected_iff_syndrome_zero(b, crc::xor_bytes(single(k), single(l)));
    syndrome_linear(single(k), single(l));
    syndrome_of_single(k);
    syndrome_of_single(l);
    bits::word_rules(syndrome(single(k)), syndrome(single(l)), 0, 0);
    if on_diagonal(k) && on_diagonal(l) {
        diagonal_wire_bit_unique(k);
        diagonal_wire_bit_unique(l);
        bits::unit_facts(0, 0, 0, (k / 32) as u32, (l / 32) as u32);
    } else if on_diagonal(k) {
        mixed_pair(l, k);
    } else if on_diagonal(l) {
        mixed_pair(k, l);
    } else if k < l {
        data_pair(k, l);
    } else {
        data_pair(l, k);
    }
}

proof fn data_pair(k: int, l: int)
    requires
        0 <= k < l < 1024,
    ensures
        crc::shifts(1, (1024 - k) as nat) != crc::shifts(1, (1024 - l) as nat),
{
    let d = (l - k) as nat;
    crc::shifts_add(1, d, (1024 - l) as nat);
    crc::shifts_injective(crc::shifts(1, d), 1, (1024 - l) as nat);
    crc::no_early_return(d);
}

proof fn mixed_pair(k: int, l: int)
    requires
        0 <= k < 1024,
        0 <= l < 1024,
    ensures
        crc::shifts(1, (1024 - k) as nat) != bits::unit(l / 32),
{
    let i = (l / 32) as nat;
    crc::shifts_add(1, (1024 - k) as nat, i);
    crc::shifts_down(1, i);
    crc::no_early_return((1024 - k + i) as nat);
}

// ---------------------------------------------------------------------------------------------
// Odd errors
// ---------------------------------------------------------------------------------------------

/// How many one bits the first `n` slots have.
pub open spec fn slots_weight(s: Seq<u32>, n: nat) -> nat
    decreases n,
{
    if n == 0 {
        0
    } else {
        slots_weight(s, (n - 1) as nat) + weight::weight(s[n - 1] as nat)
    }
}

proof fn word_from_bytes(w: u32, a: u32, b: u32, c: u32, d: u32, p: u32, q: u32, r: u32, t: u32, u: u32)
    by (bit_vector)
    requires
        a == ((w >> 24) as u8) as u32,
        b == ((w >> 16) as u8) as u32,
        c == ((w >> 8) as u8) as u32,
        d == (w as u8) as u32,
        p == (a * 256) as u32,
        q == p ^ b,
        r == (q * 256) as u32,
        t == r ^ c,
        u == (t * 256) as u32,
    ensures
        w == u ^ d,
        p == a * 256,
        r == q * 256,
        u == t * 256,
{
}

/// Moving a number up by one byte adds no one bit.
pub proof fn weight_of_byte_shift(n: nat)
    ensures
        weight::weight(256 * n) == weight::weight(n),
{
    weight::weight_of_double(n);
    weight::weight_of_double(2 * n);
    weight::weight_of_double(4 * n);
    weight::weight_of_double(8 * n);
    weight::weight_of_double(16 * n);
    weight::weight_of_double(32 * n);
    weight::weight_of_double(64 * n);
    weight::weight_of_double(128 * n);
}

/// The one bits of a word, counted byte by byte.
pub proof fn word_parity(w: u32)
    ensures
        weight::weight(w as nat) % 2 == (weight::weight(bits::be_byte(w, 0) as nat) + weight::weight(
            bits::be_byte(w, 1) as nat,
        ) + weight::weight(bits::be_byte(w, 2) as nat) + weight::weight(bits::be_byte(w, 3) as nat)) % 2,
{
    let a = bits::be_byte(w, 0) as u32;
    let b = bits::be_byte(w, 1) as u32;
    let c = bits::be_byte(w, 2) as u32;
    let d = bits::be_byte(w, 3) as u32;
    let p = (a * 256) as u32;
    let q = p ^ b;
    let r = (q * 256) as u32;
    let t = r ^ c;
    let u = (t * 256) as u32;
    word_from_bytes(w, a, b, c, d, p, q, r, t, u);
    weight_of_byte_shift(a as nat);
    crc::parity_of_xor(p, b);
    weight_of_byte_shift(q as nat);
    crc::parity_of_xor(r, c);
    weight_of_byte_shift(t as nat);
    crc::parity_of_xor(u, d);
    assert(w == u ^ d);
}

proof fn wire_parity(s: Seq<u32>, n: nat)
    requires
        s.len() == 32,
        n <= 32,
    ensures
        crc::message_weight(frame::wire_bytes(s).take(4 * n as int)) % 2 == slots_weight(s, n) % 2,
    decreases n,
{
    let b = frame::wire_bytes(s);
    if n == 0 {
        assert(b.take(0) =~= Seq::<u8>::empty());
    } else {
        let m = n - 1;
        wire_parity(s, m as nat);
        word_parity(s[m]);
        assert(b.take(4 * m + 4).drop_last() =~= b.take(4 * m + 3));
        assert(b.take(4 * m + 3).drop_last() =~= b.take(4 * m + 2));
        assert(b.take(4 * m + 2).drop_last() =~= b.take(4 * m + 1));
        assert(b.take(4 * m + 1).drop_last() =~= b.take(4 * m));
        assert(4 * n == 4 * m + 4);
        let base = crc::message_weight(b.take(4 * m));
        assert((4 * m) / 4 == m && (4 * m + 1) / 4 == m && (4 * m + 2) / 4 == m && (4 * m + 3) / 4 == m);
        assert((4 * m) % 4 == 0 && (4 * m + 1) % 4 == 1 && (4 * m + 2) % 4 == 2 && (4 * m + 3) % 4 == 3);
        assert(crc::message_weight(b.take(4 * m + 1)) == base + weight::weight(
            bits::be_byte(s[m], 0) as nat,
        ));
        assert(crc::message_weight(b.take(4 * m + 2)) == crc::message_weight(b.take(4 * m + 1))
            + weight::weight(bits::be_byte(s[m], 1) as nat));
        assert(crc::message_weight(b.take(4 * m + 3)) == crc::message_weight(b.take(4 * m + 2))
            + weight::weight(bits::be_byte(s[m], 2) as nat));
        assert(crc::message_weight(b.take(4 * m + 4)) == crc::message_weight(b.take(4 * m + 3))
            + weight::weight(bits::be_byte(s[m], 3) as nat));
    }
}

/// The one bits of slots, data and diagonal counted apart.
pub proof fn split_parity(s: Seq<u32>, n: nat)
    requires
        s.len() == 32,
        n <= 32,
    ensures
        slots_weight(s, n) % 2 == (slots_weight(frame::clear_diagonal(s), n) + weight::weight(
            frame::diagonal_part(s, n) as nat,
        )) % 2,
    decreases n,
{
    if n == 0 {
        assert(weight::weight(0) == 0);
    } else {
        let m = n - 1;
        split_parity(s, m as nat);
        bits::unit_facts(s[m], 0, 0, m as u32, 0);
        crc::parity_of_xor(s[m] & !bits::unit(m), s[m] & bits::unit(m));
        crc::parity_of_xor(frame::diagonal_part(s, m as nat), s[m] & bits::unit(m));
    }
}

/// Every error with an odd number of flipped bits is detected, wherever they lie.
pub proof fn law_odd_error_detected(b: Seq<u8>, e: Seq<u8>)
    requires
        accepted(b),
        e.len() == 128,
        crc::message_weight(e) % 2 == 1,
    ensures
        !accepted(crc::xor_bytes(b, e)),
{
    law_undetected_iff_syndrome_zero(b, e);
    let s = frame::slots_of(e);
    law_wire_round_trip(s, e);
    wire_parity(s, 32);
    wire_parity(frame::clear_diagonal(s), 32);
    split_parity(s, 32);
    assert(frame::wire_bytes(s).take(128) =~= e);
    assert(body_of(e).take(128) =~= body_of(e));
    crc::register_parity(body_of(e));
    crc::parity_of_xor(crc::register(0, body_of(e)), frame::diagonal(s));
    assert(weight::weight(0) == 0);
}

proof fn xor_weight(a: Seq<u8>, b: Seq<u8>)
    requires
        a.len() == b.len(),
    ensures
        crc::message_weight(crc::xor_bytes(a, b)) % 2 == (crc::message_weight(a) + crc::message_weight(b))
            % 2,
    decreases a.len(),
{
    if a.len() > 0 {
        let x = crc::xor_bytes(a, b);
        xor_weight(a.drop_last(), b.drop_last());
        assert(x.drop_last() =~= crc::xor_bytes(a.drop_last(), b.drop_last()));
        bits::byte_rules(a.last(), b.last(), 0, 0);
        crc::parity_of_xor(a.last() as u32, b.last() as u32);
    }
}

proof fn single_weight(k: int, n: nat)
    requires
        0 <= k < 1024,
        n <= 128,
    ensures
        crc::message_weight(single(k).take(n as int)) == (if k / 8 < n {
            1nat
        } else {
            0
        }),
    decreases n,
{
    let e = single(k);
    if n == 0 {
        assert(e.take(0) =~= Seq::<u8>::empty());
    } else {
        single_weight(k, (n - 1) as nat);
        assert(e.take(n as int).drop_last() =~= e.take(n - 1));
        weight::weight_of_unit((k % 8) as u32);
        bits::byte_rules(0, 0, (k % 8) as u8, 0);
        assert(weight::weight(0) == 0);
    }
}

/// Any three flipped bits are detected, wherever they lie.
pub proof fn law_triple_bit_error_detected(b: Seq<u8>, k: int, l: int, m: int)
    requires
        accepted(b),
        0 <= k < 1024,
        0 <= l < 1024,
        0 <= m < 1024,
        k != l && l != m && k != m,
    ensures
        !accepted(crc::xor_bytes(b, crc::xor_bytes(crc::xor_bytes(single(k), single(l)), single(m)))),
{
    let e = crc::xor_bytes(crc::xor_bytes(single(k), single(l)), single(m));
    single_weight(k, 128);
    single_weight(l, 128);
    single_weight(m, 128);
    assert(single(k).take(128) =~= single(k));
    assert(single(l).take(128) =~= single(l));
    assert(single(m).take(128) =~= single(m));
    xor_weight(single(k), single(l));
    xor_weight(crc::xor_bytes(single(k), single(l)), single(m));
    law_odd_error_detected(b, e);
}

// ---------------------------------------------------------------------------------------------
// Bursts and diagonal errors
// ---------------------------------------------------------------------------------------------

/// Whether every flipped bit of `e` lies among the 32 wire bits from `k` on.
pub open spec fn within_window(e: Seq<u8>, k: int) -> bool {
    forall|l: int|
        0 <= l < 1024 && #[trigger] crc::message_bit(e, l) == 1 ==> k <= l < k + 32
}

/// Whether `e` flips no diagonal bit.
pub open spec fn spares_diagonal(e: Seq<u8>) -> bool {
    forall|l: int| 0 <= l < 1024 && #[trigger] crc::message_bit(e, l) == 1 ==> !on_diagonal(l)
}

/// Whether `e` flips diagonal bits only.
pub open spec fn only_diagonal(e: Seq<u8>) -> bool {
    forall|l: int| 0 <= l < 1024 && #[trigger] crc::message_bit(e, l) == 1 ==> on_diagonal(l)
}

/// Whether `e` flips something.
pub open spec fn flips_something(e: Seq<u8>) -> bool {
    exists|l: int| 0 <= l < 1024 && #[trigger] crc::message_bit(e, l) == 1
}

/// The `t` message bits from `k` on as a word, zero beyond bit `n`.
spec fn gather(data: Seq<u8>, k: int, n: int, t: nat) -> u32
    decreases t,
{
    if t == 0 {
        0
    } else {
        gather(data, k, n, (t - 1) as nat) | ((if k + t - 1 < n {
            crc::message_bit(data, k + t - 1)
        } else {
            0
        }) << ((t - 1) as u32))
    }
}

proof fn bit_range(data: Seq<u8>, l: int)
    requires
        0 <= l < 8 * data.len(),
    ensures
        crc::message_bit(data, l) == 0 || crc::message_bit(data, l) == 1,
{
    bits::unit_facts(data[l / 8] as u32, 0, 0, (l % 8) as u32, 0);
}

proof fn gather_bits(data: Seq<u8>, k: int, n: int, t: nat, j: int)
    requires
        t <= 32,
        0 <= k,
        n == 8 * data.len(),
        0 <= j < 32,
    ensures
        bits::word_bit(gather(data, k, n, t), j) == (if j < t && k + j < n {
            crc::message_bit(data, k + j)
        } else {
            0
        }),
    decreases t,
{
    if t == 0 {
        bits::unit_facts(0, 0, 0, j as u32, 0);
    } else {
        let u = t - 1;
        let b = if k + u < n {
            crc::message_bit(data, k + u)
        } else {
            0
        };
        gather_bits(data, k, n, u as nat, j);
        gather_bits(data, k, n, u as nat, u);
        if k + u < n {
            bit_range(data, k + u);
        }
        bits::unit_facts(gather(data, k, n, u as nat), b, 0, u as u32, j as u32);
    }
}

/// An error within 32 consecutive wire bits that spares the diagonal has a syndrome, unless it
/// flips nothing.
proof fn burst_syndrome(e: Seq<u8>, k: int)
    requires
        e.len() == 128,
        0 <= k < 1024,
        within_window(e, k),
        spares_diagonal(e),
        flips_something(e),
    ensures
        syndrome(e) != 0,
{
    let s = frame::slots_of(e);
    let body = body_of(e);
    assert forall|l: int| 0 <= l < 1024 implies #[trigger] crc::message_bit(body, l)
        == crc::message_bit(e, l) by {
        body_bit(e, l);
        bit_range(e, l);
    }
    assert forall|i: int| 0 <= i < 32 implies (#[trigger] s[i] >> (i as u32)) & 1 == (if i == -1 {
        1u32
    } else {
        0
    }) by {
        diagonal_positions(i);
        body_bit(e, diagonal_wire_bit(i));
        bit_range(e, diagonal_wire_bit(i));
    }
    diagonal_from_bits(s, 32, -1);
    let w = gather(body, k, 1024, 32);
    assert forall|j: int| 0 <= j < 32 implies #[trigger] bits::word_bit(w, j) == (if k + j < 1024 {
        crc::message_bit(body, k + j)
    } else {
        0
    }) by {
        gather_bits(body, k, 1024, 32, j);
    }
    assert forall|j: int| 0 <= j < 1024 && !(k <= j < k + 32) implies #[trigger] crc::message_bit(
        body,
        j,
    ) == 0 by {
        bit_range(e, j);
    }
    crc::window_register(body, k as nat, w, 1024);
    crc::register_by_bits(0, body, 128);
    assert(body.take(128) =~= body);
    let l = choose|l: int| 0 <= l < 1024 && #[trigger] crc::message_bit(e, l) == 1;
    assert(bits::word_bit(w, l - k) == 1);
    bits::unit_facts(0, 0, 0, (l - k) as u32, 0);
    crc::shifts_injective(w, 0, (1024 - k) as nat);
    bits::word_rules(crc::register(0, body), 0, 0, 0);
}

/// A burst of at most 32 wire bits that spares the diagonal is detected.
pub proof fn law_data_burst_detected(b: Seq<u8>, e: Seq<u8>, k: int)
    requires
        accepted(b),
        e.len() == 128,
        0 <= k < 1024,
        within_window(e, k),
        spares_diagonal(e),
        flips_something(e),
    ensures
        !accepted(crc::xor_bytes(b, e)),
{
    law_undetected_iff_syndrome_zero(b, e);
    burst_syndrome(e, k);
}

/// Of all bursts within the same 32 wire bits that flip the same diagonal bits, at most one goes
/// undetected.
pub proof fn law_undetected_burst_is_unique(b: Seq<u8>, e: Seq<u8>, f: Seq<u8>, k: int)
    requires
        accepted(b),
        e.len() == 128,
        f.len() == 128,
        0 <= k < 1024,
        within_window(e, k),
        within_window(f, k),
        forall|l: int|
            0 <= l < 1024 && on_diagonal(l) ==> #[trigger] crc::message_bit(e, l) == crc::message_bit(
                f,
                l,
            ),
        accepted(crc::xor_bytes(b, e)),
        accepted(crc::xor_bytes(b, f)),
    ensures
        e == f,
{
    law_undetected_iff_syndrome_zero(b, e);
    law_undetected_iff_syndrome_zero(b, f);
    syndrome_linear(e, f);
    bits::word_rules(0, 0, 0, 0);
    let x = crc::xor_bytes(e, f);
    assert forall|l: int| 0 <= l < 1024 implies #[trigger] crc::message_bit(x, l) == (
    crc::message_bit(e, l) ^ crc::message_bit(f, l)) by {
        bits::byte_rules(e[l / 8], f[l / 8], 0, (l % 8) as u32);
    }
    assert forall|l: int| 0 <= l < 1024 && #[trigger] crc::message_bit(x, l) == 1 implies k <= l < k + 32
        && !on_diagonal(l) by {
        bit_range(e, l);
        bit_range(f, l);
        bits::word_rules(crc::message_bit(e, l), crc::message_bit(f, l), 0, 0);
    }
    if e != f {
        let i = choose|i: int| 0 <= i < 128 && e[i] != f[i];
        if forall|i: int| 0 <= i < 128 ==> e[i] == f[i] {
            assert(e =~= f);
        }
        byte_bits_differ(e[i], f[i]);
        let t = choose|t: int| 0 <= t < 8 && byte_bit(e[i], t) != byte_bit(f[i], t);
        let l = 8 * i + t;
        assert(l / 8 == i && l % 8 == t);
        bit_range(x, l);
        bits::word_rules(crc::message_bit(e, l), crc::message_bit(f, l), 0, 0);
        assert(crc::message_bit(x, l) == 1);
        burst_syndrome(x, k);
    }
}

spec fn byte_bit(b: u8, t: int) -> u32 {
    ((b as u32) >> (t as u32)) & 1
}

proof fn byte_bits_differ(a: u8, b: u8)
    requires
        a != b,
    ensures
        exists|t: int| 0 <= t < 8 && #[trigger] byte_bit(a, t) != byte_bit(b, t),
{
    bits::byte_rules(a, b, 0, 0);
    assert(byte_bit(a, 0) == ((a as u32) >> 0u32) & 1);
    assert(byte_bit(a, 1) == ((a as u32) >> 1u32) & 1);
    assert(byte_bit(a, 2) == ((a as u32) >> 2u32) & 1);
    assert(byte_bit(a, 3) == ((a as u32) >> 3u32) & 1);
    assert(byte_bit(a, 4) == ((a as u32) >> 4u32) & 1);
    assert(byte_bit(a, 5) == ((a as u32) >> 5u32) & 1);
    assert(byte_bit(a, 6) == ((a as u32) >> 6u32) & 1);
    assert(byte_bit(a, 7) == ((a as u32) >> 7u32) & 1);
}

/// One bit of the diagonal word.
pub proof fn diagonal_bit(s: Seq<u32>, n: nat, j: int)
    requires
        s.len() == 32,
        n <= 32,
        0 <= j < 32,
    ensures
        frame::diagonal_part(s, n) & bits::unit(j) == (if j < n {
            s[j] & bits::unit(j)
        } else {
            0
        }),
    decreases n,
{
    bits::unit_facts(0, 0, 0, j as u32, 0);
    if n > 0 {
        let m = n - 1;
        diagonal_bit(s, m as nat, j);
        bits::unit_facts(s[m], 0, frame::diagonal_part(s, m as nat), m as u32, j as u32);
        bits::unit_facts(frame::diagonal_part(s, m as nat), s[m], 0, m as u32, 0);
        bits::word_rules(0, s[j] & bits::unit(j), 0, 0);
        bits::word_rules(s[j] & bits::unit(j), 0, 0, 0);
    }
}

/// An error that hits diagonal bits only, one or more of them, is detected.
pub proof fn law_diagonal_error_detected(b: Seq<u8>, e: Seq<u8>)
    requires
        accepted(b),
        e.len() == 128,
        only_diagonal(e),
        flips_something(e),
    ensures
        !accepted(crc::xor_bytes(b, e)),
{
    law_undetected_iff_syndrome_zero(b, e);
    let s = frame::slots_of(e);
    let body = body_of(e);
    assert forall|l: int| 0 <= l < 1024 implies #[trigger] crc::message_bit(body, l) == 0 by {
        body_bit(e, l);
        bit_range(e, l);
    }
    zero_word_bits();
    crc::window_register(body, 0, 0, 1024);
    crc::shifts_linear(0, 0, 1024);
    crc::register_by_bits(0, body, 128);
    assert(body.take(128) =~= body);
    let l = choose|l: int| 0 <= l < 1024 && #[trigger] crc::message_bit(e, l) == 1;
    diagonal_wire_bit_unique(l);
    diagonal_positions(l / 32);
    body_bit(e, l);
    diagonal_bit(s, 32, l / 32);
    bits::unit_facts(s[l / 32], 0, 0, (l / 32) as u32, 0);
    bits::word_rules(frame::diagonal(s), 0, 0, 0);
}

/// The diagonal is read bit by bit: bit `i` of the word is bit `i` of slot `i`.
pub proof fn law_diagonal_is_read_bit_by_bit(s: Seq<u32>, i: int)
    requires
        s.len() == 32,
        0 <= i < 32,
    ensures
        (frame::diagonal(s) >> (i as u32)) & 1 == (s[i] >> (i as u32)) & 1,
{
    diagonal_bit(s, 32, i);
    let (a, b, k) = (frame::diagonal(s), s[i], i as u32);
    assert((a >> k) & 1 == (b >> k) & 1) by (bit_vector)
        requires
            a & (1u32 << k) == b & (1u32 << k),
            k < 32,
    ;
}

} // verus!
