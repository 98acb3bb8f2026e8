//! Laws of the scatter patterns.

use vstd::prelude::*;

use crate::bits;
use crate::crc;
use crate::detect;
use crate::frame;
use crate::research::inject;
use crate::research::scatter;
use crate::research::scatter::{AntiDiagonal, Diagonal, Hadamard, Permuted, ScatterPattern};

verus! {

/// The frame that [`scatter::update_with`] makes of `s`.
pub open spec fn updated<P: ScatterPattern>(pattern: &P, s: Seq<u32>) -> Seq<u32> {
    scatter::placed(
        pattern.places(),
        s,
        scatter::pattern_checksum(pattern.places(), pattern.information(), s),
    )
}

/// A frame verifies right after it was updated with the same pattern.
pub proof fn law_update_then_verify<P: ScatterPattern>(pattern: &P, s: Seq<u32>)
    requires
        pattern.wf(),
        s.len() == 32,
    ensures
        scatter::pattern_ok(pattern, updated(pattern, s)),
        scatter::cleared(pattern.places(), updated(pattern, s)) == scatter::cleared(pattern.places(), s),
{
    let value = scatter::pattern_checksum(pattern.places(), pattern.information(), s);
    let t = updated(pattern, s);
    scatter::placed_twice(pattern.places(), s, value, 0);
    assert forall|k: int| 0 <= k < pattern.information() implies #[trigger] pattern.stored_bit(t, k) == (
    bits::word_bit(scatter::pattern_checksum(pattern.places(), pattern.information(), t), k) == 1) by {
        pattern.reads_back(s, value, k);
    }
}

/// Updating touches reserved positions only.
pub proof fn law_update_keeps_the_rest<P: ScatterPattern>(pattern: &P, s: Seq<u32>, slot: int, bit: int)
    requires
        s.len() == 32,
        0 <= slot < 32,
        0 <= bit < 32,
        !pattern.places().dom().contains((slot, bit)),
    ensures
        scatter::bit_at(updated(pattern, s), slot, bit) == scatter::bit_at(s, slot, bit),
{
    scatter::placed_bits(
        pattern.places(),
        s,
        scatter::pattern_checksum(pattern.places(), pattern.information(), s),
        slot,
        bit,
    );
}

// ---------------------------------------------------------------------------------------------
// The diagonal pattern is the frame's own check
// ---------------------------------------------------------------------------------------------

proof fn diagonal_hit(slot: int, bit: int)
    requires
        0 <= slot < 32,
        0 <= bit < 32,
    ensures
        scatter::places_of(scatter::diagonal_positions()).dom().contains((slot, bit)) == (slot == bit),
        slot == bit ==> scatter::places_of(scatter::diagonal_positions())[(slot, bit)] == slot,
{
    let pos = scatter::diagonal_positions();
    assert(scatter::distinct_positions(pos));
    assert(pos[slot] == (slot as u8, slot as u8));
    scatter::index_found(pos, slot);
    if scatter::among(pos, 32, slot, bit) {
        let k = choose|k: int| 0 <= k < 32 && (#[trigger] pos[k]).0 == slot && pos[k].1 == bit;
        assert(pos[k] == (k as u8, k as u8));
    }
}

proof fn with_diagonal_bits(s: Seq<u32>, value: u32, slot: int, bit: int)
    requires
        s.len() == 32,
        0 <= slot < 32,
        0 <= bit < 32,
    ensures
        scatter::bit_at(frame::with_diagonal(s, value), slot, bit) == (if slot == bit {
            bits::word_bit(value, bit) == 1
        } else {
            scatter::bit_at(s, slot, bit)
        }),
{
    bits::unit_facts(s[slot], 0, 0, slot as u32, bit as u32);
    bits::unit_facts(value, 0, 0, slot as u32, 0);
    let w = s[slot] & !bits::unit(slot);
    let b = bits::word_bit(value, slot);
    bits::unit_facts(w, b, 0, slot as u32, bit as u32);
    bits::unit_facts(s[slot], 0, 0, slot as u32, slot as u32);
}

/// Placing a value with the diagonal pattern is placing it on the diagonal.
proof fn diagonal_placed(s: Seq<u32>, value: u32)
    requires
        s.len() == 32,
    ensures
        scatter::placed(scatter::places_of(scatter::diagonal_positions()), s, value)
            == frame::with_diagonal(s, value),
{
    let places = scatter::places_of(scatter::diagonal_positions());
    let a = scatter::placed(places, s, value);
    let b = frame::with_diagonal(s, value);
    assert forall|slot: int, bit: int| 0 <= slot < 32 && 0 <= bit < 32 implies #[trigger] scatter::bit_at(
        a,
        slot,
        bit,
    ) == scatter::bit_at(b, slot, bit) by {
        scatter::placed_bits(places, s, value, slot, bit);
        diagonal_hit(slot, bit);
        with_diagonal_bits(s, value, slot, bit);
    }
    scatter::frames_equal(a, b);
}

proof fn cleared_is_zero_diagonal(s: Seq<u32>)
    requires
        s.len() == 32,
    ensures
        frame::with_diagonal(s, 0) == frame::clear_diagonal(s),
{
    let a = frame::with_diagonal(s, 0);
    let b = frame::clear_diagonal(s);
    assert forall|i: int| 0 <= i < 32 implies #[trigger] a[i] == b[i] by {
        bits::unit_facts(s[i], 0, 0, i as u32, 0);
        bits::word_rules(s[i] & !bits::unit(i), 0, 0, 0);
    }
    assert(a =~= b);
}

/// Signing and verifying with the diagonal pattern is signing and verifying the frame itself.
pub proof fn law_diagonal_is_the_frame_check(s: Seq<u32>)
    requires
        s.len() == 32,
    ensures
        updated(&Diagonal, s) == frame::signed(s),
        scatter::pattern_ok(&Diagonal, s) == frame::crc_ok(s),
{
    let places = scatter::places_of(scatter::diagonal_positions());
    let value = frame::data_checksum(s);
    diagonal_placed(s, 0);
    cleared_is_zero_diagonal(s);
    bits::word_rules(value, 0, 0, 0);
    diagonal_placed(s, value);
    let d = frame::diagonal(s);
    assert forall|k: int| 0 <= k < 32 implies (#[trigger] bits::word_bit(d, k) == 1) == Diagonal.stored_bit(
        s,
        k,
    ) by {
        detect::diagonal_bit(s, 32, k);
        bits::unit_facts(d, 0, 0, k as u32, 0);
        bits::unit_facts(s[k], 0, 0, k as u32, 0);
    }
    if scatter::pattern_ok(&Diagonal, s) {
        assert forall|k: int| 0 <= k < 32 implies #[trigger] bits::word_bit(d, k) == bits::word_bit(
            value,
            k,
        ) by {
            assert(Diagonal.stored_bit(s, k) == (bits::word_bit(value, k) == 1));
            bits::bit_is_binary(d, k);
            bits::bit_is_binary(value, k);
        }
        bits::words_equal(d, value);
    }
    if frame::crc_ok(s) {
        assert forall|k: int| 0 <= k < 32 implies #[trigger] Diagonal.stored_bit(s, k) == (
        bits::word_bit(value, k) == 1) by {
            assert((bits::word_bit(d, k) == 1) == Diagonal.stored_bit(s, k));
        }
    }
}

// ---------------------------------------------------------------------------------------------
// Damage
// ---------------------------------------------------------------------------------------------

proof fn cleared_forgets(places: Map<(int, int), int>, s: Seq<u32>, slot: int, bit: int)
    requires
        s.len() == 32,
        0 <= slot < 32,
        0 <= bit < 32,
        places.dom().contains((slot, bit)),
    ensures
        scatter::cleared(places, inject::flipped(s, slot, bit)) == scatter::cleared(places, s),
{
    let t = inject::flipped(s, slot, bit);
    let a = scatter::cleared(places, t);
    let b = scatter::cleared(places, s);
    assert forall|x: int, y: int| 0 <= x < 32 && 0 <= y < 32 implies #[trigger] scatter::bit_at(a, x, y)
        == scatter::bit_at(b, x, y) by {
        scatter::placed_bits(places, t, 0, x, y);
        scatter::placed_bits(places, s, 0, x, y);
        inject::flipped_bits(s, slot, bit, x, y);
    }
    scatter::frames_equal(a, b);
}

/// A flipped check bit of the diagonal pattern is detected.
pub proof fn law_diagonal_check_bit_flip_detected(s: Seq<u32>, k: int)
    requires
        s.len() == 32,
        0 <= k < 32,
        scatter::pattern_ok(&Diagonal, s),
    ensures
        !scatter::pattern_ok(&Diagonal, inject::flipped(s, k, k)),
{
    let p = Diagonal;
    diagonal_hit(k, k);
    cleared_forgets(p.places(), s, k, k);
    inject::flipped_bits(s, k, k, k, k);
    let t = inject::flipped(s, k, k);
    assert(p.stored_bit(t, k) != p.stored_bit(s, k));
}

/// A flipped check bit of the mirrored pattern is detected.
pub proof fn law_anti_diagonal_check_bit_flip_detected(s: Seq<u32>, k: int)
    requires
        s.len() == 32,
        0 <= k < 32,
        scatter::pattern_ok(&AntiDiagonal, s),
    ensures
        !scatter::pattern_ok(&AntiDiagonal, inject::flipped(s, k, 31 - k)),
{
    let p = AntiDiagonal;
    let pos = scatter::anti_diagonal_positions();
    assert(scatter::distinct_positions(pos));
    assert(pos[k] == (k as u8, (31 - k) as u8));
    scatter::index_found(pos, k);
    cleared_forgets(p.places(), s, k, 31 - k);
    inject::flipped_bits(s, k, 31 - k, k, 31 - k);
    let t = inject::flipped(s, k, 31 - k);
    assert(p.stored_bit(t, k) != p.stored_bit(s, k));
}

/// A flipped check bit of a permuted pattern is detected.
pub proof fn law_permuted_check_bit_flip_detected(p: Permuted, s: Seq<u32>, k: int)
    requires
        p.spec_positions() == scatter::permuted_positions(p.spec_seed()),
        s.len() == 32,
        0 <= k < 32,
        scatter::pattern_ok(&p, s),
    ensures
        !scatter::pattern_ok(
            &p,
            inject::flipped(s, p.spec_positions()[k].0 as int, p.spec_positions()[k].1 as int),
        ),
{
    let pos = p.spec_positions();
    scatter::law_permuted_columns_differ(p.spec_seed());
    let a = pos[k].0 as int;
    let b = pos[k].1 as int;
    scatter::index_found(pos, k);
    cleared_forgets(p.places(), s, a, b);
    inject::flipped_bits(s, a, b, a, b);
    let t = inject::flipped(s, a, b);
    assert(p.stored_bit(t, k) != p.stored_bit(s, k));
}

/// Flipping one of the four replicas of a check bit of a freshly signed frame goes unnoticed: the
/// vote repairs it.
pub proof fn law_hadamard_repairs_one_replica(s: Seq<u32>, slot: int)
    requires
        s.len() == 32,
        0 <= slot < 32,
    ensures
        scatter::pattern_ok(&Hadamard, inject::flipped(updated(&Hadamard, s), slot, slot % 8)),
{
    let p = Hadamard;
    let value = scatter::pattern_checksum(p.places(), 8, s);
    let signed = updated(&p, s);
    let t = inject::flipped(signed, slot, slot % 8);
    law_update_then_verify(&p, s);
    cleared_forgets(p.places(), signed, slot, slot % 8);
    assert forall|k: int| 0 <= k < 8 implies #[trigger] p.stored_bit(t, k) == (bits::word_bit(value, k)
        == 1) by {
        scatter::placed_bits(p.places(), s, value, k, k);
        scatter::placed_bits(p.places(), s, value, k + 8, k);
        scatter::placed_bits(p.places(), s, value, k + 16, k);
        scatter::placed_bits(p.places(), s, value, k + 24, k);
        inject::flipped_bits(signed, slot, slot % 8, k, k);
        inject::flipped_bits(signed, slot, slot % 8, k + 8, k);
        inject::flipped_bits(signed, slot, slot % 8, k + 16, k);
        inject::flipped_bits(signed, slot, slot % 8, k + 24, k);
    }
}

/// The wire bit that carries one bit of a slot.
pub open spec fn wire_index(slot: int, bit: int) -> int {
    32 * slot + 8 * (3 - bit / 8) + bit % 8
}

proof fn unit_byte(bit: u32)
    by (bit_vector)
    requires
        bit < 32,
    ensures
        ((1u32 << bit) >> 24) as u8 == (if bit >= 24 {
            1u8 << ((bit - 24) as u8)
        } else {
            0
        }),
        ((1u32 << bit) >> 16) as u8 == (if 16 <= bit < 24 {
            1u8 << ((bit - 16) as u8)
        } else {
            0
        }),
        ((1u32 << bit) >> 8) as u8 == (if 8 <= bit < 16 {
            1u8 << ((bit - 8) as u8)
        } else {
            0
        }),
        (1u32 << bit) as u8 == (if bit < 8 {
            1u8 << (bit as u8)
        } else {
            0
        }),
        (0u32 >> 24) as u8 == 0,
        (0u32 >> 16) as u8 == 0,
        (0u32 >> 8) as u8 == 0,
        0u32 as u8 == 0,
{
}

/// The frame with one bit alone.
pub open spec fn unit_frame(slot: int, bit: int) -> Seq<u32> {
    Seq::new(
        32,
        |i: int|
            if i == slot {
                bits::unit(bit)
            } else {
                0
            },
    )
}

proof fn unit_frame_on_the_wire(slot: int, bit: int)
    requires
        0 <= slot < 32,
        0 <= bit < 32,
    ensures
        frame::wire_bytes(unit_frame(slot, bit)) == detect::single(wire_index(slot, bit)),
        0 <= wire_index(slot, bit) < 1024,
{
    let k = wire_index(slot, bit);
    unit_byte(bit as u32);
    let r = 8 * (3 - bit / 8) + bit % 8;
    assert(0 <= r < 32);
    assert(k / 8 == 4 * slot + 3 - bit / 8);
    assert(k % 8 == bit % 8);
    let a = frame::wire_bytes(unit_frame(slot, bit));
    let b = detect::single(k);
    assert forall|i: int| 0 <= i < 128 implies #[trigger] a[i] == b[i] by {
        assert(i == 4 * (i / 4) + i % 4);
    }
    assert(a =~= b);
}

/// A pattern that carries all 32 check bits detects every flipped data bit.
pub proof fn law_data_bit_flip_detected<P: ScatterPattern>(pattern: &P, s: Seq<u32>, slot: int, bit: int)
    requires
        pattern.wf(),
        pattern.information() == 32,
        s.len() == 32,
        0 <= slot < 32,
        0 <= bit < 32,
        !pattern.places().dom().contains((slot, bit)),
        scatter::pattern_ok(pattern, s),
    ensures
        !scatter::pattern_ok(pattern, inject::flipped(s, slot, bit)),
{
    let places = pattern.places();
    let t = inject::flipped(s, slot, bit);
    let cs = scatter::cleared(places, s);
    let ct = scatter::cleared(places, t);
    let u = unit_frame(slot, bit);
    assert(ct == detect::xor_slots(cs, u)) by {
        let x = detect::xor_slots(cs, u);
        assert forall|a: int, b: int| 0 <= a < 32 && 0 <= b < 32 implies #[trigger] scatter::bit_at(ct, a, b)
            == scatter::bit_at(x, a, b) by {
            scatter::placed_bits(places, t, 0, a, b);
            scatter::placed_bits(places, s, 0, a, b);
            inject::flipped_bits(s, slot, bit, a, b);
            bits::unit_facts(cs[a], 0, 0, bit as u32, b as u32);
            bits::unit_facts(0, 0, 0, b as u32, 0);
            bits::word_rules(cs[a], 0, 0, 0);
        }
        scatter::frames_equal(ct, x);
    }
    detect::wire_linear(cs, u);
    unit_frame_on_the_wire(slot, bit);
    let k = wire_index(slot, bit);
    crc::checksum_of_xor(frame::wire_bytes(cs), detect::single(k));
    detect::register_of_single(k);
    let vs = crc::checksum(frame::wire_bytes(cs));
    let vt = crc::checksum(frame::wire_bytes(ct));
    bits::word_rules(vs, crc::register(0, detect::single(k)), 0, 0);
    bits::word_rules(crc::register(0, detect::single(k)), vs, vs, 0);
    bits::word_rules(vs, vs, 0, 0);
    bits::word_rules(vt, 0, 0, 0);
    assert(vs != vt);
    if scatter::pattern_ok(pattern, t) {
        assert forall|j: int| 0 <= j < 32 implies #[trigger] bits::word_bit(vs, j) == bits::word_bit(
            vt,
            j,
        ) by {
            assert forall|a: int, b: int|
                0 <= a < 32 && 0 <= b < 32 && places.dom().contains((a, b)) implies #[trigger]
                scatter::bit_at(s, a, b) == scatter::bit_at(t, a, b) by {
                inject::flipped_bits(s, slot, bit, a, b);
            }
            pattern.reads_reserved_only(s, t, j);
            assert(pattern.stored_bit(s, j) == (bits::word_bit(vs, j) == 1));
            assert(pattern.stored_bit(t, j) == (bits::word_bit(vt, j) == 1));
            bits::bit_is_binary(vs, j);
            bits::bit_is_binary(vt, j);
        }
        bits::words_equal(vs, vt);
    }
}

/// The reserved places of the patterns: bit `k` of the check is kept in slot `k`, at the same place
/// there, or at the place counted from the other end; the repeating pattern keeps each of eight
/// bits four times, eight slots apart.
pub proof fn law_where_check_bits_are_kept(k: int, slot: int, bit: int)
    requires
        0 <= k < 32,
        0 <= slot < 32,
        0 <= bit < 32,
    ensures
        scatter::Diagonal.places().dom().contains((slot, bit)) <==> slot == bit,
        scatter::Diagonal.places()[(k, k)] == k,
        scatter::AntiDiagonal.places().dom().contains((slot, bit)) <==> slot + bit == 31,
        scatter::AntiDiagonal.places()[(k, 31 - k)] == k,
        scatter::Hadamard.places().dom().contains((slot, bit)) <==> slot % 8 == bit,
        k % 8 == bit ==> scatter::Hadamard.places()[(k, bit)] == bit,
{
    let d = scatter::diagonal_positions();
    let a = scatter::anti_diagonal_positions();
    assert(scatter::distinct_positions(d)) by {
        assert forall|i: int, j: int| 0 <= i < j < 32 implies #[trigger] d[i] != #[trigger] d[j] by {}
    }
    assert(scatter::distinct_positions(a)) by {
        assert forall|i: int, j: int| 0 <= i < j < 32 implies #[trigger] a[i] != #[trigger] a[j] by {}
    }
    scatter::index_found(d, k);
    scatter::index_found(a, k);
    scatter::index_found(d, slot);
    scatter::index_found(a, slot);
    if scatter::among(d, 32, slot, bit) {
        let i = choose|i: int| 0 <= i < 32 && (#[trigger] d[i]).0 == slot && d[i].1 == bit;
        assert(d[i] == (i as u8, i as u8));
    }
    if scatter::among(a, 32, slot, bit) {
        let i = choose|i: int| 0 <= i < 32 && (#[trigger] a[i]).0 == slot && a[i].1 == bit;
        assert(a[i] == (i as u8, (31 - i) as u8));
    }
}

} // verus!
