//! Where the bits of a check value live inside a frame.
//!
//! A pattern reserves positions of the frame for the check value; the CRC-32C is taken over the
//! frame with the reserved positions cleared.

use vstd::prelude::*;

use crate::bits;
use crate::crc;
use crate::frame;
use crate::frame::Frame32;

verus! {

/// The bit of a frame at one position.
pub open spec fn bit_at(s: Seq<u32>, slot: int, bit: int) -> bool {
    bits::word_bit(s[slot], bit) == 1
}

/// The frame whose reserved positions show the bits of `value` and whose other positions are
/// those of `s`. The map says which bit belongs at which reserved position.
pub open spec fn placed(places: Map<(int, int), int>, s: Seq<u32>, value: u32) -> Seq<u32> {
    Seq::new(
        32,
        |slot: int|
            bits::word_from(
                |bit: int|
                    if places.dom().contains((slot, bit)) {
                        bits::word_bit(value, places[(slot, bit)]) == 1
                    } else {
                        bit_at(s, slot, bit)
                    },
                32,
            ),
    )
}

/// The frame with its reserved positions cleared.
pub open spec fn cleared(places: Map<(int, int), int>, s: Seq<u32>) -> Seq<u32> {
    placed(places, s, 0)
}

/// All ones in the low `n` bits.
pub open spec fn mask_of(n: int) -> u32 {
    if n >= 32 {
        0xFFFF_FFFF
    } else {
        ((1u32 << (n as u32)) - 1) as u32
    }
}

/// The check value that a pattern asks for.
pub open spec fn pattern_checksum(places: Map<(int, int), int>, information: int, s: Seq<u32>) -> u32 {
    crc::checksum(frame::wire_bytes(cleared(places, s))) & mask_of(information)
}

/// The bits of a frame after placing.
pub proof fn placed_bits(places: Map<(int, int), int>, s: Seq<u32>, value: u32, slot: int, bit: int)
    requires
        0 <= slot < 32,
        0 <= bit < 32,
    ensures
        bit_at(placed(places, s, value), slot, bit) == (if places.dom().contains((slot, bit)) {
            bits::word_bit(value, places[(slot, bit)]) == 1
        } else {
            bit_at(s, slot, bit)
        }),
{
    let f = |b: int|
        if places.dom().contains((slot, b)) {
            bits::word_bit(value, places[(slot, b)]) == 1
        } else {
            bit_at(s, slot, b)
        };
    bits::word_from_bits(f, 32, bit);
    assert(placed(places, s, value)[slot] == bits::word_from(f, 32));
}

/// Frames with the same bits are equal.
pub proof fn frames_equal(a: Seq<u32>, b: Seq<u32>)
    requires
        a.len() == 32,
        b.len() == 32,
        forall|slot: int, bit: int|
            0 <= slot < 32 && 0 <= bit < 32 ==> #[trigger] bit_at(a, slot, bit) == bit_at(b, slot, bit),
    ensures
        a == b,
{
    assert forall|slot: int| 0 <= slot < 32 implies #[trigger] a[slot] == b[slot] by {
        assert forall|bit: int| 0 <= bit < 32 implies #[trigger] bits::word_bit(a[slot], bit)
            == bits::word_bit(b[slot], bit) by {
            assert(bit_at(a, slot, bit) == bit_at(b, slot, bit));
            bits::bit_is_binary(a[slot], bit);
            bits::bit_is_binary(b[slot], bit);
        }
        bits::words_equal(a[slot], b[slot]);
    }
    assert(a =~= b);
}

/// What was placed over something else leaves no trace of it.
pub proof fn placed_twice(places: Map<(int, int), int>, s: Seq<u32>, first: u32, second: u32)
    requires
        s.len() == 32,
    ensures
        placed(places, placed(places, s, first), second) == placed(places, s, second),
{
    let p = placed(places, s, first);
    let q = placed(places, p, second);
    let r = placed(places, s, second);
    assert forall|slot: int, bit: int| 0 <= slot < 32 && 0 <= bit < 32 implies #[trigger] bit_at(
        q,
        slot,
        bit,
    ) == bit_at(r, slot, bit) by {
        placed_bits(places, s, first, slot, bit);
        placed_bits(places, p, second, slot, bit);
        placed_bits(places, s, second, slot, bit);
    }
    frames_equal(q, r);
}

/// A choice of reserved positions.
pub trait ScatterPattern {
    /// Whether the pattern is usable.
    spec fn wf(&self) -> bool;

    /// Which check bit is written at which position; these are the reserved positions.
    spec fn places(&self) -> Map<(int, int), int>;

    /// How many check bits the pattern carries.
    spec fn information(&self) -> int;

    /// What the pattern reads back for check bit `k`.
    spec fn stored_bit(&self, s: Seq<u32>, k: int) -> bool;

    /// What was written is read back.
    proof fn reads_back(&self, s: Seq<u32>, value: u32, k: int)
        requires
            self.wf(),
            s.len() == 32,
            0 <= k < self.information(),
        ensures
            self.stored_bit(placed(self.places(), s, value), k) == (bits::word_bit(value, k) == 1),
    ;

    /// Only the reserved positions are read.
    proof fn reads_reserved_only(&self, s: Seq<u32>, t: Seq<u32>, k: int)
        requires
            self.wf(),
            s.len() == 32,
            t.len() == 32,
            0 <= k < self.information(),
            forall|slot: int, bit: int|
                0 <= slot < 32 && 0 <= bit < 32 && self.places().dom().contains((slot, bit))
                    ==> #[trigger] bit_at(s, slot, bit) == bit_at(t, slot, bit),
        ensures
            self.stored_bit(s, k) == self.stored_bit(t, k),
    ;

    /// How many check bits the pattern carries.
    fn information_bits(&self) -> (n: u8)
        requires
            self.wf(),
        ensures
            n == self.information(),
            n <= 32,
    ;

    /// All ones in the bits that the pattern carries.
    fn mask(&self) -> (m: u32)
        requires
            self.wf(),
        ensures
            m == mask_of(self.information()),
    {
        let b: u8 = self.information_bits();
        if b >= 32 {
            u32::MAX
        } else {
            proof {
                bits::unit_facts(0, 0, 0, b as u32, 0);
            }
            (1u32 << (b as u32)) - 1
        }
    }

    /// Clears the reserved positions; the others stay.
    fn clear_reserved(&self, frame: &mut Frame32)
        requires
            self.wf(),
        ensures
            final(frame)@ == cleared(self.places(), old(frame)@),
    ;

    /// Writes the bits of `value` to the reserved positions; the others stay.
    fn write(&self, frame: &mut Frame32, value: u32)
        requires
            self.wf(),
        ensures
            final(frame)@ == placed(self.places(), old(frame)@, value),
    ;

    /// Reads the check value from the reserved positions.
    fn read(&self, frame: &Frame32) -> (value: u32)
        requires
            self.wf(),
        ensures
            forall|k: int|
                0 <= k < 32 ==> (#[trigger] bits::word_bit(value, k) == 1) == (k < self.information()
                    && self.stored_bit(frame@, k)),
    ;
}

// ---------------------------------------------------------------------------------------------
// Patterns that keep every check bit at one position
// ---------------------------------------------------------------------------------------------

/// Whether 32 positions lie in the frame and differ.
pub open spec fn distinct_positions(pos: Seq<(u8, u8)>) -> bool {
    &&& pos.len() == 32
    &&& forall|k: int| 0 <= k < 32 ==> (#[trigger] pos[k]).0 < 32 && pos[k].1 < 32
    &&& forall|j: int, k: int| 0 <= j < k < 32 ==> #[trigger] pos[j] != #[trigger] pos[k]
}

/// Whether one of the first `n` positions is the given one.
pub open spec fn among(pos: Seq<(u8, u8)>, n: int, slot: int, bit: int) -> bool {
    exists|k: int| 0 <= k < n && (#[trigger] pos[k]).0 == slot && pos[k].1 == bit
}

/// Which of the positions is the given one.
pub open spec fn index_among(pos: Seq<(u8, u8)>, slot: int, bit: int) -> int {
    choose|k: int| 0 <= k < 32 && (#[trigger] pos[k]).0 == slot && pos[k].1 == bit
}

/// Check bit `k` at position `pos[k]`.
pub open spec fn places_of(pos: Seq<(u8, u8)>) -> Map<(int, int), int> {
    Map::new(
        |p: (int, int)| among(pos, 32, p.0, p.1),
        |p: (int, int)| index_among(pos, p.0, p.1),
    )
}

/// A listed position is found again.
pub proof fn index_found(pos: Seq<(u8, u8)>, k: int)
    requires
        distinct_positions(pos),
        0 <= k < 32,
    ensures
        among(pos, 32, pos[k].0 as int, pos[k].1 as int),
        index_among(pos, pos[k].0 as int, pos[k].1 as int) == k,
        places_of(pos).dom().contains((pos[k].0 as int, pos[k].1 as int)),
        places_of(pos)[(pos[k].0 as int, pos[k].1 as int)] == k,
{
    let j = index_among(pos, pos[k].0 as int, pos[k].1 as int);
    assert(0 <= j < 32 && pos[j].0 == pos[k].0 && pos[j].1 == pos[k].1);
    assert(pos[j] == pos[k]);
}

/// Sets one bit of a frame.
fn put_bit(frame: &mut Frame32, slot: usize, bit: usize, one: bool)
    requires
        slot < 32,
        bit < 32,
    ensures
        final(frame)@.len() == 32,
        forall|s: int, b: int|
            0 <= s < 32 && 0 <= b < 32 ==> #[trigger] bit_at(final(frame)@, s, b) == (if s == slot && b
                == bit {
                one
            } else {
                bit_at(old(frame)@, s, b)
            }),
{
    let w: u32 = frame.0[slot];
    let m: u32 = 1u32 << (bit as u32);
    frame.0[slot] = if one {
        w | m
    } else {
        w & !m
    };
    proof {
        assert forall|s: int, b: int| 0 <= s < 32 && 0 <= b < 32 implies #[trigger] bit_at(frame@, s, b)
            == (if s == slot && b == bit {
            one
        } else {
            bit_at(old(frame)@, s, b)
        }) by {
            bits::unit_facts(w, 0, 0, bit as u32, b as u32);
        }
    }
}

/// Reads one bit of a frame.
fn bit_of(frame: &Frame32, slot: usize, bit: usize) -> (one: bool)
    requires
        slot < 32,
        bit < 32,
    ensures
        one == bit_at(frame@, slot as int, bit as int),
{
    let w: u32 = frame.0[slot];
    (w >> (bit as u32)) & 1 == 1
}

/// Writes bit `k` of `value` at position `pos[k]`, for every `k`.
fn write_positions(pos: &[(u8, u8); 32], frame: &mut Frame32, value: u32)
    requires
        distinct_positions(pos@),
    ensures
        final(frame)@ == placed(places_of(pos@), old(frame)@, value),
{
    let mut k: usize = 0;
    while k < 32
        invariant
            k <= 32,
            distinct_positions(pos@),
            frame@.len() == 32,
            forall|s: int, b: int|
                0 <= s < 32 && 0 <= b < 32 ==> #[trigger] bit_at(frame@, s, b) == (if among(
                    pos@,
                    k as int,
                    s,
                    b,
                ) {
                    bits::word_bit(value, index_among(pos@, s, b)) == 1
                } else {
                    bit_at(old(frame)@, s, b)
                }),
        decreases 32 - k,
    {
        let (slot, bit) = pos[k];
        let one: bool = (value >> (k as u32)) & 1 == 1;
        let ghost before = frame@;
        assert(pos@[k as int].0 < 32 && pos@[k as int].1 < 32);
        put_bit(frame, slot as usize, bit as usize, one);
        proof {
            assert forall|s: int, b: int| 0 <= s < 32 && 0 <= b < 32 implies #[trigger] bit_at(
                frame@,
                s,
                b,
            ) == (if among(pos@, k + 1, s, b) {
                bits::word_bit(value, index_among(pos@, s, b)) == 1
            } else {
                bit_at(old(frame)@, s, b)
            }) by {
                let hit = s == slot && b == bit;
                if hit {
                    index_found(pos@, k as int);
                    assert(pos@[k as int].0 == s && pos@[k as int].1 == b);
                    assert(among(pos@, k + 1, s, b));
                } else {
                    assert(bit_at(before, s, b) == bit_at(frame@, s, b));
                    if among(pos@, k + 1, s, b) {
                        let j = choose|j: int|
                            0 <= j < k + 1 && (#[trigger] pos@[j]).0 == s && pos@[j].1 == b;
                        assert(j != k);
                        assert(among(pos@, k as int, s, b));
                    }
                    if among(pos@, k as int, s, b) {
                        let j = choose|j: int|
                            0 <= j < k && (#[trigger] pos@[j]).0 == s && pos@[j].1 == b;
                        assert(0 <= j < k + 1 && pos@[j].0 == s && pos@[j].1 == b);
                    }
                }
            }
        }
        k += 1;
    }
    proof {
        let target = placed(places_of(pos@), old(frame)@, value);
        assert forall|s: int, b: int| 0 <= s < 32 && 0 <= b < 32 implies #[trigger] bit_at(frame@, s, b)
            == bit_at(target, s, b) by {
            placed_bits(places_of(pos@), old(frame)@, value, s, b);
        }
        frames_equal(frame@, target);
    }
}

/// Collects the bits at the positions into a word.
fn read_positions(pos: &[(u8, u8); 32], frame: &Frame32) -> (value: u32)
    requires
        distinct_positions(pos@),
    ensures
        forall|k: int|
            0 <= k < 32 ==> (#[trigger] bits::word_bit(value, k) == 1) == bit_at(
                frame@,
                pos@[k].0 as int,
                pos@[k].1 as int,
            ),
{
    let mut value: u32 = 0;
    let mut k: usize = 0;
    proof {
        assert forall|j: int| 0 <= j < 32 implies #[trigger] bits::word_bit(0, j) == 0 by {
            bits::unit_facts(0, 0, 0, j as u32, 0);
        }
    }
    while k < 32
        invariant
            k <= 32,
            distinct_positions(pos@),
            forall|j: int|
                0 <= j < 32 ==> (#[trigger] bits::word_bit(value, j) == 1) == (j < k && bit_at(
                    frame@,
                    pos@[j].0 as int,
                    pos@[j].1 as int,
                )),
        decreases 32 - k,
    {
        let (slot, bit) = pos[k];
        assert(pos@[k as int].0 < 32 && pos@[k as int].1 < 32);
        if bit_of(frame, slot as usize, bit as usize) {
            let next: u32 = value | (1u32 << (k as u32));
            proof {
                assert forall|j: int| 0 <= j < 32 implies (#[trigger] bits::word_bit(next, j) == 1) == (j
                    <= k && bit_at(frame@, pos@[j].0 as int, pos@[j].1 as int)) by {
                    bits::unit_facts(value, 0, 0, k as u32, j as u32);
                    assert((bits::word_bit(value, j) == 1) == (j < k && bit_at(
                        frame@,
                        pos@[j].0 as int,
                        pos@[j].1 as int,
                    )));
                }
            }
            value = next;
        }
        k += 1;
    }
    value
}

proof fn position_reads_back(pos: Seq<(u8, u8)>, s: Seq<u32>, value: u32, k: int)
    requires
        distinct_positions(pos),
        s.len() == 32,
        0 <= k < 32,
    ensures
        bit_at(placed(places_of(pos), s, value), pos[k].0 as int, pos[k].1 as int) == (bits::word_bit(
            value,
            k,
        ) == 1),
{
    index_found(pos, k);
    placed_bits(places_of(pos), s, value, pos[k].0 as int, pos[k].1 as int);
}

/// Check bit `i` at bit `i` of slot `i`: the layout of [`Frame32::update_crc`].
#[derive(Clone, Copy, Debug)]
pub struct Diagonal;

/// The diagonal positions.
pub open spec fn diagonal_positions() -> Seq<(u8, u8)> {
    Seq::new(32, |k: int| (k as u8, k as u8))
}

fn diagonal_array() -> (pos: [(u8, u8); 32])
    ensures
        pos@ == diagonal_positions(),
        distinct_positions(pos@),
{
    let mut pos: [(u8, u8); 32] = [(0u8, 0u8); 32];
    let mut k: usize = 0;
    while k < 32
        invariant
            k <= 32,
            forall|j: int| 0 <= j < k ==> #[trigger] pos@[j] == (j as u8, j as u8),
        decreases 32 - k,
    {
        pos[k] = (k as u8, k as u8);
        k += 1;
    }
    assert(pos@ =~= diagonal_positions());
    pos
}

impl ScatterPattern for Diagonal {
    open spec fn wf(&self) -> bool {
        true
    }

    open spec fn places(&self) -> Map<(int, int), int> {
        places_of(diagonal_positions())
    }

    open spec fn information(&self) -> int {
        32
    }

    open spec fn stored_bit(&self, s: Seq<u32>, k: int) -> bool {
        bit_at(s, k, k)
    }

    proof fn reads_back(&self, s: Seq<u32>, value: u32, k: int) {
        position_reads_back(diagonal_positions(), s, value, k);
    }

    proof fn reads_reserved_only(&self, s: Seq<u32>, t: Seq<u32>, k: int) {
        index_found(diagonal_positions(), k);
        assert(bit_at(s, diagonal_positions()[k].0 as int, diagonal_positions()[k].1 as int) == bit_at(
            t,
            diagonal_positions()[k].0 as int,
            diagonal_positions()[k].1 as int,
        ));
    }

    fn information_bits(&self) -> (n: u8) {
        32
    }

    fn clear_reserved(&self, frame: &mut Frame32) {
        write_positions(&diagonal_array(), frame, 0);
    }

    fn write(&self, frame: &mut Frame32, value: u32) {
        write_positions(&diagonal_array(), frame, value);
    }

    fn read(&self, frame: &Frame32) -> (value: u32) {
        let pos = diagonal_array();
        let value: u32 = read_positions(&pos, frame);
        assert forall|k: int| 0 <= k < 32 implies (#[trigger] bits::word_bit(value, k) == 1) == (k
            < self.information() && self.stored_bit(frame@, k)) by {
            assert(pos@[k] == (k as u8, k as u8));
        }
        value
    }
}

impl Default for Diagonal {
    fn default() -> (d: Self)
        ensures
            d == Diagonal,
    {
        Diagonal
    }
}

/// Check bit `i` at bit `31 - i` of slot `i`.
#[derive(Clone, Copy, Debug)]
pub struct AntiDiagonal;

/// The mirrored diagonal positions.
pub open spec fn anti_diagonal_positions() -> Seq<(u8, u8)> {
    Seq::new(32, |k: int| (k as u8, (31 - k) as u8))
}

fn anti_diagonal_array() -> (pos: [(u8, u8); 32])
    ensures
        pos@ == anti_diagonal_positions(),
        distinct_positions(pos@),
{
    let mut pos: [(u8, u8); 32] = [(0u8, 0u8); 32];
    let mut k: usize = 0;
    while k < 32
        invariant
            k <= 32,
            forall|j: int| 0 <= j < k ==> #[trigger] pos@[j] == (j as u8, (31 - j) as u8),
        decreases 32 - k,
    {
        pos[k] = (k as u8, (31 - k) as u8);
        k += 1;
    }
    assert(pos@ =~= anti_diagonal_positions());
    pos
}

impl ScatterPattern for AntiDiagonal {
    open spec fn wf(&self) -> bool {
        true
    }

    open spec fn places(&self) -> Map<(int, int), int> {
        places_of(anti_diagonal_positions())
    }

    open spec fn information(&self) -> int {
        32
    }

    open spec fn stored_bit(&self, s: Seq<u32>, k: int) -> bool {
        bit_at(s, k, 31 - k)
    }

    proof fn reads_back(&self, s: Seq<u32>, value: u32, k: int) {
        position_reads_back(anti_diagonal_positions(), s, value, k);
    }

    proof fn reads_reserved_only(&self, s: Seq<u32>, t: Seq<u32>, k: int) {
        index_found(anti_diagonal_positions(), k);
        assert(bit_at(s, anti_diagonal_positions()[k].0 as int, anti_diagonal_positions()[k].1 as int) == bit_at(
            t,
            anti_diagonal_positions()[k].0 as int,
            anti_diagonal_positions()[k].1 as int,
        ));
    }

    fn information_bits(&self) -> (n: u8) {
        32
    }

    fn clear_reserved(&self, frame: &mut Frame32) {
        write_positions(&anti_diagonal_array(), frame, 0);
    }

    fn write(&self, frame: &mut Frame32, value: u32) {
        write_positions(&anti_diagonal_array(), frame, value);
    }

    fn read(&self, frame: &Frame32) -> (value: u32) {
        let pos = anti_diagonal_array();
        let value: u32 = read_positions(&pos, frame);
        assert forall|k: int| 0 <= k < 32 implies (#[trigger] bits::word_bit(value, k) == 1) == (k
            < self.information() && self.stored_bit(frame@, k)) by {
            assert(pos@[k] == (k as u8, (31 - k) as u8));
        }
        value
    }
}

impl Default for AntiDiagonal {
    fn default() -> (d: Self)
        ensures
            d == AntiDiagonal,
    {
        AntiDiagonal
    }
}

// ---------------------------------------------------------------------------------------------
// Positions drawn by a linear congruential generator
// ---------------------------------------------------------------------------------------------

/// One step of the generator.
pub open spec fn lcg(state: u64) -> u64 {
    ((state * 6364136223846793005 + 1442695040888963407) % 0x1_0000_0000_0000_0000) as u64
}

/// The generator state after `n` steps from `seed`.
pub open spec fn lcg_state(seed: u64, n: nat) -> u64
    decreases n,
{
    if n == 0 {
        ((seed + 0x9E37_79B9_7F4A_7C15) % 0x1_0000_0000_0000_0000) as u64
    } else {
        lcg(lcg_state(seed, (n - 1) as nat))
    }
}

/// The position that a generator state points at.
pub open spec fn lcg_position(state: u64) -> (u8, u8) {
    (((state % 1024) / 32) as u8, (state % 32) as u8)
}

/// The 32 positions of a seed.
pub open spec fn permuted_positions(seed: u64) -> Seq<(u8, u8)> {
    Seq::new(32, |k: int| lcg_position(lcg_state(seed, (k + 1) as nat)))
}

/// One step of the generator, on the low five bits.
spec fn column_step(x: u32) -> u32 {
    ((13 * x + 15) % 32) as u32
}

/// From column `x`, `n` steps never lead to column `start`.
spec fn avoids(x: u32, start: u32, n: u32) -> bool
    decreases n,
{
    if n == 0 {
        true
    } else {
        let y = column_step(x);
        y != start && avoids(y, start, (n - 1) as u32)
    }
}

proof fn full_cycle(x: u32)
    by (bit_vector)
    requires
        x < 32,
    ensures
        avoids(x, x, 31),
{
}

proof fn lcg_column(state: u64)
    ensures
        lcg(state) % 32 == column_step((state % 32) as u32),
        column_step((state % 32) as u32) < 32,
{
    let q = state as int / 32;
    let r = state as int % 32;
    let whole: int = q * 6364136223846793005 + r * 198879256995212281 + 45084220027780106;
    let t: int = state * 6364136223846793005 + 1442695040888963407;
    assert(t == 32 * whole + (13 * r + 15));
    assert(t % 32 == (13 * r + 15) % 32) by {
        vstd::arithmetic::div_mod::lemma_mod_multiples_vanish(whole, 13 * r + 15, 32);
    }
    assert(t % 0x1_0000_0000_0000_0000 % 32 == t % 32) by {
        vstd::arithmetic::div_mod::lemma_mod_mod(t, 32, 0x800_0000_0000_0000);
    }
    assert(0 <= t % 0x1_0000_0000_0000_0000 < 0x1_0000_0000_0000_0000);
}

proof fn columns_differ(seed: u64, j: nat, n: u32, start: u32)
    requires
        avoids((lcg_state(seed, j) % 32) as u32, start, n),
    ensures
        forall|i: nat| j < i <= j + n ==> #[trigger] lcg_state(seed, i) % 32 != start,
    decreases n,
{
    if n > 0 {
        lcg_column(lcg_state(seed, j));
        assert(lcg_state(seed, j + 1) == lcg(lcg_state(seed, j)));
        columns_differ(seed, j + 1, (n - 1) as u32, start);
    }
}

/// The 32 positions of a seed lie in 32 different columns, so they differ.
pub proof fn law_permuted_columns_differ(seed: u64)
    ensures
        distinct_positions(permuted_positions(seed)),
        forall|j: int, k: int|
            0 <= j < k < 32 ==> (#[trigger] permuted_positions(seed)[j]).1 != (
            #[trigger] permuted_positions(seed)[k]).1,
{
    let pos = permuted_positions(seed);
    assert forall|j: int, k: int| 0 <= j < k < 32 implies (#[trigger] pos[j]).1 != (#[trigger] pos[k]).1 by {
        let start = (lcg_state(seed, (j + 1) as nat) % 32) as u32;
        full_cycle(start);
        columns_differ(seed, (j + 1) as nat, 31, start);
        assert(lcg_state(seed, (k + 1) as nat) % 32 != start);
    }
}

/// Check bits at 32 positions that a generator draws from a seed.
#[derive(Clone, Copy, Debug)]
pub struct Permuted {
    seed: u64,
    positions: [(u8, u8); 32],
}

impl Permuted {
    /// The seed that the positions were drawn from.
    pub closed spec fn spec_seed(&self) -> u64 {
        self.seed
    }

    /// The positions; check bit `k` is at the `k`-th.
    pub closed spec fn spec_positions(&self) -> Seq<(u8, u8)> {
        self.positions@
    }

    /// Draws the positions of a seed. A position that was drawn before would be passed over; the
    /// generator runs through all columns before it repeats one, so none is.
    pub fn new(seed: u64) -> (p: Self)
        ensures
            p.wf(),
            p.spec_seed() == seed,
            p.spec_positions() == permuted_positions(seed),
    {
        proof {
            law_permuted_columns_differ(seed);
        }
        let mut state: u64 = seed.wrapping_add(0x9E37_79B9_7F4A_7C15);
        let mut used: [bool; 1024] = [false; 1024];
        let mut positions: [(u8, u8); 32] = [(0u8, 0u8); 32];
        let mut k: usize = 0;
        while k < 32
            invariant
                k <= 32,
                distinct_positions(permuted_positions(seed)),
                state == lcg_state(seed, k as nat),
                forall|j: int| 0 <= j < k ==> #[trigger] positions@[j] == permuted_positions(seed)[j],
                forall|p: int|
                    0 <= p < 1024 && #[trigger] used@[p] ==> exists|j: int|
                        0 <= j < k && #[trigger] permuted_positions(seed)[j] == ((p / 32) as u8, (p % 32) as u8),
            decreases 32 - k,
        {
            let ghost before = state;
            state = state.wrapping_mul(6364136223846793005).wrapping_add(1442695040888963407);
            proof {
                wrapping_lcg(before, state);
                assert(lcg_state(seed, (k + 1) as nat) == lcg(lcg_state(seed, k as nat)));
            }
            let pos: usize = (state % 1024) as usize;
            proof {
                let here = permuted_positions(seed)[k as int];
                assert(here == lcg_position(state));
                assert((state % 1024) % 32 == state % 32);
                assert(here == ((pos / 32) as u8, (pos % 32) as u8));
                if used@[pos as int] {
                    let j = choose|j: int|
                        0 <= j < k && #[trigger] permuted_positions(seed)[j] == (
                            (pos / 32) as u8,
                            (pos % 32) as u8,
                        );
                    assert(permuted_positions(seed)[j] == permuted_positions(seed)[k as int]);
                }
            }
            if !used[pos] {
                used[pos] = true;
                positions[k] = ((pos / 32) as u8, (pos % 32) as u8);
                k += 1;
            }
        }
        assert(positions@ =~= permuted_positions(seed));
        Permuted { seed, positions }
    }

    /// The seed.
    pub fn seed(&self) -> (seed: u64)
        ensures
            seed == self.spec_seed(),
    {
        self.seed
    }

    /// The position of every check bit.
    pub fn positions(&self) -> (positions: &[(u8, u8); 32])
        ensures
            positions@ == self.spec_positions(),
    {
        &self.positions
    }
}

proof fn wrapping_lcg(before: u64, after: u64)
    requires
        after == before.wrapping_mul(6364136223846793005).wrapping_add(1442695040888963407),
    ensures
        after == lcg(before),
{
    let x: int = before * 6364136223846793005;
    let y = before.wrapping_mul(6364136223846793005);
    assert(y == x % 0x1_0000_0000_0000_0000);
    vstd::arithmetic::div_mod::lemma_add_mod_noop(x, 1442695040888963407, 0x1_0000_0000_0000_0000);
    assert(after == (y + 1442695040888963407) % 0x1_0000_0000_0000_0000);
}

impl ScatterPattern for Permuted {
    closed spec fn wf(&self) -> bool {
        distinct_positions(self.positions@)
    }

    open spec fn places(&self) -> Map<(int, int), int> {
        places_of(self.spec_positions())
    }

    open spec fn information(&self) -> int {
        32
    }

    open spec fn stored_bit(&self, s: Seq<u32>, k: int) -> bool {
        bit_at(s, self.spec_positions()[k].0 as int, self.spec_positions()[k].1 as int)
    }

    proof fn reads_back(&self, s: Seq<u32>, value: u32, k: int) {
        position_reads_back(self.spec_positions(), s, value, k);
    }

    proof fn reads_reserved_only(&self, s: Seq<u32>, t: Seq<u32>, k: int) {
        index_found(self.spec_positions(), k);
        assert(bit_at(s, self.spec_positions()[k].0 as int, self.spec_positions()[k].1 as int) == bit_at(
            t,
            self.spec_positions()[k].0 as int,
            self.spec_positions()[k].1 as int,
        ));
    }

    fn information_bits(&self) -> (n: u8) {
        32
    }

    fn clear_reserved(&self, frame: &mut Frame32) {
        write_positions(&self.positions, frame, 0);
    }

    fn write(&self, frame: &mut Frame32, value: u32) {
        write_positions(&self.positions, frame, value);
    }

    fn read(&self, frame: &Frame32) -> (value: u32) {
        read_positions(&self.positions, frame)
    }
}

// ---------------------------------------------------------------------------------------------
// Eight bits, four times each
// ---------------------------------------------------------------------------------------------

/// Eight check bits: bit `b` is kept at bit `b` of the slots `b`, `b + 8`, `b + 16` and `b + 24`,
/// and read by vote: two of the four replicas make a one.
#[derive(Clone, Copy, Debug)]
pub struct Hadamard;

/// One if the bit is set.
pub open spec fn vote(s: Seq<u32>, slot: int, bit: int) -> int {
    if bit_at(s, slot, bit) {
        1
    } else {
        0
    }
}

/// How many replicas of bit `b` are set.
pub open spec fn votes(s: Seq<u32>, b: int) -> int {
    vote(s, b, b) + vote(s, b + 8, b) + vote(s, b + 16, b) + vote(s, b + 24, b)
}

impl Hadamard {
    /// The four positions of check bit `b`.
    fn replicas_for(b: usize) -> (r: [(usize, usize); 4])
        requires
            b < 8,
        ensures
            forall|i: int| 0 <= i < 4 ==> #[trigger] r@[i] == ((b + 8 * i) as usize, b),
    {
        [(b, b), (b + 8, b), (b + 16, b), (b + 24, b)]
    }
}

impl ScatterPattern for Hadamard {
    open spec fn wf(&self) -> bool {
        true
    }

    open spec fn places(&self) -> Map<(int, int), int> {
        Map::new(|p: (int, int)| 0 <= p.0 < 32 && p.1 == p.0 % 8, |p: (int, int)| p.1)
    }

    open spec fn information(&self) -> int {
        8
    }

    open spec fn stored_bit(&self, s: Seq<u32>, k: int) -> bool {
        votes(s, k) >= 2
    }

    proof fn reads_back(&self, s: Seq<u32>, value: u32, k: int) {
        placed_bits(self.places(), s, value, k, k);
        placed_bits(self.places(), s, value, k + 8, k);
        placed_bits(self.places(), s, value, k + 16, k);
        placed_bits(self.places(), s, value, k + 24, k);
    }

    proof fn reads_reserved_only(&self, s: Seq<u32>, t: Seq<u32>, k: int) {
        assert(bit_at(s, k, k) == bit_at(t, k, k));
        assert(bit_at(s, k + 8, k) == bit_at(t, k + 8, k));
        assert(bit_at(s, k + 16, k) == bit_at(t, k + 16, k));
        assert(bit_at(s, k + 24, k) == bit_at(t, k + 24, k));
    }

    fn information_bits(&self) -> (n: u8) {
        8
    }

    fn clear_reserved(&self, frame: &mut Frame32) {
        self.write(frame, 0);
    }

    fn write(&self, frame: &mut Frame32, value: u32) {
        let mut b: usize = 0;
        while b < 8
            invariant
                b <= 8,
                frame@.len() == 32,
                forall|s: int, t: int|
                    0 <= s < 32 && 0 <= t < 32 ==> #[trigger] bit_at(frame@, s, t) == (if t == s % 8 && t
                        < b {
                        bits::word_bit(value, t) == 1
                    } else {
                        bit_at(old(frame)@, s, t)
                    }),
            decreases 8 - b,
        {
            let one: bool = (value >> (b as u32)) & 1 == 1;
            let places = Hadamard::replicas_for(b);
            let mut r: usize = 0;
            while r < 4
                invariant
                    r <= 4,
                    b < 8,
                    frame@.len() == 32,
                    one == (bits::word_bit(value, b as int) == 1),
                    forall|i: int| 0 <= i < 4 ==> #[trigger] places@[i] == ((b + 8 * i) as usize, b),
                    forall|s: int, t: int|
                        0 <= s < 32 && 0 <= t < 32 ==> #[trigger] bit_at(frame@, s, t) == (if t == s % 8
                            && (t < b || (t == b && s / 8 < r)) {
                            bits::word_bit(value, t) == 1
                        } else {
                            bit_at(old(frame)@, s, t)
                        }),
                decreases 4 - r,
            {
                let (slot, bit) = places[r];
                assert(places@[r as int] == ((b + 8 * r) as usize, b));
                put_bit(frame, slot, bit, one);
                r += 1;
            }
            b += 1;
        }
        proof {
            let target = placed(self.places(), old(frame)@, value);
            assert forall|s: int, t: int| 0 <= s < 32 && 0 <= t < 32 implies #[trigger] bit_at(frame@, s, t)
                == bit_at(target, s, t) by {
                placed_bits(self.places(), old(frame)@, value, s, t);
            }
            frames_equal(frame@, target);
        }
    }

    fn read(&self, frame: &Frame32) -> (value: u32) {
        let mut value: u32 = 0;
        let mut b: usize = 0;
        proof {
            assert forall|j: int| 0 <= j < 32 implies #[trigger] bits::word_bit(0, j) == 0 by {
                bits::unit_facts(0, 0, 0, j as u32, 0);
            }
        }
        while b < 8
            invariant
                b <= 8,
                forall|j: int|
                    0 <= j < 32 ==> (#[trigger] bits::word_bit(value, j) == 1) == (j < b && votes(
                        frame@,
                        j,
                    ) >= 2),
            decreases 8 - b,
        {
            let places = Hadamard::replicas_for(b);
            let mut count: u32 = 0;
            let mut r: usize = 0;
            while r < 4
                invariant
                    r <= 4,
                    b < 8,
                    forall|i: int| 0 <= i < 4 ==> #[trigger] places@[i] == ((b + 8 * i) as usize, b),
                    count <= r,
                    r == 0 ==> count == 0,
                    r == 1 ==> count == vote(frame@, b as int, b as int),
                    r == 2 ==> count == vote(frame@, b as int, b as int) + vote(frame@, b + 8, b as int),
                    r == 3 ==> count == vote(frame@, b as int, b as int) + vote(frame@, b + 8, b as int)
                        + vote(frame@, b + 16, b as int),
                    r == 4 ==> count == votes(frame@, b as int),
                decreases 4 - r,
            {
                let (slot, bit) = places[r];
                assert(places@[r as int] == ((b + 8 * r) as usize, b));
                if bit_of(frame, slot, bit) {
                    count += 1;
                }
                r += 1;
            }
            if count >= 2 {
                let next: u32 = value | (1u32 << (b as u32));
                proof {
                    assert forall|j: int| 0 <= j < 32 implies (#[trigger] bits::word_bit(next, j) == 1)
                        == (j <= b && votes(frame@, j) >= 2) by {
                        bits::unit_facts(value, 0, 0, b as u32, j as u32);
                        assert((bits::word_bit(value, j) == 1) == (j < b && votes(frame@, j) >= 2));
                    }
                }
                value = next;
            }
            b += 1;
        }
        value
    }
}

impl Default for Hadamard {
    fn default() -> (h: Self)
        ensures
            h == Hadamard,
    {
        Hadamard
    }
}

// ---------------------------------------------------------------------------------------------
// Signing and verifying with a pattern
// ---------------------------------------------------------------------------------------------

/// Whether a frame carries the check value that its pattern asks for.
pub open spec fn pattern_ok<P: ScatterPattern>(pattern: &P, s: Seq<u32>) -> bool {
    forall|k: int|
        0 <= k < pattern.information() ==> #[trigger] pattern.stored_bit(s, k) == (bits::word_bit(
            pattern_checksum(pattern.places(), pattern.information(), s),
            k,
        ) == 1)
}

/// Writes the CRC-32C of the frame, its reserved positions cleared, to the reserved positions;
/// the others stay.
pub fn update_with<P: ScatterPattern>(pattern: &P, frame: &mut Frame32)
    requires
        pattern.wf(),
    ensures
        final(frame)@ == placed(
            pattern.places(),
            old(frame)@,
            pattern_checksum(pattern.places(), pattern.information(), old(frame)@),
        ),
{
    pattern.clear_reserved(frame);
    let buf = frame.raw_bytes();
    let value: u32 = crc32c::crc32c(buf.as_slice());
    let mask: u32 = pattern.mask();
    pattern.write(frame, value & mask);
    proof {
        placed_twice(
            pattern.places(),
            old(frame)@,
            0,
            pattern_checksum(pattern.places(), pattern.information(), old(frame)@),
        );
    }
}

/// Whether the check value in the reserved positions is that of the rest of the frame.
pub fn verify_with<P: ScatterPattern>(pattern: &P, frame: &Frame32) -> (ok: bool)
    requires
        pattern.wf(),
    ensures
        ok == pattern_ok(pattern, frame@),
{
    let received: u32 = pattern.read(frame);
    let mut body = *frame;
    pattern.clear_reserved(&mut body);
    let buf = body.raw_bytes();
    let mask: u32 = pattern.mask();
    let expected: u32 = crc32c::crc32c(buf.as_slice()) & mask;
    let n: u8 = pattern.information_bits();
    proof {
        let value = crc::checksum(buf@);
        assert forall|k: int| n <= k < 32 implies #[trigger] bits::word_bit(expected, k) == 0 by {
            mask_bits(value, n as int, k);
        }
        if pattern_ok(pattern, frame@) {
            assert forall|k: int| 0 <= k < 32 implies #[trigger] bits::word_bit(received, k)
                == bits::word_bit(expected, k) by {
                bits::bit_is_binary(received, k);
                bits::bit_is_binary(expected, k);
                if k < n {
                    assert(pattern.stored_bit(frame@, k) == (bits::word_bit(expected, k) == 1));
                }
            }
            bits::words_equal(received, expected);
        }
        if received == expected {
            assert forall|k: int| 0 <= k < pattern.information() implies #[trigger] pattern.stored_bit(
                frame@,
                k,
            ) == (bits::word_bit(expected, k) == 1) by {
                assert((bits::word_bit(received, k) == 1) == (k < pattern.information()
                    && pattern.stored_bit(frame@, k)));
            }
        }
    }
    received == expected
}

/// The bits of a masked word.
pub proof fn mask_bits(w: u32, n: int, k: int)
    requires
        0 <= n <= 32,
        0 <= k < 32,
    ensures
        bits::word_bit(w & mask_of(n), k) == (if k < n {
            bits::word_bit(w, k)
        } else {
            0
        }),
{
    bits::unit_facts(w, mask_of(n), 0, 0, k as u32);
    bits::bit_is_binary(w, k);
    bits::word_rules(bits::word_bit(w, k), 1, 0, 0);
    bits::word_rules(0, 0, 0, 0);
    bits::word_rules(1, 1, 0, 0);
    if n < 32 {
        bits::unit_facts(0, 0, 0, n as u32, k as u32);
    }
}

} // verus!
