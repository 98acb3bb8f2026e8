//! Bit errors for frames.
//!
//! Bit `k` of a frame, counted flat, is bit `k % 32` of slot `k / 32`. This is not the order in
//! which the bits travel on the wire.

use rand::rngs::StdRng;
use vstd::prelude::*;

use crate::bits;
use crate::frame::Frame32;
use crate::research::draws;
use crate::research::rng;
use crate::research::scatter;

verus! {

/// The frame with one bit flipped.
pub open spec fn flipped(s: Seq<u32>, slot: int, bit: int) -> Seq<u32> {
    s.update(slot, s[slot] ^ bits::unit(bit))
}

/// The frame with bits flipped one after the other.
pub open spec fn flips(s: Seq<u32>, positions: Seq<(usize, usize)>) -> Seq<u32>
    decreases positions.len(),
{
    if positions.len() == 0 {
        s
    } else {
        flipped(
            flips(s, positions.drop_last()),
            positions.last().0 as int,
            positions.last().1 as int,
        )
    }
}

/// Whether all positions lie in a frame.
pub open spec fn in_frame(positions: Seq<(usize, usize)>) -> bool {
    forall|i: int| 0 <= i < positions.len() ==> (#[trigger] positions[i]).0 < 32 && positions[i].1 < 32
}

/// Whether no position occurs twice.
pub open spec fn all_distinct(positions: Seq<(usize, usize)>) -> bool {
    forall|i: int, j: int|
        0 <= i < j < positions.len() ==> #[trigger] positions[i] != #[trigger] positions[j]
}

/// How often a position occurs.
pub open spec fn occurrences(positions: Seq<(usize, usize)>, slot: int, bit: int) -> nat
    decreases positions.len(),
{
    if positions.len() == 0 {
        0
    } else {
        occurrences(positions.drop_last(), slot, bit) + (if positions.last().0 == slot
            && positions.last().1 == bit {
            1nat
        } else {
            0
        })
    }
}

/// A single flip, bit by bit.
pub proof fn flipped_bits(s: Seq<u32>, slot: int, bit: int, a: int, b: int)
    requires
        s.len() == 32,
        0 <= slot < 32,
        0 <= bit < 32,
        0 <= a < 32,
        0 <= b < 32,
    ensures
        scatter::bit_at(flipped(s, slot, bit), a, b) == (scatter::bit_at(s, a, b) != (a == slot && b
            == bit)),
{
    bits::unit_facts(s[slot], 0, 0, bit as u32, b as u32);
}

/// A bit changes exactly if its position is listed an odd number of times, whatever the order.
pub proof fn law_flips_by_parity(s: Seq<u32>, positions: Seq<(usize, usize)>, a: int, b: int)
    requires
        s.len() == 32,
        in_frame(positions),
        0 <= a < 32,
        0 <= b < 32,
    ensures
        scatter::bit_at(flips(s, positions), a, b) == (scatter::bit_at(s, a, b) != (occurrences(
            positions,
            a,
            b,
        ) % 2 == 1)),
        flips(s, positions).len() == 32,
    decreases positions.len(),
{
    if positions.len() > 0 {
        let last = positions.last();
        let rest = positions.drop_last();
        assert(positions[positions.len() - 1] == last);
        assert forall|i: int| 0 <= i < rest.len() implies (#[trigger] rest[i]).0 < 32 && rest[i].1 < 32 by {
            assert(rest[i] == positions[i]);
        }
        law_flips_by_parity(s, rest, a, b);
        flipped_bits(flips(s, rest), last.0 as int, last.1 as int, a, b);
    }
}

/// Flipping the same positions again restores the frame.
pub proof fn law_flipping_twice_cancels(s: Seq<u32>, positions: Seq<(usize, usize)>)
    requires
        s.len() == 32,
        in_frame(positions),
    ensures
        flips(flips(s, positions), positions) == s,
{
    let once = flips(s, positions);
    let twice = flips(once, positions);
    assert forall|a: int, b: int| 0 <= a < 32 && 0 <= b < 32 implies #[trigger] scatter::bit_at(
        twice,
        a,
        b,
    ) == scatter::bit_at(s, a, b) by {
        law_flips_by_parity(s, positions, a, b);
        law_flips_by_parity(once, positions, a, b);
    }
    law_flips_by_parity(s, positions, 0, 0);
    law_flips_by_parity(once, positions, 0, 0);
    scatter::frames_equal(twice, s);
}

/// Flips the bits at the listed positions; a position that is listed twice is flipped back.
pub fn flip_bits(frame: &mut Frame32, positions: &[(usize, usize)])
    requires
        in_frame(positions@),
    ensures
        final(frame)@ == flips(old(frame)@, positions@),
{
    let mut i: usize = 0;
    assert(positions@.take(0) =~= Seq::<(usize, usize)>::empty());
    while i < positions.len()
        invariant
            i <= positions@.len(),
            in_frame(positions@),
            frame@ == flips(old(frame)@, positions@.take(i as int)),
        decreases positions@.len() - i,
    {
        let (slot, bit) = positions[i];
        proof {
            assert(positions@[i as int].0 < 32 && positions@[i as int].1 < 32);
            assert(positions@.take(i + 1).drop_last() =~= positions@.take(i as int));
        }
        let ghost before = frame@;
        frame.0[slot] = frame.0[slot] ^ (1u32 << (bit as u32));
        assert(frame@ =~= flipped(before, slot as int, bit as int));
        i += 1;
    }
    assert(positions@.take(i as int) =~= positions@);
}

/// How many entries are set.
spec fn count_set(used: Seq<bool>) -> nat
    decreases used.len(),
{
    if used.len() == 0 {
        0
    } else {
        count_set(used.drop_last()) + (if used.last() {
            1nat
        } else {
            0
        })
    }
}

proof fn count_all_clear(used: Seq<bool>)
    requires
        forall|i: int| 0 <= i < used.len() ==> !#[trigger] used[i],
    ensures
        count_set(used) == 0,
    decreases used.len(),
{
    if used.len() > 0 {
        let rest = used.drop_last();
        assert forall|i: int| 0 <= i < rest.len() implies !#[trigger] rest[i] by {
            assert(rest[i] == used[i]);
        }
        count_all_clear(rest);
    }
}

proof fn count_all_set(used: Seq<bool>)
    requires
        forall|i: int| 0 <= i < used.len() ==> #[trigger] used[i],
    ensures
        count_set(used) == used.len(),
    decreases used.len(),
{
    if used.len() > 0 {
        let rest = used.drop_last();
        assert forall|i: int| 0 <= i < rest.len() implies #[trigger] rest[i] by {
            assert(rest[i] == used[i]);
        }
        count_all_set(rest);
    }
}

proof fn count_one_more(used: Seq<bool>, k: int)
    requires
        0 <= k < used.len(),
        !used[k],
    ensures
        count_set(used.update(k, true)) == count_set(used) + 1,
    decreases used.len(),
{
    let next = used.update(k, true);
    if k == used.len() - 1 {
        assert(next.drop_last() =~= used.drop_last());
    } else {
        count_one_more(used.drop_last(), k);
        assert(next.drop_last() =~= used.drop_last().update(k, true));
    }
}

/// Draws `n` different numbers below `bound`. A number that was drawn before is drawn anew, for as
/// long as the generator can come up with a new one.
pub fn draw_distinct(rng: &mut StdRng, n: usize, bound: usize) -> (chosen: Vec<usize>)
    requires
        n <= bound,
    ensures
        chosen@.len() == n,
        forall|i: int| 0 <= i < n ==> #[trigger] chosen@[i] < bound,
        forall|i: int, j: int| 0 <= i < j < n ==> #[trigger] chosen@[i] != #[trigger] chosen@[j],
        (chosen@, rng::words_to_come(*final(rng))) == draws::drawn(
            rng::words_to_come(*old(rng)),
            n as nat,
            bound as nat,
        ),
        draws::comes_to_an_end(rng::words_to_come(*old(rng)), n as nat, bound as nat) ==> (
            chosen@,
            rng::words_to_come(*final(rng)),
        ) == draws::in_the_end(rng::words_to_come(*old(rng)), n as nat, bound as nat),
{
    let ghost first = rng::words_to_come(*rng);
    let ghost all = draws::drawn(first, n as nat, bound as nat);
    let mut used: Vec<bool> = vec![false; bound];
    let mut chosen: Vec<usize> = Vec::new();
    let mut patience: u128 = u128::MAX;
    // The draws so far, the words after the last new number, and the draws since.
    let ghost mut k: nat = 0;
    let ghost mut base = first;
    let ghost mut since: nat = 0;
    proof {
        count_all_clear(used@);
    }
    while chosen.len() < n
        invariant
            n <= bound,
            chosen@.len() <= n,
            used@.len() == bound,
            count_set(used@) == chosen@.len(),
            forall|i: int| 0 <= i < chosen@.len() ==> #[trigger] chosen@[i] < bound && used@[chosen@[i] as int],
            forall|i: int, j: int|
                0 <= i < j < chosen@.len() ==> #[trigger] chosen@[i] != #[trigger] chosen@[j],
            forall|m: usize| m < bound ==> #[trigger] chosen@.contains(m) == used@[m as int],
            all == draws::drawn_on(
                rng::words_to_come(*rng),
                n as nat,
                bound as nat,
                chosen@,
                patience as nat,
            ),
            patience == 0 || (chosen@, rng::words_to_come(*rng)) == draws::after_draws(
                first,
                n as nat,
                bound as nat,
                k,
            ),
            patience == 0 ==> !draws::comes_to_an_end(first, n as nat, bound as nat),
            patience > 0 ==> {
                &&& since + patience == u128::MAX
                &&& since <= k
                &&& (chosen@, base) == draws::after_draws(first, n as nat, bound as nat, (k - since) as nat)
                &&& rng::words_to_come(*rng) == draws::words_later(base, bound as nat, since)
                &&& forall|u: nat| u < since ==> #[trigger] draws::misses(base, bound as nat, chosen@, u)
                &&& chosen@.len() == 0 ==> since == 0
                &&& chosen@.len() > 0 ==> rng::cycles(base) && rng::is_endless(base)
            },
        decreases n - chosen@.len(), patience,
    {
        let ghost before = chosen@;
        let ghost words = rng::words_to_come(*rng);
        if patience == 0 {
            let candidate: usize = lowest_free(&used);
            proof {
                assert forall|j: usize| j < candidate implies #[trigger] chosen@.contains(j) by {
                    assert(used@[j as int]);
                }
                assert(draws::is_first_free(chosen@, candidate));
                let other = draws::first_free(chosen@);
                assert(draws::is_first_free(chosen@, other));
                assert(other == candidate);
                count_one_more(used@, candidate as int);
                assert forall|m: usize| m < bound implies #[trigger] before.push(candidate).contains(m)
                    == used@.update(candidate as int, true)[m as int] by {
                    pushed_contains(before, candidate, m);
                }
            }
            used.set(candidate, true);
            chosen.push(candidate);
        } else {
            let candidate: usize = rng::gen_range(rng, 0, bound);
            proof {
                draws::one_more_draw(first, n as nat, bound as nat, k);
                assert(chosen@.contains(candidate) == used@[candidate as int]);
            }
            if !used[candidate] {
                proof {
                    count_one_more(used@, candidate as int);
                    assert forall|m: usize| m < bound implies #[trigger] before.push(candidate).contains(m)
                        == used@.update(candidate as int, true)[m as int] by {
                        pushed_contains(before, candidate, m);
                    }
                    k = k + 1;
                    since = 0;
                    base = rng::words_to_come(*rng);
                }
                used.set(candidate, true);
                chosen.push(candidate);
                patience = u128::MAX;
            } else {
                patience -= 1;
                proof {
                    assert(draws::misses(base, bound as nat, chosen@, since));
                    k = k + 1;
                    since = since + 1;
                    if patience == 0 {
                        hopeless(first, n as nat, bound as nat, (k - since) as nat);
                    }
                }
            }
        }
    }
    proof {
        if patience > 0 {
            draws::enough_is_the_end(first, n as nat, bound as nat, k);
        }
    }
    chosen
}

proof fn hopeless(words: Map<nat, u32>, n: nat, bound: nat, k: nat)
    requires
        ({
            let (chosen, left) = draws::after_draws(words, n, bound, k);
            &&& chosen.len() < n
            &&& rng::cycles(left)
            &&& rng::is_endless(left)
            &&& forall|u: nat| u < u128::MAX ==> #[trigger] draws::misses(left, bound, chosen, u)
        }),
    ensures
        !draws::comes_to_an_end(words, n, bound),
{
    let (chosen, left) = draws::after_draws(words, n, bound, k);
    assert forall|u: nat| #[trigger] draws::misses(left, bound, chosen, u) by {
        draws::misses_for_ever(left, bound, chosen, u);
    }
    draws::stuck_has_no_end(words, n, bound, k);
}

proof fn pushed_contains(s: Seq<usize>, a: usize, k: usize)
    ensures
        s.push(a).contains(k) == (s.contains(k) || k == a),
{
    let t = s.push(a);
    if s.contains(k) {
        let i = choose|i: int| 0 <= i < s.len() && s[i] == k;
        assert(t[i] == k);
    }
    assert(t[s.len() as int] == a);
    if t.contains(k) {
        let i = choose|i: int| 0 <= i < t.len() && t[i] == k;
        if i < s.len() {
            assert(s[i] == k);
        }
    }
}

fn lowest_free(used: &Vec<bool>) -> (i: usize)
    requires
        count_set(used@) < used@.len(),
    ensures
        i < used@.len(),
        !used@[i as int],
        forall|j: int| 0 <= j < i ==> #[trigger] used@[j],
{
    let mut i: usize = 0;
    while i < used.len() && used[i]
        invariant
            i <= used@.len(),
            forall|j: int| 0 <= j < i ==> #[trigger] used@[j],
        decreases used@.len() - i,
    {
        i += 1;
    }
    proof {
        if i == used@.len() {
            count_all_set(used@);
        }
    }
    i
}

/// Flips `n` different bits chosen at random and returns their positions.
pub fn flip_random_n(frame: &mut Frame32, n: usize, rng: &mut StdRng) -> (positions: Vec<(usize, usize)>)
    requires
        n <= 1024,
    ensures
        positions@.len() == n,
        in_frame(positions@),
        all_distinct(positions@),
        ({
            let (chosen, words) = draws::drawn(rng::words_to_come(*old(rng)), n as nat, 1024);
            positions@ == positions_of(chosen) && rng::words_to_come(*final(rng)) == words
        }),
        final(frame)@ == flips(old(frame)@, positions@),
{
    let chosen = draw_distinct(rng, n, 1024);
    let positions = flat_positions(&chosen);
    flip_bits(frame, positions.as_slice());
    positions
}

/// Flat indices as positions.
pub open spec fn positions_of(flat: Seq<usize>) -> Seq<(usize, usize)> {
    Seq::new(flat.len(), |i: int| (flat[i] / 32, flat[i] % 32))
}

/// Flat indices as positions.
pub fn flat_positions(flat: &Vec<usize>) -> (positions: Vec<(usize, usize)>)
    requires
        forall|i: int| 0 <= i < flat@.len() ==> #[trigger] flat@[i] < 1024,
        forall|i: int, j: int| 0 <= i < j < flat@.len() ==> #[trigger] flat@[i] != #[trigger] flat@[j],
    ensures
        positions@ == positions_of(flat@),
        in_frame(positions@),
        all_distinct(positions@),
{
    let mut positions: Vec<(usize, usize)> = Vec::new();
    let mut i: usize = 0;
    while i < flat.len()
        invariant
            i <= flat@.len(),
            positions@.len() == i,
            forall|j: int| 0 <= j < i ==> #[trigger] positions@[j] == (flat@[j] / 32, flat@[j] % 32),
        decreases flat@.len() - i,
    {
        positions.push((flat[i] / 32, flat[i] % 32));
        i += 1;
    }
    assert forall|j: int| 0 <= j < positions@.len() implies (#[trigger] positions@[j]).0 < 32
        && positions@[j].1 < 32 by {
        assert(flat@[j] < 1024);
    }
    assert forall|j: int, k: int| 0 <= j < k < positions@.len() implies #[trigger] positions@[j]
        != #[trigger] positions@[k] by {
        assert(flat@[j] != flat@[k]);
        assert(flat@[j] == 32 * (flat@[j] / 32) + flat@[j] % 32);
        assert(flat@[k] == 32 * (flat@[k] / 32) + flat@[k] % 32);
    }
    assert(positions@ =~= positions_of(flat@));
    positions
}

/// Flips the `len` bits from flat index `start` on.
pub fn flip_burst(frame: &mut Frame32, start: usize, len: usize)
    requires
        start + len <= 1024,
    ensures
        final(frame)@.len() == 32,
        forall|slot: int, bit: int|
            0 <= slot < 32 && 0 <= bit < 32 ==> #[trigger] scatter::bit_at(final(frame)@, slot, bit) == (
            scatter::bit_at(old(frame)@, slot, bit) != (start <= 32 * slot + bit < start + len)),
{
    let mut i: usize = start;
    while i < start + len
        invariant
            start <= i <= start + len,
            start + len <= 1024,
            frame@.len() == 32,
            forall|slot: int, bit: int|
                0 <= slot < 32 && 0 <= bit < 32 ==> #[trigger] scatter::bit_at(frame@, slot, bit) == (
                scatter::bit_at(old(frame)@, slot, bit) != (start <= 32 * slot + bit < i)),
        decreases start + len - i,
    {
        let slot: usize = i / 32;
        let bit: usize = i % 32;
        let ghost before = frame@;
        frame.0[slot] = frame.0[slot] ^ (1u32 << (bit as u32));
        proof {
            assert(frame@ =~= flipped(before, slot as int, bit as int));
            assert forall|a: int, b: int| 0 <= a < 32 && 0 <= b < 32 implies #[trigger] scatter::bit_at(
                frame@,
                a,
                b,
            ) == (scatter::bit_at(old(frame)@, a, b) != (start <= 32 * a + b < i + 1)) by {
                flipped_bits(before, slot as int, bit as int, a, b);
                assert(scatter::bit_at(before, a, b) == (scatter::bit_at(old(frame)@, a, b) != (start
                    <= 32 * a + b < i)));
                assert(i == 32 * slot + bit);
            }
        }
        i += 1;
    }
}

} // verus!
