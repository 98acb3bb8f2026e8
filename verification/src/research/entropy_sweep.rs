//! Sampling experiments over scatter patterns: how many injected errors are detected, and how
//! check values spread over bodies. What is sampled is counted here; rates and entropies are
//! computed from the counts by the caller.

use rand::rngs::StdRng;
use vstd::prelude::*;

use crate::bits;
use crate::crc;
use crate::frame;
use crate::frame::Frame32;
use crate::research::data;
use crate::research::draws;
use crate::research::inject;
use crate::research::rng;
use crate::research::scatter;
use crate::research::scatter::{update_with, verify_with, ScatterPattern};
use crate::research::scatter_laws;
use crate::research::stats;
use crate::text;

verus! {

/// A kind of damage.
#[derive(Clone, Copy, Debug)]
pub enum ErrorClass {
    /// So many different bits anywhere.
    Random(usize),
    /// So many consecutive bits.
    Burst(usize),
    /// So many different bits at even flat indices.
    EvenBit(usize),
    /// So many different bits at reserved positions.
    DiagonalOnly(usize),
}

impl ErrorClass {
    /// How many bits are flipped.
    pub open spec fn count(&self) -> nat {
        match *self {
            ErrorClass::Random(n) => n as nat,
            ErrorClass::Burst(n) => n as nat,
            ErrorClass::EvenBit(n) => n as nat,
            ErrorClass::DiagonalOnly(n) => n as nat,
        }
    }

    /// The name of the kind.
    pub open spec fn name(&self) -> Seq<char> {
        match *self {
            ErrorClass::Random(_) => "Random("@,
            ErrorClass::Burst(_) => "Burst("@,
            ErrorClass::EvenBit(_) => "EvenBit("@,
            ErrorClass::DiagonalOnly(_) => "DiagonalOnly("@,
        }
    }

    /// Kind and count as a short text.
    pub fn label(&self) -> (s: String)
        ensures
            s@ == self.name() + text::digits(self.count(), 10) + ")"@,
    {
        let mut s = String::new();
        let n: usize = match *self {
            ErrorClass::Random(n) => {
                s.append("Random(");
                n
            },
            ErrorClass::Burst(n) => {
                s.append("Burst(");
                n
            },
            ErrorClass::EvenBit(n) => {
                s.append("EvenBit(");
                n
            },
            ErrorClass::DiagonalOnly(n) => {
                s.append("DiagonalOnly(");
                n
            },
        };
        assert(s@ =~= self.name());
        text::push_number(&mut s, n as u64, 10);
        s.append(")");
        s
    }
}

/// How many of the first `k` flat positions are reserved.
pub open spec fn reserved_count(places: Map<(int, int), int>, k: nat) -> nat
    decreases k,
{
    if k == 0 {
        0
    } else {
        reserved_count(places, (k - 1) as nat) + (if places.dom().contains(((k - 1) / 32, (k - 1) % 32)) {
            1nat
        } else {
            0
        })
    }
}

/// The reserved positions among the first `k` flat ones, in order.
pub open spec fn reserved_list(places: Map<(int, int), int>, k: nat) -> Seq<(usize, usize)>
    decreases k,
{
    if k == 0 {
        Seq::empty()
    } else {
        let rest = reserved_list(places, (k - 1) as nat);
        if places.dom().contains(((k - 1) / 32, (k - 1) % 32)) {
            rest.push((((k - 1) / 32) as usize, ((k - 1) % 32) as usize))
        } else {
            rest
        }
    }
}

/// The flat index of a position.
pub open spec fn flat(p: (usize, usize)) -> int {
    32 * p.0 + p.1
}

/// All reserved positions of a pattern, in flat order.
pub fn reserved_positions<P: ScatterPattern>(pattern: &P) -> (out: Vec<(usize, usize)>)
    requires
        pattern.wf(),
    ensures
        inject::in_frame(out@),
        inject::all_distinct(out@),
        forall|i: int, j: int| 0 <= i < j < out@.len() ==> flat(#[trigger] out@[i]) < flat(#[trigger] out@[j]),
        forall|i: int|
            0 <= i < out@.len() ==> pattern.places().dom().contains(
                ((#[trigger] out@[i]).0 as int, out@[i].1 as int),
            ),
        forall|slot: int, bit: int|
            0 <= slot < 32 && 0 <= bit < 32 && #[trigger] pattern.places().dom().contains((slot, bit))
                ==> exists|i: int| 0 <= i < out@.len() && (#[trigger] out@[i]).0 == slot && out@[i].1 == bit,
        out@.len() == reserved_count(pattern.places(), 1024),
        out@ == reserved_list(pattern.places(), 1024),
{
    let mut f = Frame32([u32::MAX; 32]);
    let ghost ones = f@;
    pattern.clear_reserved(&mut f);
    proof {
        assert forall|slot: int, bit: int| 0 <= slot < 32 && 0 <= bit < 32 implies #[trigger] scatter::bit_at(
            f@,
            slot,
            bit,
        ) == !pattern.places().dom().contains((slot, bit)) by {
            scatter::placed_bits(pattern.places(), ones, 0, slot, bit);
            bits::unit_facts(0, 0, 0, 0, bit as u32);
            if pattern.places().dom().contains((slot, bit)) {
                zero_has_no_bits(pattern.places()[(slot, bit)]);
            }
        }
    }
    let mut out: Vec<(usize, usize)> = Vec::new();
    let mut k: usize = 0;
    while k < 1024
        invariant
            k <= 1024,
            forall|slot: int, bit: int|
                0 <= slot < 32 && 0 <= bit < 32 ==> #[trigger] scatter::bit_at(f@, slot, bit)
                    == !pattern.places().dom().contains((slot, bit)),
            out@.len() == reserved_count(pattern.places(), k as nat),
            out@ == reserved_list(pattern.places(), k as nat),
            out@.len() <= k,
            forall|i: int|
                0 <= i < out@.len() ==> (#[trigger] out@[i]).0 < 32 && out@[i].1 < 32 && flat(out@[i]) < k
                    && pattern.places().dom().contains((out@[i].0 as int, out@[i].1 as int)),
            forall|i: int, j: int|
                0 <= i < j < out@.len() ==> flat(#[trigger] out@[i]) < flat(#[trigger] out@[j]),
            forall|slot: int, bit: int|
                0 <= slot < 32 && 0 <= bit < 32 && 32 * slot + bit < k
                    && #[trigger] pattern.places().dom().contains((slot, bit)) ==> exists|i: int|
                    0 <= i < out@.len() && (#[trigger] out@[i]).0 == slot && out@[i].1 == bit,
        decreases 1024 - k,
    {
        let slot: usize = k / 32;
        let bit: usize = k % 32;
        let w: u32 = f.0[slot];
        let ghost before = out@;
        assert(scatter::bit_at(f@, slot as int, bit as int) == ((w >> (bit as u32)) & 1 == 1));
        proof {
            bits::unit_facts(w, 0, 0, bit as u32, 0);
        }
        if (w >> (bit as u32)) & 1 == 0 {
            out.push((slot, bit));
            proof {
                assert(out@[before.len() as int] == (slot, bit));
            }
        }
        proof {
            assert forall|s: int, b: int|
                0 <= s < 32 && 0 <= b < 32 && 32 * s + b < k + 1
                    && #[trigger] pattern.places().dom().contains((s, b)) implies exists|i: int|
                0 <= i < out@.len() && (#[trigger] out@[i]).0 == s && out@[i].1 == b by {
                if 32 * s + b < k {
                    let i = choose|i: int|
                        0 <= i < before.len() && (#[trigger] before[i]).0 == s && before[i].1 == b;
                    assert(out@[i] == before[i]);
                } else {
                    assert(s == slot && b == bit);
                    assert(scatter::bit_at(f@, s, b) == !pattern.places().dom().contains((s, b)));
                }
            }
        }
        k += 1;
    }
    assert forall|slot: int, bit: int|
        0 <= slot < 32 && 0 <= bit < 32 && #[trigger] pattern.places().dom().contains((slot, bit)) implies exists|
        i: int,
    | 0 <= i < out@.len() && (#[trigger] out@[i]).0 == slot && out@[i].1 == bit by {
        assert(32 * slot + bit < 1024);
    }
    assert forall|i: int, j: int| 0 <= i < j < out@.len() implies #[trigger] out@[i] != #[trigger] out@[j] by {
        assert(flat(out@[i]) < flat(out@[j]));
    }
    out
}

proof fn zero_has_no_bits(k: int)
    ensures
        bits::word_bit(0, k) != 1,
{
    zero_shifted(k as u32);
}

proof fn zero_shifted(k: u32)
    by (bit_vector)
    ensures
        (0u32 >> k) & 1 == 0,
{
}

/// The positions of a burst.
pub open spec fn burst_positions(start: int, n: nat) -> Seq<(usize, usize)> {
    Seq::new(n, |i: int| (((start + i) / 32) as usize, ((start + i) % 32) as usize))
}

/// Whether a list of positions is damage of the given kind.
pub open spec fn is_damage(
    class: ErrorClass,
    places: Map<(int, int), int>,
    positions: Seq<(usize, usize)>,
) -> bool {
    &&& inject::in_frame(positions)
    &&& inject::all_distinct(positions)
    &&& positions.len() == class.count()
    &&& match class {
        ErrorClass::Random(_) => true,
        ErrorClass::Burst(n) => exists|start: int|
            0 <= start && start + n <= 1024 && positions == #[trigger] burst_positions(start, n as nat),
        ErrorClass::EvenBit(_) => forall|i: int|
            0 <= i < positions.len() ==> flat(#[trigger] positions[i]) % 2 == 0,
        ErrorClass::DiagonalOnly(_) => forall|i: int|
            0 <= i < positions.len() ==> places.dom().contains(
                ((#[trigger] positions[i]).0 as int, positions[i].1 as int),
            ),
    }
}

/// Whether a frame has room for the damage.
pub open spec fn fits(class: ErrorClass, places: Map<(int, int), int>) -> bool {
    match class {
        ErrorClass::Random(n) => n <= 1024,
        ErrorClass::Burst(n) => n <= 1024,
        ErrorClass::EvenBit(n) => n <= 512,
        ErrorClass::DiagonalOnly(n) => n <= reserved_count(places, 1024),
    }
}

proof fn burst_occurrences(start: int, n: nat, a: int, b: int)
    requires
        0 <= start,
        start + n <= 1024,
        0 <= a < 32,
        0 <= b < 32,
    ensures
        inject::occurrences(burst_positions(start, n), a, b) == (if start <= 32 * a + b < start + n {
            1nat
        } else {
            0
        }),
    decreases n,
{
    if n > 0 {
        let m = (n - 1) as nat;
        burst_occurrences(start, m, a, b);
        assert(burst_positions(start, n).drop_last() =~= burst_positions(start, m));
        let k = start + m;
        assert(k == 32 * (k / 32) + k % 32);
    }
}

proof fn burst_is_flips(s: Seq<u32>, t: Seq<u32>, start: int, n: nat)
    requires
        s.len() == 32,
        t.len() == 32,
        0 <= start,
        start + n <= 1024,
        forall|slot: int, bit: int|
            0 <= slot < 32 && 0 <= bit < 32 ==> #[trigger] scatter::bit_at(t, slot, bit) == (
            scatter::bit_at(s, slot, bit) != (start <= 32 * slot + bit < start + n)),
    ensures
        inject::in_frame(burst_positions(start, n)),
        inject::all_distinct(burst_positions(start, n)),
        t == inject::flips(s, burst_positions(start, n)),
{
    let ps = burst_positions(start, n);
    assert forall|i: int| 0 <= i < ps.len() implies (#[trigger] ps[i]).0 < 32 && ps[i].1 < 32 by {}
    assert forall|i: int, j: int| 0 <= i < j < ps.len() implies #[trigger] ps[i] != #[trigger] ps[j] by {
        let x = start + i;
        let y = start + j;
        assert(x == 32 * (x / 32) + x % 32);
        assert(y == 32 * (y / 32) + y % 32);
    }
    let u = inject::flips(s, ps);
    assert forall|a: int, b: int| 0 <= a < 32 && 0 <= b < 32 implies #[trigger] scatter::bit_at(t, a, b)
        == scatter::bit_at(u, a, b) by {
        inject::law_flips_by_parity(s, ps, a, b);
        burst_occurrences(start, n, a, b);
    }
    inject::law_flips_by_parity(s, ps, 0, 0);
    scatter::frames_equal(t, u);
}

/// Numbers doubled.
pub open spec fn doubled(half: Seq<usize>) -> Seq<usize> {
    Seq::new(half.len(), |i: int| (2 * half[i]) as usize)
}

/// Two places of a list exchanged.
pub open spec fn exchanged(s: Seq<(usize, usize)>, i: int, j: int) -> Seq<(usize, usize)> {
    s.update(i, s[j]).update(j, s[i])
}

/// The first `n` of a list that is shuffled from place `i` on, with the words that are left: every
/// place is exchanged with one that is drawn from those not yet passed.
pub open spec fn shuffled(
    words: Map<nat, u32>,
    list: Seq<(usize, usize)>,
    i: nat,
    n: nat,
) -> (Seq<(usize, usize)>, Map<nat, u32>)
    decreases n - i,
{
    if i >= n {
        (list.take(n as int), words)
    } else {
        let (j, taken) = rng::range_draw(words, i, list.len(), usize::BITS as nat);
        shuffled(rng::rest(words, taken), exchanged(list, i as int, j as int), i + 1, n)
    }
}

/// The positions that words lead to for a kind of damage, with the words that are left.
pub open spec fn damage(
    class: ErrorClass,
    places: Map<(int, int), int>,
    words: Map<nat, u32>,
) -> (Seq<(usize, usize)>, Map<nat, u32>) {
    match class {
        ErrorClass::Random(n) => {
            let (chosen, left) = draws::drawn(words, n as nat, 1024);
            (inject::positions_of(chosen), left)
        },
        ErrorClass::Burst(n) => if n >= 1024 {
            (burst_positions(0, n as nat), words)
        } else {
            let (start, taken) = rng::range_draw(words, 0, (1025 - n) as nat, usize::BITS as nat);
            (burst_positions(start as int, n as nat), rng::rest(words, taken))
        },
        ErrorClass::EvenBit(n) => {
            let (half, left) = draws::drawn(words, n as nat, 512);
            (inject::positions_of(doubled(half)), left)
        },
        ErrorClass::DiagonalOnly(n) => shuffled(words, reserved_list(places, 1024), 0, n as nat),
    }
}

/// Damages a frame: flips the bits that the generator's words lead to.
pub fn apply_error<P: ScatterPattern>(
    class: ErrorClass,
    pattern: &P,
    frame: &mut Frame32,
    rng: &mut StdRng,
)
    requires
        pattern.wf(),
        fits(class, pattern.places()),
    ensures
        ({
            let (positions, left) = damage(class, pattern.places(), rng::words_to_come(*old(rng)));
            &&& is_damage(class, pattern.places(), positions)
            &&& final(frame)@ == inject::flips(old(frame)@, positions)
            &&& rng::words_to_come(*final(rng)) == left
        }),
{
    match class {
        ErrorClass::Random(n) => {
            let positions = inject::flip_random_n(frame, n, rng);
            assert(is_damage(class, pattern.places(), positions@));
        },
        ErrorClass::Burst(n) => {
            let max_start: usize = 1024 - n;
            let start: usize = if max_start == 0 {
                0
            } else {
                rng::gen_range(rng, 0, max_start + 1)
            };
            inject::flip_burst(frame, start, n);
            proof {
                burst_is_flips(old(frame)@, frame@, start as int, n as nat);
                assert(is_damage(class, pattern.places(), burst_positions(start as int, n as nat)));
            }
        },
        ErrorClass::EvenBit(n) => {
            let half = inject::draw_distinct(rng, n, 512);
            let mut flat_indices: Vec<usize> = Vec::new();
            let mut i: usize = 0;
            while i < half.len()
                invariant
                    i <= half@.len(),
                    flat_indices@.len() == i,
                    forall|j: int| 0 <= j < half@.len() ==> #[trigger] half@[j] < 512,
                    forall|j: int| 0 <= j < i ==> #[trigger] flat_indices@[j] == 2 * half@[j],
                decreases half@.len() - i,
            {
                flat_indices.push(half[i] * 2);
                i += 1;
            }
            assert forall|j: int, k: int| 0 <= j < k < flat_indices@.len() implies #[trigger] flat_indices@[j]
                != #[trigger] flat_indices@[k] by {
                assert(half@[j] != half@[k]);
            }
            assert(flat_indices@ =~= doubled(half@));
            let positions = inject::flat_positions(&flat_indices);
            inject::flip_bits(frame, positions.as_slice());
            assert forall|j: int| 0 <= j < positions@.len() implies flat(#[trigger] positions@[j]) % 2 == 0 by {
                let x = flat_indices@[j];
                assert(x == 2 * half@[j]);
                assert(x == 32 * (x / 32) + x % 32);
            }
            assert(is_damage(class, pattern.places(), positions@));
        },
        ErrorClass::DiagonalOnly(n) => {
            let mut candidates = reserved_positions(pattern);
            let ghost all = damage(class, pattern.places(), rng::words_to_come(*rng));
            let mut i: usize = 0;
            while i < n
                invariant
                    i <= n <= candidates@.len(),
                    all == shuffled(rng::words_to_come(*rng), candidates@, i as nat, n as nat),
                    inject::in_frame(candidates@),
                    inject::all_distinct(candidates@),
                    forall|k: int|
                        0 <= k < candidates@.len() ==> pattern.places().dom().contains(
                            ((#[trigger] candidates@[k]).0 as int, candidates@[k].1 as int),
                        ),
                decreases n - i,
            {
                let j: usize = rng::gen_range(rng, i, candidates.len());
                let a = candidates[i];
                let b = candidates[j];
                let ghost before = candidates@;
                candidates.set(i, b);
                candidates.set(j, a);
                proof {
                    assert(candidates@ == exchanged(before, i as int, j as int));
                    swap_keeps_distinct(before, i as int, j as int, candidates@);
                    assert forall|k: int| 0 <= k < candidates@.len() implies pattern.places().dom().contains(
                        ((#[trigger] candidates@[k]).0 as int, candidates@[k].1 as int),
                    ) by {
                        assert(candidates@[k] == before[if k == i {
                            j as int
                        } else if k == j {
                            i as int
                        } else {
                            k
                        }]);
                    }
                }
                i += 1;
            }
            candidates.truncate(n);
            inject::flip_bits(frame, candidates.as_slice());
            assert(is_damage(class, pattern.places(), candidates@));
        },
    }
}

proof fn swap_keeps_distinct(
    before: Seq<(usize, usize)>,
    i: int,
    j: int,
    after: Seq<(usize, usize)>,
)
    requires
        0 <= i < before.len(),
        0 <= j < before.len(),
        after == before.update(i, before[j]).update(j, before[i]),
        inject::in_frame(before),
        inject::all_distinct(before),
    ensures
        inject::in_frame(after),
        inject::all_distinct(after),
{
    let origin = |k: int|
        if k == i {
            j
        } else if k == j {
            i
        } else {
            k
        };
    assert forall|k: int| 0 <= k < after.len() implies #[trigger] after[k] == before[origin(k)] by {}
    assert forall|k: int| 0 <= k < after.len() implies (#[trigger] after[k]).0 < 32 && after[k].1 < 32 by {
        assert(before[origin(k)].0 < 32);
    }
    assert forall|k: int, l: int| 0 <= k < l < after.len() implies #[trigger] after[k] != #[trigger] after[l] by {
        let p = origin(k);
        let q = origin(l);
        assert(p != q);
        if p < q {
            assert(before[p] != before[q]);
        } else {
            assert(before[q] != before[p]);
        }
    }
}

// ---------------------------------------------------------------------------------------------
// Detection
// ---------------------------------------------------------------------------------------------

/// What a series of damaged frames showed.
#[derive(Clone, Debug)]
pub struct DetectionReport {
    pub pattern_label: String,
    pub class_label: String,
    pub trials: u64,
    pub detected: u64,
}

/// One damaged frame: how it was, and how it became.
pub struct Trial {
    pub before: Seq<u32>,
    pub positions: Seq<(usize, usize)>,
}

impl Trial {
    /// The frame after the damage.
    pub open spec fn after(&self) -> Seq<u32> {
        inject::flips(self.before, self.positions)
    }
}

/// Whether a trial damages an intact frame in the given way.
pub open spec fn is_trial<P: ScatterPattern>(pattern: &P, class: ErrorClass, t: Trial) -> bool {
    &&& t.before.len() == 32
    &&& scatter::pattern_ok(pattern, t.before)
    &&& is_damage(class, pattern.places(), t.positions)
}

/// How many trials were noticed.
pub open spec fn noticed<P: ScatterPattern>(pattern: &P, trials: Seq<Trial>) -> nat
    decreases trials.len(),
{
    if trials.len() == 0 {
        0
    } else {
        noticed(pattern, trials.drop_last()) + (if scatter::pattern_ok(pattern, trials.last().after()) {
            0nat
        } else {
            1
        })
    }
}

/// The trial that words lead to: a random frame, signed with the pattern, and its damage.
pub open spec fn trial_of<P: ScatterPattern>(pattern: &P, class: ErrorClass, words: Map<nat, u32>) -> Trial {
    Trial {
        before: scatter_laws::updated(pattern, frame::signed(data::words_from(words, 0))),
        positions: damage(class, pattern.places(), rng::rest(words, 32)).0,
    }
}

/// The words that are left after so many trials.
pub open spec fn words_after<P: ScatterPattern>(
    pattern: &P,
    class: ErrorClass,
    words: Map<nat, u32>,
    n: nat,
) -> Map<nat, u32>
    decreases n,
{
    if n == 0 {
        words
    } else {
        damage(
            class,
            pattern.places(),
            rng::rest(words_after(pattern, class, words, (n - 1) as nat), 32),
        ).1
    }
}

/// The trials that a seed leads to.
pub open spec fn seeded_trials<P: ScatterPattern>(
    pattern: &P,
    class: ErrorClass,
    n: nat,
    seed: u64,
) -> Seq<Trial> {
    Seq::new(n, |i: int| trial_of(pattern, class, words_after(pattern, class, rng::seeded_words(seed), i as nat)))
}

/// Signs one frame with a pattern, damages it, and says whether the damage is noticed.
fn run_trial<P: ScatterPattern>(pattern: &P, class: ErrorClass, rng: &mut StdRng) -> (found: bool)
    requires
        pattern.wf(),
        fits(class, pattern.places()),
    ensures
        ({
            let words = rng::words_to_come(*old(rng));
            let t = trial_of(pattern, class, words);
            &&& is_trial(pattern, class, t)
            &&& found == !scatter::pattern_ok(pattern, t.after())
            &&& rng::words_to_come(*final(rng)) == words_after(pattern, class, words, 1)
        }),
{
    let ghost words = rng::words_to_come(*rng);
    let mut frame = data::random_frame(rng);
    proof {
        scatter_laws::law_update_then_verify(pattern, frame@);
        assert(words_after(pattern, class, words, 0) == words);
    }
    update_with(pattern, &mut frame);
    assert(frame@ == trial_of(pattern, class, words).before);
    apply_error(class, pattern, &mut frame, rng);
    let ok: bool = verify_with(pattern, &frame);
    !ok
}

proof fn next_words_after<P: ScatterPattern>(pattern: &P, class: ErrorClass, words: Map<nat, u32>, n: nat)
    ensures
        words_after(pattern, class, words_after(pattern, class, words, n), 1) == words_after(
            pattern,
            class,
            words,
            n + 1,
        ),
{
    let w = words_after(pattern, class, words, n);
    assert(words_after(pattern, class, w, 0) == w);
    assert((n + 1 - 1) as nat == n);
}

/// Damages `n_trials` frames and counts how often the damage is noticed. Every trial signs a
/// random frame with the pattern before it is damaged. The seed fixes the frames and the damage.
pub fn measure_detection_rate<P: ScatterPattern>(
    pattern: &P,
    pattern_label: &str,
    class: ErrorClass,
    n_trials: u64,
    seed: u64,
) -> (report: DetectionReport)
    requires
        pattern.wf(),
        fits(class, pattern.places()),
    ensures
        report.pattern_label@ == pattern_label@,
        report.class_label@ == class.name() + text::digits(class.count(), 10) + ")"@,
        report.trials == n_trials,
        ({
            let trials = seeded_trials(pattern, class, n_trials as nat, seed);
            &&& forall|i: int| 0 <= i < n_trials ==> is_trial(pattern, class, #[trigger] trials[i])
            &&& report.detected == noticed(pattern, trials)
        }),
{
    let mut rng = rng::seeded(seed);
    let mut detected: u64 = 0;
    let mut i: u64 = 0;
    let ghost words = rng::seeded_words(seed);
    while i < n_trials
        invariant
            i <= n_trials,
            pattern.wf(),
            fits(class, pattern.places()),
            words == rng::seeded_words(seed),
            rng::words_to_come(rng) == words_after(pattern, class, words, i as nat),
            forall|k: int|
                0 <= k < i ==> is_trial(
                    pattern,
                    class,
                    #[trigger] seeded_trials(pattern, class, i as nat, seed)[k],
                ),
            detected == noticed(pattern, seeded_trials(pattern, class, i as nat, seed)),
            detected <= i,
        decreases n_trials - i,
    {
        let found: bool = run_trial(pattern, class, &mut rng);
        if found {
            detected += 1;
        }
        proof {
            let fewer = seeded_trials(pattern, class, i as nat, seed);
            let next = seeded_trials(pattern, class, i as nat + 1, seed);
            next_words_after(pattern, class, words, i as nat);
            assert(next.drop_last() =~= fewer);
            assert(next.last() == trial_of(pattern, class, words_after(pattern, class, words, i as nat)));
            assert forall|k: int| 0 <= k < next.len() implies is_trial(pattern, class, #[trigger] next[k]) by {
                if k < fewer.len() {
                    assert(next[k] == fewer[k]);
                }
            }
        }
        i += 1;
    }
    DetectionReport {
        pattern_label: pattern_label.to_owned(),
        class_label: class.label(),
        trials: n_trials,
        detected,
    }
}

/// Where every damage of a kind is noticed, all trials are counted as detected; where none is,
/// none.
pub proof fn law_noticed_extremes<P: ScatterPattern>(pattern: &P, trials: Seq<Trial>)
    ensures
        (forall|i: int|
            0 <= i < trials.len() ==> !scatter::pattern_ok(pattern, (#[trigger] trials[i]).after()))
            ==> noticed(pattern, trials) == trials.len(),
        (forall|i: int|
            0 <= i < trials.len() ==> scatter::pattern_ok(pattern, (#[trigger] trials[i]).after()))
            ==> noticed(pattern, trials) == 0,
        noticed(pattern, trials) <= trials.len(),
    decreases trials.len(),
{
    if trials.len() > 0 {
        let rest = trials.drop_last();
        law_noticed_extremes(pattern, rest);
        assert(forall|i: int| 0 <= i < rest.len() ==> #[trigger] rest[i] == trials[i]);
        assert(trials.last() == trials[trials.len() - 1]);
        if forall|i: int|
            0 <= i < trials.len() ==> !scatter::pattern_ok(pattern, (#[trigger] trials[i]).after()) {
            assert forall|i: int| 0 <= i < rest.len() implies !scatter::pattern_ok(
                pattern,
                (#[trigger] rest[i]).after(),
            ) by {
                assert(!scatter::pattern_ok(pattern, trials[i].after()));
            }
        }
        if forall|i: int|
            0 <= i < trials.len() ==> scatter::pattern_ok(pattern, (#[trigger] trials[i]).after()) {
            assert forall|i: int| 0 <= i < rest.len() implies scatter::pattern_ok(
                pattern,
                (#[trigger] rest[i]).after(),
            ) by {
                assert(scatter::pattern_ok(pattern, trials[i].after()));
            }
        }
    }
}

// ---------------------------------------------------------------------------------------------
// Check values against bodies
// ---------------------------------------------------------------------------------------------

/// The check value of a body and the bucket that the body falls into.
pub open spec fn sample_of<P: ScatterPattern>(pattern: &P, words: Seq<u32>, bucket_bits: u8) -> (u32, u128) {
    let body = frame::wire_bytes(scatter::cleared(pattern.places(), words));
    (
        crc::checksum(body) & scatter::mask_of(pattern.information()),
        bits::low_bits(stats::fnv(0x811c_9dc5, body), bucket_bits as int) as u128,
    )
}

/// Takes one sample from 32 words.
pub fn body_sample<P: ScatterPattern>(pattern: &P, words: &[u32; 32], bucket_bits: u8) -> (s: (u32, u128))
    requires
        pattern.wf(),
    ensures
        s == sample_of(pattern, words@, bucket_bits),
{
    let mut frame = Frame32(*words);
    pattern.clear_reserved(&mut frame);
    let body = frame.raw_bytes();
    let mask: u32 = pattern.mask();
    let diag: u32 = crc32c::crc32c(body.as_slice()) & mask;
    let bucket: u32 = stats::bucket(body.as_slice(), bucket_bits);
    (diag, bucket as u128)
}

/// How check values and buckets of random bodies were distributed.
#[derive(Clone, Debug)]
pub struct EntropyReport {
    pub pattern_label: String,
    pub sample_size: usize,
    pub bucket_bits: u8,
    /// How often each check value occurred.
    pub diag_counts: Vec<((u32, u128), u64)>,
    /// How often each pair of check value and bucket occurred.
    pub joint_counts: Vec<((u32, u128), u64)>,
    /// How often each bucket occurred.
    pub bucket_counts: Vec<((u32, u128), u64)>,
}

/// The samples with the bucket left out.
pub open spec fn diag_only(samples: Seq<(u32, u128)>) -> Seq<(u32, u128)> {
    Seq::new(samples.len(), |i: int| (samples[i].0, 0u128))
}

/// The samples with the check value left out.
pub open spec fn bucket_only(samples: Seq<(u32, u128)>) -> Seq<(u32, u128)> {
    Seq::new(samples.len(), |i: int| (0u32, samples[i].1))
}

/// Counts check values, buckets and pairs of both.
pub fn count_samples(
    pattern_label: &str,
    bucket_bits: u8,
    samples: &Vec<(u32, u128)>,
) -> (report: EntropyReport)
    ensures
        report.pattern_label@ == pattern_label@,
        report.sample_size == samples@.len(),
        report.bucket_bits == bucket_bits,
        stats::is_tally(report.joint_counts@, samples@),
        stats::is_tally(report.diag_counts@, diag_only(samples@)),
        stats::is_tally(report.bucket_counts@, bucket_only(samples@)),
{
    let mut diags: Vec<(u32, u128)> = Vec::new();
    let mut buckets: Vec<(u32, u128)> = Vec::new();
    let mut i: usize = 0;
    while i < samples.len()
        invariant
            i <= samples@.len(),
            diags@.len() == i,
            buckets@.len() == i,
            forall|k: int| 0 <= k < i ==> #[trigger] diags@[k] == (samples@[k].0, 0u128),
            forall|k: int| 0 <= k < i ==> #[trigger] buckets@[k] == (0u32, samples@[k].1),
        decreases samples@.len() - i,
    {
        let (d, y) = samples[i];
        diags.push((d, 0u128));
        buckets.push((0u32, y));
        i += 1;
    }
    assert(diags@ =~= diag_only(samples@));
    assert(buckets@ =~= bucket_only(samples@));
    EntropyReport {
        pattern_label: pattern_label.to_owned(),
        sample_size: samples.len(),
        bucket_bits,
        diag_counts: stats::tally(diags.as_slice()),
        joint_counts: stats::tally(samples.as_slice()),
        bucket_counts: stats::tally(buckets.as_slice()),
    }
}

/// The samples of the bodies that a seed leads to.
pub open spec fn seeded_samples<P: ScatterPattern>(
    pattern: &P,
    n_samples: nat,
    bucket_bits: u8,
    seed: u64,
) -> Seq<(u32, u128)> {
    Seq::new(
        n_samples,
        |i: int| sample_of(pattern, data::seeded_body(seed, i), bucket_bits),
    )
}

/// Draws `n_samples` random bodies from a seed and counts their check values and buckets.
pub fn measure_conditional_entropy<P: ScatterPattern>(
    pattern: &P,
    pattern_label: &str,
    n_samples: usize,
    bucket_bits: u8,
    seed: u64,
) -> (report: EntropyReport)
    requires
        pattern.wf(),
    ensures
        report.pattern_label@ == pattern_label@,
        report.sample_size == n_samples,
        report.bucket_bits == bucket_bits,
        ({
            let samples = seeded_samples(pattern, n_samples as nat, bucket_bits, seed);
            &&& stats::is_tally(report.joint_counts@, samples)
            &&& stats::is_tally(report.diag_counts@, diag_only(samples))
            &&& stats::is_tally(report.bucket_counts@, bucket_only(samples))
        }),
{
    let mut rng = rng::seeded(seed);
    let ghost stream = rng::seeded_words(seed);
    let ghost all = seeded_samples(pattern, n_samples as nat, bucket_bits, seed);
    let mut samples: Vec<(u32, u128)> = Vec::new();
    let mut i: usize = 0;
    while i < n_samples
        invariant
            i <= n_samples,
            pattern.wf(),
            stream == rng::seeded_words(seed),
            data::is_left(rng::words_to_come(rng), stream, 32 * i as nat),
            all == seeded_samples(pattern, n_samples as nat, bucket_bits, seed),
            samples@ == all.take(i as int),
        decreases n_samples - i,
    {
        let ghost left = rng::words_to_come(rng);
        let words = data::random_words(&mut rng);
        proof {
            data::next_words(left, stream, 32 * i as nat);
            data::left_of_left(rng::words_to_come(rng), left, stream, 32 * i as nat, 32);
        }
        let s = body_sample(pattern, &words, bucket_bits);
        samples.push(s);
        i += 1;
        assert(samples@ =~= all.take(i as int));
    }
    assert(samples@ =~= all);
    count_samples(pattern_label, bucket_bits, &samples)
}

/// Damage is what its kind says: as many different bits as its number; of a burst each is the next
/// after the one before it; those of the even kind stand in even places, and those of the diagonal
/// kind in places that the pattern reserves.
pub proof fn law_damage_is_as_named(
    n: usize,
    places: Map<(int, int), int>,
    positions: Seq<(usize, usize)>,
    i: int,
)
    requires
        0 <= i < positions.len(),
    ensures
        is_damage(ErrorClass::Random(n), places, positions) ==> positions.len() == n,
        is_damage(ErrorClass::Burst(n), places, positions) ==> positions.len() == n && (i > 0 ==> 32 * positions[i].0
            + positions[i].1 == 32 * positions[i - 1].0 + positions[i - 1].1 + 1),
        is_damage(ErrorClass::EvenBit(n), places, positions) ==> positions.len() == n && positions[i].1 % 2 == 0,
        is_damage(ErrorClass::DiagonalOnly(n), places, positions) ==> positions.len() == n && places.dom().contains(
            (positions[i].0 as int, positions[i].1 as int),
        ),
{
    if is_damage(ErrorClass::Burst(n), places, positions) {
        let start = choose|start: int|
            0 <= start && start + n <= 1024 && positions == #[trigger] burst_positions(start, n as nat);
        assert(burst_positions(start, n as nat)[i] == positions[i]);
        if i > 0 {
            assert(burst_positions(start, n as nat)[i - 1] == positions[i - 1]);
        }
    }
    if is_damage(ErrorClass::EvenBit(n), places, positions) {
        assert(flat(positions[i]) % 2 == 0);
    }
}

/// As many bits can be damaged as there are: all 1024, or the 512 in even places, or those that are
/// reserved.
pub proof fn law_room_for_damage(n: usize, places: Map<(int, int), int>)
    ensures
        fits(ErrorClass::Random(n), places) <==> n <= 1024,
        fits(ErrorClass::Burst(n), places) <==> n <= 1024,
        fits(ErrorClass::EvenBit(n), places) <==> n <= 512,
        fits(ErrorClass::DiagonalOnly(n), places) <==> n <= reserved_list(places, 1024).len(),
{
    reserved_list_counts(places, 1024);
}

proof fn reserved_list_counts(places: Map<(int, int), int>, k: nat)
    ensures
        reserved_list(places, k).len() == reserved_count(places, k),
    decreases k,
{
    if k > 0 {
        reserved_list_counts(places, (k - 1) as nat);
    }
}

/// A trial counts exactly if its damage is seen.
pub proof fn law_every_noticed_trial_counts<P: ScatterPattern>(pattern: &P, trials: Seq<Trial>, t: Trial)
    ensures
        scatter::pattern_ok(pattern, inject::flips(t.before, t.positions)) ==> noticed(pattern, trials.push(t))
            == noticed(pattern, trials),
        !scatter::pattern_ok(pattern, inject::flips(t.before, t.positions)) ==> noticed(pattern, trials.push(t))
            == noticed(pattern, trials) + 1,
        noticed(pattern, Seq::empty()) == 0,
{
    assert(trials.push(t).drop_last() =~= trials);
}

} // verus!
