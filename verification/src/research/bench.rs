//! What the times of repeated runs come to.

use vstd::prelude::*;

use crate::order;
use crate::order::stable_order;

verus! {

/// The times of repeated runs, summed up.
#[derive(Clone, Copy, Debug, PartialEq, Eq)]
pub struct SampleStats {
    pub min_ns: u64,
    pub median_ns: u64,
    pub p99_ns: u64,
    pub total_ns: u128,
}

/// The place of the ninety-ninth hundredth among so many sorted values.
pub open spec fn p99_place(len: nat) -> nat {
    len * 99 / 100
}

/// The sum of values.
pub open spec fn sum(samples: Seq<u64>) -> nat
    decreases samples.len(),
{
    if samples.len() == 0 {
        0
    } else {
        sum(samples.drop_last()) + samples.last() as nat
    }
}

/// Whether the summary of sorted values is this.
pub open spec fn sums_up(samples: Seq<u64>, order: Seq<usize>, s: SampleStats) -> bool {
    let n = samples.len();
    &&& s.min_ns == samples[order[0] as int]
    &&& s.median_ns == samples[order[(n / 2) as int] as int]
    &&& s.p99_ns == samples[order[p99_place(n) as int] as int]
    &&& s.total_ns == sum(samples)
}

proof fn sum_fits(samples: Seq<u64>)
    ensures
        sum(samples) <= samples.len() * 0xFFFF_FFFF_FFFF_FFFF,
    decreases samples.len(),
{
    if samples.len() > 0 {
        sum_fits(samples.drop_last());
    }
}

/// Sums the times of repeated runs up: the least, the middle one, the one that ninety-nine of a
/// hundred do not exceed, and all together.
pub fn summarise(samples: &Vec<u64>) -> (s: SampleStats)
    requires
        samples@.len() > 0,
    ensures
        exists|order: Seq<usize>| #[trigger]
            order::is_stable_order(samples@, order) && sums_up(samples@, order, s),
{
    let order = stable_order(samples);
    let n: usize = samples.len();
    let p99: usize = ((n as u128 * 99) / 100) as usize;
    let mut total_ns: u128 = 0;
    let mut i: usize = 0;
    assert(samples@.take(0) =~= Seq::<u64>::empty());
    while i < n
        invariant
            i <= n,
            n == samples@.len(),
            total_ns == sum(samples@.take(i as int)),
            total_ns <= i * 0xFFFF_FFFF_FFFF_FFFF,
        decreases n - i,
    {
        proof {
            assert(samples@.take(i + 1).drop_last() =~= samples@.take(i as int));
            sum_fits(samples@.take(i + 1));
        }
        total_ns += samples[i] as u128;
        i += 1;
    }
    assert(samples@.take(i as int) =~= samples@);
    let s = SampleStats {
        min_ns: samples[order[0]],
        median_ns: samples[order[n / 2]],
        p99_ns: samples[order[p99]],
        total_ns,
    };
    assert(sums_up(samples@, order@, s));
    s
}

/// A summary says what its names promise: nothing is less than the least; the middle time and the
/// one of the ninety-ninth hundredth are times that were measured, and in order; and the total is
/// no less than any of them and no more than as many times the largest.
pub proof fn law_summary_is_in_order(samples: Seq<u64>, order: Seq<usize>, s: SampleStats, i: int)
    requires
        order::is_stable_order(samples, order),
        sums_up(samples, order, s),
        0 <= i < samples.len(),
    ensures
        s.min_ns <= samples[i],
        s.min_ns <= s.median_ns <= s.p99_ns,
        samples.contains(s.min_ns) && samples.contains(s.median_ns) && samples.contains(s.p99_ns),
        s.total_ns >= samples[i],
{
    let n = samples.len() as int;
    order::stable_order_is_complete(samples, order, i);
    let a = choose|a: int| 0 <= a < order.len() && #[trigger] order[a] == i;
    let p = p99_place(samples.len()) as int;
    assert(n / 2 <= p < n) by (nonlinear_arith)
        requires
            p == n * 99 / 100,
            n > 0,
    ;
    if a > 0 {
        assert(order::before(samples, order[0] as int, order[a] as int));
    }
    if n / 2 > 0 {
        assert(order::before(samples, order[0] as int, order[n / 2] as int));
    }
    if n / 2 < p {
        assert(order::before(samples, order[n / 2] as int, order[p] as int));
    }
    assert(order[0] < samples.len() && order[n / 2] < samples.len() && order[p] < samples.len());
    assert(samples[order[0] as int] == s.min_ns);
    part_of_sum(samples, i);
}

proof fn part_of_sum(samples: Seq<u64>, i: int)
    requires
        0 <= i < samples.len(),
    ensures
        sum(samples) >= samples[i],
    decreases samples.len(),
{
    if i < samples.len() - 1 {
        part_of_sum(samples.drop_last(), i);
    }
}

/// At least half of the times are no more than the middle one and at least half no less; of a
/// hundred times, ninety-nine come before the one of the ninety-ninth hundredth.
pub proof fn law_places_of_the_summary(samples: Seq<u64>, order: Seq<usize>, s: SampleStats, k: int)
    requires
        order::is_stable_order(samples, order),
        sums_up(samples, order, s),
        0 <= k < samples.len(),
    ensures
        2 * k <= samples.len() ==> samples[order[k] as int] <= s.median_ns,
        2 * k >= samples.len() ==> samples[order[k] as int] >= s.median_ns,
        100 * k <= 99 * samples.len() ==> samples[order[k] as int] <= s.p99_ns,
        100 * k >= 99 * samples.len() ==> samples[order[k] as int] >= s.p99_ns,
        sum(samples.push(s.min_ns)) == sum(samples) + s.min_ns,
{
    let n = samples.len() as int;
    let p = p99_place(samples.len()) as int;
    let m = n / 2;
    assert(0 <= p < n && 100 * p <= 99 * n < 100 * p + 100) by (nonlinear_arith)
        requires
            p == n * 99 / 100,
            n > 0,
    ;
    if k < m {
        assert(order::before(samples, order[k] as int, order[m] as int));
    } else if m < k {
        assert(order::before(samples, order[m] as int, order[k] as int));
    }
    if k < p {
        assert(order::before(samples, order[k] as int, order[p] as int));
    } else if p < k {
        assert(order::before(samples, order[p] as int, order[k] as int));
    }
    assert(samples.push(s.min_ns).drop_last() =~= samples);
}

} // verus!
