//! Counting: hash buckets and tallies of samples.

use vstd::prelude::*;

use crate::bits;

verus! {

/// The FNV-1a hash of bytes, started at `h`.
pub open spec fn fnv(h: u32, bytes: Seq<u8>) -> u32
    decreases bytes.len(),
{
    if bytes.len() == 0 {
        h
    } else {
        (((fnv(h, bytes.drop_last()) ^ (bytes.last() as u32)) * 0x0100_0193) % 0x1_0000_0000) as u32
    }
}

/// The 32-bit FNV-1a hash.
pub fn fnv1a_32(bytes: &[u8]) -> (h: u32)
    ensures
        h == fnv(0x811c_9dc5, bytes@),
{
    let mut h: u32 = 0x811c_9dc5;
    let mut i: usize = 0;
    assert(bytes@.take(0) =~= Seq::<u8>::empty());
    while i < bytes.len()
        invariant
            i <= bytes@.len(),
            h == fnv(0x811c_9dc5, bytes@.take(i as int)),
        decreases bytes@.len() - i,
    {
        assert(bytes@.take(i + 1).drop_last() =~= bytes@.take(i as int));
        h = h ^ (bytes[i] as u32);
        h = h.wrapping_mul(0x0100_0193);
        i += 1;
    }
    assert(bytes@.take(i as int) =~= bytes@);
    h
}

/// The low `bits` bits of the hash; all of it from 32 on.
pub fn bucket(bytes: &[u8], bits: u8) -> (b: u32)
    ensures
        b == bits::low_bits(fnv(0x811c_9dc5, bytes@), bits as int),
{
    let h: u32 = fnv1a_32(bytes);
    if bits >= 32 {
        h
    } else {
        proof {
            bits::unit_facts(0, 0, 0, bits as u32, 0);
        }
        h & ((1u32 << (bits as u32)) - 1)
    }
}

/// How often a value occurs among samples.
pub open spec fn occurrences(samples: Seq<(u32, u128)>, value: (u32, u128)) -> nat
    decreases samples.len(),
{
    if samples.len() == 0 {
        0
    } else {
        occurrences(samples.drop_last(), value) + (if samples.last() == value {
            1nat
        } else {
            0
        })
    }
}

/// Whether `counts` lists every value that occurs, each once, with how often it occurs.
pub open spec fn is_tally(counts: Seq<((u32, u128), u64)>, samples: Seq<(u32, u128)>) -> bool {
    &&& forall|i: int, j: int|
        0 <= i < j < counts.len() ==> (#[trigger] counts[i]).0 != (#[trigger] counts[j]).0
    &&& forall|i: int|
        0 <= i < counts.len() ==> (#[trigger] counts[i]).1 == occurrences(samples, counts[i].0)
            && counts[i].1 > 0
    &&& forall|k: int|
        0 <= k < samples.len() ==> exists|i: int|
            0 <= i < counts.len() && (#[trigger] counts[i]).0 == #[trigger] samples[k]
}

proof fn occurrences_bounded(samples: Seq<(u32, u128)>, value: (u32, u128))
    ensures
        occurrences(samples, value) <= samples.len(),
    decreases samples.len(),
{
    if samples.len() > 0 {
        occurrences_bounded(samples.drop_last(), value);
    }
}

proof fn absent_means_zero(samples: Seq<(u32, u128)>, value: (u32, u128))
    requires
        forall|k: int| 0 <= k < samples.len() ==> #[trigger] samples[k] != value,
    ensures
        occurrences(samples, value) == 0,
    decreases samples.len(),
{
    if samples.len() > 0 {
        let rest = samples.drop_last();
        assert forall|k: int| 0 <= k < rest.len() implies #[trigger] rest[k] != value by {
            assert(rest[k] == samples[k]);
        }
        absent_means_zero(rest, value);
        assert(samples[samples.len() - 1] != value);
    }
}

/// Counts how often each value occurs, in the order of first appearance.
pub fn tally(samples: &[(u32, u128)]) -> (counts: Vec<((u32, u128), u64)>)
    ensures
        is_tally(counts@, samples@),
{
    let mut counts: Vec<((u32, u128), u64)> = Vec::new();
    let mut k: usize = 0;
    while k < samples.len()
        invariant
            k <= samples@.len(),
            is_tally(counts@, samples@.take(k as int)),
        decreases samples@.len() - k,
    {
        let s: (u32, u128) = samples[k];
        let ghost before = counts@;
        let ghost seen = samples@.take(k as int);
        let ghost next = samples@.take(k + 1);
        proof {
            assert(next.drop_last() =~= seen);
            assert(next.last() == s);
        }
        let mut i: usize = 0;
        while i < counts.len() && !(counts[i].0.0 == s.0 && counts[i].0.1 == s.1)
            invariant
                i <= counts@.len(),
                counts@ == before,
                forall|j: int| 0 <= j < i ==> (#[trigger] counts@[j]).0 != s,
            decreases counts@.len() - i,
        {
            i += 1;
        }
        if i < counts.len() {
            proof {
                assert(before[i as int].0 == s);
                occurrences_bounded(next, s);
            }
            let c: u64 = counts[i].1;
            counts.set(i, (s, c + 1));
            proof {
                tally_bumped(before, seen, i as int, s, counts@, next);
            }
        } else {
            counts.push((s, 1));
            proof {
                tally_extended(before, seen, s, counts@, next);
            }
        }
        k += 1;
    }
    assert(samples@.take(k as int) =~= samples@);
    counts
}

proof fn tally_bumped(
    before: Seq<((u32, u128), u64)>,
    seen: Seq<(u32, u128)>,
    i: int,
    s: (u32, u128),
    after: Seq<((u32, u128), u64)>,
    next: Seq<(u32, u128)>,
)
    requires
        is_tally(before, seen),
        0 <= i < before.len(),
        before[i].0 == s,
        after == before.update(i, (s, (before[i].1 + 1) as u64)),
        before[i].1 < u64::MAX,
        next.len() == seen.len() + 1,
        next.drop_last() == seen,
        next.last() == s,
    ensures
        is_tally(after, next),
{
    assert forall|j: int| 0 <= j < after.len() implies (#[trigger] after[j]).1 == occurrences(
        next,
        after[j].0,
    ) && after[j].1 > 0 by {
        assert(before[j].1 == occurrences(seen, before[j].0));
        if j != i {
            assert(before[j].0 != before[i].0) by {
                if j < i {
                    assert(before[j].0 != before[i].0);
                } else {
                    assert(before[i].0 != before[j].0);
                }
            }
        }
    }
    assert forall|a: int, b: int| 0 <= a < b < after.len() implies (#[trigger] after[a]).0 != (
    #[trigger] after[b]).0 by {
        assert(before[a].0 != before[b].0);
    }
    assert forall|k: int| 0 <= k < next.len() implies exists|j: int|
        0 <= j < after.len() && (#[trigger] after[j]).0 == #[trigger] next[k] by {
        if k < seen.len() {
            assert(next[k] == seen[k]);
            let j = choose|j: int| 0 <= j < before.len() && (#[trigger] before[j]).0 == seen[k];
            assert(after[j].0 == next[k]);
        } else {
            assert(after[i].0 == next[k]);
        }
    }
}

proof fn tally_extended(
    before: Seq<((u32, u128), u64)>,
    seen: Seq<(u32, u128)>,
    s: (u32, u128),
    after: Seq<((u32, u128), u64)>,
    next: Seq<(u32, u128)>,
)
    requires
        is_tally(before, seen),
        forall|j: int| 0 <= j < before.len() ==> (#[trigger] before[j]).0 != s,
        after == before.push((s, 1u64)),
        next.len() == seen.len() + 1,
        next.drop_last() == seen,
        next.last() == s,
    ensures
        is_tally(after, next),
{
    assert forall|k: int| 0 <= k < seen.len() implies #[trigger] seen[k] != s by {
        let j = choose|j: int| 0 <= j < before.len() && (#[trigger] before[j]).0 == seen[k];
        assert(before[j].0 != s);
    }
    absent_means_zero(seen, s);
    assert forall|j: int| 0 <= j < after.len() implies (#[trigger] after[j]).1 == occurrences(
        next,
        after[j].0,
    ) && after[j].1 > 0 by {
        if j < before.len() {
            assert(after[j] == before[j]);
            assert(before[j].1 == occurrences(seen, before[j].0));
        }
    }
    assert forall|a: int, b: int| 0 <= a < b < after.len() implies (#[trigger] after[a]).0 != (
    #[trigger] after[b]).0 by {
        assert(after[a] == before[a]);
        if b < before.len() {
            assert(after[b] == before[b]);
        }
    }
    assert forall|k: int| 0 <= k < next.len() implies exists|j: int|
        0 <= j < after.len() && (#[trigger] after[j]).0 == #[trigger] next[k] by {
        if k < seen.len() {
            assert(next[k] == seen[k]);
            let j = choose|j: int| 0 <= j < before.len() && (#[trigger] before[j]).0 == seen[k];
            assert(after[j] == before[j]);
        } else {
            assert(after[before.len() as int].0 == next[k]);
        }
    }
}

/// Bytes are hashed one after the other: the hash of a message continues that of its beginning,
/// and one byte is taken in by exclusive or and a multiplication by 16777619 modulo two to the
/// power 32.
pub proof fn law_hash_goes_byte_by_byte(h: u32, a: Seq<u8>, b: Seq<u8>, x: u8)
    ensures
        fnv(h, a + b) == fnv(fnv(h, a), b),
        fnv(h, seq![x]) == ((h ^ (x as u32)) * 16777619) % 4294967296,
        fnv(h, Seq::empty()) == h,
    decreases b.len(),
{
    assert(seq![x].drop_last() =~= Seq::<u8>::empty());
    assert(seq![x].last() == x);
    assert(fnv(h, Seq::empty()) == h);
    assert(fnv(h, seq![x]) == (((h ^ (x as u32)) * 0x0100_0193) % 0x1_0000_0000) as u32);
    if b.len() == 0 {
        assert(a + b =~= a);
    } else {
        law_hash_goes_byte_by_byte(h, a, b.drop_last(), x);
        assert((a + b).drop_last() =~= a + b.drop_last());
        assert((a + b).last() == b.last());
    }
}

/// Occurrences add up over the parts of a list.
pub proof fn law_occurrences_add_up(a: Seq<(u32, u128)>, b: Seq<(u32, u128)>, x: (u32, u128), y: (u32, u128))
    ensures
        occurrences(a + b, x) == occurrences(a, x) + occurrences(b, x),
        occurrences(seq![x], x) == 1,
        x != y ==> occurrences(seq![y], x) == 0,
    decreases b.len(),
{
    assert(seq![x].drop_last() =~= Seq::<(u32, u128)>::empty());
    assert(seq![y].drop_last() =~= Seq::<(u32, u128)>::empty());
    assert(seq![x].last() == x && seq![y].last() == y);
    assert(occurrences(Seq::<(u32, u128)>::empty(), x) == 0);
    if b.len() == 0 {
        assert(a + b =~= a);
    } else {
        law_occurrences_add_up(a, b.drop_last(), x, y);
        assert((a + b).drop_last() =~= a + b.drop_last());
        assert((a + b).last() == b.last());
    }
}

} // verus!
