//! Several ways to compute CRC-32C, all proved to compute the same function.

use std::collections::HashMap;

use vstd::prelude::*;

use crate::bits;
use crate::crc;
use crate::research::bool_ops::{lsb_mask, nand, xnor, xor3};

pub use crate::crc::POLY_REFLECTED;

verus! {

broadcast use vstd::std_specs::hash::group_hash_axioms;

/// CRC-32C of the crc32c crate, which uses the processor's instruction where there is one.
pub fn crc32c_hw(data: &[u8]) -> (value: u32)
    ensures
        value == crc::checksum(data@),
{
    crc32c::crc32c(data)
}

proof fn word_facts(s: u32, x: u32, m: u32)
    ensures
        !s == s ^ 0xFFFF_FFFF,
        !(s ^ 0) == s ^ 0xFFFF_FFFF,
        !(!(s & x)) == s & x,
        s ^ x ^ 0 == s ^ x,
        x == (x & 0xFF) ^ (x & !0xFFu32),
        (x & !0xFFu32) & (((1u32 << 8u32) - 1) as u32) == 0,
        (x & !0xFFu32) >> 8u32 == x >> 8,
        x & 0xFF < 256,
        s & 0xFFFF_FFFF == s,
        s & 0 == 0,
        m < 256 ==> m & 0xFF == m,
        s & 1 == 0 || s & 1 == 1,
{
    bits::word_rules(s, x, 0, 0);
    bits::word_rules(x, 0, 0, 0);
    bits::word_rules(m, 0, 0, 0);
    bits::word_rules(s ^ x, 0, 0, 0);
}

/// One step as the loops below take it.
proof fn step_by_mask(s: u32, mask: u32)
    requires
        mask == (if s & 1 == 1 {
            0xFFFF_FFFFu32
        } else {
            0
        }),
    ensures
        (s >> 1) ^ (crc::POLY_REFLECTED & mask) == crc::shift(s),
{
    bits::word_rules(crc::POLY_REFLECTED, 0, 0, 0);
}

/// Eight steps at once: the low byte through a table, the rest moved down.
pub proof fn eight_steps(x: u32)
    ensures
        crc::shifts(x, 8) == (x >> 8) ^ crc::shifts(x & 0xFF, 8),
{
    word_facts(0, x, 0);
    crc::shifts_linear(x & 0xFF, x & !0xFFu32, 8);
    crc::shifts_aligned(x & !0xFFu32, 8);
    bits::word_rules(crc::shifts(x & 0xFF, 8), x >> 8, 0, 0);
}

/// Whether `t` maps every byte to the register that it leaves after `n` steps.
pub open spec fn steps_table(t: Seq<u32>, n: nat) -> bool {
    &&& t.len() == 256
    &&& forall|i: int| 0 <= i < 256 ==> #[trigger] t[i] == crc::shifts(i as u32, n)
}

/// The table of eight steps.
pub fn build_table0() -> (t: [u32; 256])
    ensures
        steps_table(t@, 8),
{
    let mut t: [u32; 256] = [0u32; 256];
    let mut i: usize = 0;
    while i < 256
        invariant
            i <= 256,
            forall|k: int| 0 <= k < i ==> #[trigger] t@[k] == crc::shifts(k as u32, 8),
        decreases 256 - i,
    {
        let mut state: u32 = i as u32;
        let mut j: usize = 0;
        while j < 8
            invariant
                j <= 8,
                state == crc::shifts(i as u32, j as nat),
            decreases 8 - j,
        {
            let mask: u32 = lsb_mask(state);
            proof {
                step_by_mask(state, mask);
            }
            state = (state >> 1) ^ (POLY_REFLECTED & mask);
            j += 1;
        }
        t[i] = state;
        i += 1;
    }
    t
}

fn absorb_by_table(t: &[u32; 256], state: u32, byte: u8) -> (r: u32)
    requires
        steps_table(t@, 8),
    ensures
        r == crc::absorb(state, byte),
{
    let x: u32 = state ^ (byte as u32);
    proof {
        eight_steps(x);
        word_facts(0, x, 0);
        bits::word_rules(byte as u32, state, 0, 0);
    }
    let idx: usize = (x & 0xFF) as usize;
    (state >> 8) ^ t[idx]
}

/// CRC-32C one byte at a time through a table of 256 entries.
pub fn crc32c_table(data: &[u8]) -> (value: u32)
    ensures
        value == crc::checksum(data@),
{
    let t = build_table0();
    let mut state: u32 = 0xFFFF_FFFF;
    let mut i: usize = 0;
    assert(data@.take(0) =~= Seq::<u8>::empty());
    while i < data.len()
        invariant
            i <= data@.len(),
            steps_table(t@, 8),
            state == crc::register(0xFFFF_FFFF, data@.take(i as int)),
        decreases data@.len() - i,
    {
        state = absorb_by_table(&t, state, data[i]);
        assert(data@.take(i + 1).drop_last() =~= data@.take(i as int));
        i += 1;
    }
    proof {
        assert(data@.take(i as int) =~= data@);
        word_facts(state, 0, 0);
    }
    !state
}

/// CRC-32C bit by bit, without branches.
pub fn crc32c_branchless_bitwise(data: &[u8]) -> (value: u32)
    ensures
        value == crc::checksum(data@),
{
    let mut state: u32 = 0xFFFF_FFFF;
    let mut i: usize = 0;
    assert(data@.take(0) =~= Seq::<u8>::empty());
    while i < data.len()
        invariant
            i <= data@.len(),
            state == crc::register(0xFFFF_FFFF, data@.take(i as int)),
        decreases data@.len() - i,
    {
        let start: u32 = state ^ (data[i] as u32);
        state = start;
        let mut j: usize = 0;
        while j < 8
            invariant
                j <= 8,
                state == crc::shifts(start, j as nat),
            decreases 8 - j,
        {
            proof {
                word_facts(state, 0, 0);
            }
            let mask: u32 = 0u32.wrapping_sub(state & 1);
            proof {
                step_by_mask(state, mask);
            }
            state = (state >> 1) ^ (POLY_REFLECTED & mask);
            j += 1;
        }
        assert(data@.take(i + 1).drop_last() =~= data@.take(i as int));
        i += 1;
    }
    proof {
        assert(data@.take(i as int) =~= data@);
        word_facts(state, 0, 0);
    }
    !state
}

/// CRC-32C bit by bit, written with the helpers of [`crate::research::bool_ops`].
pub fn crc32c_branchless_bitwise_v2(data: &[u8]) -> (value: u32)
    ensures
        value == crc::checksum(data@),
{
    let mut state: u32 = 0xFFFF_FFFF;
    let mut i: usize = 0;
    assert(data@.take(0) =~= Seq::<u8>::empty());
    while i < data.len()
        invariant
            i <= data@.len(),
            state == crc::register(0xFFFF_FFFF, data@.take(i as int)),
        decreases data@.len() - i,
    {
        let b: u32 = data[i] as u32;
        proof {
            word_facts(state, b, 0);
        }
        let start: u32 = xor3(state, b, 0);
        state = start;
        let mut j: usize = 0;
        while j < 8
            invariant
                j <= 8,
                state == crc::shifts(start, j as nat),
            decreases 8 - j,
        {
            let mask: u32 = lsb_mask(state);
            let term: u32 = !nand(POLY_REFLECTED, mask);
            proof {
                step_by_mask(state, mask);
                word_facts(POLY_REFLECTED, mask, 0);
                word_facts(state >> 1, term, 0);
            }
            state = xor3(state >> 1, term, 0);
            j += 1;
        }
        assert(data@.take(i + 1).drop_last() =~= data@.take(i as int));
        i += 1;
    }
    proof {
        assert(data@.take(i as int) =~= data@);
        word_facts(state, 0, 0);
    }
    xnor(state, 0)
}

// ---------------------------------------------------------------------------------------------
// Eight bytes at a time
// ---------------------------------------------------------------------------------------------

/// Whether table `k` takes a byte through `8 * (k + 1)` steps.
pub open spec fn slicing_tables(tables: Seq<[u32; 256]>) -> bool {
    &&& tables.len() == 8
    &&& forall|k: int| 0 <= k < 8 ==> steps_table((#[trigger] tables[k])@, (8 * (k + 1)) as nat)
}

/// Eight tables, each of which goes eight steps further than the one before.
pub fn build_sliceby8() -> (tables: Vec<[u32; 256]>)
    ensures
        slicing_tables(tables@),
{
    let first = build_table0();
    let mut tables: Vec<[u32; 256]> = Vec::new();
    tables.push(first);
    let mut k: usize = 1;
    while k < 8
        invariant
            1 <= k <= 8,
            tables@.len() == k,
            steps_table(first@, 8),
            forall|j: int| 0 <= j < k ==> steps_table((#[trigger] tables@[j])@, (8 * (j + 1)) as nat),
        decreases 8 - k,
    {
        let mut next: [u32; 256] = [0u32; 256];
        let mut i: usize = 0;
        while i < 256
            invariant
                i <= 256,
                1 <= k < 8,
                tables@.len() == k,
                steps_table(first@, 8),
                steps_table(tables@[k - 1]@, (8 * k) as nat),
                forall|j: int| 0 <= j < i ==> #[trigger] next@[j] == crc::shifts(j as u32, (8 * (k + 1)) as nat),
            decreases 256 - i,
        {
            let prev: u32 = tables[k - 1][i];
            proof {
                assert(prev == tables@[k - 1]@[i as int]);
                eight_steps(prev);
                word_facts(0, prev, 0);
                crc::shifts_add(i as u32, (8 * k) as nat, 8);
                assert((8 * k) as nat + 8 == (8 * (k + 1)) as nat);
            }
            let idx: usize = (prev & 0xFF) as usize;
            next[i] = (prev >> 8) ^ first[idx];
            i += 1;
        }
        tables.push(next);
        k += 1;
    }
    tables
}

/// Four bytes as a word, the first byte lowest.
pub open spec fn le_word(a: u8, b: u8, c: u8, d: u8) -> u32 {
    (a as u32) | ((b as u32) << 8) | ((c as u32) << 16) | ((d as u32) << 24)
}

proof fn le_bytes(a: u8, b: u8, c: u8, d: u8, s: u32)
    by (bit_vector)
    ensures
        le_word(a, b, c, d) == (((a as u32) ^ ((b as u32) << 8u32)) ^ ((c as u32) << 16u32)) ^ ((d as u32)
            << 24u32),
        ((b as u32) << 8u32) & (((1u32 << 8u32) - 1) as u32) == 0,
        ((c as u32) << 16u32) & (((1u32 << 16u32) - 1) as u32) == 0,
        ((d as u32) << 24u32) & (((1u32 << 24u32) - 1) as u32) == 0,
        ((b as u32) << 8u32) >> 8u32 == b as u32,
        ((c as u32) << 16u32) >> 16u32 == c as u32,
        ((d as u32) << 24u32) >> 24u32 == d as u32,
        s == (((s & 0xFF) ^ (((s >> 8) & 0xFF) << 8u32)) ^ (((s >> 16) & 0xFF) << 16u32)) ^ (((s >> 24)
            & 0xFF) << 24u32),
        s & 0xFF < 256,
        (s >> 8) & 0xFF < 256,
        (s >> 16) & 0xFF < 256,
        (s >> 24) & 0xFF < 256,
{
}

/// A byte that stands eight, sixteen or twenty-four places up needs that many steps more.
proof fn lifted_bytes(b: u8, c: u8, d: u8, n: nat)
    requires
        n >= 24,
    ensures
        crc::shifts((b as u32) << 8u32, n) == crc::shifts(b as u32, (n - 8) as nat),
        crc::shifts((c as u32) << 16u32, n) == crc::shifts(c as u32, (n - 16) as nat),
        crc::shifts((d as u32) << 24u32, n) == crc::shifts(d as u32, (n - 24) as nat),
{
    le_bytes(0, b, c, d, 0);
    crc::shifts_aligned((b as u32) << 8u32, 8);
    crc::shifts_aligned((c as u32) << 16u32, 16);
    crc::shifts_aligned((d as u32) << 24u32, 24);
    crc::shifts_add((b as u32) << 8u32, 8, (n - 8) as nat);
    crc::shifts_add((c as u32) << 16u32, 16, (n - 16) as nat);
    crc::shifts_add((d as u32) << 24u32, 24, (n - 24) as nat);
}

/// A word stepped on, taken apart into its bytes.
proof fn steps_by_bytes(s: u32, n: nat)
    requires
        n >= 24,
    ensures
        crc::shifts(s, n) == ((crc::shifts(s & 0xFF, n) ^ crc::shifts((s >> 8) & 0xFF, (n - 8) as nat))
            ^ crc::shifts((s >> 16) & 0xFF, (n - 16) as nat)) ^ crc::shifts(
            (s >> 24) & 0xFF,
            (n - 24) as nat,
        ),
{
    le_bytes(0, 0, 0, 0, s);
    let p = s & 0xFF;
    let q = (s >> 8) & 0xFF;
    let r = (s >> 16) & 0xFF;
    let t = (s >> 24) & 0xFF;
    lifted_bytes(q as u8, r as u8, t as u8, n);
    assert((q as u8) as u32 == q && (r as u8) as u32 == r && (t as u8) as u32 == t);
    crc::shifts_linear((p ^ (q << 8u32)) ^ (r << 16u32), t << 24u32, n);
    crc::shifts_linear(p ^ (q << 8u32), r << 16u32, n);
    crc::shifts_linear(p, q << 8u32, n);
}

/// Absorbing four bytes is adding them as a word and taking 32 steps.
proof fn absorb_four(s: u32, a: u8, b: u8, c: u8, d: u8)
    ensures
        crc::absorb(crc::absorb(crc::absorb(crc::absorb(s, a), b), c), d) == crc::shifts(
            s ^ le_word(a, b, c, d),
            32,
        ),
{
    le_bytes(a, b, c, d, 0);
    let wb = (b as u32) << 8u32;
    let wc = (c as u32) << 16u32;
    let wd = (d as u32) << 24u32;
    let x0 = s ^ (a as u32);
    let x1 = x0 ^ wb;
    let x2 = x1 ^ wc;
    let x3 = x2 ^ wd;
    crc::shifts_aligned(wb, 8);
    crc::shifts_aligned(wc, 16);
    crc::shifts_aligned(wd, 24);
    crc::shifts_linear(x0, wb, 8);
    crc::shifts_add(x1, 8, 8);
    crc::shifts_linear(x1, wc, 16);
    crc::shifts_add(x2, 16, 8);
    crc::shifts_linear(x2, wd, 24);
    crc::shifts_add(x3, 24, 8);
    bits::word_rules(s, a as u32, wb, 0);
    bits::word_rules(s, (a as u32) ^ wb, wc, 0);
    bits::word_rules(s, ((a as u32) ^ wb) ^ wc, wd, 0);
}

proof fn absorb_eight(s: u32, data: Seq<u8>, i: int)
    requires
        0 <= i,
        i + 8 <= data.len(),
    ensures
        crc::register(s, data.take(i + 8)) == crc::shifts(
            crc::shifts(
                crc::register(s, data.take(i)) ^ le_word(data[i], data[i + 1], data[i + 2], data[i + 3]),
                32,
            ) ^ le_word(data[i + 4], data[i + 5], data[i + 6], data[i + 7]),
            32,
        ),
{
    assert(data.take(i + 8).drop_last() =~= data.take(i + 7));
    assert(data.take(i + 7).drop_last() =~= data.take(i + 6));
    assert(data.take(i + 6).drop_last() =~= data.take(i + 5));
    assert(data.take(i + 5).drop_last() =~= data.take(i + 4));
    assert(data.take(i + 4).drop_last() =~= data.take(i + 3));
    assert(data.take(i + 3).drop_last() =~= data.take(i + 2));
    assert(data.take(i + 2).drop_last() =~= data.take(i + 1));
    assert(data.take(i + 1).drop_last() =~= data.take(i));
    let r0 = crc::register(s, data.take(i));
    let r1 = crc::register(s, data.take(i + 1));
    let r2 = crc::register(s, data.take(i + 2));
    let r3 = crc::register(s, data.take(i + 3));
    let r4 = crc::register(s, data.take(i + 4));
    let r5 = crc::register(s, data.take(i + 5));
    let r6 = crc::register(s, data.take(i + 6));
    let r7 = crc::register(s, data.take(i + 7));
    assert(r1 == crc::absorb(r0, data[i]));
    assert(r2 == crc::absorb(r1, data[i + 1]));
    assert(r3 == crc::absorb(r2, data[i + 2]));
    assert(r4 == crc::absorb(r3, data[i + 3]));
    assert(r5 == crc::absorb(r4, data[i + 4]));
    assert(r6 == crc::absorb(r5, data[i + 5]));
    assert(r7 == crc::absorb(r6, data[i + 6]));
    assert(crc::register(s, data.take(i + 8)) == crc::absorb(r7, data[i + 7]));
    absorb_four(r0, data[i], data[i + 1], data[i + 2], data[i + 3]);
    absorb_four(r4, data[i + 4], data[i + 5], data[i + 6], data[i + 7]);
}

fn look_up(tables: &Vec<[u32; 256]>, k: usize, byte: u32) -> (r: u32)
    requires
        slicing_tables(tables@),
        k < 8,
        byte < 256,
    ensures
        r == crc::shifts(byte, (8 * (k + 1)) as nat),
{
    assert(steps_table(tables@[k as int]@, (8 * (k + 1)) as nat));
    let r: u32 = tables[k][byte as usize];
    assert(r == tables@[k as int]@[byte as int]);
    r
}

/// CRC-32C eight bytes at a time through eight tables.
pub fn crc32c_slice_by_8(data: &[u8]) -> (value: u32)
    ensures
        value == crc::checksum(data@),
{
    let tables = build_sliceby8();
    let first = build_table0();
    let mut state: u32 = 0xFFFF_FFFF;
    let mut i: usize = 0;
    assert(data@.take(0) =~= Seq::<u8>::empty());
    while data.len() - i >= 8
        invariant
            i <= data@.len(),
            slicing_tables(tables@),
            state == crc::register(0xFFFF_FFFF, data@.take(i as int)),
        decreases data@.len() - i,
    {
        let lo: u32 = (data[i] as u32) | ((data[i + 1] as u32) << 8) | ((data[i + 2] as u32) << 16) | ((
        data[i + 3] as u32) << 24);
        let hi: u32 = (data[i + 4] as u32) | ((data[i + 5] as u32) << 8) | ((data[i + 6] as u32) << 16) | ((
        data[i + 7] as u32) << 24);
        let s: u32 = state ^ lo;
        proof {
            le_bytes(0, 0, 0, 0, s);
            le_bytes(0, 0, 0, 0, hi);
            absorb_eight(0xFFFF_FFFF, data@, i as int);
            steps_by_bytes(s, 64);
            steps_by_bytes(hi, 32);
            crc::shifts_linear(crc::shifts(s, 32), hi, 32);
            crc::shifts_add(s, 32, 32);
        }
        let upper: u32 = ((look_up(&tables, 7, s & 0xFF) ^ look_up(&tables, 6, (s >> 8) & 0xFF)) ^ look_up(
            &tables,
            5,
            (s >> 16) & 0xFF,
        )) ^ look_up(&tables, 4, (s >> 24) & 0xFF);
        let lower: u32 = ((look_up(&tables, 3, hi & 0xFF) ^ look_up(&tables, 2, (hi >> 8) & 0xFF)) ^ look_up(
            &tables,
            1,
            (hi >> 16) & 0xFF,
        )) ^ look_up(&tables, 0, (hi >> 24) & 0xFF);
        state = upper ^ lower;
        i += 8;
    }
    while i < data.len()
        invariant
            i <= data@.len(),
            steps_table(first@, 8),
            state == crc::register(0xFFFF_FFFF, data@.take(i as int)),
        decreases data@.len() - i,
    {
        state = absorb_by_table(&first, state, data[i]);
        assert(data@.take(i + 1).drop_last() =~= data@.take(i as int));
        i += 1;
    }
    proof {
        assert(data@.take(i as int) =~= data@);
        word_facts(state, 0, 0);
    }
    !state
}

// ---------------------------------------------------------------------------------------------
// Four messages at a time
// ---------------------------------------------------------------------------------------------

/// CRC-32C of four messages of one length, advanced in step.
pub fn crc32c_simd_sse2_x4(messages: [&[u8]; 4]) -> (values: [u32; 4])
    requires
        forall|m: int| 0 <= m < 4 ==> (#[trigger] messages@[m])@.len() == messages@[0]@.len(),
    ensures
        forall|m: int| 0 <= m < 4 ==> #[trigger] values@[m] == crc::checksum(messages@[m]@),
{
    let len: usize = messages[0].len();
    let mut states: [u32; 4] = [0xFFFF_FFFFu32; 4];
    let mut i: usize = 0;
    proof {
        assert forall|m: int| 0 <= m < 4 implies #[trigger] states@[m] == crc::register(
            0xFFFF_FFFF,
            messages@[m]@.take(0),
        ) by {
            assert(messages@[m]@.take(0) =~= Seq::<u8>::empty());
        }
    }
    while i < len
        invariant
            i <= len,
            forall|m: int| 0 <= m < 4 ==> (#[trigger] messages@[m])@.len() == len,
            forall|m: int|
                0 <= m < 4 ==> #[trigger] states@[m] == crc::register(
                    0xFFFF_FFFF,
                    messages@[m]@.take(i as int),
                ),
        decreases len - i,
    {
        let mut lane: usize = 0;
        let ghost before = states@;
        while lane < 4
            invariant
                lane <= 4,
                i < len,
                forall|m: int| 0 <= m < 4 ==> (#[trigger] messages@[m])@.len() == len,
                before.len() == 4,
                forall|m: int|
                    0 <= m < lane ==> #[trigger] states@[m] == crc::absorb(
                        before[m],
                        messages@[m]@[i as int],
                    ),
                forall|m: int| lane <= m < 4 ==> #[trigger] states@[m] == before[m],
            decreases 4 - lane,
        {
            let message: &[u8] = messages[lane];
            let start: u32 = states[lane] ^ (message[i] as u32);
            let mut state: u32 = start;
            let mut j: usize = 0;
            while j < 8
                invariant
                    j <= 8,
                    state == crc::shifts(start, j as nat),
                decreases 8 - j,
            {
                let mask: u32 = lsb_mask(state);
                proof {
                    step_by_mask(state, mask);
                }
                state = (state >> 1) ^ (POLY_REFLECTED & mask);
                j += 1;
            }
            states[lane] = state;
            lane += 1;
        }
        proof {
            assert forall|m: int| 0 <= m < 4 implies #[trigger] states@[m] == crc::register(
                0xFFFF_FFFF,
                messages@[m]@.take(i + 1),
            ) by {
                let d = messages@[m]@;
                assert(d.take(i + 1).drop_last() =~= d.take(i as int));
                assert(before[m] == crc::register(0xFFFF_FFFF, d.take(i as int)));
            }
        }
        i += 1;
    }
    let mut out: [u32; 4] = [0u32; 4];
    let mut lane: usize = 0;
    while lane < 4
        invariant
            lane <= 4,
            forall|m: int|
                0 <= m < 4 ==> #[trigger] states@[m] == crc::register(0xFFFF_FFFF, messages@[m]@.take(len as int)),
            forall|m: int| 0 <= m < 4 ==> (#[trigger] messages@[m])@.len() == len,
            forall|m: int| 0 <= m < lane ==> #[trigger] out@[m] == crc::checksum(messages@[m]@),
        decreases 4 - lane,
    {
        let state: u32 = states[lane];
        proof {
            word_facts(state, 0, 0);
            assert(messages@[lane as int]@.take(len as int) =~= messages@[lane as int]@);
        }
        out[lane] = state ^ 0xFFFF_FFFF;
        lane += 1;
    }
    out
}

/// The same on wider registers: only four lanes are in use, so the result is the same.
pub fn crc32c_simd_avx2_x4(messages: [&[u8]; 4]) -> (values: [u32; 4])
    requires
        forall|m: int| 0 <= m < 4 ==> (#[trigger] messages@[m])@.len() == messages@[0]@.len(),
    ensures
        forall|m: int| 0 <= m < 4 ==> #[trigger] values@[m] == crc::checksum(messages@[m]@),
{
    crc32c_simd_sse2_x4(messages)
}

// ---------------------------------------------------------------------------------------------
// By a basis of the message space
// ---------------------------------------------------------------------------------------------

/// The message of `len` bytes whose only one bit is bit `k`.
pub open spec fn unit_message(len: nat, k: int) -> Seq<u8> {
    Seq::new(
        len,
        |i: int|
            if i == k / 8 {
                1u8 << ((k % 8) as u8)
            } else {
                0
            },
    )
}

/// The message of `len` zero bytes.
pub open spec fn zero_message(len: nat) -> Seq<u8> {
    Seq::new(len, |i: int| 0u8)
}

/// What CRC-32C does to messages of one length: the value of the zero message, and for every bit
/// the change that it makes.
pub struct Basis {
    pub constant: u32,
    pub columns: Vec<u32>,
}

impl Basis {
    /// Whether this is the basis for messages of `len` bytes.
    pub open spec fn fits(&self, len: nat) -> bool {
        &&& self.constant == crc::checksum(zero_message(len))
        &&& self.columns@.len() == 8 * len
        &&& forall|k: int|
            0 <= k < 8 * len ==> #[trigger] self.columns@[k] == crc::register(0, unit_message(len, k))
    }
}

/// Bases by message length, built when they are first needed.
pub struct BasisCache {
    entries: HashMap<usize, Basis>,
}

impl BasisCache {
    /// The lengths for which a basis is at hand.
    pub closed spec fn lengths(&self) -> Set<usize> {
        self.entries@.dom()
    }

    /// Every basis fits the length under which it is kept.
    pub closed spec fn wf(&self) -> bool {
        forall|len: usize| #[trigger]
            self.entries@.dom().contains(len) ==> self.entries@[len].fits(len as nat)
    }

    /// A cache without any basis.
    pub fn new() -> (cache: Self)
        ensures
            cache.wf(),
            cache.lengths() == Set::<usize>::empty(),
    {
        let cache = BasisCache { entries: HashMap::new() };
        assert(cache.lengths() =~= Set::<usize>::empty());
        cache
    }
}

proof fn zero_register(len: nat)
    ensures
        crc::register(0, zero_message(len)) == 0,
    decreases len,
{
    if len > 0 {
        let z = zero_message(len);
        assert(z.drop_last() =~= zero_message((len - 1) as nat));
        zero_register((len - 1) as nat);
        bits::word_rules(0, 0, 0, 0);
        crc::shifts_linear(0, 0, 8);
    }
}

proof fn column_value(len: nat, k: int)
    requires
        0 <= k < 8 * len,
    ensures
        crc::checksum(unit_message(len, k)) ^ crc::checksum(zero_message(len)) == crc::register(
            0,
            unit_message(len, k),
        ),
{
    let z = zero_message(len);
    let u = unit_message(len, k);
    assert(crc::xor_bytes(z, u) =~= u) by {
        assert forall|i: int| 0 <= i < len implies #[trigger] crc::xor_bytes(z, u)[i] == u[i] by {
            bits::byte_rules(u[i], 0, 0, 0);
        }
    }
    crc::checksum_of_xor(z, u);
    bits::word_rules(crc::checksum(z), crc::register(0, u), 0, 0);
    bits::word_rules(crc::register(0, u), crc::checksum(z), 0, 0);
}

/// Builds the basis for messages of `length_bytes` bytes.
fn build_basis(length_bytes: usize) -> (basis: Basis)
    requires
        8 * length_bytes <= usize::MAX,
    ensures
        basis.fits(length_bytes as nat),
{
    let zero: Vec<u8> = vec![0u8; length_bytes];
    assert(zero@ =~= zero_message(length_bytes as nat));
    let constant: u32 = crc32c_hw(zero.as_slice());
    let mut columns: Vec<u32> = Vec::with_capacity(length_bytes * 8);
    let mut buf: Vec<u8> = vec![0u8; length_bytes];
    let mut byte_i: usize = 0;
    while byte_i < length_bytes
        invariant
            byte_i <= length_bytes,
            8 * length_bytes <= usize::MAX,
            buf@ =~= zero_message(length_bytes as nat),
            constant == crc::checksum(zero_message(length_bytes as nat)),
            columns@.len() == 8 * byte_i,
            forall|k: int|
                0 <= k < 8 * byte_i ==> #[trigger] columns@[k] == crc::register(
                    0,
                    unit_message(length_bytes as nat, k),
                ),
        decreases length_bytes - byte_i,
    {
        let mut bit_i: usize = 0;
        while bit_i < 8
            invariant
                bit_i <= 8,
                byte_i < length_bytes,
                8 * length_bytes <= usize::MAX,
                buf@.len() == length_bytes,
                forall|i: int| 0 <= i < length_bytes && i != byte_i ==> #[trigger] buf@[i] == 0,
                constant == crc::checksum(zero_message(length_bytes as nat)),
                columns@.len() == 8 * byte_i + bit_i,
                forall|k: int|
                    0 <= k < 8 * byte_i + bit_i ==> #[trigger] columns@[k] == crc::register(
                        0,
                        unit_message(length_bytes as nat, k),
                    ),
            decreases 8 - bit_i,
        {
            buf[byte_i] = 1u8 << (bit_i as u8);
            proof {
                let k = 8 * byte_i + bit_i;
                assert(k / 8 == byte_i && k % 8 == bit_i);
                assert(buf@ =~= unit_message(length_bytes as nat, k));
                column_value(length_bytes as nat, k);
            }
            columns.push(crc32c_hw(buf.as_slice()) ^ constant);
            bit_i += 1;
        }
        buf[byte_i] = 0;
        byte_i += 1;
    }
    Basis { constant, columns }
}

/// The first `k` bits of a message, the others zero.
spec fn kept(data: Seq<u8>, k: int) -> Seq<u8> {
    Seq::new(
        data.len(),
        |i: int|
            if 8 * i + 8 <= k {
                data[i]
            } else if 8 * i >= k {
                0
            } else {
                data[i] & (((1u8 << ((k - 8 * i) as u8)) - 1) as u8)
            },
    )
}

proof fn kept_step(data: Seq<u8>, k: int, bit: bool)
    requires
        0 <= k < 8 * data.len(),
        bit == ((data[k / 8] >> ((k % 8) as u8)) & 1 == 1),
    ensures
        kept(data, k + 1) == crc::xor_bytes(
            kept(data, k),
            if bit {
                unit_message(data.len(), k)
            } else {
                zero_message(data.len())
            },
        ),
{
    let other = if bit {
        unit_message(data.len(), k)
    } else {
        zero_message(data.len())
    };
    let p = k / 8;
    let t = k % 8;
    assert forall|i: int| 0 <= i < data.len() implies #[trigger] kept(data, k + 1)[i] == kept(data, k)[i]
        ^ other[i] by {
        bits::byte_rules(data[i], 0, t as u8, 0);
        bits::byte_rules(kept(data, k)[i], 0, 0, 0);
        if i == p {
            assert(k - 8 * i == t);
            assert(((k + 1 - 8 * i) as u8) == (t as u8 + 1) as u8);
        }
    }
    assert(kept(data, k + 1) =~= crc::xor_bytes(kept(data, k), other));
}

/// What a basis makes of a message.
fn combine(basis: &Basis, data: &[u8]) -> (value: u32)
    requires
        basis.fits(data@.len()),
    ensures
        value == crc::checksum(data@),
{
    let len: usize = data.len();
    let total: usize = basis.columns.len();
    let mut acc: u32 = 0;
    let mut byte_i: usize = 0;
    proof {
        assert(kept(data@, 0) =~= zero_message(data@.len()));
        zero_register(data@.len());
    }
    while byte_i < len
        invariant
            byte_i <= len,
            len == data@.len(),
            total == 8 * len,
            basis.fits(data@.len()),
            acc == crc::register(0, kept(data@, 8 * byte_i)),
        decreases len - byte_i,
    {
        let b: u8 = data[byte_i];
        let mut bit_i: usize = 0;
        while bit_i < 8
            invariant
                bit_i <= 8,
                byte_i < len,
                len == data@.len(),
                total == 8 * len,
                b == data@[byte_i as int],
                basis.fits(data@.len()),
                acc == crc::register(0, kept(data@, 8 * byte_i + bit_i)),
            decreases 8 - bit_i,
        {
            let m: u32 = lsb_mask((b >> (bit_i as u8)) as u32);
            let column: u32 = basis.columns[byte_i * 8 + bit_i];
            proof {
                let k = 8 * byte_i + bit_i;
                assert(k / 8 == byte_i && k % 8 == bit_i);
                let bit = (b >> (bit_i as u8)) & 1 == 1;
                kept_step(data@, k, bit);
                bits::byte_rules(b, 0, bit_i as u8, 0);
                let other = if bit {
                    unit_message(data@.len(), k)
                } else {
                    zero_message(data@.len())
                };
                crc::register_linear(0, 0, kept(data@, k), other);
                bits::word_rules(0, 0, 0, 0);
                zero_register(data@.len());
                word_facts(column, 0, 0);
            }
            acc = acc ^ (column & m);
            bit_i += 1;
        }
        byte_i += 1;
    }
    proof {
        let z = zero_message(data@.len());
        assert(kept(data@, 8 * len) =~= data@);
        assert(crc::xor_bytes(z, data@) =~= data@) by {
            assert forall|i: int| 0 <= i < data@.len() implies #[trigger] crc::xor_bytes(z, data@)[i]
                == data@[i] by {
                bits::byte_rules(data@[i], 0, 0, 0);
            }
        }
        crc::checksum_of_xor(z, data@);
    }
    basis.constant ^ acc
}

/// CRC-32C as the value of the zero message changed by one column for every one bit. The basis
/// for the length of the message is taken from the cache, or built and kept there.
pub fn crc32c_popcount_xor(cache: &mut BasisCache, data: &[u8]) -> (value: u32)
    requires
        old(cache).wf(),
        8 * data@.len() <= usize::MAX,
    ensures
        value == crc::checksum(data@),
        final(cache).wf(),
        final(cache).lengths() == old(cache).lengths().insert(data@.len() as usize),
{
    let len: usize = data.len();
    warm_popcount_basis(cache, len);
    assert(cache.lengths().contains(len));
    let basis = cache.entries.get(&len).unwrap();
    combine(basis, data)
}

/// Builds the basis for one message length unless it is at hand.
pub fn warm_popcount_basis(cache: &mut BasisCache, length_bytes: usize)
    requires
        old(cache).wf(),
        8 * length_bytes <= usize::MAX,
    ensures
        final(cache).wf(),
        final(cache).lengths() == old(cache).lengths().insert(length_bytes),
{
    if !cache.entries.contains_key(&length_bytes) {
        let basis = build_basis(length_bytes);
        cache.entries.insert(length_bytes, basis);
    }
    assert(cache.lengths() =~= old(cache).lengths().insert(length_bytes));
}

/// What the combination of columns gives for a message is what the bit-by-bit computation gives,
/// on a first call as on a second, whatever bases were at hand; and it is affine: the value of two
/// messages of one length combined by exclusive or is that of the one, of the other and of the
/// zero message combined.
pub proof fn law_columns_agree_and_are_affine(
    a: Seq<u8>,
    b: Seq<u8>,
    bitwise: u32,
    of_a: u32,
    of_a_again: u32,
    of_b: u32,
    of_xor: u32,
    of_zero: u32,
)
    requires
        a.len() == b.len(),
        bitwise == crc::checksum(a),
        of_a == crc::checksum(a),
        of_a_again == crc::checksum(a),
        of_b == crc::checksum(b),
        of_xor == crc::checksum(crc::xor_bytes(a, b)),
        of_zero == crc::checksum(zero_message(a.len())),
    ensures
        of_a == bitwise,
        of_a_again == bitwise,
        of_xor == of_a ^ of_b ^ of_zero,
{
    assert(zero_message(a.len()) =~= Seq::new(a.len(), |i: int| 0u8));
    crc::law_checksum_is_affine(a, b, zero_message(a.len()));
}

} // verus!
