//! Facts about single machine words that the modules share.

use vstd::prelude::*;

verus! {

/// Byte `j` of a word in network order: byte 0 is the most significant.
pub open spec fn be_byte(w: u32, j: int) -> u8 {
    if j == 0 {
        (w >> 24) as u8
    } else if j == 1 {
        (w >> 16) as u8
    } else if j == 2 {
        (w >> 8) as u8
    } else {
        w as u8
    }
}

/// The word whose four bytes in network order are given.
pub open spec fn be_word(a: u8, b: u8, c: u8, d: u8) -> u32 {
    ((a as u32) << 24) | ((b as u32) << 16) | ((c as u32) << 8) | (d as u32)
}

/// The word with bit `i` alone.
pub open spec fn unit(i: int) -> u32 {
    1u32 << (i as u32)
}

/// Words under exclusive or, and other rules that hold of all words.
pub proof fn word_rules(a: u32, b: u32, c: u32, d: u32)
    by (bit_vector)
    ensures
        (a ^ b) ^ (c ^ d) == (a ^ c) ^ (b ^ d),
        (a ^ b) ^ c == a ^ (b ^ c),
        a ^ b == b ^ a,
        a ^ b == 0 <==> a == b,
        (a ^ b) ^ b == a,
        a ^ b == c <==> a == c ^ b,
        a ^ 0 == a,
        0 ^ a == a,
        a ^ a == 0,
        a | 0 == a,
        a >> 0u32 == a,
        a << 0u32 == a,
        a & 0 == 0,
        a & 0xFFFF_FFFF == a,
        a & b == 0 ==> a ^ b == a | b,
        !a == a ^ 0xFFFF_FFFF,
        !(a ^ 0) == a ^ 0xFFFF_FFFF,
        !(!(a & b)) == a & b,
        (a & 0xFFFF_FFFF) | (b & !0xFFFF_FFFFu32) == a,
        (a & 0) | (b & !0u32) == b,
        a >> 1 == a / 2,
        a & 1 == a % 2,
        a & 1 == 0 || a & 1 == 1,
        (a ^ b) as u64 == (a as u64) ^ (b as u64),
        (a & b) as u64 == (a as u64) & (b as u64),
        (a | b) as u64 == (a as u64) | (b as u64),
        a == (a & 0xFF) ^ (a & !0xFFu32),
        (a & !0xFFu32) & (((1u32 << 8u32) - 1) as u32) == 0,
        (a & !0xFFu32) >> 8u32 == a >> 8,
        a & 0xFF < 256,
        a < 256 ==> a & 0xFF == a,
        a < 256 ==> (b ^ a) >> 8 == b >> 8,
        a < 256 ==> a & (((1u32 << 8u32) - 1) as u32) == a,
{
}

/// Bytes, alone and widened to words.
pub proof fn byte_rules(u: u8, v: u8, t: u8, j: u32)
    by (bit_vector)
    requires
        t < 8,
        j < 8,
    ensures
        0u8 ^ u == u,
        u ^ 0 == u,
        (u ^ v) as u32 == (u as u32) ^ (v as u32),
        (1u8 << t) as u32 == 1u32 << (t as u32),
        (((1u8 << t) as u32) >> j) & 1 == (if t as u32 == j {
            1u32
        } else {
            0
        }),
        (0u32 >> j) & 1 == 0,
        ((0u8 as u32) >> j) & 1 == 0,
        ((((u ^ v) as u32) >> j) & 1) == ((((u as u32) >> j) & 1) ^ (((v as u32) >> j) & 1)),
        u != v ==> {
            ||| ((u as u32) >> 0u32) & 1 != ((v as u32) >> 0u32) & 1
            ||| ((u as u32) >> 1u32) & 1 != ((v as u32) >> 1u32) & 1
            ||| ((u as u32) >> 2u32) & 1 != ((v as u32) >> 2u32) & 1
            ||| ((u as u32) >> 3u32) & 1 != ((v as u32) >> 3u32) & 1
            ||| ((u as u32) >> 4u32) & 1 != ((v as u32) >> 4u32) & 1
            ||| ((u as u32) >> 5u32) & 1 != ((v as u32) >> 5u32) & 1
            ||| ((u as u32) >> 6u32) & 1 != ((v as u32) >> 6u32) & 1
            ||| ((u as u32) >> 7u32) & 1 != ((v as u32) >> 7u32) & 1
        },
        t < 7 ==> u & (((1u8 << ((t + 1) as u8)) - 1) as u8) == (u & (((1u8 << t) - 1) as u8)) ^ (if (
        u >> t) & 1 == 1 {
            1u8 << t
        } else {
            0
        }),
        t == 7 ==> u == (u & (((1u8 << t) - 1) as u8)) ^ (if (u >> t) & 1 == 1 {
            1u8 << t
        } else {
            0
        }),
        u & (((1u8 << 0u8) - 1) as u8) == 0,
        ((u >> t) as u32) & 1 == 1 <==> (u >> t) & 1 == 1,
{
}

proof fn byte_bits(w: u32, v: u32, a: u8, b: u8, c: u8, d: u8, e: u8, f: u8, g: u8, h: u8)
    by (bit_vector)
    ensures
        be_word((w >> 24) as u8, (w >> 16) as u8, (w >> 8) as u8, w as u8) == w,
        (be_word(a, b, c, d) >> 24) as u8 == a,
        (be_word(a, b, c, d) >> 16) as u8 == b,
        (be_word(a, b, c, d) >> 8) as u8 == c,
        be_word(a, b, c, d) as u8 == d,
        be_word(a ^ e, b ^ f, c ^ g, d ^ h) == be_word(a, b, c, d) ^ be_word(e, f, g, h),
        ((w ^ v) >> 24) as u8 == ((w >> 24) as u8) ^ ((v >> 24) as u8),
        ((w ^ v) >> 16) as u8 == ((w >> 16) as u8) ^ ((v >> 16) as u8),
        ((w ^ v) >> 8) as u8 == ((w >> 8) as u8) ^ ((v >> 8) as u8),
        (w ^ v) as u8 == (w as u8) ^ (v as u8),
{
}

/// A word and its four bytes determine each other.
pub proof fn be_round_trip(w: u32, a: u8, b: u8, c: u8, d: u8)
    ensures
        be_word(be_byte(w, 0), be_byte(w, 1), be_byte(w, 2), be_byte(w, 3)) == w,
        be_byte(be_word(a, b, c, d), 0) == a,
        be_byte(be_word(a, b, c, d), 1) == b,
        be_byte(be_word(a, b, c, d), 2) == c,
        be_byte(be_word(a, b, c, d), 3) == d,
{
    byte_bits(w, 0, a, b, c, d, 0, 0, 0, 0);
}

/// Taking words apart and putting bytes together commute with exclusive or.
pub proof fn be_linear(w: u32, v: u32, a: u8, b: u8, c: u8, d: u8, e: u8, f: u8, g: u8, h: u8, j: int)
    ensures
        be_word(a ^ e, b ^ f, c ^ g, d ^ h) == be_word(a, b, c, d) ^ be_word(e, f, g, h),
        be_byte(w ^ v, j) == be_byte(w, j) ^ be_byte(v, j),
{
    byte_bits(w, v, a, b, c, d, e, f, g, h);
}

/// What masking with one bit does.
pub proof fn unit_facts(a: u32, b: u32, x: u32, i: u32, j: u32)
    by (bit_vector)
    requires
        i < 32,
        j < 32,
    ensures
        1u32 << i >= 1,
        (a ^ b) & (1u32 << i) == (a & (1u32 << i)) ^ (b & (1u32 << i)),
        (a ^ b) & !(1u32 << i) == (a & !(1u32 << i)) ^ (b & !(1u32 << i)),
        a == (a & !(1u32 << i)) ^ (a & (1u32 << i)),
        (a & !(1u32 << i)) & (a & (1u32 << i)) == 0,
        (a & !(1u32 << i)) | (a & (1u32 << i)) == a,
        ((a & !(1u32 << i)) | (b & (1u32 << i))) & !(1u32 << i) == a & !(1u32 << i),
        ((a & !(1u32 << i)) | (b & (1u32 << i))) & (1u32 << i) == b & (1u32 << i),
        (a & !(1u32 << i)) & !(1u32 << i) == a & !(1u32 << i),
        (a & !(1u32 << i)) & (1u32 << i) == 0,
        i != j ==> ((x ^ (a & (1u32 << i))) & (1u32 << j)) == x & (1u32 << j),
        ((x ^ (a & (1u32 << i))) & (1u32 << i)) == (x ^ a) & (1u32 << i),
        i != j ==> (1u32 << i) != (1u32 << j),
        i != j ==> (1u32 << i) & (1u32 << j) == 0,
        i != j ==> (1u32 << i) & !(1u32 << j) == 1u32 << i,
        (1u32 << i) & !(1u32 << i) == 0,
        (1u32 << i) & (1u32 << i) == 1u32 << i,
        a & (1u32 << i) == ((a >> i) & 1) << i,
        (a >> i) & 1 == 0 || (a >> i) & 1 == 1,
        (a >> i) & 1 == 1 <==> a & (1u32 << i) != 0,
        a & (1u32 << i) == 0 || a & (1u32 << i) == 1u32 << i,
        0u32 & (1u32 << i) == 0,
        0u32 & !(1u32 << i) == 0,
        i != j ==> ((a ^ (1u32 << i)) >> j) & 1 == (a >> j) & 1,
        ((a ^ (1u32 << i)) >> i) & 1 == 1 - ((a >> i) & 1),
        1u32 << 0u32 == 1,
        i > 0 ==> 1u32 << i == 2 * (1u32 << ((i - 1) as u32)),
        0u32 << i == 0,
        (0u32 >> i) & 1 == 0,
        (1u32 >> i) & 1 == (if i == 0 {
            1u32
        } else {
            0
        }),
        a & (((1u32 << 0u32) - 1) as u32) == 0,
        i < 31 ==> a & (((1u32 << ((i + 1) as u32)) - 1) as u32) == (a & (((1u32 << i) - 1) as u32)) ^ ((
        (a >> i) & 1) << i),
        i == 31 ==> a == (a & (((1u32 << i) - 1) as u32)) ^ (((a >> i) & 1) << i),
        b <= 1 && (a >> i) & 1 == 0 ==> ((a | (b << i)) >> j) & 1 == (if j == i {
            b
        } else {
            (a >> j) & 1
        }),
        (a & !(1u32 << i)) | (0u32 << i) == a & !(1u32 << i),
        (a & !(1u32 << i)) | 0 == a & !(1u32 << i),
        (a >> i) & 1 <= 1,
        ((a ^ b) >> i) & 1 == ((a >> i) & 1) ^ ((b >> i) & 1),
        (a & (((1u32 << i) - 1) as u32)) & (1u32 << i) == 0,
        ((a | (1u32 << i)) >> j) & 1 == (if i == j {
            1u32
        } else {
            (a >> j) & 1
        }),
        ((a & !(1u32 << i)) >> j) & 1 == (if i == j {
            0u32
        } else {
            (a >> j) & 1
        }),
        ((a & b) >> j) & 1 == ((a >> j) & 1) & ((b >> j) & 1),
        ((((1u32 << i) - 1) as u32) >> j) & 1 == (if j < i {
            1u32
        } else {
            0
        }),
        (0xFFFF_FFFFu32 >> j) & 1 == 1,
        1u32 & 1 == 1,
{
}

/// Bit `t` of a word.
pub open spec fn word_bit(w: u32, t: int) -> u32 {
    (w >> (t as u32)) & 1
}

/// The low `t` bits of a word.
pub open spec fn low_bits(w: u32, t: int) -> u32 {
    if t >= 32 {
        w
    } else {
        w & (((1u32 << (t as u32)) - 1) as u32)
    }
}

/// The word whose first `n` bits are given by `f`, the others zero.
pub open spec fn word_from(f: spec_fn(int) -> bool, n: nat) -> u32
    decreases n,
{
    if n == 0 {
        0
    } else {
        word_from(f, (n - 1) as nat) | (if f(n - 1) {
            unit(n - 1)
        } else {
            0
        })
    }
}

/// The bits of a word that was built from its bits.
pub proof fn word_from_bits(f: spec_fn(int) -> bool, n: nat, j: int)
    requires
        n <= 32,
        0 <= j < 32,
    ensures
        word_bit(word_from(f, n), j) == (if j < n && f(j) {
            1u32
        } else {
            0
        }),
    decreases n,
{
    if n == 0 {
        unit_facts(0, 0, 0, j as u32, 0);
    } else {
        let m = n - 1;
        word_from_bits(f, m as nat, j);
        let w = word_from(f, m as nat);
        unit_facts(w, 0, 0, m as u32, j as u32);
        word_rules(w, 0, 0, 0);
    }
}

/// Words with the same low bits.
pub proof fn low_bits_equal(a: u32, b: u32, n: nat)
    requires
        n <= 32,
        forall|j: int| 0 <= j < n ==> #[trigger] word_bit(a, j) == word_bit(b, j),
    ensures
        low_bits(a, n as int) == low_bits(b, n as int),
    decreases n,
{
    unit_facts(a, 0, 0, 0, 0);
    unit_facts(b, 0, 0, 0, 0);
    if n > 0 {
        let m = n - 1;
        low_bits_equal(a, b, m as nat);
        unit_facts(a, 0, 0, m as u32, 0);
        unit_facts(b, 0, 0, m as u32, 0);
        assert(word_bit(a, m) == word_bit(b, m));
        assert((m as u32 + 1) as u32 == n as u32);
    }
}

/// Words with the same bits are equal.
pub proof fn words_equal(a: u32, b: u32)
    requires
        forall|j: int| 0 <= j < 32 ==> #[trigger] word_bit(a, j) == word_bit(b, j),
    ensures
        a == b,
{
    low_bits_equal(a, b, 32);
}

/// A bit is zero or one.
pub proof fn bit_is_binary(w: u32, j: int)
    requires
        0 <= j < 32,
    ensures
        word_bit(w, j) == 0 || word_bit(w, j) == 1,
{
    unit_facts(w, 0, 0, j as u32, 0);
}

} // verus!
