//! CRC-32C (Castagnoli) as a shift register over GF(2), and the algebra behind error detection.
//!
//! The register is kept in reflected form: bit 31 stands for the constant term and bit 0 for the
//! highest power. All facts here rest on one map, [`shift`], which is linear, loses no
//! information, and keeps the parity of the number of one bits.

use vstd::prelude::*;

use crate::bits;
use crate::weight;

verus! {

/// The CRC-32C generator polynomial, reflected.
pub const POLY_REFLECTED: u32 = 0x82F6_3B78;

/// One step of the register: multiply by the indeterminate, reduce by the generator.
pub open spec fn shift(s: u32) -> u32 {
    (s >> 1) ^ (if s & 1 == 1 { POLY_REFLECTED } else { 0 })
}

/// `n` steps of the register.
pub open spec fn shifts(s: u32, n: nat) -> u32
    decreases n,
{
    if n == 0 {
        s
    } else {
        shift(shifts(s, (n - 1) as nat))
    }
}

/// The register after one message byte.
pub open spec fn absorb(s: u32, byte: u8) -> u32 {
    shifts(s ^ (byte as u32), 8)
}

/// The register after a message, started at `s`.
pub open spec fn register(s: u32, data: Seq<u8>) -> u32
    decreases data.len(),
{
    if data.len() == 0 {
        s
    } else {
        absorb(register(s, data.drop_last()), data.last())
    }
}

/// The CRC-32C of a message: start value and final mask are both all ones.
pub open spec fn checksum(data: Seq<u8>) -> u32 {
    register(0xFFFF_FFFF, data) ^ 0xFFFF_FFFF
}

/// `crc32c::crc32c` of the crc32c crate: the CRC-32-Castagnoli of the whole slice.
pub assume_specification[ crc32c::crc32c ](bytes: &[u8]) -> (value: u32)
    ensures
        value == checksum(bytes@),
;

/// Two messages of one length, combined byte by byte with exclusive or.
pub open spec fn xor_bytes(a: Seq<u8>, b: Seq<u8>) -> Seq<u8> {
    Seq::new(a.len(), |i: int| a[i] ^ b[i])
}

proof fn shift_rules(a: u32, b: u32, t: u32)
    by (bit_vector)
    ensures
        shift(a ^ b) == shift(a) ^ shift(b),
        shift(a) == 0 ==> a == 0,
        shift(0) == 0,
        b <= 1 && 0 < t < 32 ==> shift(b << t) == b << ((t - 1) as u32),
        t < 31 && a & (((1u32 << ((t + 1) as u32)) - 1) as u32) == 0 ==> {
            &&& shift(a >> t) == a >> ((t + 1) as u32)
            &&& a & (((1u32 << t) - 1) as u32) == 0
        },
{
}

proof fn shift_bits(a: u32, b: u32)
    ensures
        shift(a ^ b) == shift(a) ^ shift(b),
        shift(a) == 0 ==> a == 0,
        shift(0) == 0,
        a ^ b == 0 <==> a == b,
        (a ^ b) ^ b == a,
        a ^ 0 == a,
        0 ^ a == a,
        a ^ a == 0,
        a ^ b == b ^ a,
{
    shift_rules(a, b, 0);
    bits::word_rules(a, b, 0, 0);
}

/// A register whose low `n` bits are zero just moves down.
pub proof fn shifts_aligned(y: u32, n: nat)
    requires
        n < 32,
        y & (((1u32 << (n as u32)) - 1) as u32) == 0,
    ensures
        shifts(y, n) == y >> (n as u32),
    decreases n,
{
    if n == 0 {
        bits::word_rules(y, 0, 0, 0);
    } else {
        let m = (n - 1) as nat;
        assert((m as u32 + 1) as u32 == n as u32);
        shift_rules(y, 0, m as u32);
        shifts_aligned(y, m);
    }
}

/// Steps add up.
pub proof fn shifts_add(s: u32, m: nat, n: nat)
    ensures
        shifts(shifts(s, m), n) == shifts(s, m + n),
    decreases n,
{
    if n > 0 {
        shifts_add(s, m, (n - 1) as nat);
    }
}

/// Stepping is linear over GF(2).
pub proof fn shifts_linear(a: u32, b: u32, n: nat)
    ensures
        shifts(a ^ b, n) == shifts(a, n) ^ shifts(b, n),
        shifts(0, n) == 0,
    decreases n,
{
    shift_bits(0, 0);
    if n > 0 {
        shifts_linear(a, b, (n - 1) as nat);
        shift_bits(shifts(a, (n - 1) as nat), shifts(b, (n - 1) as nat));
    }
}

/// Stepping loses nothing: different registers stay different.
pub proof fn shifts_injective(a: u32, b: u32, n: nat)
    ensures
        shifts(a, n) == shifts(b, n) <==> a == b,
        shifts(a, n) == 0 <==> a == 0,
    decreases n,
{
    shifts_linear(a, b, n);
    shift_bits(a, b);
    shift_bits(shifts(a, n), shifts(b, n));
    if n > 0 {
        shifts_injective(a, 0, (n - 1) as nat);
        shifts_injective(a ^ b, 0, (n - 1) as nat);
        shift_bits(shifts(a, (n - 1) as nat), 0);
        shift_bits(shifts(a ^ b, (n - 1) as nat), 0);
    }
}

/// Absorbing a message is linear in the start value and the message together.
pub proof fn register_linear(a: u32, b: u32, x: Seq<u8>, y: Seq<u8>)
    requires
        x.len() == y.len(),
    ensures
        register(a ^ b, xor_bytes(x, y)) == register(a, x) ^ register(b, y),
    decreases x.len(),
{
    let z = xor_bytes(x, y);
    if x.len() > 0 {
        assert(z.drop_last() =~= xor_bytes(x.drop_last(), y.drop_last()));
        register_linear(a, b, x.drop_last(), y.drop_last());
        let p = register(a, x.drop_last());
        let q = register(b, y.drop_last());
        let u = x.last();
        let v = y.last();
        bits::byte_rules(u, v, 0, 0);
        bits::word_rules(p, q, u as u32, v as u32);
        shifts_linear(p ^ (u as u32), q ^ (v as u32), 8);
    }
}

/// Flipping the message bits of `e` changes the checksum by what `e` alone does to a register
/// that starts at zero.
pub proof fn checksum_of_xor(x: Seq<u8>, e: Seq<u8>)
    requires
        x.len() == e.len(),
    ensures
        checksum(xor_bytes(x, e)) == checksum(x) ^ register(0, e),
{
    register_linear(0xFFFF_FFFF, 0, x, e);
    bits::word_rules(0xFFFF_FFFF, 0, 0, 0);
    bits::word_rules(register(0xFFFF_FFFF, x), register(0, e), 0xFFFF_FFFF, 0);
    bits::word_rules(register(0, e), 0xFFFF_FFFF, 0, 0);
    bits::word_rules(register(0xFFFF_FFFF, x), 0xFFFF_FFFF, register(0, e), 0);
}

/// The checksum is affine: on messages of one length, that of two messages combined by exclusive
/// or is the combination of their checksums and that of the zero message. Every implementation
/// gives the checksum, so it holds of each of them.
pub proof fn law_checksum_is_affine(a: Seq<u8>, b: Seq<u8>, zeros: Seq<u8>)
    requires
        a.len() == b.len(),
        zeros == Seq::new(a.len(), |i: int| 0u8),
    ensures
        checksum(xor_bytes(a, b)) == checksum(a) ^ checksum(b) ^ checksum(zeros),
{
    checksum_of_xor(a, b);
    checksum_of_xor(zeros, b);
    assert forall|i: int| 0 <= i < b.len() implies #[trigger] xor_bytes(zeros, b)[i] == b[i] by {
        bits::byte_rules(b[i], 0, 0, 0);
    }
    assert(xor_bytes(zeros, b) =~= b);
    bits::word_rules(checksum(zeros), register(0, b), 0, 0);
    bits::word_rules(register(0, b), checksum(zeros), 0, 0);
    bits::word_rules(checksum(a), checksum(b), checksum(zeros), 0);
}

// ---------------------------------------------------------------------------------------------
// Messages bit by bit
// ---------------------------------------------------------------------------------------------

/// Bit `k` of a message in transmission order: bytes in order, each from its low end.
pub open spec fn message_bit(data: Seq<u8>, k: int) -> u32 {
    (((data[k / 8] as u32) >> ((k % 8) as u32)) & 1) as u32
}

/// The register after the first `k` message bits, started at `s`.
pub open spec fn bit_register(s: u32, data: Seq<u8>, k: nat) -> u32
    decreases k,
{
    if k == 0 {
        s
    } else {
        shift(bit_register(s, data, (k - 1) as nat) ^ message_bit(data, k - 1))
    }
}

proof fn low_bit_step(w: u32, t: u32)
    requires
        t < 32,
    ensures
        t < 31 ==> w & (((1u32 << ((t + 1) as u32)) - 1) as u32) == (w & (((1u32 << t) - 1) as u32))
            ^ (((w >> t) & 1) << t),
        t == 31 ==> w == (w & (((1u32 << t) - 1) as u32)) ^ (((w >> t) & 1) << t),
        w & (((1u32 << 0u32) - 1) as u32) == 0,
        (w >> t) & 1 <= 1,
        0u32 << t == 0,
{
    bits::unit_facts(w, 0, 0, t, 0);
}

/// A bit that stands `t` places up comes to the low end after `t` steps.
pub proof fn shifts_down(b: u32, t: nat)
    requires
        b <= 1,
        t < 32,
    ensures
        shifts(b << (t as u32), t) == b,
    decreases t,
{
    bits::word_rules(b, 0, 0, 0);
    if t > 0 {
        shift_rules(0, b, t as u32);
        shifts_down(b, (t - 1) as nat);
        shifts_add(b << (t as u32), 1, (t - 1) as nat);
        assert(shifts(b << (t as u32), 1) == shift(shifts(b << (t as u32), 0)));
        assert(((t - 1) as nat) as u32 == (t as u32 - 1) as u32);
    }
}

/// Absorbing `t` bits of a word one at a time is the same as adding them all first and then
/// taking `t` steps.
pub proof fn absorb_word_bits(s: u32, data: Seq<u8>, k: nat, w: u32, t: nat)
    requires
        t <= 32,
        forall|j: int| 0 <= j < t ==> message_bit(data, k + j) == #[trigger] bits::word_bit(w, j),
    ensures
        bit_register(s, data, k + t) == shifts(bit_register(s, data, k) ^ bits::low_bits(w, t as int), t),
    decreases t,
{
    let r = bit_register(s, data, k);
    low_bit_step(w, 0);
    if t == 0 {
        shift_bits(r, 0);
    } else {
        let u = (t - 1) as nat;
        absorb_word_bits(s, data, k, w, u);
        assert(message_bit(data, (k + u) as int) == bits::word_bit(w, u as int));
        low_bit_step(w, u as u32);
        let lo = bits::low_bits(w, u as int);
        let b = bits::word_bit(w, u as int);
        let top = b << (u as u32);
        shifts_down(b, u);
        shifts_linear(r ^ lo, top, u);
        bits::word_rules(r, lo, top, 0);
        assert((u as int) as u32 == u as u32);
        assert(((u as u32) + 1) as u32 == t as u32);
        assert(bits::low_bits(w, t as int) == lo ^ top);
        assert(k + t == (k + u) + 1);
        assert(bit_register(s, data, k + t) == shift(
            bit_register(s, data, (k + t - 1) as nat) ^ message_bit(data, k + t - 1),
        ));
    }
}

/// The two readings of a message, by bytes and by bits, give the same register.
pub proof fn register_by_bits(s: u32, data: Seq<u8>, n: nat)
    requires
        n <= data.len(),
    ensures
        bit_register(s, data, 8 * n) == register(s, data.take(n as int)),
    decreases n,
{
    if n == 0 {
        assert(data.take(0) =~= Seq::<u8>::empty());
    } else {
        let m = (n - 1) as nat;
        register_by_bits(s, data, m);
        let w = data[m as int] as u32;
        assert forall|j: int| 0 <= j < 8 implies message_bit(data, 8 * m + j) == #[trigger] bits::word_bit(
            w,
            j,
        ) by {
            assert((8 * m + j) / 8 == m as int);
            assert((8 * m + j) % 8 == j);
        }
        absorb_word_bits(s, data, 8 * m, w, 8);
        assert(bits::low_bits(w, 8) == w) by {
            bits::word_rules(w, 0, 0, 0);
        }
        assert(data.take(n as int).drop_last() =~= data.take(m as int));
    }
}

/// A message whose only one bits lie among the 32 bits from `k` on leaves the register as if
/// those 32 bits, read as a word, had been stepped to the end of the message.
pub proof fn window_register(data: Seq<u8>, k: nat, w: u32, n: nat)
    requires
        k <= n,
        forall|j: int|
            0 <= j < n && !(k <= j < k + 32) ==> #[trigger] message_bit(data, j) == 0,
        forall|j: int| 0 <= j < 32 && k + j < n ==> message_bit(data, k + j) == #[trigger] bits::word_bit(w, j),
        forall|j: int| 0 <= j < 32 && k + j >= n ==> #[trigger] bits::word_bit(w, j) == 0,
    ensures
        bit_register(0, data, n) == shifts(w, (n - k) as nat),
{
    quiet_start(data, k);
    shift_bits(w, 0);
    shift_bits(0, 0);
    let t = if n - k < 32 {
        (n - k) as nat
    } else {
        32nat
    };
    absorb_word_bits(0, data, k, w, t);
    assert(bits::low_bits(w, t as int) == w) by {
        if t < 32 {
            high_bits_zero(w, t);
        }
    }
    quiet_end(data, k + t, n);
    shifts_add(w, t, (n - k - t) as nat);
}

proof fn quiet_start(data: Seq<u8>, k: nat)
    requires
        forall|j: int| 0 <= j < k ==> #[trigger] message_bit(data, j) == 0,
    ensures
        bit_register(0, data, k) == 0,
    decreases k,
{
    shift_bits(0, 0);
    if k > 0 {
        quiet_start(data, (k - 1) as nat);
        assert(message_bit(data, k - 1) == 0);
    }
}

proof fn quiet_end(data: Seq<u8>, k: nat, n: nat)
    requires
        k <= n,
        forall|j: int| k <= j < n ==> #[trigger] message_bit(data, j) == 0,
    ensures
        bit_register(0, data, n) == shifts(bit_register(0, data, k), (n - k) as nat),
    decreases n,
{
    if n > k {
        quiet_end(data, k, (n - 1) as nat);
        assert(message_bit(data, n - 1) == 0);
        shift_bits(bit_register(0, data, (n - 1) as nat), 0);
    }
}

proof fn high_bits_zero(w: u32, t: nat)
    requires
        t < 32,
        forall|j: int| t <= j < 32 ==> #[trigger] bits::word_bit(w, j) == 0,
    ensures
        bits::low_bits(w, t as int) == w,
    decreases 32 - t,
{
    low_bit_step(w, t as u32);
    assert(bits::word_bit(w, t as int) == 0);
    shift_bits(bits::low_bits(w, t as int), 0);
    if t < 31 {
        high_bits_zero(w, t + 1);
        assert(((t as u32) + 1) as u32 == (t + 1) as u32);
    }
}

// ---------------------------------------------------------------------------------------------
// The register does not come back to one within a frame and its check value
// ---------------------------------------------------------------------------------------------

/// From `s`, `n` steps lead to `t` and never through one.
spec fn leaps(s: u32, t: u32, n: u32) -> bool
    decreases n,
{
    if n == 0 {
        s == t
    } else {
        let r = shift(s);
        r != 1 && leaps(r, t, (n - 1) as u32)
    }
}

proof fn leap_facts()
    by (bit_vector)
    ensures
        leaps(0x00000001, 0xdd45aab8, 32),
        leaps(0xdd45aab8, 0x493c7d27, 32),
        leaps(0x493c7d27, 0x3171d430, 32),
        leaps(0x3171d430, 0xf20c0dfe, 32),
        leaps(0xf20c0dfe, 0x3743f7bd, 32),
        leaps(0x3743f7bd, 0xba4fc28e, 32),
        leaps(0xba4fc28e, 0xa2158b34, 32),
        leaps(0xa2158b34, 0x3da6d0cb, 32),
        leaps(0x3da6d0cb, 0x33ccbbbc, 32),
        leaps(0x33ccbbbc, 0xddc0152b, 32),
        leaps(0xddc0152b, 0x6051243f, 32),
        leaps(0x6051243f, 0x1c291d04, 32),
        leaps(0x1c291d04, 0xa46ef4aa, 32),
        leaps(0xa46ef4aa, 0x9e4addf8, 32),
        leaps(0x9e4addf8, 0x75bba45b, 32),
        leaps(0x75bba45b, 0x740eef02, 32),
        leaps(0x740eef02, 0x1c19243b, 32),
        leaps(0x1c19243b, 0x39d3b296, 32),
        leaps(0x39d3b296, 0x6d883e38, 32),
        leaps(0x6d883e38, 0x083a6eec, 32),
        leaps(0x083a6eec, 0x1c42da43, 32),
        leaps(0x1c42da43, 0x0715ce53, 32),
        leaps(0x0715ce53, 0x3365346a, 32),
        leaps(0x3365346a, 0xc49f4f67, 32),
        leaps(0xc49f4f67, 0xc92f998d, 32),
        leaps(0xc92f998d, 0x47db8317, 32),
        leaps(0x47db8317, 0x963e61cd, 32),
        leaps(0x963e61cd, 0x2ad91c30, 32),
        leaps(0x2ad91c30, 0x169472b6, 32),
        leaps(0x169472b6, 0x0d3b6092, 32),
        leaps(0x0d3b6092, 0x7417153f, 32),
        leaps(0x7417153f, 0x6992cea2, 32),
        leaps(0x6992cea2, 0x6577b245, 32),
{
}

proof fn leap(s: u32, t: u32, k: u32, n: nat)
    requires
        leaps(s, t, k),
        shifts(1, n) == s,
        forall|d: nat| 1 <= d <= n ==> #[trigger] shifts(1, d) != 1,
    ensures
        shifts(1, n + k as nat) == t,
        forall|d: nat| 1 <= d <= n + k ==> #[trigger] shifts(1, d) != 1,
    decreases k,
{
    if k > 0 {
        assert(shifts(1, n + 1) == shift(s));
        leap(shift(s), t, (k - 1) as u32, n + 1);
    }
}

/// The lowest distance at which two single-bit errors can cancel lies beyond the 1056 bits of a
/// frame body with its check value.
pub proof fn no_early_return(d: nat)
    requires
        1 <= d <= 1056,
    ensures
        shifts(1, d) != 1,
{
    leap_facts();
    leap(0x00000001, 0xdd45aab8, 32, 0);
    leap(0xdd45aab8, 0x493c7d27, 32, 32);
    leap(0x493c7d27, 0x3171d430, 32, 64);
    leap(0x3171d430, 0xf20c0dfe, 32, 96);
    leap(0xf20c0dfe, 0x3743f7bd, 32, 128);
    leap(0x3743f7bd, 0xba4fc28e, 32, 160);
    leap(0xba4fc28e, 0xa2158b34, 32, 192);
    leap(0xa2158b34, 0x3da6d0cb, 32, 224);
    leap(0x3da6d0cb, 0x33ccbbbc, 32, 256);
    leap(0x33ccbbbc, 0xddc0152b, 32, 288);
    leap(0xddc0152b, 0x6051243f, 32, 320);
    leap(0x6051243f, 0x1c291d04, 32, 352);
    leap(0x1c291d04, 0xa46ef4aa, 32, 384);
    leap(0xa46ef4aa, 0x9e4addf8, 32, 416);
    leap(0x9e4addf8, 0x75bba45b, 32, 448);
    leap(0x75bba45b, 0x740eef02, 32, 480);
    leap(0x740eef02, 0x1c19243b, 32, 512);
    leap(0x1c19243b, 0x39d3b296, 32, 544);
    leap(0x39d3b296, 0x6d883e38, 32, 576);
    leap(0x6d883e38, 0x083a6eec, 32, 608);
    leap(0x083a6eec, 0x1c42da43, 32, 640);
    leap(0x1c42da43, 0x0715ce53, 32, 672);
    leap(0x0715ce53, 0x3365346a, 32, 704);
    leap(0x3365346a, 0xc49f4f67, 32, 736);
    leap(0xc49f4f67, 0xc92f998d, 32, 768);
    leap(0xc92f998d, 0x47db8317, 32, 800);
    leap(0x47db8317, 0x963e61cd, 32, 832);
    leap(0x963e61cd, 0x2ad91c30, 32, 864);
    leap(0x2ad91c30, 0x169472b6, 32, 896);
    leap(0x169472b6, 0x0d3b6092, 32, 928);
    leap(0x0d3b6092, 0x7417153f, 32, 960);
    leap(0x7417153f, 0x6992cea2, 32, 992);
    leap(0x6992cea2, 0x6577b245, 32, 1024);
}

// ---------------------------------------------------------------------------------------------
// Parity
// ---------------------------------------------------------------------------------------------

/// The parity of the number of one bits of two words combined.
pub proof fn parity_of_xor(a: u32, b: u32)
    ensures
        weight::weight((a ^ b) as nat) % 2 == (weight::weight(a as nat) + weight::weight(b as nat)) % 2,
{
    bits::word_rules(a, b, 0, 0);
    weight::weight_of_xor(a as u64, b as u64);
}

proof fn weight_of_poly()
    ensures
        weight::weight(POLY_REFLECTED as nat) == 17,
{
    reveal_with_fuel(weight::weight, 9);
    assert(weight::weight(0x82) == 2);
    assert(weight::weight(0x82F6) == 8);
    assert(weight::weight(0x82F6_3B) == 13);
    assert(weight::weight(0x82F6_3B78) == 17);
}

/// A step keeps the parity of the number of one bits: the generator has an even number of terms.
pub proof fn shift_keeps_parity(s: u32)
    ensures
        weight::weight(shift(s) as nat) % 2 == weight::weight(s as nat) % 2,
{
    bits::word_rules(s, 0, 0, 0);
    weight_of_poly();
    parity_of_xor(s >> 1, POLY_REFLECTED);
    shift_bits(s >> 1, 0);
    assert(weight::weight(s as nat) == (s as nat) % 2 + weight::weight((s as nat) / 2)) by {
        if s == 0 {
            assert(weight::weight(0) == 0);
        }
    }
}

pub proof fn shifts_keep_parity(s: u32, n: nat)
    ensures
        weight::weight(shifts(s, n) as nat) % 2 == weight::weight(s as nat) % 2,
    decreases n,
{
    if n > 0 {
        shifts_keep_parity(s, (n - 1) as nat);
        shift_keeps_parity(shifts(s, (n - 1) as nat));
    }
}

/// How many one bits a message has.
pub open spec fn message_weight(data: Seq<u8>) -> nat
    decreases data.len(),
{
    if data.len() == 0 {
        0
    } else {
        message_weight(data.drop_last()) + weight::weight(data.last() as nat)
    }
}

/// The register started at zero has, modulo two, as many one bits as the message.
pub proof fn register_parity(data: Seq<u8>)
    ensures
        weight::weight(register(0, data) as nat) % 2 == message_weight(data) % 2,
    decreases data.len(),
{
    if data.len() > 0 {
        register_parity(data.drop_last());
        let p = register(0, data.drop_last());
        let b = data.last();
        shifts_keep_parity(p ^ (b as u32), 8);
        parity_of_xor(p, b as u32);
    } else {
        assert(weight::weight(0) == 0);
    }
}

} // verus!
