//! Number of one bits in a natural number, and its parity.

use vstd::prelude::*;

use crate::bits;

verus! {

/// How many one bits the binary representation of `n` has.
pub open spec fn weight(n: nat) -> nat
    decreases n,
{
    if n == 0 {
        0
    } else {
        n % 2 + weight(n / 2)
    }
}

/// `u32::count_ones` of the standard library: the number of one bits in the binary
/// representation of its argument.
pub assume_specification[ u32::count_ones ](n: u32) -> (count: u32)
    ensures
        count == weight(n as nat),
;

/// `u64::count_ones` of the standard library: the number of one bits in the binary
/// representation of its argument.
pub assume_specification[ u64::count_ones ](n: u64) -> (count: u32)
    ensures
        count == weight(n as nat),
;

proof fn xor_halves(a: u64, b: u64)
    by (bit_vector)
    ensures
        (a ^ b) / 2 == (a / 2) ^ (b / 2),
        (a ^ b) % 2 == (a % 2 + b % 2) % 2,
        (a | b) / 2 == (a / 2) | (b / 2),
        (a & b) / 2 == (a / 2) & (b / 2),
        a & b == 0 ==> (a / 2) & (b / 2) == 0,
        a & b == 0 ==> (a | b) % 2 == a % 2 + b % 2,
        0u64 ^ 0u64 == 0,
        0u64 | 0u64 == 0,
{
}

/// The exclusive or of two words has, modulo two, as many one bits as the two together.
pub proof fn weight_of_xor(a: u64, b: u64)
    ensures
        weight((a ^ b) as nat) % 2 == (weight(a as nat) + weight(b as nat)) % 2,
    decreases a + b,
{
    xor_halves(a, b);
    if a != 0 || b != 0 {
        weight_of_xor(a / 2, b / 2);
        assert(weight(a as nat) == (a as nat) % 2 + weight((a as nat) / 2));
        assert(weight(b as nat) == (b as nat) % 2 + weight((b as nat) / 2));
        let x = (a ^ b) as nat;
        assert(weight(x) == x % 2 + weight(x / 2));
    }
}

/// Words without a common one bit: the union has the one bits of both.
pub proof fn weight_of_disjoint_or(a: u64, b: u64)
    requires
        a & b == 0,
    ensures
        weight((a | b) as nat) == weight(a as nat) + weight(b as nat),
    decreases a + b,
{
    xor_halves(a, b);
    if a != 0 || b != 0 {
        weight_of_disjoint_or(a / 2, b / 2);
        assert(weight(a as nat) == (a as nat) % 2 + weight((a as nat) / 2));
        assert(weight(b as nat) == (b as nat) % 2 + weight((b as nat) / 2));
        let x = (a | b) as nat;
        assert(weight(x) == x % 2 + weight(x / 2));
    }
}

/// Doubling adds no one bit.
pub proof fn weight_of_double(n: nat)
    ensures
        weight(2 * n) == weight(n),
{
    if n > 0 {
        assert((2 * n) / 2 == n);
        assert((2 * n) % 2 == 0);
    }
}

/// A power of two has one one bit.
pub proof fn weight_of_unit(i: u32)
    requires
        i < 32,
    ensures
        weight((1u32 << i) as nat) == 1,
    decreases i,
{
    bits::unit_facts(0, 0, 0, i, 0);
    if i == 0 {
        reveal_with_fuel(weight, 2);
    } else {
        let j = (i - 1) as u32;
        weight_of_unit(j);
        weight_of_double((1u32 << j) as nat);
    }
}

} // verus!
