//! Branchless boolean helpers on words.

use vstd::prelude::*;

use crate::bits;

verus! {

/// Bitwise XNOR.
pub fn xnor(a: u32, b: u32) -> (r: u32)
    ensures
        r == !(a ^ b),
{
    !(a ^ b)
}

/// Bitwise NAND.
pub fn nand(a: u32, b: u32) -> (r: u32)
    ensures
        r == !(a & b),
{
    !(a & b)
}

/// Exclusive or of three words.
pub fn xor3(a: u32, b: u32, c: u32) -> (r: u32)
    ensures
        r == a ^ b ^ c,
{
    a ^ b ^ c
}

/// All ones if the low bit is set, zero otherwise.
pub fn lsb_mask(bit: u32) -> (r: u32)
    ensures
        r == (if bit & 1 == 1 {
            0xFFFF_FFFFu32
        } else {
            0
        }),
{
    proof {
        bits::word_rules(bit, 0, 0, 0);
    }
    0u32.wrapping_sub(bit & 1)
}

/// The order in which three words are combined does not matter.
pub proof fn law_xor3_associates(a: u32, b: u32, c: u32)
    ensures
        a ^ b ^ c == a ^ (b ^ c),
        a ^ b ^ c == c ^ b ^ a,
{
    bits::word_rules(a, b, c, 0);
    bits::word_rules(b, c, a, 0);
    bits::word_rules(a, b ^ c, 0, 0);
}

/// A mask made from a bit selects one of two words.
pub proof fn law_mask_selects(a: u32, b: u32)
    ensures
        (a & 0xFFFF_FFFF) | (b & !0xFFFF_FFFFu32) == a,
        (a & 0) | (b & !0u32) == b,
{
    bits::word_rules(a, b, 0, 0);
}

} // verus!
