//! The random generator of the rand crate, as far as the experiments use it.
//!
//! In the version that this library is built with, the generator is the ChaCha cipher with twelve
//! rounds: a stream of words that its seed fixes, handed out one after the other. A generator is
//! modelled by the words that it has yet to hand out.

use rand::rngs::StdRng;
use rand::{Rng, RngCore, SeedableRng};
use vstd::prelude::*;

use crate::bits;

verus! {

/// The generator `rand::rngs::StdRng`, carried as an opaque value.
#[verifier::external_type_specification]
#[verifier::external_body]
pub struct ExStdRng(rand::rngs::StdRng);

/// The words that a generator has yet to hand out, by place; the next one is at place zero.
pub uninterp spec fn words_to_come(rng: StdRng) -> Map<nat, u32>;

/// The words that a generator hands out when it is made from a seed.
pub uninterp spec fn seeded_words(seed: u64) -> Map<nat, u32>;

/// What is left of words after so many were handed out.
pub open spec fn rest(words: Map<nat, u32>, count: nat) -> Map<nat, u32> {
    Map::new(|i: nat| true, |i: nat| words[i + count])
}

/// How many words the generator hands out before it begins anew: a counter of 64 bits numbers
/// blocks of sixteen words.
pub open spec fn cycle() -> nat {
    0x10_0000_0000_0000_0000
}

/// Whether a word comes again after a cycle.
pub open spec fn repeats_at(words: Map<nat, u32>, i: nat) -> bool {
    words[i + cycle()] == words[i]
}

/// Whether every word comes again after a cycle.
pub open spec fn cycles(words: Map<nat, u32>) -> bool {
    forall|i: nat| #[trigger] repeats_at(words, i)
}

/// Whether there is a word at every place.
pub open spec fn is_endless(words: Map<nat, u32>) -> bool {
    forall|i: nat| #[trigger] words.dom().contains(i)
}

/// The number that is drawn from a half-open range with the given words to come, on a machine
/// whose `usize` has so many bits, and how many words that takes.
pub uninterp spec fn range_draw(words: Map<nat, u32>, low: nat, high: nat, width: nat) -> (nat, nat);

/// `rand::SeedableRng::seed_from_u64` for `StdRng`: a generator made from a seed, which alone
/// fixes the words to come.
#[verifier::external_body]
pub(crate) fn seeded(seed: u64) -> (rng: StdRng)
    ensures
        words_to_come(rng) == seeded_words(seed),
{
    StdRng::seed_from_u64(seed)
}

/// `rand::RngCore::next_u32` for `StdRng`: hands out the next word.
#[verifier::external_body]
pub(crate) fn next_u32(rng: &mut StdRng) -> (word: u32)
    ensures
        word == words_to_come(*old(rng))[0],
        words_to_come(*final(rng)) == rest(words_to_come(*old(rng)), 1),
{
    rng.next_u32()
}

/// `rand::RngCore::fill_bytes` for `StdRng` on a buffer of 128 bytes: hands out the next 32 words,
/// the lowest byte of each first.
#[verifier::external_body]
pub(crate) fn fill_bytes(rng: &mut StdRng, buf: &mut [u8; 128])
    ensures
        forall|k: int|
            0 <= k < 128 ==> #[trigger] final(buf)@[k] == bits::be_byte(
                words_to_come(*old(rng))[(k / 4) as nat],
                3 - k % 4,
            ),
        words_to_come(*final(rng)) == rest(words_to_come(*old(rng)), 32),
{
    rng.fill_bytes(buf)
}

/// `rand::Rng::gen_range` for `StdRng` on a half-open range of `usize`: a number of the range. The
/// words to come, the range and the width of `usize` fix which one, and how many words are handed
/// out for it. The words that are left come again after a cycle, as those of the cipher do. It
/// panics on an empty range, which is left out.
#[verifier::external_body]
pub(crate) fn gen_range(rng: &mut StdRng, low: usize, high: usize) -> (n: usize)
    requires
        low < high,
    ensures
        low <= n < high,
        n == range_draw(words_to_come(*old(rng)), low as nat, high as nat, usize::BITS as nat).0,
        words_to_come(*final(rng)) == rest(
            words_to_come(*old(rng)),
            range_draw(words_to_come(*old(rng)), low as nat, high as nat, usize::BITS as nat).1,
        ),
        cycles(words_to_come(*final(rng))),
{
    rng.gen_range(low..high)
}

} // verus!
