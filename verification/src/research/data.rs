//! Random frames for experiments.

use rand::rngs::StdRng;
use vstd::prelude::*;

use crate::bits;
use crate::frame;
use crate::frame::Frame32;
use crate::research::rng;

verus! {

/// The signed frame whose data is taken from 32 words; their diagonal bits do not matter.
pub fn frame_from_words(words: &[u32; 32]) -> (f: Frame32)
    ensures
        f@ == frame::signed(words@),
        frame::crc_ok(f@),
{
    let mut f = Frame32(*words);
    f.update_crc();
    f
}

/// Thirty-two words of a stream, from a place on.
pub open spec fn words_from(stream: Map<nat, u32>, start: nat) -> Seq<u32> {
    Seq::new(32, |k: int| stream[start + k as nat])
}

/// Whether these words are, place by place, what is left of others after so many.
pub open spec fn is_left(left: Map<nat, u32>, stream: Map<nat, u32>, count: nat) -> bool {
    forall|i: nat| #[trigger] left[i] == stream[i + count]
}

proof fn left_by_place(left: Map<nat, u32>, stream: Map<nat, u32>, count: nat)
    requires
        is_left(left, stream, count),
        forall|i: nat| #[trigger] left.dom().contains(i),
    ensures
        left == rng::rest(stream, count),
{
    assert(left =~= rng::rest(stream, count));
}

/// Thirty-two random words: the next ones of the generator.
pub(crate) fn random_words(rng: &mut StdRng) -> (words: [u32; 32])
    ensures
        words@ == words_from(rng::words_to_come(*old(rng)), 0),
        rng::words_to_come(*final(rng)) == rng::rest(rng::words_to_come(*old(rng)), 32),
{
    let ghost stream = rng::words_to_come(*rng);
    let mut words: [u32; 32] = [0u32; 32];
    let mut slot: usize = 0;
    while slot < 32
        invariant
            slot <= 32,
            is_left(rng::words_to_come(*rng), stream, slot as nat),
            slot > 0 ==> rng::words_to_come(*rng) == rng::rest(stream, slot as nat),
            forall|k: int| 0 <= k < slot ==> #[trigger] words@[k] == stream[k as nat],
        decreases 32 - slot,
    {
        let ghost left = rng::words_to_come(*rng);
        words[slot] = rng::next_u32(rng);
        proof {
            left_of_left(rng::words_to_come(*rng), left, stream, slot as nat, 1);
            left_by_place(rng::words_to_come(*rng), stream, slot as nat + 1);
        }
        slot += 1;
    }
    assert(words@ =~= words_from(stream, 0));
    words
}

/// A frame with random data, the next 32 words of the generator, signed.
pub fn random_frame(rng: &mut StdRng) -> (f: Frame32)
    ensures
        f@ == frame::signed(words_from(rng::words_to_come(*old(rng)), 0)),
        frame::crc_ok(f@),
        rng::words_to_come(*final(rng)) == rng::rest(rng::words_to_come(*old(rng)), 32),
{
    let words = random_words(rng);
    frame_from_words(&words)
}

/// Body `i` of those that a seed leads to.
pub open spec fn seeded_body(seed: u64, i: int) -> Seq<u32> {
    words_from(rng::seeded_words(seed), (32 * i) as nat)
}

/// The next words, counted from a place in the whole stream.
pub proof fn next_words(left: Map<nat, u32>, stream: Map<nat, u32>, start: nat)
    requires
        is_left(left, stream, start),
    ensures
        words_from(left, 0) == words_from(stream, start),
{
    assert forall|k: int| 0 <= k < 32 implies words_from(left, 0)[k] == words_from(stream, start)[k] by {
        assert(left[k as nat] == stream[k as nat + start]);
    }
    assert(words_from(left, 0) =~= words_from(stream, start));
}

/// What is left of what was left.
pub proof fn left_of_left(later: Map<nat, u32>, left: Map<nat, u32>, stream: Map<nat, u32>, n: nat, m: nat)
    requires
        is_left(left, stream, n),
        later == rng::rest(left, m),
    ensures
        is_left(later, stream, n + m),
        forall|i: nat| #[trigger] later.dom().contains(i),
{
    assert forall|i: nat| #[trigger] later[i] == stream[i + (n + m)] by {
        assert(later[i] == left[i + m]);
        assert(left[i + m] == stream[(i + m) + n]);
        assert((i + m) + n == i + (n + m));
    }
}

/// Whether frames are the signed bodies that a seed leads to.
pub open spec fn are_seeded(frames: Seq<Frame32>, seed: u64) -> bool {
    forall|i: int|
        0 <= i < frames.len() ==> (#[trigger] frames[i])@ == frame::signed(seeded_body(seed, i))
}

/// `n` frames with random data from one seed, all signed.
pub fn random_frames(n: usize, seed: u64) -> (frames: Vec<Frame32>)
    requires
        128 * n <= isize::MAX,
    ensures
        frames@.len() == n,
        are_seeded(frames@, seed),
        forall|i: int| 0 <= i < n ==> frame::crc_ok((#[trigger] frames@[i])@),
{
    let mut rng = rng::seeded(seed);
    let ghost stream = rng::seeded_words(seed);
    let mut frames: Vec<Frame32> = Vec::new();
    let mut i: usize = 0;
    while i < n
        invariant
            i <= n,
            stream == rng::seeded_words(seed),
            is_left(rng::words_to_come(rng), stream, 32 * i as nat),
            frames@.len() == i,
            forall|j: int|
                0 <= j < i ==> (#[trigger] frames@[j])@ == frame::signed(seeded_body(seed, j))
                    && frame::crc_ok(frames@[j]@),
        decreases n - i,
    {
        let ghost left = rng::words_to_come(rng);
        let f = random_frame(&mut rng);
        proof {
            next_words(left, stream, 32 * i as nat);
            left_of_left(rng::words_to_come(rng), left, stream, 32 * i as nat, 32);
        }
        frames.push(f);
        i += 1;
    }
    frames
}

/// One frame with random data from a seed, signed.
pub fn random_frame_seeded(seed: u64) -> (f: Frame32)
    ensures
        f@ == frame::signed(seeded_body(seed, 0)),
        frame::crc_ok(f@),
{
    let mut rng = rng::seeded(seed);
    random_frame(&mut rng)
}

/// Two series of equally many frames from one seed are the same.
pub proof fn law_seeded_frames_repeat(a: Seq<Frame32>, b: Seq<Frame32>, seed: u64, i: int)
    requires
        are_seeded(a, seed),
        are_seeded(b, seed),
        a.len() == b.len(),
        0 <= i < a.len(),
    ensures
        a[i]@ == b[i]@,
{
}

/// A buffer of 128 random bytes: the next 32 words of the generator, the lowest byte of each
/// first.
pub fn random_body(rng: &mut StdRng) -> (buf: [u8; 128])
    ensures
        forall|k: int|
            0 <= k < 128 ==> #[trigger] buf@[k] == bits::be_byte(
                rng::words_to_come(*old(rng))[(k / 4) as nat],
                3 - k % 4,
            ),
        rng::words_to_come(*final(rng)) == rng::rest(rng::words_to_come(*old(rng)), 32),
{
    let mut buf: [u8; 128] = [0u8; 128];
    rng::fill_bytes(rng, &mut buf);
    buf
}

} // verus!
