//! Different numbers drawn from a generator, one after the other.
//!
//! A number that was drawn before is drawn anew. Nothing bounds how often that happens, so what
//! unlimited draws lead to is stated first. What is computed gives up on a number after more
//! misses in a row than the generator has states: from then on it would never come up with a new
//! one.

use vstd::prelude::*;

use crate::research::rng;

verus! {

/// The number below `bound` that comes next.
pub open spec fn next_number(words: Map<nat, u32>, bound: nat) -> usize {
    rng::range_draw(words, 0, bound, usize::BITS as nat).0 as usize
}

/// The words that are left after it.
pub open spec fn next_left(words: Map<nat, u32>, bound: nat) -> Map<nat, u32> {
    rng::rest(words, rng::range_draw(words, 0, bound, usize::BITS as nat).1)
}

/// Numbers with one more, unless it is among them.
pub open spec fn with_new(chosen: Seq<usize>, number: usize) -> Seq<usize> {
    if chosen.contains(number) {
        chosen
    } else {
        chosen.push(number)
    }
}

/// The numbers chosen after `k` draws, and the words that are left. Nothing is drawn any more once
/// there are `n` numbers.
pub open spec fn after_draws(words: Map<nat, u32>, n: nat, bound: nat, k: nat) -> (Seq<usize>, Map<nat, u32>)
    decreases k,
{
    if k == 0 {
        (Seq::empty(), words)
    } else {
        let (chosen, left) = after_draws(words, n, bound, (k - 1) as nat);
        if chosen.len() >= n {
            (chosen, left)
        } else {
            (with_new(chosen, next_number(left, bound)), next_left(left, bound))
        }
    }
}

/// Whether `k` draws are enough for `n` different numbers.
pub open spec fn enough(words: Map<nat, u32>, n: nat, bound: nat, k: nat) -> bool {
    after_draws(words, n, bound, k).0.len() >= n
}

/// Whether some number of draws is enough.
pub open spec fn comes_to_an_end(words: Map<nat, u32>, n: nat, bound: nat) -> bool {
    exists|k: nat| enough(words, n, bound, k)
}

/// What unlimited draws lead to, where they come to an end.
pub open spec fn in_the_end(words: Map<nat, u32>, n: nat, bound: nat) -> (Seq<usize>, Map<nat, u32>) {
    after_draws(words, n, bound, choose|k: nat| enough(words, n, bound, k))
}

/// Whether a number is the lowest that was not chosen.
pub open spec fn is_first_free(chosen: Seq<usize>, k: usize) -> bool {
    !chosen.contains(k) && forall|j: usize| j < k ==> #[trigger] chosen.contains(j)
}

/// The lowest number that was not chosen.
pub open spec fn first_free(chosen: Seq<usize>) -> usize {
    choose|k: usize| is_first_free(chosen, k)
}

/// The numbers that are chosen in the end, and the words that are left, if these were chosen so
/// far and so many more misses are allowed until the next one. When none is allowed any more, the
/// lowest free numbers are taken.
pub open spec fn drawn_on(
    words: Map<nat, u32>,
    n: nat,
    bound: nat,
    chosen: Seq<usize>,
    patience: nat,
) -> (Seq<usize>, Map<nat, u32>)
    decreases n - chosen.len(), patience,
{
    if chosen.len() >= n {
        (chosen, words)
    } else if patience == 0 {
        drawn_on(words, n, bound, chosen.push(first_free(chosen)), 0)
    } else {
        let number = next_number(words, bound);
        let left = next_left(words, bound);
        if chosen.contains(number) {
            drawn_on(left, n, bound, chosen, (patience - 1) as nat)
        } else {
            drawn_on(left, n, bound, chosen.push(number), u128::MAX as nat)
        }
    }
}

/// The `n` different numbers below `bound` that words lead to, and the words that are left. Where
/// unlimited draws come to an end, that is where they lead.
pub open spec fn drawn(words: Map<nat, u32>, n: nat, bound: nat) -> (Seq<usize>, Map<nat, u32>) {
    drawn_on(words, n, bound, Seq::empty(), u128::MAX as nat)
}

// ---------------------------------------------------------------------------------------------
// The end of the draws
// ---------------------------------------------------------------------------------------------

proof fn nothing_more(words: Map<nat, u32>, n: nat, bound: nat, k: nat, j: nat)
    requires
        enough(words, n, bound, k),
    ensures
        after_draws(words, n, bound, k + j) == after_draws(words, n, bound, k),
    decreases j,
{
    if j > 0 {
        nothing_more(words, n, bound, k, (j - 1) as nat);
        assert((k + j - 1) as nat == k + (j - 1) as nat);
    }
}

/// Draws that are enough lead to where unlimited draws lead.
pub proof fn enough_is_the_end(words: Map<nat, u32>, n: nat, bound: nat, k: nat)
    requires
        enough(words, n, bound, k),
    ensures
        comes_to_an_end(words, n, bound),
        in_the_end(words, n, bound) == after_draws(words, n, bound, k),
{
    let e = choose|e: nat| enough(words, n, bound, e);
    assert(enough(words, n, bound, e));
    if e <= k {
        nothing_more(words, n, bound, e, (k - e) as nat);
    } else {
        nothing_more(words, n, bound, k, (e - k) as nat);
    }
}

/// One draw more, as long as there are not enough.
pub proof fn one_more_draw(words: Map<nat, u32>, n: nat, bound: nat, k: nat)
    requires
        !enough(words, n, bound, k),
    ensures
        ({
            let (chosen, left) = after_draws(words, n, bound, k);
            after_draws(words, n, bound, k + 1) == (
                with_new(chosen, next_number(left, bound)),
                next_left(left, bound),
            )
        }),
{
    assert((k + 1 - 1) as nat == k);
}

// ---------------------------------------------------------------------------------------------
// Misses
// ---------------------------------------------------------------------------------------------

/// The words that are left after `t` draws.
pub open spec fn words_later(words: Map<nat, u32>, bound: nat, t: nat) -> Map<nat, u32>
    decreases t,
{
    if t == 0 {
        words
    } else {
        next_left(words_later(words, bound, (t - 1) as nat), bound)
    }
}

/// Whether draw `t` gives a number that was chosen before.
pub open spec fn misses(words: Map<nat, u32>, bound: nat, chosen: Seq<usize>, t: nat) -> bool {
    chosen.contains(next_number(words_later(words, bound, t), bound))
}

/// How many words the first `t` draws take.
spec fn taken(words: Map<nat, u32>, bound: nat, t: nat) -> nat
    decreases t,
{
    if t == 0 {
        0
    } else {
        let m = (t - 1) as nat;
        taken(words, bound, m) + rng::range_draw(
            words_later(words, bound, m),
            0,
            bound,
            usize::BITS as nat,
        ).1
    }
}

proof fn rest_of_rest(words: Map<nat, u32>, a: nat, b: nat)
    ensures
        rng::rest(rng::rest(words, a), b) == rng::rest(words, a + b),
{
    let x = rng::rest(rng::rest(words, a), b);
    let y = rng::rest(words, a + b);
    assert forall|i: nat| #[trigger] x[i] == y[i] by {
        assert((i + b) + a == i + (a + b));
    }
    assert(x =~= y);
}

proof fn later_is_rest(words: Map<nat, u32>, bound: nat, t: nat)
    requires
        rng::is_endless(words),
    ensures
        words_later(words, bound, t) == rng::rest(words, taken(words, bound, t)),
    decreases t,
{
    if t == 0 {
        assert(words =~= rng::rest(words, 0));
    } else {
        let m = (t - 1) as nat;
        later_is_rest(words, bound, m);
        rest_of_rest(
            words,
            taken(words, bound, m),
            rng::range_draw(words_later(words, bound, m), 0, bound, usize::BITS as nat).1,
        );
    }
}

proof fn same_word(words: Map<nat, u32>, i: nat, turns: nat)
    requires
        rng::cycles(words),
    ensures
        words[i + turns * rng::cycle()] == words[i],
    decreases turns,
{
    if turns > 0 {
        let fewer = (turns - 1) as nat;
        same_word(words, i, fewer);
        let j = i + fewer * rng::cycle();
        assert(rng::repeats_at(words, j));
        assert(j + rng::cycle() == i + turns * rng::cycle()) by (nonlinear_arith)
            requires
                j == i + fewer * rng::cycle(),
                fewer + 1 == turns,
        ;
    } else {
        assert(0 * rng::cycle() == 0);
    }
}

proof fn rest_within_cycle(words: Map<nat, u32>, a: nat)
    requires
        rng::cycles(words),
    ensures
        rng::rest(words, a) == rng::rest(words, a % rng::cycle()),
{
    let c = rng::cycle();
    let x = rng::rest(words, a);
    let y = rng::rest(words, a % c);
    assert forall|i: nat| #[trigger] x[i] == y[i] by {
        same_word(words, i + a % c, a / c);
        assert(a == a % c + (a / c) * c) by (nonlinear_arith)
            requires
                c > 0,
        ;
    }
    assert(x =~= y);
}

/// Among more small numbers than there are, two are equal.
proof fn two_are_equal(s: Seq<int>, p: int) -> (r: (int, int))
    requires
        0 <= p < s.len(),
        forall|i: int| 0 <= i < s.len() ==> 0 <= #[trigger] s[i] < p,
    ensures
        0 <= r.0 < r.1 < s.len(),
        s[r.0] == s[r.1],
{
    if s.no_duplicates() {
        s.unique_seq_to_set();
        let all = vstd::set_lib::set_int_range(0, p);
        vstd::set_lib::lemma_int_range(0, p);
        assert(s.to_set().subset_of(all)) by {
            assert forall|v: int| s.to_set().contains(v) implies all.contains(v) by {
                let i = choose|i: int| 0 <= i < s.len() && s[i] == v;
                assert(0 <= s[i] < p);
            }
        }
        vstd::set_lib::lemma_len_subset(s.to_set(), all);
        assert(false);
    }
    let (i, j) = choose|i: int, j: int|
        0 <= i < s.len() && 0 <= j < s.len() && i != j && #[trigger] s[i] == #[trigger] s[j];
    if i < j {
        (i, j)
    } else {
        (j, i)
    }
}

proof fn later_repeats(words: Map<nat, u32>, bound: nat, s: nat, t: nat, u: nat)
    requires
        s < t,
        words_later(words, bound, s) == words_later(words, bound, t),
        s <= u,
    ensures
        words_later(words, bound, (u + (t - s)) as nat) == words_later(words, bound, u),
    decreases u,
{
    if u > s {
        later_repeats(words, bound, s, t, (u - 1) as nat);
        assert((u + (t - s) - 1) as nat == ((u - 1) + (t - s)) as nat);
    }
}

/// A generator that misses more often in a row than it has states misses for ever.
pub proof fn misses_for_ever(words: Map<nat, u32>, bound: nat, chosen: Seq<usize>, t: nat)
    requires
        rng::cycles(words),
        rng::is_endless(words),
        forall|u: nat| u <= rng::cycle() ==> #[trigger] misses(words, bound, chosen, u),
    ensures
        misses(words, bound, chosen, t),
    decreases t,
{
    let c = rng::cycle();
    if t > c {
        let places = Seq::new(c + 1, |i: int| (taken(words, bound, i as nat) % c) as int);
        let (i, j) = two_are_equal(places, c as int);
        let s = i as nat;
        let e = j as nat;
        later_is_rest(words, bound, s);
        later_is_rest(words, bound, e);
        rest_within_cycle(words, taken(words, bound, s));
        rest_within_cycle(words, taken(words, bound, e));
        assert(places[i] == places[j]);
        let u = (t - (e - s)) as nat;
        later_repeats(words, bound, s, e, u);
        assert((u + (e - s)) as nat == t);
        misses_for_ever(words, bound, chosen, u);
    }
}

/// From a state in which every draw misses, nothing changes but the words.
proof fn stuck(words: Map<nat, u32>, n: nat, bound: nat, k: nat, j: nat)
    requires
        ({
            let (chosen, left) = after_draws(words, n, bound, k);
            &&& chosen.len() < n
            &&& forall|u: nat| #[trigger] misses(left, bound, chosen, u)
        }),
    ensures
        ({
            let (chosen, left) = after_draws(words, n, bound, k);
            after_draws(words, n, bound, k + j) == (chosen, words_later(left, bound, j))
        }),
    decreases j,
{
    let (chosen, left) = after_draws(words, n, bound, k);
    if j > 0 {
        let m = (j - 1) as nat;
        stuck(words, n, bound, k, m);
        assert((k + j - 1) as nat == k + m);
        assert(misses(left, bound, chosen, m));
    }
}

/// Draws that reach such a state never come to an end.
pub proof fn stuck_has_no_end(words: Map<nat, u32>, n: nat, bound: nat, k: nat)
    requires
        ({
            let (chosen, left) = after_draws(words, n, bound, k);
            &&& chosen.len() < n
            &&& forall|u: nat| #[trigger] misses(left, bound, chosen, u)
        }),
    ensures
        !comes_to_an_end(words, n, bound),
{
    assert forall|e: nat| !#[trigger] enough(words, n, bound, e) by {
        if e >= k {
            stuck(words, n, bound, k, (e - k) as nat);
        } else if enough(words, n, bound, e) {
            nothing_more(words, n, bound, e, (k - e) as nat);
        }
    }
}

proof fn rest_cycles(words: Map<nat, u32>, a: nat)
    requires
        rng::cycles(words),
    ensures
        rng::cycles(rng::rest(words, a)),
        rng::is_endless(rng::rest(words, a)),
{
    let r = rng::rest(words, a);
    assert forall|i: nat| #[trigger] rng::repeats_at(r, i) by {
        assert(rng::repeats_at(words, i + a));
        assert((i + rng::cycle()) + a == (i + a) + rng::cycle());
    }
}

proof fn draws_keep_cycling(words: Map<nat, u32>, n: nat, bound: nat, k: nat)
    requires
        rng::cycles(words),
        rng::is_endless(words),
    ensures
        rng::cycles(after_draws(words, n, bound, k).1),
        rng::is_endless(after_draws(words, n, bound, k).1),
    decreases k,
{
    if k > 0 {
        let m = (k - 1) as nat;
        draws_keep_cycling(words, n, bound, m);
        let left = after_draws(words, n, bound, m).1;
        rest_cycles(left, rng::range_draw(left, 0, bound, usize::BITS as nat).1);
    }
}

/// Draws with patience follow unlimited draws, seen after `k` of them, the last `since` of which
/// missed.
proof fn follows(words: Map<nat, u32>, n: nat, bound: nat, k: nat, since: nat, patience: nat)
    requires
        rng::cycles(words),
        rng::is_endless(words),
        comes_to_an_end(words, n, bound),
        since <= k,
        since + patience == u128::MAX,
        ({
            let (chosen, base) = after_draws(words, n, bound, (k - since) as nat);
            &&& after_draws(words, n, bound, k) == (chosen, words_later(base, bound, since))
            &&& forall|u: nat| u < since ==> #[trigger] misses(base, bound, chosen, u)
        }),
    ensures
        ({
            let (chosen, left) = after_draws(words, n, bound, k);
            drawn_on(left, n, bound, chosen, patience) == in_the_end(words, n, bound)
        }),
    decreases n - after_draws(words, n, bound, k).0.len(), patience,
{
    let (chosen, left) = after_draws(words, n, bound, k);
    let first = (k - since) as nat;
    let base = after_draws(words, n, bound, first).1;
    if chosen.len() >= n {
        enough_is_the_end(words, n, bound, k);
    } else if patience == 0 {
        draws_keep_cycling(words, n, bound, first);
        assert forall|u: nat| #[trigger] misses(base, bound, chosen, u) by {
            misses_for_ever(base, bound, chosen, u);
        }
        stuck_has_no_end(words, n, bound, first);
    } else {
        one_more_draw(words, n, bound, k);
        if chosen.contains(next_number(left, bound)) {
            assert(misses(base, bound, chosen, since));
            assert((k + 1 - (since + 1)) as nat == first);
            follows(words, n, bound, k + 1, since + 1, (patience - 1) as nat);
        } else {
            let next = after_draws(words, n, bound, k + 1);
            assert(words_later(next.1, bound, 0) == next.1);
            assert((k + 1 - 0) as nat == k + 1);
            follows(words, n, bound, k + 1, 0, u128::MAX as nat);
        }
    }
}

/// Where unlimited draws from a generator come to an end, the numbers that are drawn are those
/// that they lead to, and the same words are left.
pub proof fn law_draws_are_unlimited(words: Map<nat, u32>, n: nat, bound: nat)
    requires
        rng::cycles(words),
        rng::is_endless(words),
        comes_to_an_end(words, n, bound),
    ensures
        drawn(words, n, bound) == in_the_end(words, n, bound),
{
    assert(words_later(words, bound, 0) == words);
    follows(words, n, bound, 0, 0, u128::MAX as nat);
}

} // verus!
