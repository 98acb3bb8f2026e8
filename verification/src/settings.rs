//! Settings from the environment and counters from files.

use vstd::prelude::*;

use crate::args_laws;
use crate::spill;
use crate::spill::parse_spill_seq;
use crate::text;

verus! {

broadcast use vstd::string::group_string_axioms;

/// How many samples the model learns from.
pub const DEFAULT_MODEL_BUFFER: usize = 256;

/// After how many new samples the model is trained anew.
pub const DEFAULT_RETRAIN_EVERY: usize = 32;

/// How many seconds lie between two sweeps.
pub const DEFAULT_AUTOGC_SECS: u64 = 120;

/// The number that an optional text holds between white space, up to a largest one.
pub open spec fn number_in(value: Option<&str>, max: nat) -> Option<nat> {
    match value {
        Some(s) => text::unsigned_value(text::trimmed(s@), 10, max),
        None => None,
    }
}

fn read_number(value: Option<&str>, max: u64) -> (r: Option<u64>)
    ensures
        match r {
            Some(n) => number_in(value, max as nat) == Some(n as nat),
            None => number_in(value, max as nat) is None,
        },
{
    match value {
        None => None,
        Some(s) => {
            let v = text::chars_of(s);
            let t = text::trim(&v);
            text::parse_unsigned(&t, 10, max)
        },
    }
}

/// The positive number of a setting, else its default.
pub open spec fn positive_or(value: Option<&str>, default: usize) -> nat {
    match number_in(value, usize::MAX as nat) {
        Some(n) => if n > 0 {
            n
        } else {
            default as nat
        },
        None => default as nat,
    }
}

fn read_positive(value: Option<&str>, default: usize) -> (n: usize)
    ensures
        n == positive_or(value, default),
{
    match read_number(value, usize::MAX as u64) {
        Some(n) => {
            if n > 0 {
                n as usize
            } else {
                default
            }
        },
        None => default,
    }
}

/// How many samples the model keeps.
pub fn model_buffer_capacity(value: Option<&str>) -> (n: usize)
    ensures
        n == positive_or(value, DEFAULT_MODEL_BUFFER),
        n > 0,
{
    read_positive(value, DEFAULT_MODEL_BUFFER)
}

/// After how many new samples the model is trained anew.
pub fn model_retrain_every(value: Option<&str>) -> (n: usize)
    ensures
        n == positive_or(value, DEFAULT_RETRAIN_EVERY),
        n > 0,
{
    read_positive(value, DEFAULT_RETRAIN_EVERY)
}

/// A capital ASCII letter as a small one.
pub open spec fn lower(c: char) -> char {
    if 'A' <= c <= 'Z' {
        ((c as u8) + 32) as u8 as char
    } else {
        c
    }
}

/// Whether two texts are equal but for capital ASCII letters in the first.
pub open spec fn reads_as(s: Seq<char>, word: Seq<char>) -> bool {
    s.len() == word.len() && forall|i: int| 0 <= i < s.len() ==> lower(#[trigger] s[i]) == word[i]
}

fn to_lower(c: char) -> (r: char)
    ensures
        r == lower(c),
{
    if 'A' <= c && c <= 'Z' {
        ((c as u8) + 32) as char
    } else {
        c
    }
}

fn matches_word(v: &Vec<char>, word: &str) -> (r: bool)
    ensures
        r == reads_as(v@, word@),
{
    let w = text::chars_of(word);
    if v.len() != w.len() {
        return false;
    }
    let mut i: usize = 0;
    while i < v.len()
        invariant
            i <= v@.len(),
            v@.len() == w@.len(),
            w@ == word@,
            forall|k: int| 0 <= k < i ==> lower(#[trigger] v@[k]) == w@[k],
        decreases v@.len() - i,
    {
        if to_lower(v[i]) != w[i] {
            assert(lower(v@[i as int]) != word@[i as int]);
            return false;
        }
        i += 1;
    }
    true
}

/// Whether a setting says no: `0`, `off`, `false` or `no` between white space, in capital or
/// small letters.
pub open spec fn says_no(s: Seq<char>) -> bool {
    let t = text::trimmed(s);
    reads_as(t, "0"@) || reads_as(t, "off"@) || reads_as(t, "false"@) || reads_as(t, "no"@)
}

/// Whether stale siblings are swept: unless the setting says no.
pub fn autogc_enabled(value: Option<&str>) -> (r: bool)
    ensures
        r == (match value {
            Some(s) => !says_no(s@),
            None => true,
        }),
{
    match value {
        None => true,
        Some(s) => {
            let v = text::chars_of(s);
            let t = text::trim(&v);
            !(matches_word(&t, "0") || matches_word(&t, "off") || matches_word(&t, "false") || matches_word(
                &t,
                "no",
            ))
        },
    }
}

/// The seconds between two sweeps, at least one.
pub fn autogc_interval(value: Option<&str>) -> (secs: u64)
    ensures
        secs == (match number_in(value, u64::MAX as nat) {
            Some(n) => if n == 0 {
                1
            } else {
                n
            },
            None => DEFAULT_AUTOGC_SECS as nat,
        }),
{
    match read_number(value, u64::MAX) {
        Some(n) => if n < 1 {
            1
        } else {
            n
        },
        None => DEFAULT_AUTOGC_SECS,
    }
}

/// The number in a counter file; zero if there is none.
pub open spec fn count_in(contents: Option<&str>) -> nat {
    match number_in(contents, u64::MAX as nat) {
        Some(n) => n,
        None => 0,
    }
}

/// The next number of a counter.
pub fn next_seq(contents: Option<&str>) -> (next: u64)
    requires
        count_in(contents) < u64::MAX,
    ensures
        next == count_in(contents) + 1,
{
    match read_number(contents, u64::MAX) {
        Some(n) => n + 1,
        None => 1,
    }
}

/// The largest spill number among directory names, if any has one.
pub open spec fn largest_seq(names: Seq<String>) -> Option<nat>
    decreases names.len(),
{
    if names.len() == 0 {
        None
    } else {
        match (largest_seq(names.drop_last()), spill::spill_seq_of(names.last()@)) {
            (Some(m), Some(n)) => Some(
                if n > m {
                    n
                } else {
                    m
                },
            ),
            (Some(m), None) => Some(m),
            (None, r) => r,
        }
    }
}

/// The number of a spill: that of the setting, else one more than the largest among the names of
/// the directory, else zero.
pub open spec fn spill_seq(setting: Option<&str>, names: Seq<String>) -> nat {
    match number_in(setting, u64::MAX as nat) {
        Some(n) => n,
        None => match largest_seq(names) {
            Some(m) => m + 1,
            None => 0,
        },
    }
}

/// Finds the number for a new spill.
pub fn determine_spill_seq(setting: Option<&str>, names: &Vec<String>) -> (seq: u64)
    requires
        spill_seq(setting, names@) <= u64::MAX,
    ensures
        seq == spill_seq(setting, names@),
{
    if let Some(n) = read_number(setting, u64::MAX) {
        return n;
    }
    let mut largest: Option<u64> = None;
    let mut i: usize = 0;
    assert(names@.take(0) =~= Seq::<String>::empty());
    while i < names.len()
        invariant
            i <= names@.len(),
            largest_seq(names@.take(i as int)) == (match largest {
                Some(m) => Some(m as nat),
                None => None,
            }),
        decreases names@.len() - i,
    {
        assert(names@.take(i + 1).drop_last() =~= names@.take(i as int));
        if let Some(n) = parse_spill_seq(names[i].as_str()) {
            largest = match largest {
                Some(m) => Some(
                    if n > m {
                        n
                    } else {
                        m
                    },
                ),
                None => Some(n),
            };
        }
        i += 1;
    }
    assert(names@.take(i as int) =~= names@);
    match largest {
        Some(m) => m + 1,
        None => 0,
    }
}

/// How many bytes of a command are looked at.
pub const FIRST_BYTES: usize = 64;

/// Whether a byte is ASCII white space.
pub open spec fn blank(b: u8) -> bool {
    b == 0x20 || b == 0x09 || b == 0x0A || b == 0x0C || b == 0x0D
}

/// The first byte of a command that is not white space, within its first bytes.
pub fn first_nonws_byte(bytes: &[u8]) -> (r: Option<u8>)
    ensures
        match r {
            Some(b) => exists|i: int|
                0 <= i < bytes@.len() && i < FIRST_BYTES && #[trigger] bytes@[i] == b && !blank(b) && (
                forall|k: int| 0 <= k < i ==> blank(#[trigger] bytes@[k])),
            None => forall|k: int| 0 <= k < bytes@.len() && k < FIRST_BYTES ==> blank(#[trigger] bytes@[k]),
        },
{
    let mut i: usize = 0;
    while i < bytes.len() && i < FIRST_BYTES
        invariant
            i <= bytes@.len(),
            forall|k: int| 0 <= k < i ==> blank(#[trigger] bytes@[k]),
        decreases bytes@.len() - i,
    {
        let b: u8 = bytes[i];
        if !(b == 0x20 || b == 0x09 || b == 0x0A || b == 0x0C || b == 0x0D) {
            return Some(b);
        }
        i += 1;
    }
    None
}

// ---------------------------------------------------------------------------------------------
// Laws
// ---------------------------------------------------------------------------------------------

/// A number that was written down is read, whatever white space stands around it: as a setting
/// unless it is zero, as a count, and as the number of a spill whatever else there is. A number
/// that is too large is none.
pub proof fn law_written_number_is_read(
    s: &str,
    before: Seq<char>,
    n: nat,
    after: Seq<char>,
    max: nat,
    default: usize,
    names: Seq<String>,
)
    requires
        args_laws::white(before),
        args_laws::white(after),
        s@ == before + text::digits(n, 10) + after,
    ensures
        number_in(Some(s), max) == (if n <= max {
            Some(n)
        } else {
            None
        }),
        0 < n <= usize::MAX ==> positive_or(Some(s), default) == n,
        n == 0 ==> positive_or(Some(s), default) == default,
        n > usize::MAX ==> positive_or(Some(s), default) == default,
        n <= u64::MAX ==> count_in(Some(s)) == n,
        n <= u64::MAX ==> spill_seq(Some(s), names) == n,
{
    let d = text::digits(n, 10);
    text::law_digits_read_back(n, 10);
    assert(text::is_digit(d[0], 10));
    assert(text::is_digit(d[d.len() - 1], 10));
    args_laws::law_trimming_cuts_white_space_only(before, d, after);
}

/// Without a setting, or with one that is no number, the default counts; a counter begins at zero.
pub proof fn law_no_number_is_the_default(s: &str, default: usize)
    requires
        s@.len() == 0 || forall|i: int| 0 <= i < s@.len() ==> !text::is_digit(#[trigger] s@[i], 10),
    ensures
        positive_or(None, default) == default,
        positive_or(Some(s), default) == default,
        count_in(None) == 0,
        count_in(Some(s)) == 0,
        DEFAULT_MODEL_BUFFER == 256,
        DEFAULT_RETRAIN_EVERY == 32,
        DEFAULT_AUTOGC_SECS == 120,
        FIRST_BYTES == 64,
{
    let t = text::trimmed(s@);
    trimmed_is_part(s@);
    let (a, b) = choose|a: int, b: int| 0 <= a <= b <= s@.len() && t == #[trigger] s@.subrange(a, b);
    let u = text::without_plus(t);
    if u.len() > 0 && text::all_digits(u, 10) {
        assert(text::is_digit(u[u.len() - 1], 10));
        assert(u[u.len() - 1] == t[t.len() - 1]);
        assert(t[t.len() - 1] == s@[b - 1]);
    }
}

proof fn trimmed_is_part(s: Seq<char>)
    ensures
        exists|a: int, b: int| 0 <= a <= b <= s.len() && text::trimmed(s) == #[trigger] s.subrange(a, b),
{
    let a = front_part(s);
    let t = s.skip(a);
    let b = end_part(t);
    assert(s.subrange(a, a + b) =~= t.take(b));
}

proof fn front_part(s: Seq<char>) -> (a: int)
    ensures
        0 <= a <= s.len(),
        text::trim_start(s) == s.skip(a),
    decreases s.len(),
{
    if s.len() > 0 && text::white_space(s[0]) {
        let a = front_part(s.skip(1));
        assert(s.skip(1).skip(a) =~= s.skip(a + 1));
        a + 1
    } else {
        assert(s.skip(0) =~= s);
        0
    }
}

proof fn end_part(s: Seq<char>) -> (b: int)
    ensures
        0 <= b <= s.len(),
        text::trim_end(s) == s.take(b),
    decreases s.len(),
{
    if s.len() > 0 && text::white_space(s.last()) {
        let b = end_part(s.drop_last());
        assert(s.drop_last().take(b) =~= s.take(b));
        b
    } else {
        assert(s.take(s.len() as int) =~= s);
        s.len() as int
    }
}

/// The largest spill number is one of those in the names, and none is larger; there is none only
/// if no name has one.
pub proof fn law_largest_spill_number(names: Seq<String>)
    ensures
        match largest_seq(names) {
            Some(m) => {
                &&& exists|i: int| 0 <= i < names.len() && spill::spill_seq_of(#[trigger] names[i]@) == Some(m)
                &&& forall|i: int|
                    0 <= i < names.len() ==> (spill::spill_seq_of(#[trigger] names[i]@) matches Some(n) ==> n <= m)
            },
            None => forall|i: int| 0 <= i < names.len() ==> spill::spill_seq_of(#[trigger] names[i]@) is None,
        },
    decreases names.len(),
{
    if names.len() > 0 {
        let rest = names.drop_last();
        let last = names.len() - 1;
        law_largest_spill_number(rest);
        assert forall|i: int| 0 <= i < rest.len() implies #[trigger] rest[i] == names[i] by {}
        match largest_seq(rest) {
            Some(m) => {
                let i = choose|i: int| 0 <= i < rest.len() && spill::spill_seq_of(#[trigger] rest[i]@) == Some(m);
                assert(spill::spill_seq_of(names[i]@) == Some(m));
                let largest = largest_seq(names).unwrap();
                assert forall|i: int| 0 <= i < names.len() implies (spill::spill_seq_of(
                    #[trigger] names[i]@,
                ) matches Some(n) ==> n <= largest) by {
                    if i < last {
                        assert(rest[i] == names[i]);
                    }
                }
            },
            None => {
                assert forall|i: int| 0 <= i < last implies spill::spill_seq_of(#[trigger] names[i]@) is None by {
                    assert(spill::spill_seq_of(rest[i]@) is None);
                }
                assert(names.last() == names[last]);
            },
        }
    }
}

/// A new spill gets a number that no directory there has, larger than all of them and by no more
/// than it must be; the first spill gets zero.
pub proof fn law_new_spill_number_is_free(names: Seq<String>, i: int)
    ensures
        0 <= i < names.len() ==> (spill::spill_seq_of(names[i]@) matches Some(n) ==> spill_seq(None, names) > n),
        spill_seq(None, names) > 0 ==> exists|j: int|
            0 <= j < names.len() && spill::spill_seq_of(#[trigger] names[j]@) == Some(
                (spill_seq(None, names) - 1) as nat,
            ),
        names.len() == 0 ==> spill_seq(None, names) == 0,
{
    law_largest_spill_number(names);
    if 0 <= i < names.len() {
        if let Some(n) = spill::spill_seq_of(names[i]@) {
            assert(spill::spill_seq_of(names[i]@) == Some(n));
        }
    }
}

/// Whether a character is a given small letter or the same letter capital.
pub open spec fn is_letter(c: char, small: char) -> bool {
    c == small || (c as u32 + 32 == small as u32 && 0x41 <= c as u32 <= 0x5A)
}

proof fn letter_is_small_or_capital(c: char, small: char)
    requires
        'a' <= small <= 'z',
    ensures
        (lower(c) == small) == is_letter(c, small),
{
    if 'A' <= c <= 'Z' {
        let x = (c as u8) + 32;
        assert(c as u8 as int == c as u32 as int);
        assert(x == c as u32 + 32);
        assert(lower(c) as u32 == c as u32 + 32);
        assert((lower(c) == small) == (lower(c) as u32 == small as u32));
    }
}

/// Sweeping is switched off by the words `0`, `off`, `false` and `no`, in whatever letters and
/// between whatever white space, and by nothing else.
pub proof fn law_words_that_say_no(before: Seq<char>, t: Seq<char>, after: Seq<char>)
    requires
        args_laws::white(before),
        args_laws::white(after),
        args_laws::tight(t),
    ensures
        says_no(before + t + after) == {
            ||| t.len() == 1 && t[0] == '0'
            ||| t.len() == 3 && is_letter(t[0], 'o') && is_letter(t[1], 'f') && is_letter(t[2], 'f')
            ||| t.len() == 5 && is_letter(t[0], 'f') && is_letter(t[1], 'a') && is_letter(t[2], 'l') && is_letter(
                t[3],
                's',
            ) && is_letter(t[4], 'e')
            ||| t.len() == 2 && is_letter(t[0], 'n') && is_letter(t[1], 'o')
        },
{
    args_laws::law_trimming_cuts_white_space_only(before, t, after);
    reveal_strlit("0");
    reveal_strlit("off");
    reveal_strlit("false");
    reveal_strlit("no");
    assert forall|c: char, small: char| 'a' <= small <= 'z' implies (lower(c) == small) == #[trigger] is_letter(
        c,
        small,
    ) by {
        letter_is_small_or_capital(c, small);
    }
    if t.len() == 1 {
        assert(reads_as(t, "0"@) == (lower(t[0]) == '0'));
    } else if t.len() == 2 {
        assert(reads_as(t, "no"@) == (is_letter(t[0], 'n') && is_letter(t[1], 'o')));
    } else if t.len() == 3 {
        assert(reads_as(t, "off"@) == (is_letter(t[0], 'o') && is_letter(t[1], 'f') && is_letter(t[2], 'f')));
    } else if t.len() == 5 {
        assert(reads_as(t, "false"@) == (is_letter(t[0], 'f') && is_letter(t[1], 'a') && is_letter(t[2], 'l')
            && is_letter(t[3], 's') && is_letter(t[4], 'e')));
    }
}

/// The bytes that are passed over before a command are blank, tab, line feed, form feed and
/// carriage return.
pub proof fn law_blank_bytes(b: u8)
    ensures
        blank(b) <==> b == 32 || b == 9 || b == 10 || b == 12 || b == 13,
{
}

} // verus!
