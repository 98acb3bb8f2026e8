//! Text as sequences of characters: numbers, trimming, splitting, joining.

use vstd::prelude::*;

verus! {

broadcast use vstd::string::group_string_axioms;

/// `String::push` of the standard library: appends one character.
pub assume_specification[ std::string::String::push ](s: &mut std::string::String, c: char)
    ensures
        final(s)@ == old(s)@.push(c),
;

/// The characters of a string.
pub fn chars_of(s: &str) -> (v: Vec<char>)
    ensures
        v@ == s@,
{
    let mut v: Vec<char> = Vec::new();
    for c in it: s.chars()
        invariant
            v@ == s@.take(it.index() as int),
            it.seq() == s@,
    {
        assert(s@.take(it.index() + 1) =~= s@.take(it.index() as int).push(c));
        v.push(c);
    }
    assert(s@.take(s@.len() as int) =~= s@);
    v
}

/// The string of some characters.
pub fn string_of(v: &Vec<char>) -> (s: String)
    ensures
        s@ == v@,
{
    let mut s = String::new();
    let mut i: usize = 0;
    assert(v@.take(0) =~= s@);
    while i < v.len()
        invariant
            i <= v@.len(),
            s@ == v@.take(i as int),
        decreases v@.len() - i,
    {
        s.push(v[i]);
        assert(v@.take(i + 1) =~= v@.take(i as int).push(v@[i as int]));
        i += 1;
    }
    assert(v@.take(i as int) =~= v@);
    s
}

/// The part of some characters from `a` up to `b`.
pub fn cut(v: &Vec<char>, a: usize, b: usize) -> (r: Vec<char>)
    requires
        a <= b <= v@.len(),
    ensures
        r@ == v@.subrange(a as int, b as int),
{
    let mut r: Vec<char> = Vec::new();
    let mut i: usize = a;
    assert(r@ =~= v@.subrange(a as int, a as int));
    while i < b
        invariant
            a <= i <= b <= v@.len(),
            r@ == v@.subrange(a as int, i as int),
        decreases b - i,
    {
        r.push(v[i]);
        assert(v@.subrange(a as int, i + 1) =~= v@.subrange(a as int, i as int).push(v@[i as int]));
        i += 1;
    }
    r
}

/// Whether some characters spell the given text.
pub fn equals(v: &Vec<char>, s: &str) -> (r: bool)
    ensures
        r == (v@ == s@),
{
    let t = chars_of(s);
    if v.len() != t.len() {
        return false;
    }
    let mut i: usize = 0;
    while i < v.len()
        invariant
            i <= v@.len(),
            v@.len() == t@.len(),
            t@ == s@,
            v@.take(i as int) == t@.take(i as int),
        decreases v@.len() - i,
    {
        if v[i] != t[i] {
            assert(v@[i as int] != t@[i as int]);
            return false;
        }
        assert(v@.take(i + 1) =~= t@.take(i + 1)) by {
            assert forall|j: int| 0 <= j < i + 1 implies v@[j] == t@[j] by {
                if j < i {
                    assert(v@.take(i as int)[j] == t@.take(i as int)[j]);
                }
            }
        }
        i += 1;
    }
    assert(v@.take(i as int) =~= v@);
    assert(t@.take(i as int) =~= t@);
    true
}

// ---------------------------------------------------------------------------------------------
// Searching
// ---------------------------------------------------------------------------------------------

/// Whether `s` begins with `p`.
pub open spec fn begins_with(s: Seq<char>, p: Seq<char>) -> bool {
    p.len() <= s.len() && s.take(p.len() as int) == p
}

/// What follows the prefix `p`.
pub fn strip_prefix(v: &Vec<char>, p: &str) -> (r: Option<Vec<char>>)
    ensures
        match r {
            Some(rest) => begins_with(v@, p@) && rest@ == v@.skip(p@.len() as int),
            None => !begins_with(v@, p@),
        },
{
    let n: usize = p.unicode_len();
    if n > v.len() {
        return None;
    }
    let head = cut(v, 0, n);
    assert(head@ =~= v@.take(n as int));
    if equals(&head, p) {
        let rest = cut(v, n, v.len());
        assert(rest@ =~= v@.skip(n as int));
        Some(rest)
    } else {
        None
    }
}

/// The first place of a character.
pub open spec fn first_at(s: Seq<char>, c: char, i: int) -> bool {
    0 <= i < s.len() && s[i] == c && forall|j: int| 0 <= j < i ==> s[j] != c
}

/// The last place of a character.
pub open spec fn last_at(s: Seq<char>, c: char, i: int) -> bool {
    0 <= i < s.len() && s[i] == c && forall|j: int| i < j < s.len() ==> s[j] != c
}

/// There is one first place.
pub proof fn first_is_unique(s: Seq<char>, c: char, i: int)
    requires
        first_at(s, c, i),
    ensures
        s.contains(c),
        (choose|j: int| first_at(s, c, j)) == i,
{
    let j = choose|j: int| first_at(s, c, j);
    assert(first_at(s, c, j));
    assert(!(j < i) && !(i < j));
}

/// There is one last place.
pub proof fn last_is_unique(s: Seq<char>, c: char, i: int)
    requires
        last_at(s, c, i),
    ensures
        s.contains(c),
        (choose|j: int| last_at(s, c, j)) == i,
{
    let j = choose|j: int| last_at(s, c, j);
    assert(last_at(s, c, j));
    assert(!(j < i) && !(i < j));
}

/// Looks for a character from the front.
pub fn find(v: &Vec<char>, c: char) -> (r: Option<usize>)
    ensures
        match r {
            Some(i) => first_at(v@, c, i as int),
            None => !v@.contains(c),
        },
{
    let mut i: usize = 0;
    while i < v.len()
        invariant
            i <= v@.len(),
            forall|j: int| 0 <= j < i ==> v@[j] != c,
        decreases v@.len() - i,
    {
        if v[i] == c {
            return Some(i);
        }
        i += 1;
    }
    None
}

/// Looks for a character from the back.
pub fn rfind(v: &Vec<char>, c: char) -> (r: Option<usize>)
    ensures
        match r {
            Some(i) => last_at(v@, c, i as int),
            None => !v@.contains(c),
        },
{
    let mut i: usize = v.len();
    while i > 0
        invariant
            i <= v@.len(),
            forall|j: int| i <= j < v@.len() ==> v@[j] != c,
        decreases i,
    {
        i -= 1;
        if v[i] == c {
            return Some(i);
        }
    }
    None
}

// ---------------------------------------------------------------------------------------------
// White space
// ---------------------------------------------------------------------------------------------

/// The characters with the Unicode property White_Space.
pub open spec fn white_space(c: char) -> bool {
    let n = c as u32;
    ||| 0x9 <= n <= 0xD
    ||| n == 0x20
    ||| n == 0x85
    ||| n == 0xA0
    ||| n == 0x1680
    ||| 0x2000 <= n <= 0x200A
    ||| n == 0x2028
    ||| n == 0x2029
    ||| n == 0x202F
    ||| n == 0x205F
    ||| n == 0x3000
}

/// `char::is_whitespace` of the standard library: whether the character has the Unicode property
/// White_Space.
pub assume_specification[ char::is_whitespace ](c: char) -> (r: bool)
    ensures
        r == white_space(c),
;

/// The text without the white space at its front.
pub open spec fn trim_start(s: Seq<char>) -> Seq<char>
    decreases s.len(),
{
    if s.len() > 0 && white_space(s[0]) {
        trim_start(s.skip(1))
    } else {
        s
    }
}

/// The text without the white space at its end.
pub open spec fn trim_end(s: Seq<char>) -> Seq<char>
    decreases s.len(),
{
    if s.len() > 0 && white_space(s.last()) {
        trim_end(s.drop_last())
    } else {
        s
    }
}

/// The text without the white space around it.
pub open spec fn trimmed(s: Seq<char>) -> Seq<char> {
    trim_end(trim_start(s))
}

/// Cuts the white space off both ends.
pub fn trim(v: &Vec<char>) -> (r: Vec<char>)
    ensures
        r@ == trimmed(v@),
{
    let mut a: usize = 0;
    assert(v@.skip(0) =~= v@);
    while a < v.len() && v[a].is_whitespace()
        invariant
            a <= v@.len(),
            trim_start(v@) == trim_start(v@.skip(a as int)),
        decreases v@.len() - a,
    {
        assert(v@.skip(a as int).skip(1) =~= v@.skip(a + 1));
        a += 1;
    }
    let ghost front = v@.skip(a as int);
    assert(trim_start(v@) == front);
    let mut b: usize = v.len();
    assert(v@.subrange(a as int, b as int) =~= front);
    while b > a && v[b - 1].is_whitespace()
        invariant
            a <= b <= v@.len(),
            trim_end(front) == trim_end(v@.subrange(a as int, b as int)),
        decreases b,
    {
        assert(v@.subrange(a as int, b as int).drop_last() =~= v@.subrange(a as int, b - 1));
        assert(v@.subrange(a as int, b as int).last() == v@[b - 1]);
        b -= 1;
    }
    assert(b > a ==> v@.subrange(a as int, b as int).last() == v@[b - 1]);
    cut(v, a, b)
}

/// Text that neither begins nor ends with white space is its own trimming.
pub proof fn trimmed_is_identity(s: Seq<char>)
    requires
        s.len() > 0,
        !white_space(s[0]),
        !white_space(s.last()),
    ensures
        trimmed(s) == s,
{
}

// ---------------------------------------------------------------------------------------------
// Numbers
// ---------------------------------------------------------------------------------------------

/// The character for one digit, in lower case.
pub open spec fn digit(d: nat) -> char {
    if d < 10 {
        (48 + d) as char
    } else {
        (87 + d) as char
    }
}

/// A number in some base, without leading zeroes.
pub open spec fn digits(n: nat, base: nat) -> Seq<char>
    decreases n,
{
    if base < 2 || n < base {
        seq![digit(n)]
    } else {
        proof {
            assert(n / base < n) by (nonlinear_arith)
                requires
                    n >= base,
                    base >= 2,
            ;
        }
        digits(n / base, base).push(digit(n % base))
    }
}

/// A number in some base, filled up with zeroes to a width.
pub open spec fn padded(n: nat, base: nat, width: nat) -> Seq<char> {
    let d = digits(n, base);
    Seq::new(
        (if d.len() < width {
            width - d.len()
        } else {
            0
        }) as nat,
        |i: int| '0',
    ) + d
}

fn digit_char(d: u64) -> (c: char)
    requires
        d < 16,
    ensures
        c == digit(d as nat),
{
    if d < 10 {
        (48u8 + (d as u8)) as char
    } else {
        (87u8 + (d as u8)) as char
    }
}

/// Appends a number.
pub fn push_number(s: &mut String, n: u64, base: u64)
    requires
        2 <= base <= 16,
    ensures
        final(s)@ == old(s)@ + digits(n as nat, base as nat),
    decreases n,
{
    if n < base {
        s.push(digit_char(n));
        assert(s@ =~= old(s)@ + digits(n as nat, base as nat));
    } else {
        proof {
            assert(n / base < n) by (nonlinear_arith)
                requires
                    n >= base,
                    base >= 2,
            ;
        }
        push_number(s, n / base, base);
        s.push(digit_char(n % base));
        assert(s@ =~= old(s)@ + digits(n as nat, base as nat));
    }
}

/// A number as text.
pub fn number(n: u64, base: u64) -> (s: String)
    requires
        2 <= base <= 16,
    ensures
        s@ == digits(n as nat, base as nat),
{
    let mut s = String::new();
    push_number(&mut s, n, base);
    assert(s@ =~= digits(n as nat, base as nat));
    s
}

/// A number as text, filled up with zeroes.
pub fn padded_number(n: u64, base: u64, width: usize) -> (s: String)
    requires
        2 <= base <= 16,
    ensures
        s@ == padded(n as nat, base as nat, width as nat),
{
    let d = number(n, base);
    let len: usize = d.as_str().unicode_len();
    let mut s = String::new();
    let mut i: usize = len;
    while i < width
        invariant
            len == d@.len(),
            len <= i,
            i <= width || i == len,
            s@ == Seq::new((i - len) as nat, |j: int| '0'),
        decreases width - i,
    {
        s.push('0');
        i += 1;
        assert(s@ =~= Seq::new((i - len) as nat, |j: int| '0'));
    }
    s.append(d.as_str());
    assert(s@ =~= padded(n as nat, base as nat, width as nat));
    s
}

/// Appends a signed number in base ten.
pub fn push_signed(s: &mut String, n: i32)
    ensures
        final(s)@ == old(s)@ + signed_digits(n as int),
{
    if n < 0 {
        s.push('-');
        let m: u64 = (-(n as i64)) as u64;
        push_number(s, m, 10);
    } else {
        push_number(s, n as u64, 10);
    }
    assert(s@ =~= old(s)@ + signed_digits(n as int));
}

/// A signed number in base ten.
pub open spec fn signed_digits(n: int) -> Seq<char> {
    if n < 0 {
        seq!['-'] + digits((-n) as nat, 10)
    } else {
        digits(n as nat, 10)
    }
}

/// Whether a character is a digit of a base up to ten.
pub open spec fn is_digit(c: char, base: nat) -> bool {
    48 <= c as u32 && (c as u32) < 48 + base
}

/// Whether all characters are digits of a base up to ten.
pub open spec fn all_digits(s: Seq<char>, base: nat) -> bool {
    forall|i: int| 0 <= i < s.len() ==> is_digit(#[trigger] s[i], base)
}

/// The number that digits spell.
pub open spec fn digits_value(s: Seq<char>, base: nat) -> nat
    decreases s.len(),
{
    if s.len() == 0 {
        0
    } else {
        digits_value(s.drop_last(), base) * base + (s.last() as u32 - 48) as nat
    }
}

/// The digits of a number text: a plus sign in front is skipped.
pub open spec fn without_plus(s: Seq<char>) -> Seq<char> {
    if s.len() > 0 && s[0] == '+' {
        s.skip(1)
    } else {
        s
    }
}

/// The unsigned number that a text spells, if it spells one that is not above `max`: an optional
/// plus sign and at least one digit.
pub open spec fn unsigned_value(s: Seq<char>, base: nat, max: nat) -> Option<nat> {
    let t = without_plus(s);
    if t.len() == 0 || !all_digits(t, base) || digits_value(t, base) > max {
        None
    } else {
        Some(digits_value(t, base))
    }
}

/// The signed 32-bit number that a text spells, if it spells one.
pub open spec fn signed_value(s: Seq<char>) -> Option<int> {
    if s.len() > 0 && s[0] == '-' {
        let t = s.skip(1);
        if t.len() == 0 || !all_digits(t, 10) || digits_value(t, 10) > 0x8000_0000 {
            None
        } else {
            Some(-(digits_value(t, 10) as int))
        }
    } else {
        match unsigned_value(s, 10, 0x7FFF_FFFF) {
            Some(n) => Some(n as int),
            None => None,
        }
    }
}

/// Reads digits as a number, if they are digits and the number is not above `max`.
fn parse_digits(v: &Vec<char>, from: usize, base: u64, max: u64) -> (r: Option<u64>)
    requires
        2 <= base <= 10,
        from <= v@.len(),
    ensures
        match r {
            Some(n) => ({
                let t = v@.skip(from as int);
                t.len() > 0 && all_digits(t, base as nat) && digits_value(t, base as nat) == n && n
                    <= max
            }),
            None => ({
                let t = v@.skip(from as int);
                t.len() == 0 || !all_digits(t, base as nat) || digits_value(t, base as nat) > max
            }),
        },
{
    let ghost t = v@.skip(from as int);
    let len: usize = v.len();
    if from == len {
        return None;
    }
    let mut n: u64 = 0;
    let mut i: usize = from;
    let mut too_big: bool = false;
    assert(t.take(0) =~= Seq::<char>::empty());
    while i < len
        invariant
            from <= i <= len,
            len == v@.len(),
            2 <= base <= 10,
            t == v@.skip(from as int),
            forall|j: int| 0 <= j < i - from ==> is_digit(#[trigger] t[j], base as nat),
            !too_big ==> n == digits_value(t.take(i - from), base as nat) && n <= max,
            too_big ==> digits_value(t.take(i - from), base as nat) > max,
        decreases len - i,
    {
        let c: u32 = v[i] as u32;
        let ghost k = i - from;
        proof {
            assert(t[k] == v@[i as int]);
            assert(t.take(k + 1).drop_last() =~= t.take(k));
            assert(t.take(k + 1).last() == t[k]);
        }
        if c < 48 || (c as u64) >= 48 + base {
            assert(!is_digit(t[k], base as nat));
            return None;
        }
        let d: u64 = (c - 48) as u64;
        if !too_big {
            proof {
                product_bound(n as int, base as int);
            }
            let wide: u128 = (n as u128) * (base as u128) + (d as u128);
            if wide > max as u128 {
                too_big = true;
            } else {
                n = wide as u64;
            }
        } else {
            proof {
                let v0 = digits_value(t.take(k), base as nat);
                assert(v0 <= v0 * base as nat) by (nonlinear_arith)
                    requires
                        base >= 2,
                ;
            }
        }
        i += 1;
    }
    assert(t.take(t.len() as int) =~= t);
    if too_big {
        None
    } else {
        Some(n)
    }
}

proof fn product_bound(n: int, base: int)
    requires
        0 <= n <= 0xFFFF_FFFF_FFFF_FFFF,
        2 <= base <= 10,
    ensures
        0 <= n * base <= 0xFFFF_FFFF_FFFF_FFFF * 10,
{
    assert(0 <= n * base <= 0xFFFF_FFFF_FFFF_FFFF * 10) by (nonlinear_arith)
        requires
            0 <= n <= 0xFFFF_FFFF_FFFF_FFFF,
            2 <= base <= 10,
    ;
}

/// Reads an unsigned number.
pub fn parse_unsigned(v: &Vec<char>, base: u64, max: u64) -> (r: Option<u64>)
    requires
        2 <= base <= 10,
    ensures
        match r {
            Some(n) => unsigned_value(v@, base as nat, max as nat) == Some(n as nat),
            None => unsigned_value(v@, base as nat, max as nat) is None,
        },
{
    if v.len() > 0 && v[0] == '+' {
        parse_digits(v, 1, base, max)
    } else {
        assert(v@.skip(0) =~= v@);
        parse_digits(v, 0, base, max)
    }
}

/// Reads a signed 32-bit number.
pub fn parse_i32(v: &Vec<char>) -> (r: Option<i32>)
    ensures
        match r {
            Some(n) => signed_value(v@) == Some(n as int),
            None => signed_value(v@) is None,
        },
{
    if v.len() > 0 && v[0] == '-' {
        match parse_digits(v, 1, 10, 0x8000_0000) {
            Some(n) => Some((-(n as i64)) as i32),
            None => None,
        }
    } else {
        match parse_unsigned(v, 10, 0x7FFF_FFFF) {
            Some(n) => Some(n as i32),
            None => None,
        }
    }
}

/// Numbers written in a base up to ten read back as themselves.
pub proof fn law_digits_read_back(n: nat, base: nat)
    requires
        2 <= base <= 10,
    ensures
        all_digits(digits(n, base), base),
        digits(n, base).len() > 0,
        digits_value(digits(n, base), base) == n,
        is_digit(digits(n, base)[0], base),
        n > 0 ==> digits(n, base)[0] != '0',
    decreases n,
{
    let s = digits(n, base);
    if n < base {
        assert(s.drop_last() =~= Seq::<char>::empty());
        assert(digits_value(s.drop_last(), base) == 0);
    } else {
        let m = n / base;
        assert(m < n && m > 0) by (nonlinear_arith)
            requires
                n >= base,
                base >= 2,
                m == n / base,
        ;
        law_digits_read_back(m, base);
        let rest = digits(m, base);
        assert(s.drop_last() =~= rest);
        assert(s.last() == digit(n % base));
        assert(n % base < base);
        assert forall|i: int| 0 <= i < s.len() implies is_digit(#[trigger] s[i], base) by {
            if i < rest.len() {
                assert(s[i] == rest[i]);
            }
        }
        assert(s[0] == rest[0]);
        vstd::arithmetic::div_mod::lemma_fundamental_div_mod(n as int, base as int);
        assert(m * base == base * m) by (nonlinear_arith);
    }
}

/// A number written without leading zeroes reads back through [`unsigned_value`].
pub proof fn law_unsigned_round_trip(n: nat, base: nat, max: nat)
    requires
        2 <= base <= 10,
        n <= max,
    ensures
        unsigned_value(digits(n, base), base, max) == Some(n),
{
    law_digits_read_back(n, base);
}

/// Leading zeroes do not matter.
pub proof fn law_padded_round_trip(n: nat, width: nat)
    ensures
        all_digits(padded(n, 10, width), 10),
        padded(n, 10, width).len() > 0,
        digits_value(padded(n, 10, width), 10) == n,
{
    law_digits_read_back(n, 10);
    let d = digits(n, 10);
    let k = if d.len() < width {
        (width - d.len()) as nat
    } else {
        0
    };
    zeroes_in_front(d, k);
    let z = Seq::new(k, |i: int| '0');
    assert(padded(n, 10, width) =~= z + d);
    assert forall|i: int| 0 <= i < (z + d).len() implies is_digit(#[trigger] (z + d)[i], 10) by {
        if i >= k {
            assert((z + d)[i] == d[i - k]);
        }
    }
}

proof fn zeroes_in_front(d: Seq<char>, k: nat)
    ensures
        digits_value(Seq::new(k, |i: int| '0') + d, 10) == digits_value(d, 10),
    decreases d.len(), k,
{
    let z = Seq::new(k, |i: int| '0');
    if d.len() > 0 {
        assert((z + d).drop_last() =~= z + d.drop_last());
        zeroes_in_front(d.drop_last(), k);
    } else if k > 0 {
        let y = Seq::new((k - 1) as nat, |i: int| '0');
        assert((z + d).drop_last() =~= y + d);
        zeroes_in_front(d, (k - 1) as nat);
    } else {
        assert(z + d =~= d);
    }
}

/// Signed numbers read back as themselves.
pub proof fn law_signed_round_trip(n: i32)
    ensures
        signed_value(signed_digits(n as int)) == Some(n as int),
{
    if n < 0 {
        let d = digits((-n) as nat, 10);
        law_digits_read_back((-n) as nat, 10);
        assert(signed_digits(n as int).skip(1) =~= d);
    } else {
        law_digits_read_back(n as nat, 10);
    }
}

} // verus!
