//! Natural numbers of any size, as far as comparing products needs them.

use vstd::arithmetic::power;
use vstd::prelude::*;

verus! {

/// The value of digits in base 2^64, the lowest first.
pub open spec fn value(limbs: Seq<u64>) -> int
    decreases limbs.len(),
{
    if limbs.len() == 0 {
        0
    } else {
        value(limbs.drop_last()) + limbs.last() * power::pow(0x1_0000_0000_0000_0000, (limbs.len() - 1) as nat)
    }
}

/// A natural number.
pub struct BigNat {
    limbs: Vec<u64>,
}

impl View for BigNat {
    type V = int;

    closed spec fn view(&self) -> int {
        value(self.limbs@)
    }
}

proof fn base_step(i: nat)
    ensures
        power::pow(0x1_0000_0000_0000_0000, i + 1) == 0x1_0000_0000_0000_0000 * power::pow(0x1_0000_0000_0000_0000, i),
        power::pow(0x1_0000_0000_0000_0000, i) > 0,
{
    power::lemma_pow_adds(0x1_0000_0000_0000_0000, 1, i);
    power::lemma_pow1(0x1_0000_0000_0000_0000);
    power::lemma_pow_positive(0x1_0000_0000_0000_0000, i);
    assert(i + 1 == 1 + i);
}

proof fn value_step(limbs: Seq<u64>, i: int)
    requires
        0 <= i < limbs.len(),
    ensures
        value(limbs.take(i + 1)) == value(limbs.take(i)) + limbs[i] * power::pow(0x1_0000_0000_0000_0000, i as nat),
{
    assert(limbs.take(i + 1).drop_last() =~= limbs.take(i));
}

/// The low digits are worth less than the next place.
proof fn value_bound(limbs: Seq<u64>)
    ensures
        0 <= value(limbs) < power::pow(0x1_0000_0000_0000_0000, limbs.len()),
    decreases limbs.len(),
{
    power::lemma_pow0(0x1_0000_0000_0000_0000);
    if limbs.len() > 0 {
        let i = (limbs.len() - 1) as nat;
        value_bound(limbs.drop_last());
        base_step(i);
        let p = power::pow(0x1_0000_0000_0000_0000, i);
        let d = limbs.last() as int;
        assert(0 <= d * p <= (0x1_0000_0000_0000_0000 - 1) * p) by (nonlinear_arith)
            requires
                0 <= d <= 0x1_0000_0000_0000_0000 - 1,
                p > 0,
        ;
        assert((0x1_0000_0000_0000_0000 - 1) * p == 0x1_0000_0000_0000_0000 * p - p) by (nonlinear_arith);
    }
}

proof fn carry_step(done: int, carry: int, p: int, old_done: int, m: int, d: int, low: int, high: int)
    requires
        done + carry * p == old_done * m,
        d * m + carry == low + high * 0x1_0000_0000_0000_0000,
    ensures
        (done + low * p) + high * (0x1_0000_0000_0000_0000 * p) == (old_done + d * p) * m,
{
    assert((done + low * p) + high * (0x1_0000_0000_0000_0000 * p) == done + (low + high
        * 0x1_0000_0000_0000_0000) * p) by (nonlinear_arith);
    assert((d * m + carry) * p == d * p * m + carry * p) by (nonlinear_arith);
    assert((old_done + d * p) * m == old_done * m + d * p * m) by (nonlinear_arith);
}

impl BigNat {
    /// One.
    pub fn one() -> (n: Self)
        ensures
            n@ == 1,
    {
        let mut limbs: Vec<u64> = Vec::new();
        limbs.push(1);
        proof {
            power::lemma_pow0(0x1_0000_0000_0000_0000);
            assert(limbs@.drop_last() =~= Seq::<u64>::empty());
            assert(value(Seq::<u64>::empty()) == 0);
        }
        BigNat { limbs }
    }

    /// Multiplies by a word.
    pub fn scale(&mut self, m: u64)
        ensures
            final(self)@ == old(self)@ * m,
    {
        let ghost before = self.limbs@;
        let mut carry: u64 = 0;
        let mut i: usize = 0;
        let n: usize = self.limbs.len();
        proof {
            assert(before.take(0) =~= Seq::<u64>::empty());
            assert(self.limbs@.take(0) =~= Seq::<u64>::empty());
        }
        while i < n
            invariant
                i <= n,
                n == before.len(),
                self.limbs@.len() == n,
                forall|k: int| i <= k < n ==> self.limbs@[k] == before[k],
                value(self.limbs@.take(i as int)) + carry * power::pow(0x1_0000_0000_0000_0000, i as nat) == value(
                    before.take(i as int),
                ) * m,
            decreases n - i,
        {
            let d: u64 = self.limbs[i];
            proof {
                assert(0 <= d * m <= 0xFFFF_FFFF_FFFF_FFFF * 0xFFFF_FFFF_FFFF_FFFF) by (nonlinear_arith)
                    requires
                        0 <= d <= 0xFFFF_FFFF_FFFF_FFFF,
                        0 <= m <= 0xFFFF_FFFF_FFFF_FFFF,
                ;
            }
            let wide: u128 = (d as u128) * (m as u128) + (carry as u128);
            let low: u64 = (wide % 0x1_0000_0000_0000_0000) as u64;
            let high: u64 = (wide / 0x1_0000_0000_0000_0000) as u64;
            let ghost old_limbs = self.limbs@;
            let ghost old_carry = carry;
            proof {
                assert(wide / 0x1_0000_0000_0000_0000 <= 0xFFFF_FFFF_FFFF_FFFF);
                assert(wide == low + high * 0x1_0000_0000_0000_0000);
            }
            self.limbs.set(i, low);
            carry = high;
            proof {
                value_step(self.limbs@, i as int);
                value_step(before, i as int);
                assert(self.limbs@.take(i as int) =~= old_limbs.take(i as int));
                base_step(i as nat);
                carry_step(
                    value(old_limbs.take(i as int)),
                    old_carry as int,
                    power::pow(0x1_0000_0000_0000_0000, i as nat),
                    value(before.take(i as int)),
                    m as int,
                    d as int,
                    low as int,
                    high as int,
                );
            }
            i += 1;
        }
        proof {
            assert(self.limbs@.take(n as int) =~= self.limbs@);
            assert(before.take(n as int) =~= before);
        }
        if carry > 0 {
            let ghost body = self.limbs@;
            self.limbs.push(carry);
            assert(self.limbs@.drop_last() =~= body);
        }
    }

    /// Whether this number is less than another.
    pub fn less(&self, other: &BigNat) -> (r: bool)
        ensures
            r == (self@ < other@),
    {
        let a: usize = self.limbs.len();
        let b: usize = other.limbs.len();
        let mut i: usize = if a > b {
            a
        } else {
            b
        };
        proof {
            assert(self.limbs@ =~= padded_to(self.limbs@, i as int).take(a as int));
            padding_is_free(self.limbs@, i as nat);
            padding_is_free(other.limbs@, i as nat);
        }
        let ghost top = i as int;
        let ghost x = padded_to(self.limbs@, top);
        let ghost y = padded_to(other.limbs@, top);
        proof {
            assert(x.take(top) =~= x);
            assert(y.take(top) =~= y);
        }
        while i > 0
            invariant
                i <= top,
                a == self.limbs@.len(),
                b == other.limbs@.len(),
                x == padded_to(self.limbs@, top),
                y == padded_to(other.limbs@, top),
                value(x) - value(y) == value(x.take(i as int)) - value(y.take(i as int)),
                value(x) == self@,
                value(y) == other@,
            decreases i,
        {
            i -= 1;
            let p: u64 = if i < a {
                self.limbs[i]
            } else {
                0
            };
            let q: u64 = if i < b {
                other.limbs[i]
            } else {
                0
            };
            proof {
                assert(p == x[i as int] && q == y[i as int]);
                value_step(x, i as int);
                value_step(y, i as int);
                value_bound(x.take(i as int));
                value_bound(y.take(i as int));
                assert(x.take(i as int).len() == i && y.take(i as int).len() == i);
                let w = power::pow(0x1_0000_0000_0000_0000, i as nat);
                if p < q {
                    assert(q * w - p * w >= w) by (nonlinear_arith)
                        requires
                            p < q,
                            w > 0,
                    ;
                }
                if q < p {
                    assert(p * w - q * w >= w) by (nonlinear_arith)
                        requires
                            q < p,
                            w > 0,
                    ;
                }
            }
            if p != q {
                return p < q;
            }
        }
        assert(x.take(0) =~= Seq::<u64>::empty());
        assert(y.take(0) =~= Seq::<u64>::empty());
        false
    }
}

/// The digits followed by zeroes up to a length.
spec fn padded_to(limbs: Seq<u64>, n: int) -> Seq<u64> {
    Seq::new(
        n as nat,
        |i: int|
            if i < limbs.len() {
                limbs[i]
            } else {
                0
            },
    )
}

proof fn padding_is_free(limbs: Seq<u64>, n: nat)
    requires
        limbs.len() <= n,
    ensures
        value(padded_to(limbs, n as int)) == value(limbs),
    decreases n,
{
    let p = padded_to(limbs, n as int);
    if limbs.len() == n {
        assert(p =~= limbs);
    } else {
        padding_is_free(limbs, (n - 1) as nat);
        assert(p.drop_last() =~= padded_to(limbs, n - 1));
        assert(p.last() == 0);
        assert(0 * power::pow(0x1_0000_0000_0000_0000, (n - 1) as nat) == 0);
    }
}

} // verus!
