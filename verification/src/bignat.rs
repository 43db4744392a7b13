//! Natural numbers without a bound, as far as exact fractions need them.
use vstd::prelude::*;

verus! {

/// A natural number in base 2^32, the lowest digit first.
pub struct BigNat {
    limbs: Vec<u32>,
}

/// The base of the digits.
spec fn base() -> int {
    0x1_0000_0000
}

/// The value of the `i`-th digit; zero beyond the last.
spec fn digit(limbs: Seq<u32>, i: int) -> int {
    if 0 <= i < limbs.len() {
        limbs[i] as int
    } else {
        0
    }
}

/// What the lowest `n` digits stand for.
spec fn low(limbs: Seq<u32>, n: nat) -> int
    decreases n,
{
    if n == 0 {
        0
    } else {
        low(limbs, (n - 1) as nat) + digit(limbs, n - 1) * place((n - 1) as nat)
    }
}

/// What one in the `n`-th place stands for.
spec fn place(n: nat) -> int
    decreases n,
{
    if n == 0 {
        1
    } else {
        base() * place((n - 1) as nat)
    }
}

proof fn place_step(n: nat)
    ensures
        place(n + 1) == base() * place(n),
        place(n) > 0,
    decreases n,
{
    if n > 0 {
        place_step((n - 1) as nat);
    }
}

proof fn low_bounds(limbs: Seq<u32>, n: nat)
    ensures
        0 <= low(limbs, n) < place(n),
    decreases n,
{
    place_step(0);
    if n > 0 {
        let m = (n - 1) as nat;
        low_bounds(limbs, m);
        place_step(m);
        let d = digit(limbs, n - 1);
        let p = place(m);
        assert(0 <= d * p <= (base() - 1) * p) by (nonlinear_arith)
            requires
                0 <= d <= base() - 1,
                p > 0,
        ;
        assert((base() - 1) * p == base() * p - p) by (nonlinear_arith);
    }
}

/// Digits beyond the last change nothing.
proof fn low_beyond(limbs: Seq<u32>, n: nat)
    requires
        n >= limbs.len(),
    ensures
        low(limbs, n) == low(limbs, limbs.len()),
    decreases n,
{
    if n > limbs.len() {
        low_beyond(limbs, (n - 1) as nat);
        assert(0 * place((n - 1) as nat) == 0);
    }
}

/// The lowest digits do not depend on what is pushed after them.
proof fn low_push(limbs: Seq<u32>, x: u32, n: nat)
    requires
        n <= limbs.len(),
    ensures
        low(limbs.push(x), n) == low(limbs, n),
    decreases n,
{
    if n > 0 {
        low_push(limbs, x, (n - 1) as nat);
    }
}

proof fn low_of_push(limbs: Seq<u32>, x: u32)
    ensures
        low(limbs.push(x), limbs.len() + 1) == low(limbs, limbs.len()) + x * place(limbs.len()),
{
    low_push(limbs, x, limbs.len());
}

/// How two numbers compare.
#[derive(Clone, Copy, Debug, PartialEq, Eq, Structural)]
pub enum Sign {
    Less,
    Same,
    More,
}

impl View for BigNat {
    type V = nat;

    closed spec fn view(&self) -> nat {
        low(self.limbs@, self.limbs@.len()) as nat
    }
}

impl BigNat {
    proof fn view_is_low(&self)
        ensures
            self@ as int == low(self.limbs@, self.limbs@.len()),
    {
        low_bounds(self.limbs@, self.limbs@.len());
    }

    pub fn zero() -> (r: BigNat)
        ensures
            r@ == 0,
    {
        BigNat { limbs: Vec::new() }
    }

    pub fn one() -> (r: BigNat)
        ensures
            r@ == 1,
    {
        let mut limbs: Vec<u32> = Vec::new();
        limbs.push(1);
        proof {
            place_step(0);
            low_of_push(Seq::<u32>::empty(), 1);
            assert(limbs@ =~= Seq::<u32>::empty().push(1));
            assert(1 * place(0) == 1);
        }
        BigNat { limbs }
    }

    fn limb(&self, i: usize) -> (r: u32)
        ensures
            r as int == digit(self.limbs@, i as int),
    {
        if i < self.limbs.len() {
            self.limbs[i]
        } else {
            0
        }
    }

    /// The sum.
    pub fn plus(&self, other: &BigNat) -> (r: BigNat)
        ensures
            r@ == self@ + other@,
    {
        let n: usize = if self.limbs.len() >= other.limbs.len() {
            self.limbs.len()
        } else {
            other.limbs.len()
        };
        let mut out: Vec<u32> = Vec::new();
        let mut carry: u64 = 0;
        let mut i: usize = 0;
        assert(0 * place(0) == 0);
        while i < n
            invariant
                i <= n,
                out@.len() == i,
                carry <= 1,
                low(out@, i as nat) + carry * place(i as nat) == low(self.limbs@, i as nat)
                    + low(other.limbs@, i as nat),
            decreases n - i,
        {
            let sum: u64 = self.limb(i) as u64 + other.limb(i) as u64 + carry;
            let x: u32 = (sum % 0x1_0000_0000) as u32;
            let next: u64 = sum / 0x1_0000_0000;
            proof {
                let p = place(i as nat);
                place_step(i as nat);
                low_of_push(out@, x);
                let a = digit(self.limbs@, i as int);
                let b = digit(other.limbs@, i as int);
                assert(x + next * base() == a + b + carry);
                assert(x * p + next * (base() * p) == a * p + b * p + carry * p)
                    by (nonlinear_arith)
                    requires
                        x + next * base() == a + b + carry,
                ;
            }
            out.push(x);
            carry = next;
            i += 1;
        }
        proof {
            low_beyond(self.limbs@, n as nat);
            low_beyond(other.limbs@, n as nat);
            low_of_push(out@, carry as u32);
            self.view_is_low();
            other.view_is_low();
        }
        out.push(carry as u32);
        let r = BigNat { limbs: out };
        proof {
            r.view_is_low();
        }
        r
    }

    /// The product with a number below 2^80.
    pub fn times(&self, k: u128) -> (r: BigNat)
        requires
            k < 0x1_0000_0000_0000_0000_0000,
        ensures
            r@ == self@ * k,
    {
        let n: usize = self.limbs.len();
        let mut out: Vec<u32> = Vec::new();
        let mut carry: u128 = 0;
        let mut i: usize = 0;
        assert(0 * place(0) == 0);
        while i < n
            invariant
                n == self.limbs@.len(),
                i <= n,
                out@.len() == i,
                k < 0x1_0000_0000_0000_0000_0000,
                carry <= k,
                low(out@, i as nat) + carry * place(i as nat) == low(self.limbs@, i as nat)
                    * k,
            decreases n - i,
        {
            let a: u128 = self.limbs[i] as u128;
            proof {
                assert(a * k + carry <= 0xffff_ffff * k + k) by (nonlinear_arith)
                    requires
                        0 <= a <= 0xffff_ffff,
                        carry <= k,
                ;
            }
            assert(a * k <= 0xffff_ffff * k) by (nonlinear_arith)
                requires
                    0 <= a <= 0xffff_ffff,
                    0 <= k,
            ;
            let t: u128 = a * k + carry;
            let x: u32 = (t % 0x1_0000_0000) as u32;
            let next: u128 = t / 0x1_0000_0000;
            proof {
                let p = place(i as nat);
                let l = low(self.limbs@, i as nat);
                place_step(i as nat);
                low_of_push(out@, x);
                assert(x + next * base() == a * k + carry);
                assert(x * p + next * (base() * p) == a * p * k + carry * p) by (nonlinear_arith)
                    requires
                        x + next * base() == a * k + carry,
                ;
                assert((l + a * p) * k == l * k + a * p * k) by (nonlinear_arith);
            }
            out.push(x);
            carry = next;
            i += 1;
        }
        while carry > 0
            invariant
                i == out@.len(),
                low(out@, out@.len()) + carry * place(out@.len()) == low(
                    self.limbs@,
                    self.limbs@.len(),
                ) * k,
            decreases carry,
        {
            let x: u32 = (carry % 0x1_0000_0000) as u32;
            let next: u128 = carry / 0x1_0000_0000;
            proof {
                let p = place(out@.len());
                place_step(out@.len());
                low_of_push(out@, x);
                assert(x * p + next * (base() * p) == carry * p) by (nonlinear_arith)
                    requires
                        x + next * base() == carry,
                ;
            }
            out.push(x);
            carry = next;
            i = out.len();
        }
        let r = BigNat { limbs: out };
        proof {
            self.view_is_low();
            r.view_is_low();
            assert(0 * place(out@.len()) == 0);
        }
        r
    }

    /// How the number compares with another.
    pub fn against(&self, other: &BigNat) -> (r: Sign)
        ensures
            r == (if self@ < other@ {
                Sign::Less
            } else if self@ == other@ {
                Sign::Same
            } else {
                Sign::More
            }),
    {
        let n: usize = if self.limbs.len() >= other.limbs.len() {
            self.limbs.len()
        } else {
            other.limbs.len()
        };
        let mut sign = Sign::Same;
        let mut i: usize = 0;
        while i < n
            invariant
                i <= n,
                sign == (if low(self.limbs@, i as nat) < low(other.limbs@, i as nat) {
                    Sign::Less
                } else if low(self.limbs@, i as nat) == low(other.limbs@, i as nat) {
                    Sign::Same
                } else {
                    Sign::More
                }),
            decreases n - i,
        {
            let a = self.limb(i);
            let b = other.limb(i);
            proof {
                low_bounds(self.limbs@, i as nat);
                low_bounds(other.limbs@, i as nat);
                let p = place(i as nat);
                if a < b {
                    assert(a * p + p <= b * p) by (nonlinear_arith)
                        requires
                            a + 1 <= b,
                            p > 0,
                    ;
                } else if b < a {
                    assert(b * p + p <= a * p) by (nonlinear_arith)
                        requires
                            b + 1 <= a,
                            p > 0,
                    ;
                }
            }
            if a < b {
                sign = Sign::Less;
            } else if b < a {
                sign = Sign::More;
            }
            i += 1;
        }
        proof {
            low_beyond(self.limbs@, n as nat);
            low_beyond(other.limbs@, n as nat);
            self.view_is_low();
            other.view_is_low();
        }
        sign
    }
}

} // verus!
