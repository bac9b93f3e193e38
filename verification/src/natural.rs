//! Natural numbers of any size, held as limbs of 32 bits, lowest limb first.
//!
//! The look-ahead averages over up to seven moves at every level, so the
//! exact chance it computes is a fraction whose denominator grows with the
//! depth.  These numbers hold its numerator.

use vstd::prelude::*;

verus! {

/// The number of values of a limb.
pub open spec fn base() -> nat {
    0x1_0000_0000
}

/// The weight of limb `n`: the base to the power `n`.
pub open spec fn weight(n: nat) -> nat
    decreases n,
{
    if n == 0 {
        1
    } else {
        base() * weight((n - 1) as nat)
    }
}

/// Limb `i` of `limbs`, 0 where the sequence has no such limb.
pub open spec fn limb(limbs: Seq<u32>, i: int) -> nat {
    if 0 <= i < limbs.len() {
        limbs[i] as nat
    } else {
        0
    }
}

/// The number that the lowest `n` limbs stand for.
pub open spec fn value_upto(limbs: Seq<u32>, n: nat) -> nat
    decreases n,
{
    if n == 0 {
        0
    } else {
        value_upto(limbs, (n - 1) as nat) + limb(limbs, n - 1) * weight((n - 1) as nat)
    }
}

/// The number that `limbs` stand for.
pub open spec fn value(limbs: Seq<u32>) -> nat {
    value_upto(limbs, limbs.len())
}

/// Sequences with the same lowest `n` limbs stand for the same number up to
/// there.
pub proof fn lemma_value_prefix(a: Seq<u32>, b: Seq<u32>, n: nat)
    requires
        forall|i: int| 0 <= i < n ==> limb(a, i) == limb(b, i),
    ensures
        value_upto(a, n) == value_upto(b, n),
    decreases n,
{
    if n > 0 {
        lemma_value_prefix(a, b, (n - 1) as nat);
    }
}

/// Limbs that a sequence does not have add nothing.
pub proof fn lemma_value_padded(limbs: Seq<u32>, n: nat)
    requires
        n >= limbs.len(),
    ensures
        value_upto(limbs, n) == value(limbs),
    decreases n,
{
    if n > limbs.len() {
        lemma_value_padded(limbs, (n - 1) as nat);
        assert(limb(limbs, n - 1) * weight((n - 1) as nat) == 0) by (nonlinear_arith)
            requires
                limb(limbs, n - 1) == 0,
        ;
    }
}

/// The lowest `n` limbs stand for less than the weight of limb `n`.
pub proof fn lemma_value_bound(limbs: Seq<u32>, n: nat)
    ensures
        value_upto(limbs, n) < weight(n),
    decreases n,
{
    if n > 0 {
        lemma_value_bound(limbs, (n - 1) as nat);
        let w = weight((n - 1) as nat);
        let l = limb(limbs, n - 1);
        assert(l * w <= (base() - 1) * w) by (nonlinear_arith)
            requires
                l <= base() - 1,
                w >= 0,
        ;
        assert((base() - 1) * w + w == base() * w) by (nonlinear_arith);
    }
}

/// Of two sequences that agree above limb `at`, the one with the smaller
/// limb `at` stands for the smaller number.
pub proof fn lemma_value_order(a: Seq<u32>, b: Seq<u32>, n: nat, at: nat)
    requires
        at < n,
        limb(a, at as int) < limb(b, at as int),
        forall|j: int| at < j < n ==> limb(a, j) == limb(b, j),
    ensures
        value_upto(a, n) < value_upto(b, n),
    decreases n,
{
    if n == at + 1 {
        lemma_value_bound(a, at);
        let w = weight(at);
        let la = limb(a, at as int);
        let lb = limb(b, at as int);
        assert(la * w + w <= lb * w) by (nonlinear_arith)
            requires
                la + 1 <= lb,
                w >= 0,
        ;
    } else {
        lemma_value_order(a, b, (n - 1) as nat, at);
    }
}

/// A natural number.
pub struct Natural {
    limbs: Vec<u32>,
}

impl View for Natural {
    type V = nat;

    closed spec fn view(&self) -> nat {
        value(self.limbs@)
    }
}

impl Natural {
    /// The number `x`.
    pub fn from_u32(x: u32) -> (r: Natural)
        ensures
            r@ == x,
    {
        let mut limbs: Vec<u32> = Vec::new();
        limbs.push(x);
        proof {
            reveal_with_fuel(value_upto, 2);
            assert(weight(0) == 1);
            assert(value(limbs@) == x) by (nonlinear_arith)
                requires
                    value(limbs@) == 0 + limb(limbs@, 0) * weight(0),
                    weight(0) == 1,
                    limb(limbs@, 0) == x,
            ;
        }
        Natural { limbs }
    }

    /// The limbs of the number, lowest first: the number is the sum of
    /// each limb times 2 to the power of 32 times its index.
    pub fn to_limbs(&self) -> (limbs: Vec<u32>)
        ensures
            value(limbs@) == self@,
    {
        let mut limbs: Vec<u32> = Vec::new();
        let mut i: usize = 0;
        while i < self.limbs.len()
            invariant
                i <= self.limbs.len(),
                limbs@ == self.limbs@.subrange(0, i as int),
            decreases self.limbs.len() - i,
        {
            limbs.push(self.limbs[i]);
            proof {
                assert(limbs@ == self.limbs@.subrange(0, i as int + 1));
            }
            i += 1;
        }
        proof {
            assert(limbs@ == self.limbs@);
        }
        limbs
    }

    /// The product of the number and `m`.
    pub fn mul_small(&self, m: u32) -> (r: Natural)
        ensures
            r@ == self@ * m,
    {
        let mut out: Vec<u32> = Vec::new();
        let mut carry: u64 = 0;
        let mut i: usize = 0;
        assert(carry * weight(0) == 0 && 0 * m == 0) by (nonlinear_arith)
            requires
                carry == 0,
        ;
        while i < self.limbs.len()
            invariant
                i <= self.limbs.len(),
                out@.len() == i,
                carry < 0x1_0000_0000,
                value_upto(out@, i as nat) + carry * weight(i as nat) == value_upto(
                    self.limbs@,
                    i as nat,
                ) * m,
            decreases self.limbs.len() - i,
        {
            let l = self.limbs[i];
            assert(l * m <= 0xffff_ffff * 0xffff_ffff) by (nonlinear_arith)
                requires
                    0 <= l <= 0xffff_ffff,
                    0 <= m <= 0xffff_ffff,
            ;
            let t: u64 = l as u64 * m as u64 + carry;
            let lo: u64 = t % 0x1_0000_0000;
            let hi: u64 = t / 0x1_0000_0000;
            let ghost before = out@;
            out.push(lo as u32);
            proof {
                let w = weight(i as nat);
                lemma_value_prefix(before, out@, i as nat);
                assert(limb(out@, i as int) == lo);
                assert(limb(self.limbs@, i as int) == l);
                assert(weight((i + 1) as nat) == base() * w);
                let v_out = value_upto(before, i as nat);
                let v_in = value_upto(self.limbs@, i as nat);
                assert(v_out + lo * w + hi * (base() * w) == (v_in + l * w) * m)
                    by (nonlinear_arith)
                    requires
                        v_out + carry * w == v_in * m,
                        l * m + carry == lo + hi * base(),
                ;
            }
            carry = hi;
            i += 1;
        }
        if carry > 0 {
            let ghost before = out@;
            out.push(carry as u32);
            proof {
                lemma_value_prefix(before, out@, i as nat);
                assert(limb(out@, i as int) == carry);
            }
        } else {
            assert(carry * weight(i as nat) == 0) by (nonlinear_arith)
                requires
                    carry == 0,
            ;
        }
        Natural { limbs: out }
    }

    /// The sum of the number and `other`.
    pub fn add(&self, other: &Natural) -> (r: Natural)
        ensures
            r@ == self@ + other@,
    {
        let n = if self.limbs.len() >= other.limbs.len() {
            self.limbs.len()
        } else {
            other.limbs.len()
        };
        let mut out: Vec<u32> = Vec::new();
        let mut carry: u64 = 0;
        let mut i: usize = 0;
        assert(carry * weight(0) == 0) by (nonlinear_arith)
            requires
                carry == 0,
        ;
        while i < n
            invariant
                i <= n,
                n >= self.limbs@.len(),
                n >= other.limbs@.len(),
                out@.len() == i,
                carry <= 1,
                value_upto(out@, i as nat) + carry * weight(i as nat) == value_upto(
                    self.limbs@,
                    i as nat,
                ) + value_upto(other.limbs@, i as nat),
            decreases n - i,
        {
            let x: u32 = if i < self.limbs.len() {
                self.limbs[i]
            } else {
                0
            };
            let y: u32 = if i < other.limbs.len() {
                other.limbs[i]
            } else {
                0
            };
            let t: u64 = x as u64 + y as u64 + carry;
            let lo: u64 = t % 0x1_0000_0000;
            let hi: u64 = t / 0x1_0000_0000;
            let ghost before = out@;
            out.push(lo as u32);
            proof {
                let w = weight(i as nat);
                lemma_value_prefix(before, out@, i as nat);
                assert(limb(out@, i as int) == lo);
                assert(limb(self.limbs@, i as int) == x);
                assert(limb(other.limbs@, i as int) == y);
                assert(weight((i + 1) as nat) == base() * w);
                let v_out = value_upto(before, i as nat);
                let v_a = value_upto(self.limbs@, i as nat);
                let v_b = value_upto(other.limbs@, i as nat);
                assert(v_out + lo * w + hi * (base() * w) == (v_a + x * w) + (v_b + y * w))
                    by (nonlinear_arith)
                    requires
                        v_out + carry * w == v_a + v_b,
                        x + y + carry == lo + hi * base(),
                ;
            }
            carry = hi;
            i += 1;
        }
        proof {
            lemma_value_padded(self.limbs@, n as nat);
            lemma_value_padded(other.limbs@, n as nat);
        }
        if carry > 0 {
            let ghost before = out@;
            out.push(carry as u32);
            proof {
                lemma_value_prefix(before, out@, i as nat);
                assert(limb(out@, i as int) == carry);
            }
        } else {
            assert(carry * weight(i as nat) == 0) by (nonlinear_arith)
                requires
                    carry == 0,
            ;
        }
        Natural { limbs: out }
    }

    /// Whether the number is at most `other`.
    pub fn le(&self, other: &Natural) -> (r: bool)
        ensures
            r == (self@ <= other@),
    {
        let n = if self.limbs.len() >= other.limbs.len() {
            self.limbs.len()
        } else {
            other.limbs.len()
        };
        proof {
            lemma_value_padded(self.limbs@, n as nat);
            lemma_value_padded(other.limbs@, n as nat);
        }
        let mut i: usize = n;
        while i > 0
            invariant
                i <= n,
                forall|j: int| i <= j < n ==> limb(self.limbs@, j) == limb(other.limbs@, j),
                value_upto(self.limbs@, n as nat) == self@,
                value_upto(other.limbs@, n as nat) == other@,
            decreases i,
        {
            i -= 1;
            let x: u32 = if i < self.limbs.len() {
                self.limbs[i]
            } else {
                0
            };
            let y: u32 = if i < other.limbs.len() {
                other.limbs[i]
            } else {
                0
            };
            if x < y {
                proof {
                    lemma_value_order(self.limbs@, other.limbs@, n as nat, i as nat);
                }
                return true;
            }
            if x > y {
                proof {
                    lemma_value_order(other.limbs@, self.limbs@, n as nat, i as nat);
                }
                return false;
            }
        }
        proof {
            lemma_value_prefix(self.limbs@, other.limbs@, n as nat);
        }
        true
    }
}

} // verus!
