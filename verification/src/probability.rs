//! Exact chances between 0 and 1.
//!
//! A chance is a fraction: a numerator of any size over a denominator of
//! the form 16 * 420^k.  Sixteenths are what a count of runs is weighed in,
//! and 420 is the least number that 1, 2, ..., 7 all divide, so the mean of
//! up to seven such fractions is such a fraction again, with k one higher.
//! Contracts speak of a chance by its view, a real number.

use vstd::prelude::*;
use crate::natural::{value, Natural};

verus! {

/// The denominator with `levels` factors of 420.
pub open spec fn scale(levels: nat) -> nat
    decreases levels,
{
    if levels == 0 {
        16
    } else {
        420 * scale((levels - 1) as nat)
    }
}

/// The fraction `num` over `den`.
pub open spec fn ratio(num: nat, den: nat) -> real {
    num as real / den as real
}

/// The sum of the chances in `chances`.
pub open spec fn total(chances: Seq<Probability>) -> real
    decreases chances.len(),
{
    if chances.len() == 0 {
        0 as real
    } else {
        total(chances.drop_last()) + chances.last()@
    }
}

/// The greatest number of levels among `chances`, 0 for none.
pub open spec fn top_levels(chances: Seq<Probability>) -> nat
    decreases chances.len(),
{
    if chances.len() == 0 {
        0
    } else if chances.last().levels() >= top_levels(chances.drop_last()) {
        chances.last().levels()
    } else {
        top_levels(chances.drop_last())
    }
}

/// No denominator is 0.
pub proof fn lemma_scale_positive(levels: nat)
    ensures
        scale(levels) > 0,
    decreases levels,
{
    if levels > 0 {
        lemma_scale_positive((levels - 1) as nat);
    }
}

/// A fraction keeps its value when 420 goes into both of its parts.
pub proof fn lemma_ratio_lift(num: nat, den: nat)
    requires
        den > 0,
    ensures
        ratio(num * 420, 420 * den) == ratio(num, den),
{
    let n = num as real;
    let d = den as real;
    assert((num * 420) as real == n * (420 as real));
    assert((420 * den) as real == (420 as real) * d);
    assert((n * (420 as real)) / ((420 as real) * d) == n / d) by (nonlinear_arith)
        requires
            d > 0 as real,
    ;
}

/// Fractions over one denominator add by their numerators.
pub proof fn lemma_ratio_add(a: nat, b: nat, den: nat)
    requires
        den > 0,
    ensures
        ratio(a, den) + ratio(b, den) == ratio(a + b, den),
{
    let x = a as real;
    let y = b as real;
    let d = den as real;
    assert((a + b) as real == x + y);
    assert(x / d + y / d == (x + y) / d) by (nonlinear_arith)
        requires
            d > 0 as real,
    ;
}

/// The `count`-th part of a fraction, for a count from 1 to 7, is the
/// fraction with 420 / `count` times the numerator over 420 times the
/// denominator.
pub proof fn lemma_ratio_share(num: nat, den: nat, count: nat)
    requires
        den > 0,
        1 <= count <= 7,
    ensures
        ratio((num * (420nat / count)) as nat, 420 * den) == ratio(num, den) / (count as real),
{
    let n = num as real;
    let d = den as real;
    assert((420 * den) as real == (420 as real) * d);
    if count == 1 {
        assert((num * 420) as real == n * (420 as real));
        assert((n * (420 as real)) / ((420 as real) * d) == (n / d) / (1 as real))
            by (nonlinear_arith)
            requires
                d > 0 as real,
        ;
    } else if count == 2 {
        assert((num * 210) as real == n * (210 as real));
        assert((n * (210 as real)) / ((420 as real) * d) == (n / d) / (2 as real))
            by (nonlinear_arith)
            requires
                d > 0 as real,
        ;
    } else if count == 3 {
        assert((num * 140) as real == n * (140 as real));
        assert((n * (140 as real)) / ((420 as real) * d) == (n / d) / (3 as real))
            by (nonlinear_arith)
            requires
                d > 0 as real,
        ;
    } else if count == 4 {
        assert((num * 105) as real == n * (105 as real));
        assert((n * (105 as real)) / ((420 as real) * d) == (n / d) / (4 as real))
            by (nonlinear_arith)
            requires
                d > 0 as real,
        ;
    } else if count == 5 {
        assert((num * 84) as real == n * (84 as real));
        assert((n * (84 as real)) / ((420 as real) * d) == (n / d) / (5 as real))
            by (nonlinear_arith)
            requires
                d > 0 as real,
        ;
    } else if count == 6 {
        assert((num * 70) as real == n * (70 as real));
        assert((n * (70 as real)) / ((420 as real) * d) == (n / d) / (6 as real))
            by (nonlinear_arith)
            requires
                d > 0 as real,
        ;
    } else {
        assert((num * 60) as real == n * (60 as real));
        assert((n * (60 as real)) / ((420 as real) * d) == (n / d) / (7 as real))
            by (nonlinear_arith)
            requires
                d > 0 as real,
        ;
    }
}

/// A chance, held exactly.
pub struct Probability {
    num: Natural,
    levels: u64,
}

impl View for Probability {
    type V = real;

    /// The chance as a real number.
    closed spec fn view(&self) -> real {
        ratio(self.num@, scale(self.levels as nat))
    }
}

impl Probability {
    /// The number of factors of 420 in the denominator.
    pub closed spec fn levels(&self) -> nat {
        self.levels as nat
    }

    /// The chance of `count` in sixteen.
    pub fn from_sixteenths(count: u32) -> (p: Probability)
        ensures
            p@ == count as real / 16 as real,
            p.levels() == 0,
    {
        Probability { num: Natural::from_u32(count), levels: 0 }
    }

    /// The chance of what cannot happen.
    pub fn zero() -> (p: Probability)
        ensures
            p@ == 0 as real,
            p.levels() == 0,
    {
        Probability::from_sixteenths(0)
    }

    /// The chance of what is certain.
    pub fn one() -> (p: Probability)
        ensures
            p@ == 1 as real,
            p.levels() == 0,
    {
        Probability::from_sixteenths(16)
    }

    /// The numerator of the chance over the denominator with `levels`
    /// factors of 420.
    fn numerator_at(&self, levels: u64) -> (num: Natural)
        requires
            self.levels() <= levels,
        ensures
            ratio(num@, scale(levels as nat)) == self@,
    {
        let mut num = self.num.mul_small(1);
        let mut at: u64 = self.levels;
        assert(num@ == self.num@) by (nonlinear_arith)
            requires
                num@ == self.num@ * 1,
        ;
        while at < levels
            invariant
                self.levels <= at <= levels,
                ratio(num@, scale(at as nat)) == self@,
            decreases levels - at,
        {
            proof {
                lemma_scale_positive(at as nat);
                lemma_ratio_lift(num@, scale(at as nat));
            }
            num = num.mul_small(420);
            at += 1;
        }
        num
    }

    /// The mean of one to seven chances.
    pub fn mean(chances: &Vec<Probability>) -> (p: Probability)
        requires
            1 <= chances@.len() <= 7,
            forall|i: int| 0 <= i < chances@.len() ==> (#[trigger] chances@[i]).levels() < u64::MAX,
        ensures
            p@ == total(chances@) / (chances@.len() as real),
            p.levels() == top_levels(chances@) + 1,
    {
        let mut top: u64 = 0;
        let mut i: usize = 0;
        while i < chances.len()
            invariant
                i <= chances@.len(),
                top == top_levels(chances@.take(i as int)),
                top < u64::MAX,
                forall|i: int|
                    0 <= i < chances@.len() ==> (#[trigger] chances@[i]).levels() < u64::MAX,
            decreases chances@.len() - i,
        {
            proof {
                assert(chances@.take(i as int + 1).drop_last() == chances@.take(i as int));
                assert(chances@.take(i as int + 1).last() == chances@[i as int]);
            }
            if chances[i].levels >= top {
                top = chances[i].levels;
            }
            i += 1;
        }
        proof {
            assert(chances@.take(i as int) == chances@);
            lemma_scale_positive(top as nat);
        }
        let mut sum = Natural::from_u32(0);
        let mut j: usize = 0;
        proof {
            let d = scale(top as nat) as real;
            assert((0 as real) / d == 0 as real) by (nonlinear_arith)
                requires
                    d > 0 as real,
            ;
            assert(chances@.take(0).len() == 0);
        }
        while j < chances.len()
            invariant
                j <= chances@.len(),
                top == top_levels(chances@),
                scale(top as nat) > 0,
                ratio(sum@, scale(top as nat)) == total(chances@.take(j as int)),
            decreases chances@.len() - j,
        {
            proof {
                assert(chances@.take(j as int + 1).drop_last() == chances@.take(j as int));
                assert(chances@.take(j as int + 1).last() == chances@[j as int]);
                lemma_top_levels(chances@, j as int);
            }
            let lifted = chances[j].numerator_at(top);
            proof {
                lemma_ratio_add(sum@, lifted@, scale(top as nat));
            }
            sum = sum.add(&lifted);
            j += 1;
        }
        let count: u32 = chances.len() as u32;
        let num = sum.mul_small(420 / count);
        proof {
            assert(chances@.take(j as int) == chances@);
            lemma_ratio_share(sum@, scale(top as nat), count as nat);
            assert(scale((top + 1) as nat) == 420 * scale(top as nat));
        }
        Probability { num, levels: top + 1 }
    }

    /// Whether the chance is at least `other`.
    pub fn ge(&self, other: &Probability) -> (r: bool)
        ensures
            r == (self@ >= other@),
    {
        let top = if self.levels >= other.levels {
            self.levels
        } else {
            other.levels
        };
        let mine = self.numerator_at(top);
        let theirs = other.numerator_at(top);
        proof {
            lemma_scale_positive(top as nat);
            lemma_ratio_order(theirs@, mine@, scale(top as nat));
        }
        theirs.le(&mine)
    }

    /// Whether the chance is that of what is certain.
    pub fn is_one(&self) -> (r: bool)
        ensures
            r == (self@ == 1 as real),
    {
        let one = Probability::one();
        self.ge(&one) && one.ge(self)
    }

    /// The chance as a fraction for the caller to divide: the limbs of the
    /// numerator, lowest first, and the number of factors of 420 that the
    /// denominator holds beside its factor 16.
    pub fn to_parts(&self) -> (parts: (Vec<u32>, u64))
        ensures
            ratio(value(parts.0@), scale(parts.1 as nat)) == self@,
    {
        (self.num.to_limbs(), self.levels)
    }
}

/// No chance in a sequence has more levels than the greatest number of
/// levels among them.
pub proof fn lemma_top_levels(chances: Seq<Probability>, i: int)
    requires
        0 <= i < chances.len(),
    ensures
        chances[i].levels() <= top_levels(chances),
    decreases chances.len(),
{
    if i < chances.len() - 1 {
        lemma_top_levels(chances.drop_last(), i);
    }
}

/// Where no chance in a sequence has more than `bound` levels, the
/// greatest number of levels among them is at most `bound`.
pub proof fn lemma_top_levels_bound(chances: Seq<Probability>, bound: nat)
    requires
        forall|i: int| 0 <= i < chances.len() ==> (#[trigger] chances[i]).levels() <= bound,
    ensures
        top_levels(chances) <= bound,
    decreases chances.len(),
{
    if chances.len() > 0 {
        assert(chances.last() == chances[chances.len() - 1]);
        assert forall|i: int| 0 <= i < chances.drop_last().len() implies (
        #[trigger] chances.drop_last()[i]).levels() <= bound by {
            assert(chances.drop_last()[i] == chances[i]);
        }
        lemma_top_levels_bound(chances.drop_last(), bound);
    }
}

/// Fractions over one denominator are ordered as their numerators are.
pub proof fn lemma_ratio_order(a: nat, b: nat, den: nat)
    requires
        den > 0,
    ensures
        a <= b <==> ratio(a, den) <= ratio(b, den),
{
    let x = a as real;
    let y = b as real;
    let d = den as real;
    assert(x <= y <==> x / d <= y / d) by (nonlinear_arith)
        requires
            d > 0 as real,
    ;
}

} // verus!
