//! Exact rational scores.
//!
//! Similarity scores and frequencies in this library are exact rationals
//! `num / den` with a positive denominator, compared by cross
//! multiplication in 128-bit arithmetic, so no score is ever rounded.

use vstd::prelude::*;

verus! {

/// An exact rational number `num / den` with a positive denominator.
#[derive(Clone, Copy, Debug, PartialEq, Eq, Structural)]
pub struct Frac {
    pub num: i64,
    pub den: i64,
}

/// Cross products of two `i64` factors stay inside `i128`.
proof fn lemma_mul_i64_fits_i128(a: int, b: int)
    requires
        i64::MIN <= a <= i64::MAX,
        i64::MIN <= b <= i64::MAX,
    ensures
        i128::MIN <= a * b <= i128::MAX,
{
    assert(i128::MIN <= a * b <= i128::MAX) by (nonlinear_arith)
        requires
            -0x8000_0000_0000_0000 <= a <= 0x7fff_ffff_ffff_ffff,
            -0x8000_0000_0000_0000 <= b <= 0x7fff_ffff_ffff_ffff,
    ;
}

impl Frac {
    /// Well-formed: the denominator is positive.
    pub open spec fn wf(self) -> bool {
        self.den >= 1
    }

    /// The rational value of `self` is at most that of `other`.
    pub open spec fn spec_le(self, other: Frac) -> bool {
        self.num * other.den <= other.num * self.den
    }

    /// The rational value of `self` is strictly below that of `other`.
    pub open spec fn spec_lt(self, other: Frac) -> bool {
        self.num * other.den < other.num * self.den
    }

    /// `self` and `other` denote the same rational value.
    pub open spec fn same_value(self, other: Frac) -> bool {
        self.num * other.den == other.num * self.den
    }

    /// The value lies in the unit interval `[0, 1]`.
    pub open spec fn is_unit(self) -> bool {
        0 <= self.num <= self.den
    }

    /// The larger of two rationals; `other` wins only when strictly larger,
    /// as in a running-maximum fold.
    pub open spec fn spec_max(self, other: Frac) -> Frac {
        if self.spec_lt(other) {
            other
        } else {
            self
        }
    }

    pub fn zero() -> (r: Frac)
        ensures
            r == (Frac { num: 0, den: 1 }),
    {
        Frac { num: 0, den: 1 }
    }

    pub fn new(num: i64, den: i64) -> (r: Frac)
        requires
            den >= 1,
        ensures
            r == (Frac { num: num, den: den }),
            r.wf(),
    {
        Frac { num, den }
    }

    pub fn le(&self, other: &Frac) -> (r: bool)
        requires
            self.wf(),
            other.wf(),
        ensures
            r == self.spec_le(*other),
    {
        proof {
            lemma_mul_i64_fits_i128(self.num as int, other.den as int);
            lemma_mul_i64_fits_i128(other.num as int, self.den as int);
        }
        (self.num as i128) * (other.den as i128) <= (other.num as i128) * (self.den as i128)
    }

    pub fn lt(&self, other: &Frac) -> (r: bool)
        requires
            self.wf(),
            other.wf(),
        ensures
            r == self.spec_lt(*other),
    {
        proof {
            lemma_mul_i64_fits_i128(self.num as int, other.den as int);
            lemma_mul_i64_fits_i128(other.num as int, self.den as int);
        }
        (self.num as i128) * (other.den as i128) < (other.num as i128) * (self.den as i128)
    }

    pub fn same(&self, other: &Frac) -> (r: bool)
        requires
            self.wf(),
            other.wf(),
        ensures
            r == self.same_value(*other),
    {
        proof {
            lemma_mul_i64_fits_i128(self.num as int, other.den as int);
            lemma_mul_i64_fits_i128(other.num as int, self.den as int);
        }
        (self.num as i128) * (other.den as i128) == (other.num as i128) * (self.den as i128)
    }

    pub fn max(self, other: Frac) -> (r: Frac)
        requires
            self.wf(),
            other.wf(),
        ensures
            r == self.spec_max(other),
            r.wf(),
    {
        if self.lt(&other) {
            other
        } else {
            self
        }
    }
}

/// `spec_le` is transitive on well-formed rationals.
pub proof fn lemma_frac_le_trans(a: Frac, b: Frac, c: Frac)
    requires
        a.wf(),
        b.wf(),
        c.wf(),
        a.spec_le(b),
        b.spec_le(c),
    ensures
        a.spec_le(c),
{
    assert(a.num * c.den <= c.num * a.den) by (nonlinear_arith)
        requires
            a.den >= 1,
            b.den >= 1,
            c.den >= 1,
            a.num * b.den <= b.num * a.den,
            b.num * c.den <= c.num * b.den,
    ;
}

} // verus!
