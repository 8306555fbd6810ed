//! Exact fractions in the closed interval from zero to one.
//!
//! Plate assembly compares running ratios of counters against configured
//! rates. Keeping the rates as integer fractions makes every such comparison
//! exact: `a / b < n / d` is decided as `a * d < n * b`.

use vstd::prelude::*;

verus! {

/// The rational number `numerator / denominator`.
#[derive(Clone, Copy, Debug, PartialEq, Eq, Structural)]
pub struct Fraction {
    pub numerator: u32,
    pub denominator: u32,
}

impl Fraction {
    /// The fraction denotes a number in `[0, 1]`.
    pub open spec fn valid(self) -> bool {
        0 < self.denominator && self.numerator <= self.denominator
    }

    /// `a / b` is strictly smaller than this fraction (for `b > 0`).
    pub open spec fn exceeds(self, a: int, b: int) -> bool {
        a * self.denominator < self.numerator * b
    }

    /// `a / b` is strictly greater than this fraction (for `b > 0`).
    pub open spec fn exceeded_by(self, a: int, b: int) -> bool {
        a * self.denominator > self.numerator * b
    }

    /// Builds `numerator / denominator` when it lies in `[0, 1]`.
    pub fn new(numerator: u32, denominator: u32) -> (r: Option<Fraction>)
        ensures
            r.is_some() <==> (0 < denominator && numerator <= denominator),
            r matches Some(f) ==> f.numerator == numerator && f.denominator == denominator
                && f.valid(),
    {
        if 0 < denominator && numerator <= denominator {
            Some(Fraction { numerator, denominator })
        } else {
            None
        }
    }

    pub fn is_valid(&self) -> (r: bool)
        ensures
            r == self.valid(),
    {
        0 < self.denominator && self.numerator <= self.denominator
    }

    /// One minus this fraction.
    pub open spec fn complemented(self) -> Fraction {
        Fraction {
            numerator: (self.denominator - self.numerator) as u32,
            denominator: self.denominator,
        }
    }

    /// Computes [`Fraction::complemented`].
    pub fn complement(&self) -> (r: Fraction)
        requires
            self.valid(),
        ensures
            r == self.complemented(),
            r.valid(),
    {
        Fraction {
            numerator: self.denominator - self.numerator,
            denominator: self.denominator,
        }
    }

    /// Decides `a / b < self` without rounding.
    pub fn is_above(&self, a: u64, b: u64) -> (r: bool)
        ensures
            r == self.exceeds(a as int, b as int),
    {
        let lhs: u128 = widening_product(a, self.denominator);
        let rhs: u128 = widening_product(b, self.numerator);
        lhs < rhs
    }

    /// Decides `a / b > self` without rounding.
    pub fn is_below(&self, a: u64, b: u64) -> (r: bool)
        ensures
            r == self.exceeded_by(a as int, b as int),
    {
        let lhs: u128 = widening_product(a, self.denominator);
        let rhs: u128 = widening_product(b, self.numerator);
        lhs > rhs
    }
}

/// The product of a 64-bit and a 32-bit number, which always fits in 128 bits.
pub fn widening_product(a: u64, b: u32) -> (r: u128)
    ensures
        r == a * b,
{
    assert(a * b <= 0xffff_ffff_ffff_ffff * 0xffff_ffff) by (nonlinear_arith)
        requires
            a <= 0xffff_ffff_ffff_ffff,
            b <= 0xffff_ffff,
    ;
    (a as u128) * (b as u128)
}

} // verus!
