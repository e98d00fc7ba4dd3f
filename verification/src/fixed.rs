//! Signed binary fixed-point numbers with 24 fractional bits.
//!
//! A `Fixed` stores a sign and an unsigned magnitude; the number it denotes
//! is `mag / SCALE`, negated when `neg` is set.  Contracts speak of the
//! scaled integer value [`Fixed::val`] (the real number times `SCALE`), so
//! every operation below has an exact mathematical description: products
//! round their magnitude down, i.e. they truncate toward zero.

use vstd::math::abs;
use vstd::prelude::*;

verus! {

/// One unit in fixed-point representation: 2^24.
pub const SCALE: u64 = 0x100_0000;

/// Largest magnitude a well-formed `Fixed` may carry: 2^62.
pub const MAX_MAG: u64 = 0x4000_0000_0000_0000;

/// A signed fixed-point number: `neg` is the sign, `mag` the absolute
/// value scaled by `SCALE`.
#[derive(Clone, Copy, Debug, PartialEq, Eq, Structural)]
pub struct Fixed {
    pub neg: bool,
    pub mag: u64,
}

/// Truncating fixed-point product of two scaled values: the result has the
/// sign of the real product and magnitude `|a|*|b| / SCALE` rounded down.
pub open spec fn fmul(a: int, b: int) -> int {
    if (a < 0) == (b < 0) {
        (abs(a) as int) * (abs(b) as int) / (SCALE as int)
    } else {
        -((abs(a) as int) * (abs(b) as int) / (SCALE as int))
    }
}

impl Fixed {
    /// The scaled integer value this number denotes.
    pub open spec fn val(self) -> int {
        if self.neg {
            -(self.mag as int)
        } else {
            self.mag as int
        }
    }

    /// Well-formed: magnitude in range, and zero is always non-negative,
    /// so that equal values are equal structures.
    pub open spec fn wf(self) -> bool {
        self.mag <= MAX_MAG && (self.mag == 0 ==> !self.neg)
    }

    /// Build a number from a sign and a scaled magnitude.
    pub fn new(neg: bool, mag: u64) -> (r: Self)
        requires
            mag <= MAX_MAG,
        ensures
            r.wf(),
            r.val() == if neg { -(mag as int) } else { mag as int },
    {
        Fixed { neg: neg && mag > 0, mag }
    }

    /// The number zero.
    pub fn zero() -> (r: Self)
        ensures
            r.wf(),
            r.val() == 0,
    {
        Fixed { neg: false, mag: 0 }
    }

    /// A whole number of units.
    pub fn from_units(units: u64, neg: bool) -> (r: Self)
        requires
            units * SCALE <= MAX_MAG,
        ensures
            r.wf(),
            r.val() == if neg { -(units * SCALE) } else { (units * SCALE) as int },
    {
        Fixed::new(neg, units * SCALE)
    }

    /// Negation.
    pub fn negate(self) -> (r: Self)
        requires
            self.wf(),
        ensures
            r.wf(),
            r.val() == -self.val(),
    {
        if self.mag == 0 {
            self
        } else {
            Fixed { neg: !self.neg, mag: self.mag }
        }
    }

    /// Exact sum.
    pub fn add(self, other: Self) -> (r: Self)
        requires
            self.wf(),
            other.wf(),
            -(MAX_MAG as int) <= self.val() + other.val() <= MAX_MAG as int,
        ensures
            r.wf(),
            r.val() == self.val() + other.val(),
    {
        if self.neg == other.neg {
            Fixed { neg: self.neg, mag: self.mag + other.mag }
        } else if self.mag >= other.mag {
            Fixed { neg: self.neg && self.mag > other.mag, mag: self.mag - other.mag }
        } else {
            Fixed { neg: other.neg, mag: other.mag - self.mag }
        }
    }

    /// Exact difference.
    pub fn sub(self, other: Self) -> (r: Self)
        requires
            self.wf(),
            other.wf(),
            -(MAX_MAG as int) <= self.val() - other.val() <= MAX_MAG as int,
        ensures
            r.wf(),
            r.val() == self.val() - other.val(),
    {
        self.add(other.negate())
    }

    /// Fixed-point product, truncating toward zero.
    pub fn mul(self, other: Self) -> (r: Self)
        requires
            self.wf(),
            other.wf(),
            self.mag * other.mag / (SCALE as int) <= MAX_MAG,
        ensures
            r.wf(),
            r.val() == fmul(self.val(), other.val()),
    {
        let wide: u128 = (self.mag as u128) * (other.mag as u128);
        let mag: u64 = (wide / (SCALE as u128)) as u64;
        proof {
            assert(wide == self.mag * other.mag);
            assert(wide / (SCALE as u128) == self.mag * other.mag / (SCALE as int));
            assert(abs(self.val()) == self.mag as int);
            assert(abs(other.val()) == other.mag as int);
        }
        Fixed::new(self.neg != other.neg, mag)
    }
}

} // verus!
