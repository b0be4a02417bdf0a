//! Exact rational results and quantile parameters.
//!
//! Reducers whose mathematical result is fractional (mean, variance,
//! quantile, median) return an exact rational instead of an inexact
//! native approximation; the numerator and denominator are the very
//! quantities the specification names, so results from the rolling and
//! the gather-reduce strategy agree bit for bit.

use vstd::prelude::*;

verus! {

/// An exact rational value; the denominator is always positive.
#[derive(Clone, Copy, PartialEq, Eq, Structural, Debug)]
pub struct Rational {
    pub num: i128,
    pub den: i128,
}

/// An optional rational result matches an optional pair of unbounded
/// integers from the specification.
pub open spec fn rat_matches(r: Option<Rational>, s: Option<(int, int)>) -> bool {
    match r {
        Some(q) => s matches Some(p) && q.num == p.0 && q.den == p.1,
        None => s is None,
    }
}

/// A quantile probability as a fraction `num / den` of unsigned integers.
/// A probability outside `[0, 1]` (here: `num > den`, or `den == 0`) is a
/// call-level precondition violation that the engine answers with an
/// all-null result column rather than a hard failure.
#[derive(Clone, Copy, PartialEq, Eq, Structural, Debug)]
pub struct QuantileProb {
    pub num: u64,
    pub den: u64,
}

/// Largest denominator the exact quantile arithmetic supports.
pub const QUANTILE_DEN_LIMIT: u64 = 0x1_0000_0000;

impl QuantileProb {
    /// The probability lies in `[0, 1]`.
    pub open spec fn valid(self) -> bool {
        1 <= self.den && self.num <= self.den
    }

    /// The denominator is small enough for exact 128-bit interpolation.
    pub open spec fn small(self) -> bool {
        self.den <= QUANTILE_DEN_LIMIT
    }

    /// Runtime test of `valid`.
    pub fn is_valid(&self) -> (r: bool)
        ensures
            r == self.valid(),
    {
        1 <= self.den && self.num <= self.den
    }
}

/// How a fractional rank between two order statistics is resolved.
#[derive(Clone, Copy, PartialEq, Eq, Structural, Debug)]
pub enum QuantileMethod {
    Nearest,
    Lower,
    Higher,
    Midpoint,
    Linear,
}

} // verus!
