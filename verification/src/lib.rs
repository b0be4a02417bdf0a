//! Grouped aggregation over columnar, chunked, nullable integer arrays.
//!
//! Given a partition of row positions into groups (either explicit index
//! lists or contiguous slices) and a column, the engine computes one
//! aggregate value per group: sum, min, max, mean, variance, quantile,
//! median and bitwise reductions. Missing values are propagated per
//! reducer, structural properties of the grouping (sortedness, overlap)
//! are exploited for speed, and every result is proved equal to a single
//! mathematical specification, independent of the execution path taken.

use vstd::prelude::*;

pub mod agg;
pub mod column;
pub mod decimal;
pub mod gather;
pub mod groups;
pub mod laws;
pub mod model;
pub mod quantile;
pub mod rational;
pub mod rolling;
pub mod time;

verus! {

/// Error reported by the aggregation entry points.
///
/// Out-of-bounds group membership is a checked error rather than an
/// unchecked precondition: the offending group is identified so the
/// caller can diagnose the bad descriptor. The two remaining variants
/// guard the exact moment arithmetic of the variance kernels, which is
/// carried out in 128-bit integers.
#[derive(Clone, Copy, PartialEq, Eq, Structural, Debug)]
pub enum AggError {
    /// A group references a row position outside the column.
    GroupOutOfBounds { group: usize },
    /// A column value is too large in magnitude for exact moment arithmetic.
    ValueTooLarge { position: usize },
    /// A group has too many members for exact moment arithmetic.
    GroupTooLong { group: usize },
}

} // verus!
