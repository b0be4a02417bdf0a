//! The decimal logical-type adapter: a fixed-point wrapper around a
//! physical integer column.
//!
//! A stored physical value `v` at scale `s` denotes `v / 10^s`. The
//! adapter never reimplements reduction logic: it hands the physical
//! column to the engine and rewraps the result, rescaling fractional
//! results by the scale factor where the decimal value domain requires
//! it.

use vstd::prelude::*;

use crate::AggError;
use crate::agg::spec_median;
use crate::column::Column;
use crate::groups::GroupsType;
use crate::model::{spec_max, spec_mean, spec_min, spec_sum};
use crate::rational::{rat_matches, Rational};

verus! {

/// Largest decimal scale the adapter supports: `10^38` still fits the
/// widened integer type.
pub const MAX_DECIMAL_SCALE: u32 = 38;

/// `10^e`, the denominator a decimal scale stands for.
pub open spec fn pow10(e: nat) -> int
    decreases e,
{
    if e == 0 {
        1
    } else {
        10 * pow10((e - 1) as nat)
    }
}

/// `10^e` grows monotonically and stays within the widened integer type
/// for every supported scale.
pub proof fn lemma_pow10_bounds(e: nat)
    requires
        e <= MAX_DECIMAL_SCALE,
    ensures
        1 <= pow10(e),
        pow10(e) <= pow10(MAX_DECIMAL_SCALE as nat),
    decreases MAX_DECIMAL_SCALE - e,
{
    lemma_pow10_positive(e);
    if e < MAX_DECIMAL_SCALE {
        lemma_pow10_bounds((e + 1) as nat);
    }
}

/// The numeric value of the largest supported scale factor.
pub proof fn lemma_pow10_val()
    ensures
        pow10(MAX_DECIMAL_SCALE as nat) == 100000000000000000000000000000000000000,
{
    assert(pow10(0) == 1);
    assert(pow10(1) == 10);
    assert(pow10(2) == 100);
    assert(pow10(3) == 1000);
    assert(pow10(4) == 10000);
    assert(pow10(5) == 100000);
    assert(pow10(6) == 1000000);
    assert(pow10(7) == 10000000);
    assert(pow10(8) == 100000000);
    assert(pow10(9) == 1000000000);
    assert(pow10(10) == 10000000000);
    assert(pow10(11) == 100000000000);
    assert(pow10(12) == 1000000000000);
    assert(pow10(13) == 10000000000000);
    assert(pow10(14) == 100000000000000);
    assert(pow10(15) == 1000000000000000);
    assert(pow10(16) == 10000000000000000);
    assert(pow10(17) == 100000000000000000);
    assert(pow10(18) == 1000000000000000000);
    assert(pow10(19) == 10000000000000000000);
    assert(pow10(20) == 100000000000000000000);
    assert(pow10(21) == 1000000000000000000000);
    assert(pow10(22) == 10000000000000000000000);
    assert(pow10(23) == 100000000000000000000000);
    assert(pow10(24) == 1000000000000000000000000);
    assert(pow10(25) == 10000000000000000000000000);
    assert(pow10(26) == 100000000000000000000000000);
    assert(pow10(27) == 1000000000000000000000000000);
    assert(pow10(28) == 10000000000000000000000000000);
    assert(pow10(29) == 100000000000000000000000000000);
    assert(pow10(30) == 1000000000000000000000000000000);
    assert(pow10(31) == 10000000000000000000000000000000);
    assert(pow10(32) == 100000000000000000000000000000000);
    assert(pow10(33) == 1000000000000000000000000000000000);
    assert(pow10(34) == 10000000000000000000000000000000000);
    assert(pow10(35) == 100000000000000000000000000000000000);
    assert(pow10(36) == 1000000000000000000000000000000000000);
    assert(pow10(37) == 10000000000000000000000000000000000000);
    assert(pow10(38) == 100000000000000000000000000000000000000);
}

proof fn lemma_pow10_positive(e: nat)
    ensures
        1 <= pow10(e),
    decreases e,
{
    if e > 0 {
        lemma_pow10_positive((e - 1) as nat);
    }
}

/// A decimal column: a physical integer column with a precision and a
/// scale.
#[derive(Clone, Debug)]
pub struct DecimalColumn {
    pub physical: Column,
    pub precision: u8,
    pub scale: u32,
}

impl DecimalColumn {
    /// Well-formedness: the physical column is well-formed and the scale
    /// is supported.
    pub open spec fn wf(self) -> bool {
        &&& self.physical.wf()
        &&& self.scale <= MAX_DECIMAL_SCALE
    }
}

/// The engine-facing wrapper of a decimal column, mirroring how every
/// logical type reaches the engine: cast to the physical representation,
/// aggregate, rewrap.
#[derive(Clone, Debug)]
pub struct SeriesWrap(pub DecimalColumn);

impl SeriesWrap {
    pub open spec fn wf(self) -> bool {
        self.0.wf()
    }

    /// Applies a physical-column transformation and rewraps the result as
    /// a decimal of the same precision and scale.
    pub fn apply_physical_to_s<F: Fn(&Column) -> Column>(&self, f: F) -> (r: SeriesWrap)
        requires
            f.requires((&self.0.physical,)),
        ensures
            f.ensures((&self.0.physical,), r.0.physical),
            r.0.precision == self.0.precision,
            r.0.scale == self.0.scale,
    {
        let out = f(&self.0.physical);
        SeriesWrap(DecimalColumn { physical: out, precision: self.0.precision, scale: self.0.scale })
    }

    /// Applies a function of the physical column, handing its result out
    /// unwrapped.
    pub fn apply_physical<T, F: Fn(&Column) -> T>(&self, f: F) -> (r: T)
        requires
            f.requires((&self.0.physical,)),
        ensures
            f.ensures((&self.0.physical,), r),
    {
        f(&self.0.physical)
    }

    /// The denominator this column's scale stands for: `10^scale`.
    pub fn scale_factor(&self) -> (r: u128)
        requires
            self.wf(),
        ensures
            r as int == pow10(self.0.scale as nat),
    {
        let mut r: u128 = 1;
        let mut e: u32 = 0;
        while e < self.0.scale
            invariant
                e <= self.0.scale,
                self.0.scale <= MAX_DECIMAL_SCALE,
                r as int == pow10(e as nat),
            decreases self.0.scale - e,
        {
            proof {
                lemma_pow10_bounds((e + 1) as nat);
                lemma_pow10_val();
            }
            r = r * 10;
            e += 1;
        }
        r
    }

    /// Rescales a rational scalar computed on the physical column back to
    /// the decimal value domain by dividing by the scale factor (the
    /// denominator is multiplied); a null scalar stays null. The rescaled
    /// denominator must fit the widened integer type.
    pub fn apply_scale(&self, scalar: Option<Rational>) -> (r: Option<Rational>)
        requires
            self.wf(),
            scalar matches Some(q) ==> 1 <= q.den && q.den * pow10(self.0.scale as nat)
                <= 0x7fff_ffff_ffff_ffff_ffff_ffff_ffff_ffff,
        ensures
            match scalar {
                None => r is None,
                Some(q) => r matches Some(p) && p.num == q.num && p.den as int == q.den as int
                    * pow10(self.0.scale as nat),
            },
    {
        match scalar {
            None => None,
            Some(q) => {
                let factor = self.scale_factor();
                proof {
                    lemma_pow10_bounds(self.0.scale as nat);
                    lemma_pow10_val();
                    assert(q.den as int * (factor as i128) as int >= 1) by (nonlinear_arith)
                        requires
                            q.den >= 1,
                            (factor as i128) as int >= 1,
                    ;
                }
                Some(Rational { num: q.num, den: q.den * (factor as i128) })
            },
        }
    }

    /// Per-group sum on the physical column; the results carry the same
    /// scale as the column.
    pub fn agg_sum(&self, groups: &GroupsType) -> (r: Result<Vec<i128>, AggError>)
        requires
            self.wf(),
        ensures
            r is Ok <==> groups.in_bounds(self.0.physical@.len() as int),
            match r {
                Ok(out) => out@.len() == groups.spec_len() && forall|i: int|
                    0 <= i < groups.spec_len() ==> out@[i] as int == spec_sum(
                        #[trigger] groups.group_cells(self.0.physical@, i),
                    ),
                Err(e) => groups.first_oob_error(self.0.physical@.len() as int, e),
            },
    {
        self.0.physical.agg_sum(groups)
    }

    /// Per-group minimum on the physical column; same scale.
    pub fn agg_min(&self, groups: &GroupsType) -> (r: Result<Vec<Option<i64>>, AggError>)
        requires
            self.wf(),
        ensures
            r is Ok <==> groups.in_bounds(self.0.physical@.len() as int),
            match r {
                Ok(out) => out@.len() == groups.spec_len() && forall|i: int|
                    0 <= i < groups.spec_len() ==> out@[i] == spec_min(
                        #[trigger] groups.group_cells(self.0.physical@, i),
                    ),
                Err(e) => groups.first_oob_error(self.0.physical@.len() as int, e),
            },
    {
        self.0.physical.agg_min(groups)
    }

    /// Per-group maximum on the physical column; same scale.
    pub fn agg_max(&self, groups: &GroupsType) -> (r: Result<Vec<Option<i64>>, AggError>)
        requires
            self.wf(),
        ensures
            r is Ok <==> groups.in_bounds(self.0.physical@.len() as int),
            match r {
                Ok(out) => out@.len() == groups.spec_len() && forall|i: int|
                    0 <= i < groups.spec_len() ==> out@[i] == spec_max(
                        #[trigger] groups.group_cells(self.0.physical@, i),
                    ),
                Err(e) => groups.first_oob_error(self.0.physical@.len() as int, e),
            },
    {
        self.0.physical.agg_max(groups)
    }

    /// Sum of the whole physical column; the result carries the same
    /// scale.
    pub fn sum_reduce(&self) -> (r: i128)
        requires
            self.wf(),
        ensures
            r as int == spec_sum(self.0.physical@),
    {
        self.0.physical.sum_reduce()
    }

    /// Minimum of the whole physical column; same scale, null when no
    /// live value exists.
    pub fn min_reduce(&self) -> (r: Option<i64>)
        requires
            self.wf(),
        ensures
            r == spec_min(self.0.physical@),
    {
        self.0.physical.min_reduce()
    }

    /// Maximum of the whole physical column; same scale, null when no
    /// live value exists.
    pub fn max_reduce(&self) -> (r: Option<i64>)
        requires
            self.wf(),
        ensures
            r == spec_max(self.0.physical@),
    {
        self.0.physical.max_reduce()
    }

    /// Mean of the whole column in the decimal value domain: the physical
    /// mean rescaled by the scale factor. The rescaled denominator (live
    /// count times scale factor) must fit the widened integer type.
    pub fn mean(&self) -> (r: Option<Rational>)
        requires
            self.wf(),
            self.0.physical@.len() as int * pow10(self.0.scale as nat)
                <= 0x7fff_ffff_ffff_ffff_ffff_ffff_ffff_ffff,
        ensures
            match spec_mean(self.0.physical@) {
                None => r is None,
                Some(p) => r matches Some(q) && q.num == p.0 && q.den as int == p.1 * pow10(
                    self.0.scale as nat,
                ),
            },
    {
        let m = self.0.physical.mean_reduce();
        proof {
            if m is Some {
                lemma_pow10_bounds(self.0.scale as nat);
                crate::model::lemma_live_len(self.0.physical@);
                vstd::arithmetic::mul::lemma_mul_inequality(
                    m->Some_0.den as int,
                    self.0.physical@.len() as int,
                    pow10(self.0.scale as nat),
                );
            }
        }
        self.apply_scale(m)
    }

    /// Median of the whole column in the decimal value domain: the
    /// physical median rescaled by the scale factor. The denominator of a
    /// linear median is at most two, so twice the scale factor must fit
    /// the widened integer type.
    pub fn median_reduce(&self) -> (r: Option<Rational>)
        requires
            self.wf(),
            2 * pow10(self.0.scale as nat) <= 0x7fff_ffff_ffff_ffff_ffff_ffff_ffff_ffff,
        ensures
            match spec_median(self.0.physical@) {
                None => r is None,
                Some(p) => r matches Some(q) && q.num == p.0 && q.den as int == p.1 * pow10(
                    self.0.scale as nat,
                ),
            },
    {
        let m = self.0.physical.median_reduce();
        proof {
            if m is Some {
                lemma_pow10_bounds(self.0.scale as nat);
                lemma_median_den_small(self.0.physical@);
                vstd::arithmetic::mul::lemma_mul_inequality(
                    m->Some_0.den as int,
                    2,
                    pow10(self.0.scale as nat),
                );
            }
        }
        self.apply_scale(m)
    }

    /// Quantile of the whole column in the decimal value domain: the
    /// physical quantile rescaled by the scale factor. The rescaled
    /// denominator (at most the probability's denominator or two, times
    /// the scale factor) must fit the widened integer type.
    pub fn quantile_reduce(&self, prob: crate::rational::QuantileProb, method:
        crate::rational::QuantileMethod) -> (r: Option<Rational>)
        requires
            self.wf(),
            prob.small(),
            prob.den * pow10(self.0.scale as nat) <= 0x7fff_ffff_ffff_ffff_ffff_ffff_ffff_ffff,
            2 * pow10(self.0.scale as nat) <= 0x7fff_ffff_ffff_ffff_ffff_ffff_ffff_ffff,
        ensures
            !prob.valid() ==> r is None,
            prob.valid() ==> match crate::quantile::spec_quantile(
                self.0.physical@,
                prob.num as int,
                prob.den as int,
                method,
            ) {
                None => r is None,
                Some(p) => r matches Some(q) && q.num == p.0 && q.den as int == p.1 * pow10(
                    self.0.scale as nat,
                ),
            },
    {
        let m = self.0.physical.quantile_reduce(prob, method);
        proof {
            if m is Some {
                lemma_pow10_bounds(self.0.scale as nat);
                lemma_quantile_den_small(
                    self.0.physical@,
                    prob.num as int,
                    prob.den as int,
                    method,
                );
                let d = m->Some_0.den as int;
                if d <= 2 {
                    vstd::arithmetic::mul::lemma_mul_inequality(
                        d,
                        2,
                        pow10(self.0.scale as nat),
                    );
                } else {
                    vstd::arithmetic::mul::lemma_mul_inequality(
                        d,
                        prob.den as int,
                        pow10(self.0.scale as nat),
                    );
                }
            }
        }
        self.apply_scale(m)
    }
}

/// A linear median's denominator is 1, 2 or the probability's denominator
/// 2: never more than two.
proof fn lemma_median_den_small(cells: Seq<Option<i64>>)
    ensures
        match spec_median(cells) {
            None => true,
            Some(p) => 1 <= p.1 <= 2,
        },
{
}

/// A quantile's denominator is 1, 2 or the probability's denominator.
proof fn lemma_quantile_den_small(cells: Seq<Option<i64>>, pn: int, pd: int, m:
    crate::rational::QuantileMethod)
    requires
        pd >= 1,
    ensures
        match crate::quantile::spec_quantile(cells, pn, pd, m) {
            None => true,
            Some(p) => p.1 == 1 || p.1 == 2 || p.1 == pd,
        },
{
}


} // verus!
