//! Gather-reduce kernels and the parallel executor.
//!
//! For each group, this path materializes the group's member cells (by
//! positional indexing for index groups, by sub-slicing for slice groups)
//! and folds them with a scalar reducer. A null-free fast path skips
//! validity checks entirely; the null-aware path tracks the live count so
//! mean and variance divide by the correct denominator. Groups are
//! independent, so the executor fans them out across the process-wide
//! worker pool, each worker writing its single result slot in group order.

use vstd::prelude::*;

use rayon::iter::{IndexedParallelIterator, IntoParallelRefIterator, ParallelIterator};

use crate::column::{no_nulls, Chunk};
use crate::groups::{idx_group_in_bounds, idx_groups_in_bounds, slice_groups_in_bounds, IdxGroup,
    SliceGroup};
use crate::model::{
    cells_within, idx_cells, lemma_abs_mul_bound, lemma_and_push, lemma_live_len, lemma_live_push,
    lemma_live_within, lemma_max_push, lemma_min_push, lemma_or_push, lemma_sum_push,
    lemma_sum_sq_push, lemma_xor_push, live_values, max_of, min_of, slice_cells, spec_and,
    spec_max, spec_mean, spec_min, spec_or, spec_sum, spec_var, spec_xor, sum_of, sum_sq_of,
    var_pair,
};
use crate::quantile::{quantile_of_sorted, sort_values, sorted_live, spec_quantile};
use crate::rational::{rat_matches, QuantileMethod, QuantileProb, Rational};

verus! {

/// Largest value magnitude the exact variance arithmetic supports.
pub const MOMENT_VALUE_LIMIT: i64 = 0x7fff_ffff;

/// Largest group size the exact variance arithmetic supports.
pub const MOMENT_GROUP_LIMIT: usize = 0x7fff_ffff;

/// The reducer applied to every group, with its parameters.
#[derive(Clone, Copy, PartialEq, Eq, Structural, Debug)]
pub enum ReduceOp {
    Sum,
    Min,
    Max,
    Mean,
    Var { ddof: u8 },
    Quantile { prob: QuantileProb, method: QuantileMethod },
    And,
    Or,
    Xor,
}

/// One group's aggregate: a nullable native value, a widened sum, or an
/// exact rational.
#[derive(Clone, Copy, PartialEq, Eq, Structural, Debug)]
pub enum AggValue {
    Int(Option<i64>),
    Wide(i128),
    Frac(Option<Rational>),
}

/// What the reducer's result must be for a group with cells `gc`.
pub open spec fn reduce_matches(v: AggValue, gc: Seq<Option<i64>>, op: ReduceOp) -> bool {
    match op {
        ReduceOp::Sum => v matches AggValue::Wide(x) && x as int == spec_sum(gc),
        ReduceOp::Min => v matches AggValue::Int(o) && o == spec_min(gc),
        ReduceOp::Max => v matches AggValue::Int(o) && o == spec_max(gc),
        ReduceOp::Mean => v matches AggValue::Frac(r) && rat_matches(r, spec_mean(gc)),
        ReduceOp::Var { ddof } => v matches AggValue::Frac(r) && rat_matches(
            r,
            spec_var(gc, ddof as int),
        ),
        ReduceOp::Quantile { prob, method } => v matches AggValue::Frac(r) && rat_matches(
            r,
            spec_quantile(gc, prob.num as int, prob.den as int, method),
        ),
        ReduceOp::And => v matches AggValue::Int(o) && o == spec_and(gc),
        ReduceOp::Or => v matches AggValue::Int(o) && o == spec_or(gc),
        ReduceOp::Xor => v matches AggValue::Int(o) && o == spec_xor(gc),
    }
}

/// The reducer's machine-limit preconditions, checked once per call:
/// exact variance arithmetic needs bounded values and group sizes, exact
/// quantile interpolation a valid probability with a small denominator.
pub open spec fn op_safe(op: ReduceOp, cells: Seq<Option<i64>>, group_len: int) -> bool {
    match op {
        ReduceOp::Var { .. } => cells_within(cells, MOMENT_VALUE_LIMIT as int) && group_len
            <= MOMENT_GROUP_LIMIT,
        ReduceOp::Quantile { prob, .. } => prob.valid() && prob.small(),
        _ => true,
    }
}

/// Reads one cell of a chunk.
pub fn chunk_get(c: &Chunk, i: usize) -> (r: Option<i64>)
    requires
        c.wf(),
        i < c@.len(),
    ensures
        r == c@[i as int],
{
    let valid = match &c.validity {
        None => true,
        Some(v) => v[i],
    };
    if valid {
        Some(c.values[i])
    } else {
        None
    }
}

/// Materializes the cells of an index group by positional indexing.
pub fn take_cells_idx(chunk: &Chunk, members: &Vec<usize>) -> (out: Vec<Option<i64>>)
    requires
        chunk.wf(),
        forall|i: int| 0 <= i < members@.len() ==> (#[trigger] members@[i]) < chunk@.len(),
    ensures
        out@ == idx_cells(chunk@, members@),
{
    let mut out: Vec<Option<i64>> = Vec::new();
    let mut k: usize = 0;
    while k < members.len()
        invariant
            chunk.wf(),
            k <= members@.len(),
            forall|i: int| 0 <= i < members@.len() ==> (#[trigger] members@[i]) < chunk@.len(),
            out@ == idx_cells(chunk@, members@.take(k as int)),
        decreases members@.len() - k,
    {
        let cell = chunk_get(chunk, members[k]);
        out.push(cell);
        proof {
            assert(out@ =~= idx_cells(chunk@, members@.take(k + 1)));
        }
        k += 1;
    }
    proof {
        assert(members@.take(members@.len() as int) =~= members@);
    }
    out
}

/// Materializes the cells of a slice group by sub-slicing.
pub fn take_cells_slice(chunk: &Chunk, start: usize, len: usize) -> (out: Vec<Option<i64>>)
    requires
        chunk.wf(),
        start + len <= chunk@.len(),
    ensures
        out@ == slice_cells(chunk@, start as int, len as int),
{
    let n_chunk = chunk.values.len();
    let mut out: Vec<Option<i64>> = Vec::new();
    let mut k: usize = 0;
    while k < len
        invariant
            chunk.wf(),
            k <= len,
            start + len <= chunk@.len(),
            chunk@.len() == n_chunk,
            out@ == slice_cells(chunk@, start as int, k as int),
        decreases len - k,
    {
        let cell = chunk_get(chunk, start + k);
        out.push(cell);
        proof {
            assert(out@ =~= slice_cells(chunk@, start as int, k + 1));
        }
        k += 1;
    }
    out
}

/// Materializes the values of an index group of a null-free chunk,
/// skipping validity checks entirely.
pub fn take_values_idx(chunk: &Chunk, members: &Vec<usize>) -> (out: Vec<i64>)
    requires
        chunk.wf(),
        no_nulls(chunk@),
        forall|i: int| 0 <= i < members@.len() ==> (#[trigger] members@[i]) < chunk@.len(),
    ensures
        out@ == live_values(idx_cells(chunk@, members@)),
{
    let mut out: Vec<i64> = Vec::new();
    let mut k: usize = 0;
    while k < members.len()
        invariant
            chunk.wf(),
            no_nulls(chunk@),
            k <= members@.len(),
            forall|i: int| 0 <= i < members@.len() ==> (#[trigger] members@[i]) < chunk@.len(),
            out@ == live_values(idx_cells(chunk@, members@.take(k as int))),
        decreases members@.len() - k,
    {
        let m = members[k];
        out.push(chunk.values[m]);
        proof {
            let pre = idx_cells(chunk@, members@.take(k as int));
            assert(idx_cells(chunk@, members@.take(k + 1)) =~= pre.push(chunk@[m as int]));
            assert(chunk@[m as int] == Some(chunk.values@[m as int]));
            lemma_live_push(pre, chunk@[m as int]);
        }
        k += 1;
    }
    proof {
        assert(members@.take(members@.len() as int) =~= members@);
    }
    out
}

/// Materializes the values of a slice group of a null-free chunk,
/// skipping validity checks entirely.
pub fn take_values_slice(chunk: &Chunk, start: usize, len: usize) -> (out: Vec<i64>)
    requires
        chunk.wf(),
        no_nulls(chunk@),
        start + len <= chunk@.len(),
    ensures
        out@ == live_values(slice_cells(chunk@, start as int, len as int)),
{
    let n_chunk = chunk.values.len();
    let mut out: Vec<i64> = Vec::new();
    let mut k: usize = 0;
    while k < len
        invariant
            chunk.wf(),
            no_nulls(chunk@),
            k <= len,
            start + len <= chunk@.len(),
            chunk@.len() == n_chunk,
            out@ == live_values(slice_cells(chunk@, start as int, k as int)),
        decreases len - k,
    {
        out.push(chunk.values[start + k]);
        proof {
            let pre = slice_cells(chunk@, start as int, k as int);
            assert(slice_cells(chunk@, start as int, k + 1) =~= pre.push(
                chunk@[start + k as int],
            ));
            assert(chunk@[start + k as int] == Some(chunk.values@[start + k as int]));
            lemma_live_push(pre, chunk@[start + k as int]);
        }
        k += 1;
    }
    out
}

/// The live (non-null) values of materialized cells, in order.
pub fn live_cells(gc: &Vec<Option<i64>>) -> (out: Vec<i64>)
    ensures
        out@ == live_values(gc@),
{
    let mut out: Vec<i64> = Vec::new();
    let mut k: usize = 0;
    while k < gc.len()
        invariant
            k <= gc@.len(),
            out@ == live_values(gc@.take(k as int)),
        decreases gc@.len() - k,
    {
        proof {
            assert(gc@.take(k + 1) =~= gc@.take(k as int).push(gc@[k as int]));
            lemma_live_push(gc@.take(k as int), gc@[k as int]);
        }
        match gc[k] {
            Some(v) => {
                out.push(v);
            },
            None => {},
        }
        k += 1;
    }
    proof {
        assert(gc@.take(gc@.len() as int) =~= gc@);
    }
    out
}

/// Sum of materialized values, widened to avoid overflow.
pub fn sum_values(vals: &Vec<i64>) -> (r: i128)
    ensures
        r as int == sum_of(vals@),
{
    let n = vals.len();
    let mut acc: i128 = 0;
    let mut k: usize = 0;
    while k < n
        invariant
            k <= n,
            n == vals@.len(),
            acc as int == sum_of(vals@.take(k as int)),
            -(k as int) * 0x8000_0000_0000_0000 <= acc as int,
            acc as int <= (k as int) * 0x7fff_ffff_ffff_ffff,
        decreases n - k,
    {
        proof {
            assert(vals@.take(k + 1) =~= vals@.take(k as int).push(vals@[k as int]));
            lemma_sum_push(vals@.take(k as int), vals@[k as int]);
        }
        acc = acc + (vals[k] as i128);
        k += 1;
    }
    proof {
        assert(vals@.take(n as int) =~= vals@);
    }
    acc
}

/// Minimum of non-empty materialized values.
pub fn min_values(vals: &Vec<i64>) -> (r: i64)
    requires
        vals@.len() > 0,
    ensures
        r == min_of(vals@),
{
    let n = vals.len();
    let mut cur = vals[0];
    assert(vals@.take(1) =~= seq![vals@[0]]);
    let mut k: usize = 1;
    while k < n
        invariant
            1 <= k <= n,
            n == vals@.len(),
            cur == min_of(vals@.take(k as int)),
        decreases n - k,
    {
        proof {
            assert(vals@.take(k + 1) =~= vals@.take(k as int).push(vals@[k as int]));
            lemma_min_push(vals@.take(k as int), vals@[k as int]);
        }
        let v = vals[k];
        if v < cur {
            cur = v;
        }
        k += 1;
    }
    proof {
        assert(vals@.take(n as int) =~= vals@);
    }
    cur
}

/// Maximum of non-empty materialized values.
pub fn max_values(vals: &Vec<i64>) -> (r: i64)
    requires
        vals@.len() > 0,
    ensures
        r == max_of(vals@),
{
    let n = vals.len();
    let mut cur = vals[0];
    assert(vals@.take(1) =~= seq![vals@[0]]);
    let mut k: usize = 1;
    while k < n
        invariant
            1 <= k <= n,
            n == vals@.len(),
            cur == max_of(vals@.take(k as int)),
        decreases n - k,
    {
        proof {
            assert(vals@.take(k + 1) =~= vals@.take(k as int).push(vals@[k as int]));
            lemma_max_push(vals@.take(k as int), vals@[k as int]);
        }
        let v = vals[k];
        if v > cur {
            cur = v;
        }
        k += 1;
    }
    proof {
        assert(vals@.take(n as int) =~= vals@);
    }
    cur
}

/// Sum and live count of materialized cells, in a single pass.
pub fn sum_count_cells(gc: &Vec<Option<i64>>) -> (r: (i128, usize))
    ensures
        r.0 as int == spec_sum(gc@),
        r.1 == live_values(gc@).len(),
{
    let n = gc.len();
    let mut acc: i128 = 0;
    let mut cnt: usize = 0;
    let mut k: usize = 0;
    while k < n
        invariant
            k <= n,
            n == gc@.len(),
            acc as int == sum_of(live_values(gc@.take(k as int))),
            cnt == live_values(gc@.take(k as int)).len(),
            cnt <= k,
            -(cnt as int) * 0x8000_0000_0000_0000 <= acc as int,
            acc as int <= (cnt as int) * 0x7fff_ffff_ffff_ffff,
        decreases n - k,
    {
        proof {
            assert(gc@.take(k + 1) =~= gc@.take(k as int).push(gc@[k as int]));
            lemma_live_push(gc@.take(k as int), gc@[k as int]);
            match gc@[k as int] {
                Some(v) => {
                    lemma_sum_push(live_values(gc@.take(k as int)), v);
                },
                None => {},
            }
        }
        match gc[k] {
            Some(v) => {
                acc = acc + (v as i128);
                cnt = cnt + 1;
            },
            None => {},
        }
        k += 1;
    }
    proof {
        assert(gc@.take(n as int) =~= gc@);
    }
    (acc, cnt)
}

/// Minimum of materialized cells, null when no live value exists.
pub fn min_cells(gc: &Vec<Option<i64>>) -> (r: Option<i64>)
    ensures
        r == spec_min(gc@),
{
    let n = gc.len();
    let mut cur: Option<i64> = None;
    let mut k: usize = 0;
    while k < n
        invariant
            k <= n,
            n == gc@.len(),
            cur == spec_min(gc@.take(k as int)),
        decreases n - k,
    {
        proof {
            assert(gc@.take(k + 1) =~= gc@.take(k as int).push(gc@[k as int]));
            lemma_live_push(gc@.take(k as int), gc@[k as int]);
            match gc@[k as int] {
                Some(v) => {
                    lemma_min_push(live_values(gc@.take(k as int)), v);
                },
                None => {},
            }
        }
        match gc[k] {
            Some(v) => {
                cur = match cur {
                    None => Some(v),
                    Some(m) => if v < m {
                        Some(v)
                    } else {
                        Some(m)
                    },
                };
            },
            None => {},
        }
        k += 1;
    }
    proof {
        assert(gc@.take(n as int) =~= gc@);
    }
    cur
}

/// Maximum of materialized cells, null when no live value exists.
pub fn max_cells(gc: &Vec<Option<i64>>) -> (r: Option<i64>)
    ensures
        r == spec_max(gc@),
{
    let n = gc.len();
    let mut cur: Option<i64> = None;
    let mut k: usize = 0;
    while k < n
        invariant
            k <= n,
            n == gc@.len(),
            cur == spec_max(gc@.take(k as int)),
        decreases n - k,
    {
        proof {
            assert(gc@.take(k + 1) =~= gc@.take(k as int).push(gc@[k as int]));
            lemma_live_push(gc@.take(k as int), gc@[k as int]);
            match gc@[k as int] {
                Some(v) => {
                    lemma_max_push(live_values(gc@.take(k as int)), v);
                },
                None => {},
            }
        }
        match gc[k] {
            Some(v) => {
                cur = match cur {
                    None => Some(v),
                    Some(m) => if v > m {
                        Some(v)
                    } else {
                        Some(m)
                    },
                };
            },
            None => {},
        }
        k += 1;
    }
    proof {
        assert(gc@.take(n as int) =~= gc@);
    }
    cur
}

/// Left-to-right bitwise-and fold over the live values of the cells,
/// null when no live value exists.
pub fn and_cells(gc: &Vec<Option<i64>>) -> (r: Option<i64>)
    ensures
        r == spec_and(gc@),
{
    let n = gc.len();
    let mut cur: Option<i64> = None;
    let mut k: usize = 0;
    while k < n
        invariant
            k <= n,
            n == gc@.len(),
            cur == spec_and(gc@.take(k as int)),
        decreases n - k,
    {
        proof {
            assert(gc@.take(k + 1) =~= gc@.take(k as int).push(gc@[k as int]));
            lemma_live_push(gc@.take(k as int), gc@[k as int]);
            match gc@[k as int] {
                Some(v) => {
                    lemma_and_push(live_values(gc@.take(k as int)), v);
                },
                None => {},
            }
        }
        match gc[k] {
            Some(v) => {
                cur = match cur {
                    None => Some(v),
                    Some(m) => Some(m & v),
                };
            },
            None => {},
        }
        k += 1;
    }
    proof {
        assert(gc@.take(n as int) =~= gc@);
    }
    cur
}

/// Left-to-right bitwise-or fold over the live values of the cells,
/// null when no live value exists.
pub fn or_cells(gc: &Vec<Option<i64>>) -> (r: Option<i64>)
    ensures
        r == spec_or(gc@),
{
    let n = gc.len();
    let mut cur: Option<i64> = None;
    let mut k: usize = 0;
    while k < n
        invariant
            k <= n,
            n == gc@.len(),
            cur == spec_or(gc@.take(k as int)),
        decreases n - k,
    {
        proof {
            assert(gc@.take(k + 1) =~= gc@.take(k as int).push(gc@[k as int]));
            lemma_live_push(gc@.take(k as int), gc@[k as int]);
            match gc@[k as int] {
                Some(v) => {
                    lemma_or_push(live_values(gc@.take(k as int)), v);
                },
                None => {},
            }
        }
        match gc[k] {
            Some(v) => {
                cur = match cur {
                    None => Some(v),
                    Some(m) => Some(m | v),
                };
            },
            None => {},
        }
        k += 1;
    }
    proof {
        assert(gc@.take(n as int) =~= gc@);
    }
    cur
}

/// Left-to-right bitwise-xor fold over the live values of the cells,
/// null when no live value exists.
pub fn xor_cells(gc: &Vec<Option<i64>>) -> (r: Option<i64>)
    ensures
        r == spec_xor(gc@),
{
    let n = gc.len();
    let mut cur: Option<i64> = None;
    let mut k: usize = 0;
    while k < n
        invariant
            k <= n,
            n == gc@.len(),
            cur == spec_xor(gc@.take(k as int)),
        decreases n - k,
    {
        proof {
            assert(gc@.take(k + 1) =~= gc@.take(k as int).push(gc@[k as int]));
            lemma_live_push(gc@.take(k as int), gc@[k as int]);
            match gc@[k as int] {
                Some(v) => {
                    lemma_xor_push(live_values(gc@.take(k as int)), v);
                },
                None => {},
            }
        }
        match gc[k] {
            Some(v) => {
                cur = match cur {
                    None => Some(v),
                    Some(m) => Some(m ^ v),
                };
            },
            None => {},
        }
        k += 1;
    }
    proof {
        assert(gc@.take(n as int) =~= gc@);
    }
    cur
}

/// Exact variance of materialized values via a single-pass moment
/// accumulator (sum, sum of squares); null when the count does not exceed
/// `ddof`.
pub fn var_values(vals: &Vec<i64>, ddof: u8) -> (r: Option<Rational>)
    requires
        crate::model::values_within(vals@, MOMENT_VALUE_LIMIT as int),
        vals@.len() <= MOMENT_GROUP_LIMIT,
    ensures
        rat_matches(r, var_pair(vals@, ddof as int)),
{
    let n = vals.len();
    let mut s1: i128 = 0;
    let mut s2: i128 = 0;
    let mut k: usize = 0;
    while k < n
        invariant
            k <= n,
            n == vals@.len(),
            n <= MOMENT_GROUP_LIMIT,
            crate::model::values_within(vals@, MOMENT_VALUE_LIMIT as int),
            s1 as int == sum_of(vals@.take(k as int)),
            s2 as int == sum_sq_of(vals@.take(k as int)),
            -(k as int) * 0x7fff_ffff <= s1 as int <= (k as int) * 0x7fff_ffff,
            0 <= s2 as int <= (k as int) * 0x3fff_ffff_0000_0001,
        decreases n - k,
    {
        proof {
            assert(vals@.take(k + 1) =~= vals@.take(k as int).push(vals@[k as int]));
            lemma_sum_push(vals@.take(k as int), vals@[k as int]);
            lemma_sum_sq_push(vals@.take(k as int), vals@[k as int]);
            lemma_abs_mul_bound(
                vals@[k as int] as int,
                vals@[k as int] as int,
                0x7fff_ffff,
                0x7fff_ffff,
            );
            assert((vals@[k as int] as int) * (vals@[k as int] as int) >= 0) by (nonlinear_arith);
        }
        let v = vals[k] as i128;
        s1 = s1 + v;
        s2 = s2 + v * v;
        k += 1;
    }
    proof {
        assert(vals@.take(n as int) =~= vals@);
    }
    if n <= ddof as usize {
        None
    } else {
        let n_i = n as i128;
        let dd = ddof as i128;
        proof {
            lemma_abs_mul_bound(n_i as int, s2 as int, 0x8000_0000, 0x2000_0000_0000_0000_0000_0000);
            lemma_abs_mul_bound(s1 as int, s1 as int, 0x4000_0000_0000_0000, 0x4000_0000_0000_0000);
            lemma_abs_mul_bound(n_i as int, n_i - dd, 0x8000_0000, 0x8000_0000);
        }
        let num = n_i * s2 - s1 * s1;
        let den = n_i * (n_i - dd);
        Some(Rational { num, den })
    }
}

/// Sum, sum of squares and live count of materialized cells, the moments
/// the variance is finished from.
pub fn var_moments_cells(gc: &Vec<Option<i64>>) -> (r: (i128, i128, usize))
    requires
        cells_within(gc@, MOMENT_VALUE_LIMIT as int),
        gc@.len() <= MOMENT_GROUP_LIMIT,
    ensures
        r.0 as int == sum_of(live_values(gc@)),
        r.1 as int == sum_sq_of(live_values(gc@)),
        r.2 == live_values(gc@).len(),
{
    let n = gc.len();
    let mut s1: i128 = 0;
    let mut s2: i128 = 0;
    let mut cnt: usize = 0;
    let mut k: usize = 0;
    while k < n
        invariant
            k <= n,
            n == gc@.len(),
            n <= MOMENT_GROUP_LIMIT,
            cells_within(gc@, MOMENT_VALUE_LIMIT as int),
            cnt == live_values(gc@.take(k as int)).len(),
            cnt <= k,
            s1 as int == sum_of(live_values(gc@.take(k as int))),
            s2 as int == sum_sq_of(live_values(gc@.take(k as int))),
            -(cnt as int) * 0x7fff_ffff <= s1 as int <= (cnt as int) * 0x7fff_ffff,
            0 <= s2 as int <= (cnt as int) * 0x3fff_ffff_0000_0001,
        decreases n - k,
    {
        proof {
            assert(gc@.take(k + 1) =~= gc@.take(k as int).push(gc@[k as int]));
            lemma_live_push(gc@.take(k as int), gc@[k as int]);
            match gc@[k as int] {
                Some(v) => {
                    lemma_sum_push(live_values(gc@.take(k as int)), v);
                    lemma_sum_sq_push(live_values(gc@.take(k as int)), v);
                    lemma_abs_mul_bound(v as int, v as int, 0x7fff_ffff, 0x7fff_ffff);
                    assert((v as int) * (v as int) >= 0) by (nonlinear_arith);
                },
                None => {},
            }
        }
        match gc[k] {
            Some(v) => {
                let v128 = v as i128;
                s1 = s1 + v128;
                s2 = s2 + v128 * v128;
                cnt = cnt + 1;
            },
            None => {},
        }
        k += 1;
    }
    proof {
        assert(gc@.take(n as int) =~= gc@);
    }
    (s1, s2, cnt)
}

/// Exact variance of materialized cells over their live values, tracking
/// the live count so nulls never bias the result; null when the live
/// count does not exceed `ddof`.
pub fn var_cells(gc: &Vec<Option<i64>>, ddof: u8) -> (r: Option<Rational>)
    requires
        cells_within(gc@, MOMENT_VALUE_LIMIT as int),
        gc@.len() <= MOMENT_GROUP_LIMIT,
    ensures
        rat_matches(r, spec_var(gc@, ddof as int)),
{
    let n = gc.len();
    let mut s1: i128 = 0;
    let mut s2: i128 = 0;
    let mut cnt: usize = 0;
    let mut k: usize = 0;
    while k < n
        invariant
            k <= n,
            n == gc@.len(),
            n <= MOMENT_GROUP_LIMIT,
            cells_within(gc@, MOMENT_VALUE_LIMIT as int),
            cnt == live_values(gc@.take(k as int)).len(),
            cnt <= k,
            s1 as int == sum_of(live_values(gc@.take(k as int))),
            s2 as int == sum_sq_of(live_values(gc@.take(k as int))),
            -(cnt as int) * 0x7fff_ffff <= s1 as int <= (cnt as int) * 0x7fff_ffff,
            0 <= s2 as int <= (cnt as int) * 0x3fff_ffff_0000_0001,
        decreases n - k,
    {
        proof {
            assert(gc@.take(k + 1) =~= gc@.take(k as int).push(gc@[k as int]));
            lemma_live_push(gc@.take(k as int), gc@[k as int]);
            match gc@[k as int] {
                Some(v) => {
                    lemma_sum_push(live_values(gc@.take(k as int)), v);
                    lemma_sum_sq_push(live_values(gc@.take(k as int)), v);
                    lemma_abs_mul_bound(v as int, v as int, 0x7fff_ffff, 0x7fff_ffff);
                    assert((v as int) * (v as int) >= 0) by (nonlinear_arith);
                },
                None => {},
            }
        }
        match gc[k] {
            Some(v) => {
                let v128 = v as i128;
                s1 = s1 + v128;
                s2 = s2 + v128 * v128;
                cnt = cnt + 1;
            },
            None => {},
        }
        k += 1;
    }
    proof {
        assert(gc@.take(n as int) =~= gc@);
    }
    if cnt <= ddof as usize {
        None
    } else {
        let n_i = cnt as i128;
        let dd = ddof as i128;
        proof {
            lemma_abs_mul_bound(n_i as int, s2 as int, 0x8000_0000, 0x2000_0000_0000_0000_0000_0000);
            lemma_abs_mul_bound(s1 as int, s1 as int, 0x4000_0000_0000_0000, 0x4000_0000_0000_0000);
            lemma_abs_mul_bound(n_i as int, n_i - dd, 0x8000_0000, 0x8000_0000);
        }
        let num = n_i * s2 - s1 * s1;
        let den = n_i * (n_i - dd);
        Some(Rational { num, den })
    }
}

/// Reduces a group given by its live values only (the null-free fast
/// path); the ghost cells tie the values back to the group.
fn reduce_live(vals: Vec<i64>, op: ReduceOp, Ghost(gc): Ghost<Seq<Option<i64>>>) -> (v: AggValue)
    requires
        vals@ == live_values(gc),
        op matches ReduceOp::Var { .. } ==> crate::model::values_within(
            vals@,
            MOMENT_VALUE_LIMIT as int,
        ) && vals@.len() <= MOMENT_GROUP_LIMIT,
        op matches ReduceOp::Quantile { prob, .. } ==> prob.valid() && prob.small(),
        !(op is And) && !(op is Or) && !(op is Xor),
    ensures
        reduce_matches(v, gc, op),
{
    match op {
        ReduceOp::Sum => AggValue::Wide(sum_values(&vals)),
        ReduceOp::Min => {
            if vals.len() == 0 {
                AggValue::Int(None)
            } else {
                AggValue::Int(Some(min_values(&vals)))
            }
        },
        ReduceOp::Max => {
            if vals.len() == 0 {
                AggValue::Int(None)
            } else {
                AggValue::Int(Some(max_values(&vals)))
            }
        },
        ReduceOp::Mean => {
            if vals.len() == 0 {
                AggValue::Frac(None)
            } else {
                let s = sum_values(&vals);
                AggValue::Frac(Some(Rational { num: s, den: vals.len() as i128 }))
            }
        },
        ReduceOp::Var { ddof } => AggValue::Frac(var_values(&vals, ddof)),
        ReduceOp::Quantile { prob, method } => {
            proof {
                broadcast use vstd::seq_lib::group_to_multiset_ensures;

                crate::quantile::lemma_le64_total_ordering();
                live_values(gc).lemma_sort_by_ensures(crate::quantile::le64());
                assert(live_values(gc).to_multiset().len() == live_values(gc).len());
                assert(sorted_live(gc).to_multiset().len() == sorted_live(gc).len());
                assert(sorted_live(gc).len() == live_values(gc).len());
            }
            if vals.len() == 0 {
                AggValue::Frac(None)
            } else {
                let w = sort_values(&vals);
                AggValue::Frac(Some(quantile_of_sorted(&w, prob, method)))
            }
        },
        ReduceOp::And => {
            proof {
                assert(false);
            }
            AggValue::Int(None)
        },
        ReduceOp::Or => {
            proof {
                assert(false);
            }
            AggValue::Int(None)
        },
        ReduceOp::Xor => {
            proof {
                assert(false);
            }
            AggValue::Int(None)
        },
    }
}

/// Reduces a group given by its materialized cells (the null-aware path).
fn reduce_materialized(gc: &Vec<Option<i64>>, op: ReduceOp) -> (v: AggValue)
    requires
        op matches ReduceOp::Var { .. } ==> cells_within(gc@, MOMENT_VALUE_LIMIT as int)
            && gc@.len() <= MOMENT_GROUP_LIMIT,
        op matches ReduceOp::Quantile { prob, .. } ==> prob.valid() && prob.small(),
    ensures
        reduce_matches(v, gc@, op),
{
    match op {
        ReduceOp::Sum => {
            let r = sum_count_cells(gc);
            AggValue::Wide(r.0)
        },
        ReduceOp::Min => AggValue::Int(min_cells(gc)),
        ReduceOp::Max => AggValue::Int(max_cells(gc)),
        ReduceOp::Mean => {
            let r = sum_count_cells(gc);
            if r.1 == 0 {
                AggValue::Frac(None)
            } else {
                AggValue::Frac(Some(Rational { num: r.0, den: r.1 as i128 }))
            }
        },
        ReduceOp::Var { ddof } => AggValue::Frac(var_cells(gc, ddof)),
        ReduceOp::Quantile { prob, method } => {
            proof {
                broadcast use vstd::seq_lib::group_to_multiset_ensures;

                crate::quantile::lemma_le64_total_ordering();
                live_values(gc@).lemma_sort_by_ensures(crate::quantile::le64());
                assert(live_values(gc@).to_multiset().len() == live_values(gc@).len());
                assert(sorted_live(gc@).to_multiset().len() == sorted_live(gc@).len());
                assert(sorted_live(gc@).len() == live_values(gc@).len());
            }
            let lv = live_cells(gc);
            if lv.len() == 0 {
                AggValue::Frac(None)
            } else {
                let w = sort_values(&lv);
                AggValue::Frac(Some(quantile_of_sorted(&w, prob, method)))
            }
        },
        ReduceOp::And => AggValue::Int(and_cells(gc)),
        ReduceOp::Or => AggValue::Int(or_cells(gc)),
        ReduceOp::Xor => AggValue::Int(xor_cells(gc)),
    }
}

/// Reduces one index group: the fast path materializes values without
/// validity checks, the null-aware path materializes cells.
pub fn reduce_idx_group(chunk: &Chunk, fast: bool, g: &IdxGroup, op: ReduceOp) -> (v: AggValue)
    requires
        chunk.wf(),
        idx_group_in_bounds(*g, chunk@.len() as int),
        fast ==> no_nulls(chunk@),
        op_safe(op, chunk@, g.members@.len() as int),
    ensures
        reduce_matches(v, idx_cells(chunk@, g.members@), op),
{
    let ghost gc = idx_cells(chunk@, g.members@);
    let use_fast = fast && !matches!(op, ReduceOp::And | ReduceOp::Or | ReduceOp::Xor);
    if use_fast {
        let vals = take_values_idx(chunk, &g.members);
        proof {
            if op matches ReduceOp::Var { ddof } {
                assert(cells_within(gc, MOMENT_VALUE_LIMIT as int));
                lemma_live_within(gc, MOMENT_VALUE_LIMIT as int);
                lemma_live_len(gc);
            }
        }
        reduce_live(vals, op, Ghost(gc))
    } else {
        let cells = take_cells_idx(chunk, &g.members);
        proof {
            if op matches ReduceOp::Var { ddof } {
                assert(cells_within(gc, MOMENT_VALUE_LIMIT as int));
            }
        }
        reduce_materialized(&cells, op)
    }
}

/// Reduces one slice group, short-circuiting a group of size one
/// (null-aware: a single null cell still yields null, and 0
/// for the sum).
pub fn reduce_slice_group(chunk: &Chunk, fast: bool, g: SliceGroup, op: ReduceOp) -> (v: AggValue)
    requires
        chunk.wf(),
        g.start + g.len <= chunk@.len(),
        fast ==> no_nulls(chunk@),
        op_safe(op, chunk@, g.len as int),
    ensures
        reduce_matches(v, slice_cells(chunk@, g.start as int, g.len as int), op),
{
    let ghost gc = slice_cells(chunk@, g.start as int, g.len as int);
    if g.len == 1 && matches!(op, ReduceOp::Sum | ReduceOp::Min | ReduceOp::Max | ReduceOp::Mean) {
        let cell = chunk_get(chunk, g.start);
        proof {
            assert(gc =~= Seq::<Option<i64>>::empty().push(chunk@[g.start as int]));
            lemma_live_push(Seq::<Option<i64>>::empty(), chunk@[g.start as int]);
            match chunk@[g.start as int] {
                Some(v) => {
                    lemma_sum_push(Seq::<i64>::empty(), v);
                    assert(min_of(live_values(gc)) == v);
                    assert(max_of(live_values(gc)) == v);
                },
                None => {},
            }
        }
        match op {
            ReduceOp::Sum => {
                match cell {
                    Some(v) => AggValue::Wide(v as i128),
                    None => AggValue::Wide(0),
                }
            },
            ReduceOp::Min => AggValue::Int(cell),
            ReduceOp::Max => AggValue::Int(cell),
            _ => {
                match cell {
                    Some(v) => AggValue::Frac(Some(Rational { num: v as i128, den: 1 })),
                    None => AggValue::Frac(None),
                }
            },
        }
    } else {
        let use_fast = fast && !matches!(op, ReduceOp::And | ReduceOp::Or | ReduceOp::Xor);
        if use_fast {
            let vals = take_values_slice(chunk, g.start, g.len);
            proof {
                if op matches ReduceOp::Var { ddof } {
                    assert(cells_within(gc, MOMENT_VALUE_LIMIT as int));
                    lemma_live_within(gc, MOMENT_VALUE_LIMIT as int);
                    lemma_live_len(gc);
                }
            }
            reduce_live(vals, op, Ghost(gc))
        } else {
            let cells = take_cells_slice(chunk, g.start, g.len);
            proof {
                if op matches ReduceOp::Var { ddof } {
                    assert(cells_within(gc, MOMENT_VALUE_LIMIT as int));
                }
            }
            reduce_materialized(&cells, op)
        }
    }
}

/// The parallel executor over slice groups.
///
/// Relies on rayon's indexed parallel iterator: `par_iter().map(..)
/// .collect_into_vec(..)` over the group list evaluates the closure once
/// per group on the process-wide worker pool and writes each result into
/// the output at its group's index, so group order is preserved without a
/// merge step. The closure only calls the verified kernel
/// `reduce_slice_group`; this contract restates that kernel's contract,
/// once per group.
#[verifier::external_body]
pub(crate) fn agg_helper_slice(
    chunk: &Chunk,
    fast: bool,
    groups: &Vec<SliceGroup>,
    op: ReduceOp,
) -> (out: Vec<AggValue>)
    requires
        chunk.wf(),
        slice_groups_in_bounds(groups@, chunk@.len() as int),
        fast ==> no_nulls(chunk@),
        forall|i: int|
            0 <= i < groups@.len() ==> op_safe(op, chunk@, (#[trigger] groups@[i]).len as int),
    ensures
        out@.len() == groups@.len(),
        forall|i: int|
            0 <= i < groups@.len() ==> reduce_matches(
                out@[i],
                slice_cells(chunk@, (#[trigger] groups@[i]).start as int, groups@[i].len as int),
                op,
            ),
{
    let mut out: Vec<AggValue> = Vec::new();
    groups.par_iter().map(|g| reduce_slice_group(chunk, fast, *g, op)).collect_into_vec(&mut out);
    out
}

/// The parallel executor over index groups.
///
/// Relies on rayon's indexed parallel iterator: `par_iter().map(..)
/// .collect_into_vec(..)` over the group list evaluates the closure once
/// per group on the process-wide worker pool and writes each result into
/// the output at its group's index, so group order is preserved without a
/// merge step. The closure only calls the verified kernel
/// `reduce_idx_group`; this contract restates that kernel's contract,
/// once per group.
#[verifier::external_body]
pub(crate) fn agg_helper_idx(
    chunk: &Chunk,
    fast: bool,
    groups: &Vec<IdxGroup>,
    op: ReduceOp,
) -> (out: Vec<AggValue>)
    requires
        chunk.wf(),
        idx_groups_in_bounds(groups@, chunk@.len() as int),
        fast ==> no_nulls(chunk@),
        forall|i: int|
            0 <= i < groups@.len() ==> op_safe(
                op,
                chunk@,
                (#[trigger] groups@[i]).members@.len() as int,
            ),
    ensures
        out@.len() == groups@.len(),
        forall|i: int|
            0 <= i < groups@.len() ==> reduce_matches(
                out@[i],
                idx_cells(chunk@, (#[trigger] groups@[i]).members@),
                op,
            ),
{
    let mut out: Vec<AggValue> = Vec::new();
    groups.par_iter().map(|g| reduce_idx_group(chunk, fast, g, op)).collect_into_vec(&mut out);
    out
}

} // verus!
