//! The public aggregation surface: one operation per reducer kind, each
//! taking a column and a group descriptor and returning one aggregate per
//! group, in group order.
//!
//! Every call validates group bounds once up front and reports the first
//! offending group instead of reading out of bounds. The execution path is
//! then chosen structurally — the min/max shortcut on sorted null-free
//! columns, the rolling kernels on eligible overlapping slices, the
//! parallel gather-reduce otherwise — and every path is proved against the
//! same specification, so the choice never shows in the result.

use vstd::prelude::*;

use crate::AggError;
use crate::column::{Chunk, Column, Sorted};
use crate::gather::{
    agg_helper_idx, agg_helper_slice, chunk_get, op_safe, reduce_matches, take_cells_slice,
    AggValue, ReduceOp,
    MOMENT_GROUP_LIMIT, MOMENT_VALUE_LIMIT,
};
use crate::groups::{
    check_position_ordered, idx_groups_in_bounds, use_rolling_kernels, GroupsType, IdxGroup,
    SliceGroup,
};
use crate::laws::{
    lemma_idx_group_cells_sorted, lemma_rev_sorted_group_extremes, lemma_sorted_group_extremes,
    lemma_subrange_cells_sorted,
};
use crate::model::{
    cells_within, idx_cells, slice_cells, spec_and, spec_max, spec_mean, spec_min, spec_or,
    spec_sum, spec_var, spec_xor,
};
use crate::quantile::spec_quantile;
use crate::rational::{rat_matches, QuantileMethod, QuantileProb, Rational};

verus! {

/// The median is the quantile at probability one half with linear
/// interpolation.
pub open spec fn spec_median(gc: Seq<Option<i64>>) -> Option<(int, int)> {
    spec_quantile(gc, 1, 2, QuantileMethod::Linear)
}

impl GroupsType {
    /// Number of member rows of group `i` (with multiplicity, for index
    /// groups).
    pub open spec fn spec_group_size(self, i: int) -> nat {
        match self {
            GroupsType::Idx(gs) => gs@[i].members@.len(),
            GroupsType::Slice(gs) => gs@[i].len as nat,
        }
    }
}

/// Unwraps per-group nullable native results.
fn unwrap_int(vals: &Vec<AggValue>) -> (out: Vec<Option<i64>>)
    requires
        forall|i: int| 0 <= i < vals@.len() ==> (#[trigger] vals@[i]) is Int,
    ensures
        out@.len() == vals@.len(),
        forall|i: int| 0 <= i < vals@.len() ==> out@[i] == (#[trigger] vals@[i])->Int_0,
{
    let mut out: Vec<Option<i64>> = Vec::new();
    let mut i: usize = 0;
    while i < vals.len()
        invariant
            i <= vals@.len(),
            forall|j: int| 0 <= j < vals@.len() ==> (#[trigger] vals@[j]) is Int,
            out@.len() == i,
            forall|j: int| 0 <= j < i ==> out@[j] == (#[trigger] vals@[j])->Int_0,
        decreases vals@.len() - i,
    {
        match vals[i] {
            AggValue::Int(o) => {
                out.push(o);
            },
            _ => {
                proof {
                    assert(false);
                }
                out.push(None);
            },
        }
        i += 1;
    }
    out
}

/// Unwraps per-group widened sums.
fn unwrap_wide(vals: &Vec<AggValue>) -> (out: Vec<i128>)
    requires
        forall|i: int| 0 <= i < vals@.len() ==> (#[trigger] vals@[i]) is Wide,
    ensures
        out@.len() == vals@.len(),
        forall|i: int| 0 <= i < vals@.len() ==> out@[i] == (#[trigger] vals@[i])->Wide_0,
{
    let mut out: Vec<i128> = Vec::new();
    let mut i: usize = 0;
    while i < vals.len()
        invariant
            i <= vals@.len(),
            forall|j: int| 0 <= j < vals@.len() ==> (#[trigger] vals@[j]) is Wide,
            out@.len() == i,
            forall|j: int| 0 <= j < i ==> out@[j] == (#[trigger] vals@[j])->Wide_0,
        decreases vals@.len() - i,
    {
        match vals[i] {
            AggValue::Wide(x) => {
                out.push(x);
            },
            _ => {
                proof {
                    assert(false);
                }
                out.push(0);
            },
        }
        i += 1;
    }
    out
}

/// Unwraps per-group nullable rational results.
fn unwrap_frac(vals: &Vec<AggValue>) -> (out: Vec<Option<Rational>>)
    requires
        forall|i: int| 0 <= i < vals@.len() ==> (#[trigger] vals@[i]) is Frac,
    ensures
        out@.len() == vals@.len(),
        forall|i: int| 0 <= i < vals@.len() ==> out@[i] == (#[trigger] vals@[i])->Frac_0,
{
    let mut out: Vec<Option<Rational>> = Vec::new();
    let mut i: usize = 0;
    while i < vals.len()
        invariant
            i <= vals@.len(),
            forall|j: int| 0 <= j < vals@.len() ==> (#[trigger] vals@[j]) is Frac,
            out@.len() == i,
            forall|j: int| 0 <= j < i ==> out@[j] == (#[trigger] vals@[j])->Frac_0,
        decreases vals@.len() - i,
    {
        match vals[i] {
            AggValue::Frac(o) => {
                out.push(o);
            },
            _ => {
                proof {
                    assert(false);
                }
                out.push(None);
            },
        }
        i += 1;
    }
    out
}

/// First member's cell of every index group (null for an empty group):
/// the data mover of the sortedness shortcut.
fn agg_first_idx(chunk: &Chunk, gs: &Vec<IdxGroup>) -> (out: Vec<Option<i64>>)
    requires
        chunk.wf(),
        idx_groups_in_bounds(gs@, chunk@.len() as int),
    ensures
        out@.len() == gs@.len(),
        forall|i: int|
            0 <= i < gs@.len() ==> out@[i] == (if (#[trigger] gs@[i]).members@.len() == 0 {
                None
            } else {
                chunk@[gs@[i].members@[0] as int]
            }),
{
    let mut out: Vec<Option<i64>> = Vec::new();
    let mut i: usize = 0;
    while i < gs.len()
        invariant
            chunk.wf(),
            idx_groups_in_bounds(gs@, chunk@.len() as int),
            i <= gs@.len(),
            out@.len() == i,
            forall|j: int|
                0 <= j < i ==> out@[j] == (if (#[trigger] gs@[j]).members@.len() == 0 {
                    None
                } else {
                    chunk@[gs@[j].members@[0] as int]
                }),
        decreases gs@.len() - i,
    {
        let g = &gs[i];
        if g.members.len() == 0 {
            out.push(None);
        } else {
            assert(g.members@[0] < chunk@.len());
            out.push(chunk_get(chunk, g.members[0]));
        }
        i += 1;
    }
    out
}

/// Last member's cell of every index group (null for an empty group).
fn agg_last_idx(chunk: &Chunk, gs: &Vec<IdxGroup>) -> (out: Vec<Option<i64>>)
    requires
        chunk.wf(),
        idx_groups_in_bounds(gs@, chunk@.len() as int),
    ensures
        out@.len() == gs@.len(),
        forall|i: int|
            0 <= i < gs@.len() ==> out@[i] == (if (#[trigger] gs@[i]).members@.len() == 0 {
                None
            } else {
                chunk@[gs@[i].members@[gs@[i].members@.len() - 1] as int]
            }),
{
    let mut out: Vec<Option<i64>> = Vec::new();
    let mut i: usize = 0;
    while i < gs.len()
        invariant
            chunk.wf(),
            idx_groups_in_bounds(gs@, chunk@.len() as int),
            i <= gs@.len(),
            out@.len() == i,
            forall|j: int|
                0 <= j < i ==> out@[j] == (if (#[trigger] gs@[j]).members@.len() == 0 {
                    None
                } else {
                    chunk@[gs@[j].members@[gs@[j].members@.len() - 1] as int]
                }),
        decreases gs@.len() - i,
    {
        let g = &gs[i];
        let m = g.members.len();
        if m == 0 {
            out.push(None);
        } else {
            assert(g.members@[m - 1] < chunk@.len());
            out.push(chunk_get(chunk, g.members[m - 1]));
        }
        i += 1;
    }
    out
}

/// First cell of every slice group (null for an empty group).
fn agg_first_slice(chunk: &Chunk, gs: &Vec<SliceGroup>) -> (out: Vec<Option<i64>>)
    requires
        chunk.wf(),
        crate::groups::slice_groups_in_bounds(gs@, chunk@.len() as int),
    ensures
        out@.len() == gs@.len(),
        forall|i: int|
            0 <= i < gs@.len() ==> out@[i] == (if (#[trigger] gs@[i]).len == 0 {
                None
            } else {
                chunk@[gs@[i].start as int]
            }),
{
    let mut out: Vec<Option<i64>> = Vec::new();
    let mut i: usize = 0;
    while i < gs.len()
        invariant
            chunk.wf(),
            crate::groups::slice_groups_in_bounds(gs@, chunk@.len() as int),
            i <= gs@.len(),
            out@.len() == i,
            forall|j: int|
                0 <= j < i ==> out@[j] == (if (#[trigger] gs@[j]).len == 0 {
                    None
                } else {
                    chunk@[gs@[j].start as int]
                }),
        decreases gs@.len() - i,
    {
        let g = gs[i];
        if g.len == 0 {
            out.push(None);
        } else {
            out.push(chunk_get(chunk, g.start));
        }
        i += 1;
    }
    out
}

/// Last cell of every slice group (null for an empty group).
fn agg_last_slice(chunk: &Chunk, gs: &Vec<SliceGroup>) -> (out: Vec<Option<i64>>)
    requires
        chunk.wf(),
        crate::groups::slice_groups_in_bounds(gs@, chunk@.len() as int),
    ensures
        out@.len() == gs@.len(),
        forall|i: int|
            0 <= i < gs@.len() ==> out@[i] == (if (#[trigger] gs@[i]).len == 0 {
                None
            } else {
                chunk@[gs@[i].start + gs@[i].len - 1]
            }),
{
    let n_chunk = chunk.values.len();
    let mut out: Vec<Option<i64>> = Vec::new();
    let mut i: usize = 0;
    while i < gs.len()
        invariant
            chunk.wf(),
            chunk@.len() == n_chunk,
            crate::groups::slice_groups_in_bounds(gs@, chunk@.len() as int),
            i <= gs@.len(),
            out@.len() == i,
            forall|j: int|
                0 <= j < i ==> out@[j] == (if (#[trigger] gs@[j]).len == 0 {
                    None
                } else {
                    chunk@[gs@[j].start + gs@[j].len - 1]
                }),
        decreases gs@.len() - i,
    {
        let g = gs[i];
        if g.len == 0 {
            out.push(None);
        } else {
            out.push(chunk_get(chunk, g.start + g.len - 1));
        }
        i += 1;
    }
    out
}


/// Finds the first column position whose present value exceeds the moment
/// magnitude limit, if any.
fn check_values_within(chunk: &Chunk) -> (r: Option<usize>)
    requires
        chunk.wf(),
    ensures
        match r {
            None => cells_within(chunk@, MOMENT_VALUE_LIMIT as int),
            Some(p) => p < chunk@.len() && chunk@[p as int] is Some && !(-MOMENT_VALUE_LIMIT
                <= chunk@[p as int]->Some_0 <= MOMENT_VALUE_LIMIT) && forall|j: int|
                0 <= j < p && (#[trigger] chunk@[j]) is Some ==> -MOMENT_VALUE_LIMIT
                    <= chunk@[j]->Some_0 <= MOMENT_VALUE_LIMIT,
        },
{
    let n = chunk.values.len();
    let mut p: usize = 0;
    while p < n
        invariant
            chunk.wf(),
            p <= n,
            n == chunk@.len(),
            forall|j: int|
                0 <= j < p && (#[trigger] chunk@[j]) is Some ==> -MOMENT_VALUE_LIMIT
                    <= chunk@[j]->Some_0 <= MOMENT_VALUE_LIMIT,
        decreases n - p,
    {
        let cell = chunk_get(chunk, p);
        match cell {
            Some(v) => {
                if v > MOMENT_VALUE_LIMIT || v < -MOMENT_VALUE_LIMIT {
                    return Some(p);
                }
            },
            None => {},
        }
        p += 1;
    }
    None
}

/// Finds the first group with more members than the moment arithmetic
/// supports, if any.
fn check_group_sizes(groups: &GroupsType) -> (r: Option<usize>)
    ensures
        match r {
            None => forall|i: int|
                0 <= i < groups.spec_len() ==> #[trigger] groups.spec_group_size(i)
                    <= MOMENT_GROUP_LIMIT,
            Some(g) => 0 <= g < groups.spec_len() && groups.spec_group_size(g as int)
                > MOMENT_GROUP_LIMIT && forall|j: int|
                0 <= j < g ==> #[trigger] groups.spec_group_size(j) <= MOMENT_GROUP_LIMIT,
        },
{
    match groups {
        GroupsType::Idx(gs) => {
            let mut i: usize = 0;
            while i < gs.len()
                invariant
                    i <= gs@.len(),
                    groups matches GroupsType::Idx(v) && v@ == gs@,
                    forall|j: int|
                        0 <= j < i ==> #[trigger] groups.spec_group_size(j) <= MOMENT_GROUP_LIMIT,
                decreases gs@.len() - i,
            {
                if gs[i].members.len() > MOMENT_GROUP_LIMIT {
                    return Some(i);
                }
                assert(groups.spec_group_size(i as int) <= MOMENT_GROUP_LIMIT);
                i += 1;
            }
            None
        },
        GroupsType::Slice(gs) => {
            let mut i: usize = 0;
            while i < gs.len()
                invariant
                    i <= gs@.len(),
                    groups matches GroupsType::Slice(v) && v@ == gs@,
                    forall|j: int|
                        0 <= j < i ==> #[trigger] groups.spec_group_size(j) <= MOMENT_GROUP_LIMIT,
                decreases gs@.len() - i,
            {
                if gs[i].len > MOMENT_GROUP_LIMIT {
                    return Some(i);
                }
                assert(groups.spec_group_size(i as int) <= MOMENT_GROUP_LIMIT);
                i += 1;
            }
            None
        },
    }
}

impl Column {
    /// Per-group minimum. On an ascending-sorted null-free column the
    /// minimum of any group is the member at its smallest row position, an
    /// O(1)-per-group shortcut (descending: the largest); for index groups
    /// the shortcut's member-order precondition is checked, never assumed.
    /// Otherwise eligible slice groups roll a window accumulator and all
    /// other groups gather-reduce in parallel; every path meets the same
    /// contract.
    pub fn agg_min(&self, groups: &GroupsType) -> (r: Result<Vec<Option<i64>>, AggError>)
        requires
            self.wf(),
        ensures
            r is Ok <==> groups.in_bounds(self@.len() as int),
            match r {
                Ok(out) => out@.len() == groups.spec_len() && forall|i: int|
                    0 <= i < groups.spec_len() ==> out@[i] == spec_min(
                        #[trigger] groups.group_cells(self@, i),
                    ),
                Err(e) => groups.first_oob_error(self@.len() as int, e),
            },
    {
        let n = self.len();
        match groups.validate(n) {
            Err(e) => {
                return Err(e);
            },
            Ok(()) => {},
        }
        let chunk = self.rechunk();
        let fast = crate::column::chunk_null_count(&chunk) == 0;
        match self.sorted {
            Sorted::Ascending => {
                match groups {
                    GroupsType::Idx(gs) => {
                        if check_position_ordered(gs) {
                            let out = agg_first_idx(&chunk, gs);
                            proof {
                                assert forall|i: int| 0 <= i < gs@.len() implies out@[i]
                                    == spec_min(idx_cells(chunk@, (#[trigger] gs@[i]).members@)) by {
                                    let members = gs@[i].members@;
                                    if members.len() == 0 {
                                        assert(idx_cells(chunk@, members)
                                            =~= Seq::<Option<i64>>::empty());
                                    } else {
                                        lemma_idx_group_cells_sorted(chunk@, members);
                                        lemma_sorted_group_extremes(idx_cells(chunk@, members));
                                        assert(idx_cells(chunk@, members)[0] == chunk@[members[0] as int]);
                                    }
                                }
                            }
                            return Ok(out);
                        }
                    },
                    GroupsType::Slice(gs) => {
                        let out = agg_first_slice(&chunk, gs);
                        proof {
                            assert forall|i: int| 0 <= i < gs@.len() implies out@[i] == spec_min(
                                slice_cells(
                                    chunk@,
                                    (#[trigger] gs@[i]).start as int,
                                    gs@[i].len as int,
                                ),
                            ) by {
                                let gc = slice_cells(chunk@, gs@[i].start as int, gs@[i].len as int);
                                if gs@[i].len == 0 {
                                    assert(gc =~= Seq::<Option<i64>>::empty());
                                } else {
                                    lemma_subrange_cells_sorted(
                                        chunk@,
                                        gs@[i].start as int,
                                        gs@[i].start + gs@[i].len,
                                    );
                                    lemma_sorted_group_extremes(gc);
                                    assert(gc[0] == chunk@[gs@[i].start as int]);
                                }
                            }
                        }
                        return Ok(out);
                    },
                }
            },
            Sorted::Descending => {
                match groups {
                    GroupsType::Idx(gs) => {
                        if check_position_ordered(gs) {
                            let out = agg_last_idx(&chunk, gs);
                            proof {
                                assert forall|i: int| 0 <= i < gs@.len() implies out@[i]
                                    == spec_min(idx_cells(chunk@, (#[trigger] gs@[i]).members@)) by {
                                    let members = gs@[i].members@;
                                    if members.len() == 0 {
                                        assert(idx_cells(chunk@, members)
                                            =~= Seq::<Option<i64>>::empty());
                                    } else {
                                        lemma_idx_group_cells_sorted(chunk@, members);
                                        lemma_rev_sorted_group_extremes(idx_cells(chunk@, members));
                                        assert(idx_cells(chunk@, members)[members.len() - 1]
                                            == chunk@[members[members.len() - 1] as int]);
                                    }
                                }
                            }
                            return Ok(out);
                        }
                    },
                    GroupsType::Slice(gs) => {
                        let out = agg_last_slice(&chunk, gs);
                        proof {
                            assert forall|i: int| 0 <= i < gs@.len() implies out@[i] == spec_min(
                                slice_cells(
                                    chunk@,
                                    (#[trigger] gs@[i]).start as int,
                                    gs@[i].len as int,
                                ),
                            ) by {
                                let gc = slice_cells(chunk@, gs@[i].start as int, gs@[i].len as int);
                                if gs@[i].len == 0 {
                                    assert(gc =~= Seq::<Option<i64>>::empty());
                                } else {
                                    lemma_subrange_cells_sorted(
                                        chunk@,
                                        gs@[i].start as int,
                                        gs@[i].start + gs@[i].len,
                                    );
                                    lemma_rev_sorted_group_extremes(gc);
                                    assert(gc[gc.len() - 1] == chunk@[gs@[i].start + gs@[i].len - 1]);
                                }
                            }
                        }
                        return Ok(out);
                    },
                }
            },
            Sorted::Unknown => {},
        }
        match groups {
            GroupsType::Idx(gs) => {
                let vals = agg_helper_idx(&chunk, fast, gs, ReduceOp::Min);
                proof {
                    assert forall|i: int| 0 <= i < vals@.len() implies (#[trigger] vals@[i]) is Int by {
                        assert(reduce_matches(
                            vals@[i],
                            idx_cells(chunk@, (#[trigger] gs@[i]).members@),
                            ReduceOp::Min,
                        ));
                    }
                }
                let out = unwrap_int(&vals);
                proof {
                    assert forall|i: int| 0 <= i < groups.spec_len() implies out@[i] == spec_min(
                        #[trigger] groups.group_cells(self@, i),
                    ) by {
                        assert(reduce_matches(
                            vals@[i],
                            idx_cells(chunk@, (#[trigger] gs@[i]).members@),
                            ReduceOp::Min,
                        ));
                        assert(out@[i] == vals@[i]->Int_0);
                    }
                }
                Ok(out)
            },
            GroupsType::Slice(gs) => {
                if use_rolling_kernels(gs, self.n_chunks()) {
                    Ok(crate::rolling::rolling_min(&chunk, gs))
                } else {
                    let vals = agg_helper_slice(&chunk, fast, gs, ReduceOp::Min);
                    proof {
                        assert forall|i: int| 0 <= i < vals@.len() implies (#[trigger] vals@[i]) is Int by {
                            assert(reduce_matches(
                                vals@[i],
                                slice_cells(chunk@, (#[trigger] gs@[i]).start as int, gs@[i].len as int),
                                ReduceOp::Min,
                            ));
                        }
                    }
                    let out = unwrap_int(&vals);
                    proof {
                        assert forall|i: int| 0 <= i < groups.spec_len() implies out@[i] == spec_min(
                            #[trigger] groups.group_cells(self@, i),
                        ) by {
                            assert(reduce_matches(
                                vals@[i],
                                slice_cells(chunk@, (#[trigger] gs@[i]).start as int, gs@[i].len as int),
                                ReduceOp::Min,
                            ));
                            assert(out@[i] == vals@[i]->Int_0);
                        }
                    }
                    Ok(out)
                }
            },
        }
    }

    /// Per-group maximum: the mirror of `agg_min`, with the sortedness
    /// shortcut swapped (ascending takes each group's last member,
    /// descending its first).
    pub fn agg_max(&self, groups: &GroupsType) -> (r: Result<Vec<Option<i64>>, AggError>)
        requires
            self.wf(),
        ensures
            r is Ok <==> groups.in_bounds(self@.len() as int),
            match r {
                Ok(out) => out@.len() == groups.spec_len() && forall|i: int|
                    0 <= i < groups.spec_len() ==> out@[i] == spec_max(
                        #[trigger] groups.group_cells(self@, i),
                    ),
                Err(e) => groups.first_oob_error(self@.len() as int, e),
            },
    {
        let n = self.len();
        match groups.validate(n) {
            Err(e) => {
                return Err(e);
            },
            Ok(()) => {},
        }
        let chunk = self.rechunk();
        let fast = crate::column::chunk_null_count(&chunk) == 0;
        match self.sorted {
            Sorted::Ascending => {
                match groups {
                    GroupsType::Idx(gs) => {
                        if check_position_ordered(gs) {
                            let out = agg_last_idx(&chunk, gs);
                            proof {
                                assert forall|i: int| 0 <= i < gs@.len() implies out@[i]
                                    == spec_max(idx_cells(chunk@, (#[trigger] gs@[i]).members@)) by {
                                    let members = gs@[i].members@;
                                    if members.len() == 0 {
                                        assert(idx_cells(chunk@, members)
                                            =~= Seq::<Option<i64>>::empty());
                                    } else {
                                        lemma_idx_group_cells_sorted(chunk@, members);
                                        lemma_sorted_group_extremes(idx_cells(chunk@, members));
                                        assert(idx_cells(chunk@, members)[members.len() - 1]
                                            == chunk@[members[members.len() - 1] as int]);
                                    }
                                }
                            }
                            return Ok(out);
                        }
                    },
                    GroupsType::Slice(gs) => {
                        let out = agg_last_slice(&chunk, gs);
                        proof {
                            assert forall|i: int| 0 <= i < gs@.len() implies out@[i] == spec_max(
                                slice_cells(
                                    chunk@,
                                    (#[trigger] gs@[i]).start as int,
                                    gs@[i].len as int,
                                ),
                            ) by {
                                let gc = slice_cells(chunk@, gs@[i].start as int, gs@[i].len as int);
                                if gs@[i].len == 0 {
                                    assert(gc =~= Seq::<Option<i64>>::empty());
                                } else {
                                    lemma_subrange_cells_sorted(
                                        chunk@,
                                        gs@[i].start as int,
                                        gs@[i].start + gs@[i].len,
                                    );
                                    lemma_sorted_group_extremes(gc);
                                    assert(gc[gc.len() - 1] == chunk@[gs@[i].start + gs@[i].len - 1]);
                                }
                            }
                        }
                        return Ok(out);
                    },
                }
            },
            Sorted::Descending => {
                match groups {
                    GroupsType::Idx(gs) => {
                        if check_position_ordered(gs) {
                            let out = agg_first_idx(&chunk, gs);
                            proof {
                                assert forall|i: int| 0 <= i < gs@.len() implies out@[i]
                                    == spec_max(idx_cells(chunk@, (#[trigger] gs@[i]).members@)) by {
                                    let members = gs@[i].members@;
                                    if members.len() == 0 {
                                        assert(idx_cells(chunk@, members)
                                            =~= Seq::<Option<i64>>::empty());
                                    } else {
                                        lemma_idx_group_cells_sorted(chunk@, members);
                                        lemma_rev_sorted_group_extremes(idx_cells(chunk@, members));
                                        assert(idx_cells(chunk@, members)[0] == chunk@[members[0] as int]);
                                    }
                                }
                            }
                            return Ok(out);
                        }
                    },
                    GroupsType::Slice(gs) => {
                        let out = agg_first_slice(&chunk, gs);
                        proof {
                            assert forall|i: int| 0 <= i < gs@.len() implies out@[i] == spec_max(
                                slice_cells(
                                    chunk@,
                                    (#[trigger] gs@[i]).start as int,
                                    gs@[i].len as int,
                                ),
                            ) by {
                                let gc = slice_cells(chunk@, gs@[i].start as int, gs@[i].len as int);
                                if gs@[i].len == 0 {
                                    assert(gc =~= Seq::<Option<i64>>::empty());
                                } else {
                                    lemma_subrange_cells_sorted(
                                        chunk@,
                                        gs@[i].start as int,
                                        gs@[i].start + gs@[i].len,
                                    );
                                    lemma_rev_sorted_group_extremes(gc);
                                    assert(gc[0] == chunk@[gs@[i].start as int]);
                                }
                            }
                        }
                        return Ok(out);
                    },
                }
            },
            Sorted::Unknown => {},
        }
        match groups {
            GroupsType::Idx(gs) => {
                let vals = agg_helper_idx(&chunk, fast, gs, ReduceOp::Max);
                proof {
                    assert forall|i: int| 0 <= i < vals@.len() implies (#[trigger] vals@[i]) is Int by {
                        assert(reduce_matches(
                            vals@[i],
                            idx_cells(chunk@, (#[trigger] gs@[i]).members@),
                            ReduceOp::Max,
                        ));
                    }
                }
                let out = unwrap_int(&vals);
                proof {
                    assert forall|i: int| 0 <= i < groups.spec_len() implies out@[i] == spec_max(
                        #[trigger] groups.group_cells(self@, i),
                    ) by {
                        assert(reduce_matches(
                            vals@[i],
                            idx_cells(chunk@, (#[trigger] gs@[i]).members@),
                            ReduceOp::Max,
                        ));
                        assert(out@[i] == vals@[i]->Int_0);
                    }
                }
                Ok(out)
            },
            GroupsType::Slice(gs) => {
                if use_rolling_kernels(gs, self.n_chunks()) {
                    Ok(crate::rolling::rolling_max(&chunk, gs))
                } else {
                    let vals = agg_helper_slice(&chunk, fast, gs, ReduceOp::Max);
                    proof {
                        assert forall|i: int| 0 <= i < vals@.len() implies (#[trigger] vals@[i]) is Int by {
                            assert(reduce_matches(
                                vals@[i],
                                slice_cells(chunk@, (#[trigger] gs@[i]).start as int, gs@[i].len as int),
                                ReduceOp::Max,
                            ));
                        }
                    }
                    let out = unwrap_int(&vals);
                    proof {
                        assert forall|i: int| 0 <= i < groups.spec_len() implies out@[i] == spec_max(
                            #[trigger] groups.group_cells(self@, i),
                        ) by {
                            assert(reduce_matches(
                                vals@[i],
                                slice_cells(chunk@, (#[trigger] gs@[i]).start as int, gs@[i].len as int),
                                ReduceOp::Max,
                            ));
                            assert(out@[i] == vals@[i]->Int_0);
                        }
                    }
                    Ok(out)
                }
            },
        }
    }
    /// Per-group sum, widened to avoid overflow: the fold identity 0 for
    /// an empty or all-null group, never null. Eligible slice groups roll
    /// a window accumulator; all other groups gather-reduce in parallel.
    pub fn agg_sum(&self, groups: &GroupsType) -> (r: Result<Vec<i128>, AggError>)
        requires
            self.wf(),
        ensures
            r is Ok <==> groups.in_bounds(self@.len() as int),
            match r {
                Ok(out) => out@.len() == groups.spec_len() && forall|i: int|
                    0 <= i < groups.spec_len() ==> out@[i] as int == spec_sum(
                        #[trigger] groups.group_cells(self@, i),
                    ),
                Err(e) => groups.first_oob_error(self@.len() as int, e),
            },
    {
        let n = self.len();
        match groups.validate(n) {
            Err(e) => {
                return Err(e);
            },
            Ok(()) => {},
        }
        let chunk = self.rechunk();
        let fast = crate::column::chunk_null_count(&chunk) == 0;
        match groups {
            GroupsType::Idx(gs) => {
                let vals = agg_helper_idx(&chunk, fast, gs, ReduceOp::Sum);
                proof {
                    assert forall|i: int| 0 <= i < vals@.len() implies (#[trigger] vals@[i]) is Wide by {
                        assert(reduce_matches(
                            vals@[i],
                            idx_cells(chunk@, (#[trigger] gs@[i]).members@),
                            ReduceOp::Sum,
                        ));
                    }
                }
                let out = unwrap_wide(&vals);
                proof {
                    assert forall|i: int| 0 <= i < groups.spec_len() implies out@[i] as int
                        == spec_sum(#[trigger] groups.group_cells(self@, i)) by {
                        assert(reduce_matches(
                            vals@[i],
                            idx_cells(chunk@, (#[trigger] gs@[i]).members@),
                            ReduceOp::Sum,
                        ));
                        assert(out@[i] == vals@[i]->Wide_0);
                    }
                }
                Ok(out)
            },
            GroupsType::Slice(gs) => {
                if use_rolling_kernels(gs, self.n_chunks()) {
                    Ok(crate::rolling::rolling_sum(&chunk, gs))
                } else {
                    let vals = agg_helper_slice(&chunk, fast, gs, ReduceOp::Sum);
                    proof {
                        assert forall|i: int| 0 <= i < vals@.len() implies (#[trigger] vals@[i]) is Wide by {
                            assert(reduce_matches(
                                vals@[i],
                                slice_cells(chunk@, (#[trigger] gs@[i]).start as int, gs@[i].len as int),
                                ReduceOp::Sum,
                            ));
                        }
                    }
                    let out = unwrap_wide(&vals);
                    proof {
                        assert forall|i: int| 0 <= i < groups.spec_len() implies out@[i] as int
                            == spec_sum(#[trigger] groups.group_cells(self@, i)) by {
                            assert(reduce_matches(
                                vals@[i],
                                slice_cells(chunk@, (#[trigger] gs@[i]).start as int, gs@[i].len as int),
                                ReduceOp::Sum,
                            ));
                            assert(out@[i] == vals@[i]->Wide_0);
                        }
                    }
                    Ok(out)
                }
            },
        }
    }

    /// Per-group mean as an exact rational (sum of live values over live
    /// count); null when a group has no live value, so null density never
    /// biases the denominator.
    pub fn agg_mean(&self, groups: &GroupsType) -> (r: Result<Vec<Option<Rational>>, AggError>)
        requires
            self.wf(),
        ensures
            r is Ok <==> groups.in_bounds(self@.len() as int),
            match r {
                Ok(out) => out@.len() == groups.spec_len() && forall|i: int|
                    0 <= i < groups.spec_len() ==> rat_matches(
                        out@[i],
                        spec_mean(#[trigger] groups.group_cells(self@, i)),
                    ),
                Err(e) => groups.first_oob_error(self@.len() as int, e),
            },
    {
        let n = self.len();
        match groups.validate(n) {
            Err(e) => {
                return Err(e);
            },
            Ok(()) => {},
        }
        let chunk = self.rechunk();
        let fast = crate::column::chunk_null_count(&chunk) == 0;
        match groups {
            GroupsType::Idx(gs) => {
                let vals = agg_helper_idx(&chunk, fast, gs, ReduceOp::Mean);
                proof {
                    assert forall|i: int| 0 <= i < vals@.len() implies (#[trigger] vals@[i]) is Frac by {
                        assert(reduce_matches(
                            vals@[i],
                            idx_cells(chunk@, (#[trigger] gs@[i]).members@),
                            ReduceOp::Mean,
                        ));
                    }
                }
                let out = unwrap_frac(&vals);
                proof {
                    assert forall|i: int| 0 <= i < groups.spec_len() implies rat_matches(
                        out@[i],
                        spec_mean(#[trigger] groups.group_cells(self@, i)),
                    ) by {
                        assert(reduce_matches(
                            vals@[i],
                            idx_cells(chunk@, (#[trigger] gs@[i]).members@),
                            ReduceOp::Mean,
                        ));
                        assert(out@[i] == vals@[i]->Frac_0);
                    }
                }
                Ok(out)
            },
            GroupsType::Slice(gs) => {
                if use_rolling_kernels(gs, self.n_chunks()) {
                    Ok(crate::rolling::rolling_mean(&chunk, gs))
                } else {
                    let vals = agg_helper_slice(&chunk, fast, gs, ReduceOp::Mean);
                    proof {
                        assert forall|i: int| 0 <= i < vals@.len() implies (#[trigger] vals@[i]) is Frac by {
                            assert(reduce_matches(
                                vals@[i],
                                slice_cells(chunk@, (#[trigger] gs@[i]).start as int, gs@[i].len as int),
                                ReduceOp::Mean,
                            ));
                        }
                    }
                    let out = unwrap_frac(&vals);
                    proof {
                        assert forall|i: int| 0 <= i < groups.spec_len() implies rat_matches(
                            out@[i],
                            spec_mean(#[trigger] groups.group_cells(self@, i)),
                        ) by {
                            assert(reduce_matches(
                                vals@[i],
                                slice_cells(chunk@, (#[trigger] gs@[i]).start as int, gs@[i].len as int),
                                ReduceOp::Mean,
                            ));
                            assert(out@[i] == vals@[i]->Frac_0);
                        }
                    }
                    Ok(out)
                }
            },
        }
    }

    /// Per-group bitwise-and fold over live values, left to right; null
    /// when a group has no live value (the fold is associative and
    /// commutative, so the order never shows).
    pub fn agg_and(&self, groups: &GroupsType) -> (r: Result<Vec<Option<i64>>, AggError>)
        requires
            self.wf(),
        ensures
            r is Ok <==> groups.in_bounds(self@.len() as int),
            match r {
                Ok(out) => out@.len() == groups.spec_len() && forall|i: int|
                    0 <= i < groups.spec_len() ==> out@[i] == spec_and(
                        #[trigger] groups.group_cells(self@, i),
                    ),
                Err(e) => groups.first_oob_error(self@.len() as int, e),
            },
    {
        let n = self.len();
        match groups.validate(n) {
            Err(e) => {
                return Err(e);
            },
            Ok(()) => {},
        }
        let chunk = self.rechunk();
        let fast = crate::column::chunk_null_count(&chunk) == 0;
        match groups {
            GroupsType::Idx(gs) => {
                let vals = agg_helper_idx(&chunk, fast, gs, ReduceOp::And);
                proof {
                    assert forall|i: int| 0 <= i < vals@.len() implies (#[trigger] vals@[i]) is Int by {
                        assert(reduce_matches(
                            vals@[i],
                            idx_cells(chunk@, (#[trigger] gs@[i]).members@),
                            ReduceOp::And,
                        ));
                    }
                }
                let out = unwrap_int(&vals);
                proof {
                    assert forall|i: int| 0 <= i < groups.spec_len() implies out@[i] == spec_and(
                        #[trigger] groups.group_cells(self@, i),
                    ) by {
                        assert(reduce_matches(
                            vals@[i],
                            idx_cells(chunk@, (#[trigger] gs@[i]).members@),
                            ReduceOp::And,
                        ));
                        assert(out@[i] == vals@[i]->Int_0);
                    }
                }
                Ok(out)
            },
            GroupsType::Slice(gs) => {
                let vals = agg_helper_slice(&chunk, fast, gs, ReduceOp::And);
                proof {
                    assert forall|i: int| 0 <= i < vals@.len() implies (#[trigger] vals@[i]) is Int by {
                        assert(reduce_matches(
                            vals@[i],
                            slice_cells(chunk@, (#[trigger] gs@[i]).start as int, gs@[i].len as int),
                            ReduceOp::And,
                        ));
                    }
                }
                let out = unwrap_int(&vals);
                proof {
                    assert forall|i: int| 0 <= i < groups.spec_len() implies out@[i] == spec_and(
                        #[trigger] groups.group_cells(self@, i),
                    ) by {
                        assert(reduce_matches(
                            vals@[i],
                            slice_cells(chunk@, (#[trigger] gs@[i]).start as int, gs@[i].len as int),
                            ReduceOp::And,
                        ));
                        assert(out@[i] == vals@[i]->Int_0);
                    }
                }
                Ok(out)
            },
        }
    }

    /// Per-group bitwise-or fold over live values, left to right; null
    /// when a group has no live value (the fold is associative and
    /// commutative, so the order never shows).
    pub fn agg_or(&self, groups: &GroupsType) -> (r: Result<Vec<Option<i64>>, AggError>)
        requires
            self.wf(),
        ensures
            r is Ok <==> groups.in_bounds(self@.len() as int),
            match r {
                Ok(out) => out@.len() == groups.spec_len() && forall|i: int|
                    0 <= i < groups.spec_len() ==> out@[i] == spec_or(
                        #[trigger] groups.group_cells(self@, i),
                    ),
                Err(e) => groups.first_oob_error(self@.len() as int, e),
            },
    {
        let n = self.len();
        match groups.validate(n) {
            Err(e) => {
                return Err(e);
            },
            Ok(()) => {},
        }
        let chunk = self.rechunk();
        let fast = crate::column::chunk_null_count(&chunk) == 0;
        match groups {
            GroupsType::Idx(gs) => {
                let vals = agg_helper_idx(&chunk, fast, gs, ReduceOp::Or);
                proof {
                    assert forall|i: int| 0 <= i < vals@.len() implies (#[trigger] vals@[i]) is Int by {
                        assert(reduce_matches(
                            vals@[i],
                            idx_cells(chunk@, (#[trigger] gs@[i]).members@),
                            ReduceOp::Or,
                        ));
                    }
                }
                let out = unwrap_int(&vals);
                proof {
                    assert forall|i: int| 0 <= i < groups.spec_len() implies out@[i] == spec_or(
                        #[trigger] groups.group_cells(self@, i),
                    ) by {
                        assert(reduce_matches(
                            vals@[i],
                            idx_cells(chunk@, (#[trigger] gs@[i]).members@),
                            ReduceOp::Or,
                        ));
                        assert(out@[i] == vals@[i]->Int_0);
                    }
                }
                Ok(out)
            },
            GroupsType::Slice(gs) => {
                let vals = agg_helper_slice(&chunk, fast, gs, ReduceOp::Or);
                proof {
                    assert forall|i: int| 0 <= i < vals@.len() implies (#[trigger] vals@[i]) is Int by {
                        assert(reduce_matches(
                            vals@[i],
                            slice_cells(chunk@, (#[trigger] gs@[i]).start as int, gs@[i].len as int),
                            ReduceOp::Or,
                        ));
                    }
                }
                let out = unwrap_int(&vals);
                proof {
                    assert forall|i: int| 0 <= i < groups.spec_len() implies out@[i] == spec_or(
                        #[trigger] groups.group_cells(self@, i),
                    ) by {
                        assert(reduce_matches(
                            vals@[i],
                            slice_cells(chunk@, (#[trigger] gs@[i]).start as int, gs@[i].len as int),
                            ReduceOp::Or,
                        ));
                        assert(out@[i] == vals@[i]->Int_0);
                    }
                }
                Ok(out)
            },
        }
    }

    /// Per-group bitwise-xor fold over live values, left to right; null
    /// when a group has no live value (the fold is associative and
    /// commutative, so the order never shows).
    pub fn agg_xor(&self, groups: &GroupsType) -> (r: Result<Vec<Option<i64>>, AggError>)
        requires
            self.wf(),
        ensures
            r is Ok <==> groups.in_bounds(self@.len() as int),
            match r {
                Ok(out) => out@.len() == groups.spec_len() && forall|i: int|
                    0 <= i < groups.spec_len() ==> out@[i] == spec_xor(
                        #[trigger] groups.group_cells(self@, i),
                    ),
                Err(e) => groups.first_oob_error(self@.len() as int, e),
            },
    {
        let n = self.len();
        match groups.validate(n) {
            Err(e) => {
                return Err(e);
            },
            Ok(()) => {},
        }
        let chunk = self.rechunk();
        let fast = crate::column::chunk_null_count(&chunk) == 0;
        match groups {
            GroupsType::Idx(gs) => {
                let vals = agg_helper_idx(&chunk, fast, gs, ReduceOp::Xor);
                proof {
                    assert forall|i: int| 0 <= i < vals@.len() implies (#[trigger] vals@[i]) is Int by {
                        assert(reduce_matches(
                            vals@[i],
                            idx_cells(chunk@, (#[trigger] gs@[i]).members@),
                            ReduceOp::Xor,
                        ));
                    }
                }
                let out = unwrap_int(&vals);
                proof {
                    assert forall|i: int| 0 <= i < groups.spec_len() implies out@[i] == spec_xor(
                        #[trigger] groups.group_cells(self@, i),
                    ) by {
                        assert(reduce_matches(
                            vals@[i],
                            idx_cells(chunk@, (#[trigger] gs@[i]).members@),
                            ReduceOp::Xor,
                        ));
                        assert(out@[i] == vals@[i]->Int_0);
                    }
                }
                Ok(out)
            },
            GroupsType::Slice(gs) => {
                let vals = agg_helper_slice(&chunk, fast, gs, ReduceOp::Xor);
                proof {
                    assert forall|i: int| 0 <= i < vals@.len() implies (#[trigger] vals@[i]) is Int by {
                        assert(reduce_matches(
                            vals@[i],
                            slice_cells(chunk@, (#[trigger] gs@[i]).start as int, gs@[i].len as int),
                            ReduceOp::Xor,
                        ));
                    }
                }
                let out = unwrap_int(&vals);
                proof {
                    assert forall|i: int| 0 <= i < groups.spec_len() implies out@[i] == spec_xor(
                        #[trigger] groups.group_cells(self@, i),
                    ) by {
                        assert(reduce_matches(
                            vals@[i],
                            slice_cells(chunk@, (#[trigger] gs@[i]).start as int, gs@[i].len as int),
                            ReduceOp::Xor,
                        ));
                        assert(out@[i] == vals@[i]->Int_0);
                    }
                }
                Ok(out)
            },
        }
    }

    /// Per-group variance as an exact rational, parameterized by delta
    /// degrees of freedom over the live count `n`: null when `n <= ddof`
    /// (so a singleton group yields exactly zero at `ddof == 0` and null at
    /// `ddof >= 1`). The exact 128-bit moment arithmetic is guarded by two
    /// checks made once per call: every present value within the moment
    /// magnitude limit, every group within the size limit.
    pub fn agg_var(&self, groups: &GroupsType, ddof: u8) -> (r: Result<
        Vec<Option<Rational>>,
        AggError,
    >)
        requires
            self.wf(),
        ensures
            r is Ok <==> groups.in_bounds(self@.len() as int) && cells_within(
                self@,
                MOMENT_VALUE_LIMIT as int,
            ) && (forall|i: int|
                0 <= i < groups.spec_len() ==> #[trigger] groups.spec_group_size(i)
                    <= MOMENT_GROUP_LIMIT),
            match r {
                Ok(out) => out@.len() == groups.spec_len() && forall|i: int|
                    0 <= i < groups.spec_len() ==> rat_matches(
                        out@[i],
                        spec_var(#[trigger] groups.group_cells(self@, i), ddof as int),
                    ),
                Err(e) => match e {
                    AggError::GroupOutOfBounds { .. } => groups.first_oob_error(
                        self@.len() as int,
                        e,
                    ),
                    AggError::ValueTooLarge { position } => groups.in_bounds(self@.len() as int)
                        && position < self@.len() && self@[position as int] is Some && !(
                    -MOMENT_VALUE_LIMIT <= self@[position as int]->Some_0 <= MOMENT_VALUE_LIMIT)
                        && forall|j: int|
                        0 <= j < position && (#[trigger] self@[j]) is Some ==> -MOMENT_VALUE_LIMIT
                            <= self@[j]->Some_0 <= MOMENT_VALUE_LIMIT,
                    AggError::GroupTooLong { group } => groups.in_bounds(self@.len() as int)
                        && cells_within(self@, MOMENT_VALUE_LIMIT as int) && 0 <= group
                        < groups.spec_len() && groups.spec_group_size(group as int)
                        > MOMENT_GROUP_LIMIT && forall|j: int|
                        0 <= j < group ==> #[trigger] groups.spec_group_size(j)
                            <= MOMENT_GROUP_LIMIT,
                },
            },
    {
        let n = self.len();
        match groups.validate(n) {
            Err(e) => {
                return Err(e);
            },
            Ok(()) => {},
        }
        let chunk = self.rechunk();
        match check_values_within(&chunk) {
            Some(p) => {
                return Err(AggError::ValueTooLarge { position: p });
            },
            None => {},
        }
        match check_group_sizes(groups) {
            Some(g) => {
                return Err(AggError::GroupTooLong { group: g });
            },
            None => {},
        }
        let fast = crate::column::chunk_null_count(&chunk) == 0;
        match groups {
            GroupsType::Idx(gs) => {
                proof {
                    assert forall|i: int| 0 <= i < gs@.len() implies op_safe(
                        ReduceOp::Var { ddof },
                        chunk@,
                        (#[trigger] gs@[i]).members@.len() as int,
                    ) by {
                        assert(groups.spec_group_size(i) <= MOMENT_GROUP_LIMIT);
                    }
                }
                let vals = agg_helper_idx(&chunk, fast, gs, ReduceOp::Var { ddof });
                proof {
                    assert forall|i: int| 0 <= i < vals@.len() implies (#[trigger] vals@[i]) is Frac by {
                        assert(reduce_matches(
                            vals@[i],
                            idx_cells(chunk@, (#[trigger] gs@[i]).members@),
                            ReduceOp::Var { ddof },
                        ));
                    }
                }
                let out = unwrap_frac(&vals);
                proof {
                    assert forall|i: int| 0 <= i < groups.spec_len() implies rat_matches(
                        out@[i],
                        spec_var(#[trigger] groups.group_cells(self@, i), ddof as int),
                    ) by {
                        assert(reduce_matches(
                            vals@[i],
                            idx_cells(chunk@, (#[trigger] gs@[i]).members@),
                            ReduceOp::Var { ddof },
                        ));
                        assert(out@[i] == vals@[i]->Frac_0);
                    }
                }
                Ok(out)
            },
            GroupsType::Slice(gs) => {
                proof {
                    assert forall|i: int| 0 <= i < gs@.len() implies (#[trigger] gs@[i]).len
                        <= MOMENT_GROUP_LIMIT by {
                        assert(groups.spec_group_size(i) <= MOMENT_GROUP_LIMIT);
                    }
                }
                if use_rolling_kernels(gs, self.n_chunks()) {
                    Ok(crate::rolling::rolling_var(&chunk, gs, ddof))
                } else {
                    let vals = agg_helper_slice(&chunk, fast, gs, ReduceOp::Var { ddof });
                    proof {
                        assert forall|i: int| 0 <= i < vals@.len() implies (#[trigger] vals@[i]) is Frac by {
                            assert(reduce_matches(
                                vals@[i],
                                slice_cells(chunk@, (#[trigger] gs@[i]).start as int, gs@[i].len as int),
                                ReduceOp::Var { ddof },
                            ));
                        }
                    }
                    let out = unwrap_frac(&vals);
                    proof {
                        assert forall|i: int| 0 <= i < groups.spec_len() implies rat_matches(
                            out@[i],
                            spec_var(#[trigger] groups.group_cells(self@, i), ddof as int),
                        ) by {
                            assert(reduce_matches(
                                vals@[i],
                                slice_cells(chunk@, (#[trigger] gs@[i]).start as int, gs@[i].len as int),
                                ReduceOp::Var { ddof },
                            ));
                            assert(out@[i] == vals@[i]->Frac_0);
                        }
                    }
                    Ok(out)
                }
            },
        }
    }

    /// Per-group quantile at probability `prob` under the given
    /// interpolation method, exactly. A probability outside `[0, 1]` is
    /// answered with an all-null column of the expected length rather than
    /// a hard failure, a deliberate leniency of the call surface.
    pub fn agg_quantile(&self, groups: &GroupsType, prob: QuantileProb, method: QuantileMethod)
        -> (r: Result<Vec<Option<Rational>>, AggError>)
        requires
            self.wf(),
            prob.small(),
        ensures
            r is Ok <==> groups.in_bounds(self@.len() as int),
            match r {
                Ok(out) => {
                    &&& out@.len() == groups.spec_len()
                    &&& prob.valid() ==> forall|i: int|
                        0 <= i < groups.spec_len() ==> rat_matches(
                            out@[i],
                            spec_quantile(
                                #[trigger] groups.group_cells(self@, i),
                                prob.num as int,
                                prob.den as int,
                                method,
                            ),
                        )
                    &&& !prob.valid() ==> forall|i: int|
                        0 <= i < groups.spec_len() ==> (#[trigger] out@[i]) is None
                },
                Err(e) => groups.first_oob_error(self@.len() as int, e),
            },
    {
        let n = self.len();
        match groups.validate(n) {
            Err(e) => {
                return Err(e);
            },
            Ok(()) => {},
        }
        if !prob.is_valid() {
            let count = groups.len();
            let mut out: Vec<Option<Rational>> = Vec::new();
            let mut i: usize = 0;
            while i < count
                invariant
                    i <= count,
                    out@.len() == i,
                    forall|j: int| 0 <= j < i ==> (#[trigger] out@[j]) is None,
                decreases count - i,
            {
                out.push(None);
                i += 1;
            }
            return Ok(out);
        }
        let chunk = self.rechunk();
        let fast = crate::column::chunk_null_count(&chunk) == 0;
        match groups {
            GroupsType::Idx(gs) => {
                let vals = agg_helper_idx(&chunk, fast, gs, ReduceOp::Quantile { prob, method });
                proof {
                    assert forall|i: int| 0 <= i < vals@.len() implies (#[trigger] vals@[i]) is Frac by {
                        assert(reduce_matches(
                            vals@[i],
                            idx_cells(chunk@, (#[trigger] gs@[i]).members@),
                            ReduceOp::Quantile { prob, method },
                        ));
                    }
                }
                let out = unwrap_frac(&vals);
                proof {
                    assert forall|i: int| 0 <= i < groups.spec_len() implies rat_matches(
                        out@[i],
                        spec_quantile(
                            #[trigger] groups.group_cells(self@, i),
                            prob.num as int,
                            prob.den as int,
                            method,
                        ),
                    ) by {
                        assert(reduce_matches(
                            vals@[i],
                            idx_cells(chunk@, (#[trigger] gs@[i]).members@),
                            ReduceOp::Quantile { prob, method },
                        ));
                        assert(out@[i] == vals@[i]->Frac_0);
                    }
                }
                Ok(out)
            },
            GroupsType::Slice(gs) => {
                if use_rolling_kernels(gs, self.n_chunks()) {
                    Ok(crate::rolling::rolling_quantile(&chunk, gs, prob, method))
                } else {
                    let vals = agg_helper_slice(
                        &chunk,
                        fast,
                        gs,
                        ReduceOp::Quantile { prob, method },
                    );
                    proof {
                        assert forall|i: int| 0 <= i < vals@.len() implies (#[trigger] vals@[i]) is Frac by {
                            assert(reduce_matches(
                                vals@[i],
                                slice_cells(chunk@, (#[trigger] gs@[i]).start as int, gs@[i].len as int),
                                ReduceOp::Quantile { prob, method },
                            ));
                        }
                    }
                    let out = unwrap_frac(&vals);
                    proof {
                        assert forall|i: int| 0 <= i < groups.spec_len() implies rat_matches(
                            out@[i],
                            spec_quantile(
                                #[trigger] groups.group_cells(self@, i),
                                prob.num as int,
                                prob.den as int,
                                method,
                            ),
                        ) by {
                            assert(reduce_matches(
                                vals@[i],
                                slice_cells(chunk@, (#[trigger] gs@[i]).start as int, gs@[i].len as int),
                                ReduceOp::Quantile { prob, method },
                            ));
                            assert(out@[i] == vals@[i]->Frac_0);
                        }
                    }
                    Ok(out)
                }
            },
        }
    }

    /// Per-group median: the quantile at probability one half with linear
    /// interpolation.
    pub fn agg_median(&self, groups: &GroupsType) -> (r: Result<Vec<Option<Rational>>, AggError>)
        requires
            self.wf(),
        ensures
            r is Ok <==> groups.in_bounds(self@.len() as int),
            match r {
                Ok(out) => out@.len() == groups.spec_len() && forall|i: int|
                    0 <= i < groups.spec_len() ==> rat_matches(
                        out@[i],
                        spec_median(#[trigger] groups.group_cells(self@, i)),
                    ),
                Err(e) => groups.first_oob_error(self@.len() as int, e),
            },
    {
        let prob = QuantileProb { num: 1, den: 2 };
        self.agg_quantile(groups, prob, QuantileMethod::Linear)
    }

    /// Sum of the whole column, widened: 0 when no live value exists.
    pub fn sum_reduce(&self) -> (r: i128)
        requires
            self.wf(),
        ensures
            r as int == spec_sum(self@),
    {
        let chunk = self.rechunk();
        let cells = take_cells_slice(&chunk, 0, chunk.values.len());
        proof {
            assert(slice_cells(chunk@, 0, chunk@.len() as int) =~= chunk@);
        }
        let rc = crate::gather::sum_count_cells(&cells);
        rc.0
    }

    /// Minimum of the whole column; null when no live value exists.
    pub fn min_reduce(&self) -> (r: Option<i64>)
        requires
            self.wf(),
        ensures
            r == spec_min(self@),
    {
        let chunk = self.rechunk();
        let cells = take_cells_slice(&chunk, 0, chunk.values.len());
        proof {
            assert(slice_cells(chunk@, 0, chunk@.len() as int) =~= chunk@);
        }
        crate::gather::min_cells(&cells)
    }

    /// Maximum of the whole column; null when no live value exists.
    pub fn max_reduce(&self) -> (r: Option<i64>)
        requires
            self.wf(),
        ensures
            r == spec_max(self@),
    {
        let chunk = self.rechunk();
        let cells = take_cells_slice(&chunk, 0, chunk.values.len());
        proof {
            assert(slice_cells(chunk@, 0, chunk@.len() as int) =~= chunk@);
        }
        crate::gather::max_cells(&cells)
    }

    /// Mean of the whole column as an exact rational; null when no live
    /// value exists.
    pub fn mean_reduce(&self) -> (r: Option<Rational>)
        requires
            self.wf(),
        ensures
            rat_matches(r, spec_mean(self@)),
    {
        let chunk = self.rechunk();
        let cells = take_cells_slice(&chunk, 0, chunk.values.len());
        proof {
            assert(slice_cells(chunk@, 0, chunk@.len() as int) =~= chunk@);
        }
        let rc = crate::gather::sum_count_cells(&cells);
        if rc.1 == 0 {
            None
        } else {
            Some(Rational { num: rc.0, den: rc.1 as i128 })
        }
    }

    /// Quantile of the whole column as an exact rational; null when no
    /// live value exists or the probability lies outside `[0, 1]`.
    pub fn quantile_reduce(&self, prob: QuantileProb, method: QuantileMethod) -> (r: Option<
        Rational,
    >)
        requires
            self.wf(),
            prob.small(),
        ensures
            prob.valid() ==> rat_matches(
                r,
                spec_quantile(self@, prob.num as int, prob.den as int, method),
            ),
            !prob.valid() ==> r is None,
    {
        if !prob.is_valid() {
            return None;
        }
        let chunk = self.rechunk();
        let cells = take_cells_slice(&chunk, 0, chunk.values.len());
        proof {
            assert(slice_cells(chunk@, 0, chunk@.len() as int) =~= chunk@);
            broadcast use vstd::seq_lib::group_to_multiset_ensures;

            crate::quantile::lemma_le64_total_ordering();
            crate::model::live_values(cells@).lemma_sort_by_ensures(crate::quantile::le64());
            assert(crate::model::live_values(cells@).to_multiset().len()
                == crate::model::live_values(cells@).len());
            assert(crate::quantile::sorted_live(cells@).to_multiset().len()
                == crate::quantile::sorted_live(cells@).len());
            assert(crate::quantile::sorted_live(cells@).len() == crate::model::live_values(
                cells@,
            ).len());
        }
        let lv = crate::gather::live_cells(&cells);
        if lv.len() == 0 {
            None
        } else {
            let w = crate::quantile::sort_values(&lv);
            Some(crate::quantile::quantile_of_sorted(&w, prob, method))
        }
    }

    /// Median of the whole column as an exact rational; null when no live
    /// value exists.
    pub fn median_reduce(&self) -> (r: Option<Rational>)
        requires
            self.wf(),
        ensures
            rat_matches(r, spec_median(self@)),
    {
        self.quantile_reduce(QuantileProb { num: 1, den: 2 }, QuantileMethod::Linear)
    }
}

} // verus!
