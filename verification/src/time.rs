//! The time-of-day logical-type adapter: nanoseconds since midnight over
//! a physical integer column.
//!
//! Like every fixed-representation logical type, time reaches the engine
//! through its physical representation: aggregate the physical column,
//! rewrap the result. Minimum and maximum of any group are themselves
//! values of the column, so the time-of-day range invariant survives the
//! round trip — asserted here, not assumed.

use vstd::prelude::*;

use crate::AggError;
use crate::column::Column;
use crate::groups::GroupsType;
use crate::model::{lemma_live_sourced, lemma_max_characterizes, lemma_min_characterizes,
    live_values, spec_max, spec_min};

verus! {

/// Nanoseconds in one day: the exclusive upper bound of a time-of-day
/// value.
pub const NANOS_PER_DAY: i64 = 86_400_000_000_000;

/// A time-of-day cell sequence: every present value is a nanosecond count
/// within one day.
pub open spec fn time_cells(cells: Seq<Option<i64>>) -> bool {
    forall|i: int|
        0 <= i < cells.len() && cells[i] is Some ==> 0 <= (#[trigger] cells[i])->Some_0
            < NANOS_PER_DAY
}

/// A time-of-day column.
#[derive(Clone, Debug)]
pub struct TimeColumn {
    pub physical: Column,
}

impl TimeColumn {
    /// Well-formedness: the physical column is well-formed and every
    /// present value is within one day.
    pub open spec fn wf(self) -> bool {
        &&& self.physical.wf()
        &&& time_cells(self.physical@)
    }

    /// Wraps a physical column as time of day after checking the range
    /// invariant, which the aggregations below rely on.
    pub fn new(physical: Column) -> (r: Option<TimeColumn>)
        requires
            physical.wf(),
        ensures
            r is Some <==> time_cells(physical@),
            r matches Some(t) ==> t.wf() && t.physical@ == physical@,
    {
        let chunk = physical.rechunk();
        let n = chunk.values.len();
        let mut i: usize = 0;
        while i < n
            invariant
                chunk.wf(),
                chunk@ == physical@,
                n == chunk@.len(),
                i <= n,
                forall|j: int|
                    0 <= j < i && (#[trigger] chunk@[j]) is Some ==> 0 <= chunk@[j]->Some_0
                        < NANOS_PER_DAY,
            decreases n - i,
        {
            let cell = crate::gather::chunk_get(&chunk, i);
            match cell {
                Some(v) => {
                    if v < 0 || v >= NANOS_PER_DAY {
                        assert(!time_cells(chunk@));
                        return None;
                    }
                },
                None => {},
            }
            i += 1;
        }
        Some(TimeColumn { physical })
    }

    /// Per-group minimum on the physical column; the result is again a
    /// time of day, because a group's minimum is one of its values.
    pub fn agg_min(&self, groups: &GroupsType) -> (r: Result<Vec<Option<i64>>, AggError>)
        requires
            self.wf(),
        ensures
            r is Ok <==> groups.in_bounds(self.physical@.len() as int),
            match r {
                Ok(out) => out@.len() == groups.spec_len() && forall|i: int|
                    0 <= i < groups.spec_len() ==> out@[i] == spec_min(
                        #[trigger] groups.group_cells(self.physical@, i),
                    ) && (out@[i] matches Some(v) ==> 0 <= v < NANOS_PER_DAY),
                Err(e) => groups.first_oob_error(self.physical@.len() as int, e),
            },
    {
        let r = self.physical.agg_min(groups);
        proof {
            if r is Ok {
                let out = r->Ok_0;
                assert forall|i: int| 0 <= i < groups.spec_len() implies (
                #[trigger] out@[i] matches Some(v) ==> 0 <= v < NANOS_PER_DAY) by {
                    if out@[i] is Some {
                        let gc = groups.group_cells(self.physical@, i);
                        lemma_group_cell_in_range(self.physical@, *groups, i);
                        let lv = live_values(gc);
                        lemma_min_characterizes(lv);
                        lemma_live_sourced(gc);
                        let k = choose|k: int|
                            0 <= k < lv.len() && lv[k] == crate::model::min_of(lv);
                        assert(exists|t: int| 0 <= t < gc.len() && gc[t] == Some(lv[k]));
                    }
                }
            }
        }
        r
    }

    /// Per-group maximum on the physical column; the result is again a
    /// time of day.
    pub fn agg_max(&self, groups: &GroupsType) -> (r: Result<Vec<Option<i64>>, AggError>)
        requires
            self.wf(),
        ensures
            r is Ok <==> groups.in_bounds(self.physical@.len() as int),
            match r {
                Ok(out) => out@.len() == groups.spec_len() && forall|i: int|
                    0 <= i < groups.spec_len() ==> out@[i] == spec_max(
                        #[trigger] groups.group_cells(self.physical@, i),
                    ) && (out@[i] matches Some(v) ==> 0 <= v < NANOS_PER_DAY),
                Err(e) => groups.first_oob_error(self.physical@.len() as int, e),
            },
    {
        let r = self.physical.agg_max(groups);
        proof {
            if r is Ok {
                let out = r->Ok_0;
                assert forall|i: int| 0 <= i < groups.spec_len() implies (
                #[trigger] out@[i] matches Some(v) ==> 0 <= v < NANOS_PER_DAY) by {
                    if out@[i] is Some {
                        let gc = groups.group_cells(self.physical@, i);
                        lemma_group_cell_in_range(self.physical@, *groups, i);
                        let lv = live_values(gc);
                        lemma_max_characterizes(lv);
                        lemma_live_sourced(gc);
                        let k = choose|k: int|
                            0 <= k < lv.len() && lv[k] == crate::model::max_of(lv);
                        assert(exists|t: int| 0 <= t < gc.len() && gc[t] == Some(lv[k]));
                    }
                }
            }
        }
        r
    }
}

/// A group's cells inherit the time-of-day range from the column.
proof fn lemma_group_cell_in_range(cells: Seq<Option<i64>>, groups: GroupsType, i: int)
    requires
        time_cells(cells),
        groups.in_bounds(cells.len() as int),
        0 <= i < groups.spec_len(),
    ensures
        time_cells(groups.group_cells(cells, i)),
{
    let gc = groups.group_cells(cells, i);
    match groups {
        GroupsType::Idx(gs) => {
            assert forall|t: int| 0 <= t < gc.len() && (#[trigger] gc[t]) is Some implies 0
                <= gc[t]->Some_0 < NANOS_PER_DAY by {
                assert(gc[t] == cells[gs@[i].members@[t] as int]);
            }
        },
        GroupsType::Slice(gs) => {
            assert forall|t: int| 0 <= t < gc.len() && (#[trigger] gc[t]) is Some implies 0
                <= gc[t]->Some_0 < NANOS_PER_DAY by {
                assert(gc[t] == cells[gs@[i].start + t]);
            }
        },
    }
}

} // verus!
