//! Group descriptors and their structural checks.
//!
//! Two representations coexist: *index groups* (one ordered member list per
//! group, produced by hash-based grouping) and *slice groups* (contiguous
//! `(start, len)` windows, produced by sort-based or rolling grouping).
//! Out-of-bounds membership is a checked error, validated once per call;
//! the rolling-eligibility test decides whether slice groups may use the
//! stateful sliding-window strategy.

use vstd::prelude::*;

use crate::AggError;
use crate::model::{idx_cells, slice_cells};

verus! {

/// One group given by an explicit member list: the representative first
/// row position and the ordered list of member row positions.
#[derive(Clone, Debug)]
pub struct IdxGroup {
    pub first: usize,
    pub members: Vec<usize>,
}

/// One group given as a slice of the row space: `len` rows from `start`.
#[derive(Clone, Copy, PartialEq, Eq, Structural, Debug)]
pub struct SliceGroup {
    pub start: usize,
    pub len: usize,
}

/// A group descriptor: the ordered sequence of groups in either
/// representation.
#[derive(Clone, Debug)]
pub enum GroupsType {
    Idx(Vec<IdxGroup>),
    Slice(Vec<SliceGroup>),
}

/// Every member of the group addresses a row of a column of length `n`.
pub open spec fn idx_group_in_bounds(g: IdxGroup, n: int) -> bool {
    forall|i: int| 0 <= i < g.members@.len() ==> (#[trigger] g.members@[i]) < n
}

/// The slice lies entirely within a column of length `n`.
pub open spec fn slice_group_in_bounds(g: SliceGroup, n: int) -> bool {
    g.start + g.len <= n
}

pub open spec fn idx_groups_in_bounds(gs: Seq<IdxGroup>, n: int) -> bool {
    forall|i: int| 0 <= i < gs.len() ==> idx_group_in_bounds(#[trigger] gs[i], n)
}

pub open spec fn slice_groups_in_bounds(gs: Seq<SliceGroup>, n: int) -> bool {
    forall|i: int| 0 <= i < gs.len() ==> slice_group_in_bounds(#[trigger] gs[i], n)
}

impl GroupsType {
    /// Number of groups in the descriptor.
    pub open spec fn spec_len(self) -> nat {
        match self {
            GroupsType::Idx(gs) => gs@.len(),
            GroupsType::Slice(gs) => gs@.len(),
        }
    }

    /// Every row position referenced by the descriptor is within a column
    /// of length `n`.
    pub open spec fn in_bounds(self, n: int) -> bool {
        match self {
            GroupsType::Idx(gs) => idx_groups_in_bounds(gs@, n),
            GroupsType::Slice(gs) => slice_groups_in_bounds(gs@, n),
        }
    }

    /// The cells selected by group `i` of the descriptor, in member order.
    pub open spec fn group_cells(self, cells: Seq<Option<i64>>, i: int) -> Seq<Option<i64>> {
        match self {
            GroupsType::Idx(gs) => idx_cells(cells, gs[i].members@),
            GroupsType::Slice(gs) => slice_cells(cells, gs[i].start as int, gs[i].len as int),
        }
    }

    /// Number of groups.
    pub fn len(&self) -> (r: usize)
        ensures
            r == self.spec_len(),
    {
        match self {
            GroupsType::Idx(gs) => gs.len(),
            GroupsType::Slice(gs) => gs.len(),
        }
    }

    /// The error names the first group that references a row outside a
    /// column of length `n`.
    pub open spec fn first_oob_error(self, n: int, e: AggError) -> bool {
        e matches AggError::GroupOutOfBounds { group } && {
            let g = group as int;
            &&& 0 <= g < self.spec_len()
            &&& match self {
                GroupsType::Idx(gs) => !idx_group_in_bounds(gs@[g], n) && forall|j: int|
                    0 <= j < g ==> idx_group_in_bounds(#[trigger] gs@[j], n),
                GroupsType::Slice(gs) => !slice_group_in_bounds(gs@[g], n) && forall|j: int|
                    0 <= j < g ==> slice_group_in_bounds(#[trigger] gs@[j], n),
            }
        }
    }

    /// Bounds validation, performed once per aggregation call: `Ok` exactly
    /// when every referenced row position lies within a column of length
    /// `n`, and otherwise an error naming the first offending group.
    #[verifier::loop_isolation(false)]
    pub fn validate(&self, n: usize) -> (r: Result<(), AggError>)
        ensures
            r is Ok <==> self.in_bounds(n as int),
            match r {
                Ok(()) => true,
                Err(e) => self.first_oob_error(n as int, e),
            },
    {
        match self {
            GroupsType::Idx(gs) => {
                let mut i: usize = 0;
                while i < gs.len()
                    invariant
                        i <= gs@.len(),
                        forall|j: int| 0 <= j < i ==> idx_group_in_bounds(#[trigger] gs@[j], n as int),
                    decreases gs@.len() - i,
                {
                    let g = &gs[i];
                    let mut k: usize = 0;
                    while k < g.members.len()
                        invariant
                            i < gs@.len(),
                            g == &gs@[i as int],
                            k <= g.members@.len(),
                            forall|j: int|
                                0 <= j < i ==> idx_group_in_bounds(#[trigger] gs@[j], n as int),
                            forall|t: int| 0 <= t < k ==> (#[trigger] g.members@[t]) < n,
                        decreases g.members@.len() - k,
                    {
                        if g.members[k] >= n {
                            assert(g.members@[k as int] >= n);
                            assert(!idx_group_in_bounds(gs@[i as int], n as int));
                            return Err(AggError::GroupOutOfBounds { group: i });
                        }
                        k += 1;
                    }
                    assert(idx_group_in_bounds(gs@[i as int], n as int));
                    i += 1;
                }
                Ok(())
            },
            GroupsType::Slice(gs) => {
                let mut i: usize = 0;
                while i < gs.len()
                    invariant
                        i <= gs@.len(),
                        forall|j: int|
                            0 <= j < i ==> slice_group_in_bounds(#[trigger] gs@[j], n as int),
                    decreases gs@.len() - i,
                {
                    let g = gs[i];
                    if g.start > n || g.len > n - g.start {
                        assert(!slice_group_in_bounds(gs@[i as int], n as int));
                        return Err(AggError::GroupOutOfBounds { group: i });
                    }
                    assert(slice_group_in_bounds(gs@[i as int], n as int));
                    i += 1;
                }
                Ok(())
            },
        }
    }
}

/// The structural signature of a rolling (windowed) group-by: at least two
/// groups over a single chunk, with the second window starting at or after
/// the first but before the first ends, so that consecutive windows
/// overlap. Disjoint slices are rejected here on purpose: they fan out
/// across workers instead, while rolling kernels are single-threaded.
pub open spec fn spec_use_rolling_kernels(gs: Seq<SliceGroup>, n_chunks: int) -> bool {
    &&& gs.len() >= 2
    &&& n_chunks == 1
    &&& gs[1].start >= gs[0].start
    &&& (gs[1].start as int) < gs[0].start + gs[0].len
}

/// The rolling-eligibility test: decides whether slice groups may use the
/// stateful sliding-window kernels of a column with `n_chunks` chunks.
pub fn use_rolling_kernels(groups: &Vec<SliceGroup>, n_chunks: usize) -> (r: bool)
    ensures
        r == spec_use_rolling_kernels(groups@, n_chunks as int),
{
    if groups.len() <= 1 {
        false
    } else {
        let first = groups[0];
        let second = groups[1];
        second.start >= first.start && (second.start as u128) < (first.start as u128) + (
        first.len as u128) && n_chunks == 1
    }
}

/// Members listed in non-decreasing row order, with the representative
/// equal to the first member: the precondition of the min/max sortedness
/// shortcut for index groups, asserted rather than assumed.
pub open spec fn idx_group_position_ordered(g: IdxGroup) -> bool {
    &&& forall|i: int, j: int|
        0 <= i <= j < g.members@.len() ==> #[trigger] g.members@[i] <= #[trigger] g.members@[j]
    &&& g.members@.len() > 0 ==> g.first == g.members@[0]
}

pub open spec fn idx_groups_position_ordered(gs: Seq<IdxGroup>) -> bool {
    forall|i: int| 0 <= i < gs.len() ==> idx_group_position_ordered(#[trigger] gs[i])
}

/// Adjacent order of member positions extends to all pairs.
proof fn lemma_members_chain(ms: Seq<usize>, i: int, j: int)
    requires
        forall|t: int| 1 <= t < ms.len() ==> (#[trigger] ms[t]) >= ms[t - 1],
        0 <= i <= j < ms.len(),
    ensures
        ms[i] <= ms[j],
    decreases j - i,
{
    if i < j {
        lemma_members_chain(ms, i, j - 1);
        assert(ms[j - 1] <= ms[j]);
    }
}

/// Checks that every index group lists its members in non-decreasing row
/// order with the representative first, which the sortedness shortcut
/// relies on.
#[verifier::loop_isolation(false)]
pub fn check_position_ordered(gs: &Vec<IdxGroup>) -> (r: bool)
    ensures
        r == idx_groups_position_ordered(gs@),
{
    let mut i: usize = 0;
    while i < gs.len()
        invariant
            i <= gs@.len(),
            forall|j: int| 0 <= j < i ==> idx_group_position_ordered(#[trigger] gs@[j]),
        decreases gs@.len() - i,
    {
        let g = &gs[i];
        if g.members.len() > 0 && g.first != g.members[0] {
            assert(!idx_group_position_ordered(gs@[i as int]));
            return false;
        }
        let mut k: usize = 1;
        while k < g.members.len()
            invariant
                1 <= k,
                g == &gs@[i as int],
                forall|t: int| 1 <= t < k && t < g.members@.len() ==> (#[trigger] g.members@[t])
                    >= g.members@[t - 1],
            decreases g.members@.len() - k,
        {
            if g.members[k - 1] > g.members[k] {
                assert(g.members@[k - 1] > g.members@[k as int]);
                assert(!idx_group_position_ordered(gs@[i as int]));
                return false;
            }
            assert(g.members@[k - 1] <= g.members@[k as int]);
            k += 1;
        }
        proof {
            assert forall|s: int, t: int| 0 <= s <= t < g.members@.len() implies #[trigger] g
                .members@[s] <= #[trigger] g.members@[t] by {
                lemma_members_chain(g.members@, s, t);
            }
            assert(idx_group_position_ordered(gs@[i as int]));
        }
        i += 1;
    }
    true
}

} // verus!
