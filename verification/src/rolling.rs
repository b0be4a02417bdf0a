//! Rolling window accumulators: stateful, single-threaded kernels that
//! advance a window incrementally across slice groups.
//!
//! Each accumulator holds the partial statistic of the current window
//! `[start, end)` and moves the boundary in work proportional to the
//! displacement: values leaving the window are retired, values entering
//! are admitted. A window that regresses (which the eligibility test makes
//! unexpected but the kernels do not assume away) is recomputed from
//! scratch. A validity-aware live count is kept throughout, so null
//! density never biases a result and an all-null window yields null (or
//! the identity 0, for the sum). The accumulator sweep is inherently
//! sequential: each window's state depends on the previous window's.

use vstd::prelude::*;

use crate::column::Chunk;
use crate::gather::{chunk_get, sum_count_cells, take_cells_slice, MOMENT_GROUP_LIMIT,
    MOMENT_VALUE_LIMIT};
use crate::groups::{slice_groups_in_bounds, SliceGroup};
use crate::model::{
    cells_within, lemma_abs_mul_bound, lemma_live_concat, lemma_live_contains, lemma_live_first,
    lemma_live_len, lemma_live_push, lemma_live_within, lemma_max_characterizes, lemma_max_concat,
    lemma_max_push, lemma_min_characterizes, lemma_min_concat, lemma_min_push, lemma_sum_bound,
    lemma_sum_concat, lemma_sum_push, lemma_sum_singleton, lemma_sum_sq_concat, lemma_sum_sq_push,
    lemma_sum_sq_within, lemma_sum_within, live_values, max_of, min_of, slice_cells, spec_max,
    spec_mean, spec_min, spec_sum, spec_var, sum_of, sum_sq_of, values_within, var_pair,
};
use crate::quantile::{
    insert_sorted, le64, lemma_le64_total_ordering, quantile_of_sorted, sort_values, spec_quantile,
};
use crate::rational::{rat_matches, QuantileMethod, QuantileProb, Rational};
use vstd::multiset::Multiset;
use vstd::relations::sorted_by;
use vstd::seq_lib::lemma_sorted_unique;

verus! {

/// The cells of the window `[start, end)`.
pub open spec fn window(cells: Seq<Option<i64>>, start: int, end: int) -> Seq<Option<i64>> {
    cells.subrange(start, end)
}

/// Rolling sum (and live count): the running sum of the window's live
/// values, maintained under boundary moves.
pub struct SumAcc {
    pub start: usize,
    pub end: usize,
    pub sum: i128,
    pub live: usize,
}

impl SumAcc {
    /// The state describes the window `[start, end)` of the cells.
    pub open spec fn inv(self, cells: Seq<Option<i64>>) -> bool {
        &&& self.start <= self.end <= cells.len()
        &&& self.sum as int == sum_of(live_values(window(cells, self.start as int, self.end as int)))
        &&& self.live == live_values(window(cells, self.start as int, self.end as int)).len()
    }

    /// A fresh accumulator over the empty window.
    pub fn new() -> (a: SumAcc)
        ensures
            a.start == 0 && a.end == 0 && a.sum == 0 && a.live == 0,
    {
        SumAcc { start: 0, end: 0, sum: 0, live: 0 }
    }

    /// Moves the window boundary to `[new_start, new_end)`, retiring
    /// values that left and admitting values that entered; recomputes from
    /// scratch only when the window regressed. Returns the window's sum
    /// and live count.
    pub fn update(&mut self, chunk: &Chunk, new_start: usize, new_end: usize) -> (r: (i128, usize))
        requires
            chunk.wf(),
            old(self).inv(chunk@),
            new_start <= new_end,
            new_end <= chunk@.len(),
        ensures
            final(self).inv(chunk@),
            final(self).start == new_start,
            final(self).end == new_end,
            r.0 == final(self).sum && r.1 == final(self).live,
            r.0 as int == spec_sum(window(chunk@, new_start as int, new_end as int)),
            r.1 == live_values(window(chunk@, new_start as int, new_end as int)).len(),
    {
        let n_chunk = chunk.values.len();
        if new_start < self.start || new_end < self.end || new_start > self.end {
            let cells = take_cells_slice(chunk, new_start, new_end - new_start);
            let rc = sum_count_cells(&cells);
            self.start = new_start;
            self.end = new_end;
            self.sum = rc.0;
            self.live = rc.1;
            proof {
                assert(slice_cells(chunk@, new_start as int, (new_end - new_start) as int)
                    =~= window(chunk@, new_start as int, new_end as int));
            }
        } else {
            while self.start < new_start
                invariant
                    chunk.wf(),
                    chunk@.len() == n_chunk,
                    self.inv(chunk@),
                    self.start <= new_start,
                    new_start <= self.end,
                    self.end <= new_end,
                decreases new_start - self.start,
            {
                let ghost w = window(chunk@, self.start as int, self.end as int);
                let cell = chunk_get(chunk, self.start);
                proof {
                    lemma_live_first(w);
                    assert(w.drop_first() =~= window(chunk@, self.start + 1, self.end as int));
                    match w[0] {
                        Some(v) => {
                            lemma_sum_concat(seq![v], live_values(w.drop_first()));
                            lemma_sum_singleton(v);
                            lemma_sum_bound(live_values(w.drop_first()));
                            lemma_live_len(w.drop_first());
                        },
                        None => {},
                    }
                }
                match cell {
                    Some(v) => {
                        self.sum = self.sum - (v as i128);
                        self.live = self.live - 1;
                    },
                    None => {},
                }
                self.start = self.start + 1;
            }
            while self.end < new_end
                invariant
                    chunk.wf(),
                    chunk@.len() == n_chunk,
                    self.inv(chunk@),
                    self.start == new_start,
                    self.end <= new_end,
                    new_end <= chunk@.len(),
                decreases new_end - self.end,
            {
                let ghost w = window(chunk@, self.start as int, self.end as int);
                let cell = chunk_get(chunk, self.end);
                proof {
                    assert(window(chunk@, self.start as int, self.end + 1) =~= w.push(
                        chunk@[self.end as int],
                    ));
                    lemma_live_push(w, chunk@[self.end as int]);
                    match chunk@[self.end as int] {
                        Some(v) => {
                            lemma_sum_push(live_values(w), v);
                            lemma_sum_bound(live_values(w).push(v));
                            lemma_live_len(w.push(chunk@[self.end as int]));
                        },
                        None => {},
                    }
                }
                match cell {
                    Some(v) => {
                        self.sum = self.sum + (v as i128);
                        self.live = self.live + 1;
                    },
                    None => {},
                }
                self.end = self.end + 1;
            }
        }
        (self.sum, self.live)
    }
}

/// Scans a window for its minimum and that minimum's position.
fn min_scan(chunk: &Chunk, start: usize, end: usize) -> (r: Option<(usize, i64)>)
    requires
        chunk.wf(),
        start <= end,
        end <= chunk@.len(),
    ensures
        match r {
            None => spec_min(window(chunk@, start as int, end as int)) is None,
            Some(pv) => start <= pv.0 < end && chunk@[pv.0 as int] == Some(pv.1) && spec_min(
                window(chunk@, start as int, end as int),
            ) == Some(pv.1),
        },
{
    let n_chunk = chunk.values.len();
    let mut cur: Option<(usize, i64)> = None;
    let mut q: usize = start;
    proof {
        assert(window(chunk@, start as int, start as int) =~= Seq::<Option<i64>>::empty());
    }
    while q < end
        invariant
            chunk.wf(),
            chunk@.len() == n_chunk,
            start <= q <= end,
            end <= chunk@.len(),
            match cur {
                None => spec_min(window(chunk@, start as int, q as int)) is None,
                Some(pv) => start <= pv.0 < q && chunk@[pv.0 as int] == Some(pv.1) && spec_min(
                    window(chunk@, start as int, q as int),
                ) == Some(pv.1),
            },
        decreases end - q,
    {
        let ghost w = window(chunk@, start as int, q as int);
        let cell = chunk_get(chunk, q);
        proof {
            assert(window(chunk@, start as int, q + 1) =~= w.push(chunk@[q as int]));
            lemma_live_push(w, chunk@[q as int]);
            match chunk@[q as int] {
                Some(v) => {
                    lemma_min_push(live_values(w), v);
                },
                None => {},
            }
        }
        match cell {
            Some(v) => {
                cur = match cur {
                    None => Some((q, v)),
                    Some(pv) => if v < pv.1 {
                        Some((q, v))
                    } else {
                        Some(pv)
                    },
                };
            },
            None => {},
        }
        q += 1;
    }
    cur
}

/// Scans a window for its maximum and that maximum's position.
fn max_scan(chunk: &Chunk, start: usize, end: usize) -> (r: Option<(usize, i64)>)
    requires
        chunk.wf(),
        start <= end,
        end <= chunk@.len(),
    ensures
        match r {
            None => spec_max(window(chunk@, start as int, end as int)) is None,
            Some(pv) => start <= pv.0 < end && chunk@[pv.0 as int] == Some(pv.1) && spec_max(
                window(chunk@, start as int, end as int),
            ) == Some(pv.1),
        },
{
    let n_chunk = chunk.values.len();
    let mut cur: Option<(usize, i64)> = None;
    let mut q: usize = start;
    proof {
        assert(window(chunk@, start as int, start as int) =~= Seq::<Option<i64>>::empty());
    }
    while q < end
        invariant
            chunk.wf(),
            chunk@.len() == n_chunk,
            start <= q <= end,
            end <= chunk@.len(),
            match cur {
                None => spec_max(window(chunk@, start as int, q as int)) is None,
                Some(pv) => start <= pv.0 < q && chunk@[pv.0 as int] == Some(pv.1) && spec_max(
                    window(chunk@, start as int, q as int),
                ) == Some(pv.1),
            },
        decreases end - q,
    {
        let ghost w = window(chunk@, start as int, q as int);
        let cell = chunk_get(chunk, q);
        proof {
            assert(window(chunk@, start as int, q + 1) =~= w.push(chunk@[q as int]));
            lemma_live_push(w, chunk@[q as int]);
            match chunk@[q as int] {
                Some(v) => {
                    lemma_max_push(live_values(w), v);
                },
                None => {},
            }
        }
        match cell {
            Some(v) => {
                cur = match cur {
                    None => Some((q, v)),
                    Some(pv) => if v > pv.1 {
                        Some((q, v))
                    } else {
                        Some(pv)
                    },
                };
            },
            None => {},
        }
        q += 1;
    }
    cur
}

/// Rolling minimum: the current minimum and its position. The position
/// tells whether the minimum survives a front shrink; only when it leaves
/// the window is the window rescanned.
pub struct MinAcc {
    pub start: usize,
    pub end: usize,
    pub cur: Option<i64>,
    pub pos: usize,
}

impl MinAcc {
    /// The state describes the window `[start, end)` of the cells.
    pub open spec fn inv(self, cells: Seq<Option<i64>>) -> bool {
        &&& self.start <= self.end <= cells.len()
        &&& match self.cur {
            Some(m) => self.start <= self.pos < self.end && cells[self.pos as int] == Some(m)
                && spec_min(window(cells, self.start as int, self.end as int)) == Some(m),
            None => spec_min(window(cells, self.start as int, self.end as int)) is None,
        }
    }

    /// A fresh accumulator over the empty window.
    pub fn new() -> (a: MinAcc)
        ensures
            a.start == 0 && a.end == 0 && a.cur is None && a.pos == 0,
    {
        MinAcc { start: 0, end: 0, cur: None, pos: 0 }
    }

    /// Moves the window boundary to `[new_start, new_end)` and returns the
    /// window's minimum (null when the live window is empty).
    pub fn update(&mut self, chunk: &Chunk, new_start: usize, new_end: usize) -> (r: Option<i64>)
        requires
            chunk.wf(),
            old(self).inv(chunk@),
            new_start <= new_end,
            new_end <= chunk@.len(),
        ensures
            final(self).inv(chunk@),
            final(self).start == new_start,
            final(self).end == new_end,
            r == spec_min(window(chunk@, new_start as int, new_end as int)),
    {
        let n_chunk = chunk.values.len();
        let keep = new_start >= self.start && new_start <= self.end && new_end >= self.end
            && (match self.cur {
            Some(_) => new_start <= self.pos,
            None => true,
        });
        if !keep {
            let sc = min_scan(chunk, new_start, new_end);
            match sc {
                None => {
                    self.cur = None;
                    self.pos = new_start;
                },
                Some(pv) => {
                    self.cur = Some(pv.1);
                    self.pos = pv.0;
                },
            }
            self.start = new_start;
            self.end = new_end;
        } else {
            proof {
                let w = window(chunk@, self.start as int, self.end as int);
                let front = window(chunk@, self.start as int, new_start as int);
                let rest = window(chunk@, new_start as int, self.end as int);
                assert(w =~= front + rest);
                lemma_live_concat(front, rest);
                match self.cur {
                    Some(m) => {
                        lemma_live_contains(rest, self.pos - new_start);
                        assert(rest[self.pos - new_start] == Some(m));
                        let k = choose|k: int|
                            0 <= k < live_values(rest).len() && live_values(rest)[k] == m;
                        lemma_min_characterizes(live_values(rest));
                        assert(min_of(live_values(rest)) <= m);
                        if live_values(front).len() == 0 {
                            assert(live_values(w) =~= live_values(rest));
                        } else {
                            lemma_min_concat(live_values(front), live_values(rest));
                        }
                        assert(min_of(live_values(rest)) == m);
                    },
                    None => {
                        assert(live_values(rest).len() == 0);
                    },
                }
            }
            self.start = new_start;
            while self.end < new_end
                invariant
                    chunk.wf(),
                    chunk@.len() == n_chunk,
                    self.inv(chunk@),
                    self.start == new_start,
                    self.end <= new_end,
                    new_end <= chunk@.len(),
                decreases new_end - self.end,
            {
                let ghost w = window(chunk@, self.start as int, self.end as int);
                let cell = chunk_get(chunk, self.end);
                proof {
                    assert(window(chunk@, self.start as int, self.end + 1) =~= w.push(
                        chunk@[self.end as int],
                    ));
                    lemma_live_push(w, chunk@[self.end as int]);
                    match chunk@[self.end as int] {
                        Some(v) => {
                            lemma_min_push(live_values(w), v);
                        },
                        None => {},
                    }
                }
                match cell {
                    Some(v) => {
                        match self.cur {
                            None => {
                                self.cur = Some(v);
                                self.pos = self.end;
                            },
                            Some(m) => {
                                if v < m {
                                    self.cur = Some(v);
                                    self.pos = self.end;
                                }
                            },
                        }
                    },
                    None => {},
                }
                self.end = self.end + 1;
            }
        }
        self.cur
    }
}

/// Rolling maximum: the mirror of the minimum accumulator.
pub struct MaxAcc {
    pub start: usize,
    pub end: usize,
    pub cur: Option<i64>,
    pub pos: usize,
}

impl MaxAcc {
    /// The state describes the window `[start, end)` of the cells.
    pub open spec fn inv(self, cells: Seq<Option<i64>>) -> bool {
        &&& self.start <= self.end <= cells.len()
        &&& match self.cur {
            Some(m) => self.start <= self.pos < self.end && cells[self.pos as int] == Some(m)
                && spec_max(window(cells, self.start as int, self.end as int)) == Some(m),
            None => spec_max(window(cells, self.start as int, self.end as int)) is None,
        }
    }

    /// A fresh accumulator over the empty window.
    pub fn new() -> (a: MaxAcc)
        ensures
            a.start == 0 && a.end == 0 && a.cur is None && a.pos == 0,
    {
        MaxAcc { start: 0, end: 0, cur: None, pos: 0 }
    }

    /// Moves the window boundary to `[new_start, new_end)` and returns the
    /// window's maximum (null when the live window is empty).
    pub fn update(&mut self, chunk: &Chunk, new_start: usize, new_end: usize) -> (r: Option<i64>)
        requires
            chunk.wf(),
            old(self).inv(chunk@),
            new_start <= new_end,
            new_end <= chunk@.len(),
        ensures
            final(self).inv(chunk@),
            final(self).start == new_start,
            final(self).end == new_end,
            r == spec_max(window(chunk@, new_start as int, new_end as int)),
    {
        let n_chunk = chunk.values.len();
        let keep = new_start >= self.start && new_start <= self.end && new_end >= self.end
            && (match self.cur {
            Some(_) => new_start <= self.pos,
            None => true,
        });
        if !keep {
            let sc = max_scan(chunk, new_start, new_end);
            match sc {
                None => {
                    self.cur = None;
                    self.pos = new_start;
                },
                Some(pv) => {
                    self.cur = Some(pv.1);
                    self.pos = pv.0;
                },
            }
            self.start = new_start;
            self.end = new_end;
        } else {
            proof {
                let w = window(chunk@, self.start as int, self.end as int);
                let front = window(chunk@, self.start as int, new_start as int);
                let rest = window(chunk@, new_start as int, self.end as int);
                assert(w =~= front + rest);
                lemma_live_concat(front, rest);
                match self.cur {
                    Some(m) => {
                        lemma_live_contains(rest, self.pos - new_start);
                        assert(rest[self.pos - new_start] == Some(m));
                        let k = choose|k: int|
                            0 <= k < live_values(rest).len() && live_values(rest)[k] == m;
                        lemma_max_characterizes(live_values(rest));
                        assert(max_of(live_values(rest)) >= m);
                        if live_values(front).len() == 0 {
                            assert(live_values(w) =~= live_values(rest));
                        } else {
                            lemma_max_concat(live_values(front), live_values(rest));
                        }
                        assert(max_of(live_values(rest)) == m);
                    },
                    None => {
                        assert(live_values(rest).len() == 0);
                    },
                }
            }
            self.start = new_start;
            while self.end < new_end
                invariant
                    chunk.wf(),
                    chunk@.len() == n_chunk,
                    self.inv(chunk@),
                    self.start == new_start,
                    self.end <= new_end,
                    new_end <= chunk@.len(),
                decreases new_end - self.end,
            {
                let ghost w = window(chunk@, self.start as int, self.end as int);
                let cell = chunk_get(chunk, self.end);
                proof {
                    assert(window(chunk@, self.start as int, self.end + 1) =~= w.push(
                        chunk@[self.end as int],
                    ));
                    lemma_live_push(w, chunk@[self.end as int]);
                    match chunk@[self.end as int] {
                        Some(v) => {
                            lemma_max_push(live_values(w), v);
                        },
                        None => {},
                    }
                }
                match cell {
                    Some(v) => {
                        match self.cur {
                            None => {
                                self.cur = Some(v);
                                self.pos = self.end;
                            },
                            Some(m) => {
                                if v > m {
                                    self.cur = Some(v);
                                    self.pos = self.end;
                                }
                            },
                        }
                    },
                    None => {},
                }
                self.end = self.end + 1;
            }
        }
        self.cur
    }
}

/// Rolling minimum over every slice group, one accumulator sweep.
pub fn rolling_min(chunk: &Chunk, groups: &Vec<SliceGroup>) -> (out: Vec<Option<i64>>)
    requires
        chunk.wf(),
        slice_groups_in_bounds(groups@, chunk@.len() as int),
    ensures
        out@.len() == groups@.len(),
        forall|i: int|
            0 <= i < groups@.len() ==> out@[i] == spec_min(
                slice_cells(chunk@, (#[trigger] groups@[i]).start as int, groups@[i].len as int),
            ),
{
    let n_chunk = chunk.values.len();
    let mut acc = MinAcc::new();
    proof {
        assert(window(chunk@, 0, 0) =~= Seq::<Option<i64>>::empty());
    }
    let mut out: Vec<Option<i64>> = Vec::new();
    let mut i: usize = 0;
    while i < groups.len()
        invariant
            chunk.wf(),
            chunk@.len() == n_chunk,
            acc.inv(chunk@),
            slice_groups_in_bounds(groups@, chunk@.len() as int),
            i <= groups@.len(),
            out@.len() == i,
            forall|j: int|
                0 <= j < i ==> out@[j] == spec_min(
                    slice_cells(chunk@, (#[trigger] groups@[j]).start as int, groups@[j].len as int),
                ),
        decreases groups@.len() - i,
    {
        let g = groups[i];
        assert(slice_cells(chunk@, g.start as int, g.len as int) =~= window(
            chunk@,
            g.start as int,
            g.start + g.len,
        ));
        let r = acc.update(chunk, g.start, g.start + g.len);
        out.push(r);
        i += 1;
    }
    out
}

/// Rolling maximum over every slice group, one accumulator sweep.
pub fn rolling_max(chunk: &Chunk, groups: &Vec<SliceGroup>) -> (out: Vec<Option<i64>>)
    requires
        chunk.wf(),
        slice_groups_in_bounds(groups@, chunk@.len() as int),
    ensures
        out@.len() == groups@.len(),
        forall|i: int|
            0 <= i < groups@.len() ==> out@[i] == spec_max(
                slice_cells(chunk@, (#[trigger] groups@[i]).start as int, groups@[i].len as int),
            ),
{
    let n_chunk = chunk.values.len();
    let mut acc = MaxAcc::new();
    proof {
        assert(window(chunk@, 0, 0) =~= Seq::<Option<i64>>::empty());
    }
    let mut out: Vec<Option<i64>> = Vec::new();
    let mut i: usize = 0;
    while i < groups.len()
        invariant
            chunk.wf(),
            chunk@.len() == n_chunk,
            acc.inv(chunk@),
            slice_groups_in_bounds(groups@, chunk@.len() as int),
            i <= groups@.len(),
            out@.len() == i,
            forall|j: int|
                0 <= j < i ==> out@[j] == spec_max(
                    slice_cells(chunk@, (#[trigger] groups@[j]).start as int, groups@[j].len as int),
                ),
        decreases groups@.len() - i,
    {
        let g = groups[i];
        assert(slice_cells(chunk@, g.start as int, g.len as int) =~= window(
            chunk@,
            g.start as int,
            g.start + g.len,
        ));
        let r = acc.update(chunk, g.start, g.start + g.len);
        out.push(r);
        i += 1;
    }
    out
}

/// Rolling moment accumulator for variance: running sum, sum of squares
/// and live count of the window, maintained under boundary moves. The
/// exact 128-bit arithmetic requires bounded values and window sizes.
pub struct MomentAcc {
    pub start: usize,
    pub end: usize,
    pub s1: i128,
    pub s2: i128,
    pub live: usize,
}

impl MomentAcc {
    /// The state describes the window `[start, end)` of the cells.
    pub open spec fn inv(self, cells: Seq<Option<i64>>) -> bool {
        &&& self.start <= self.end <= cells.len()
        &&& self.end - self.start <= MOMENT_GROUP_LIMIT
        &&& self.s1 as int == sum_of(live_values(window(cells, self.start as int, self.end as int)))
        &&& self.s2 as int == sum_sq_of(
            live_values(window(cells, self.start as int, self.end as int)),
        )
        &&& self.live == live_values(window(cells, self.start as int, self.end as int)).len()
    }

    /// A fresh accumulator over the empty window.
    pub fn new() -> (a: MomentAcc)
        ensures
            a.start == 0 && a.end == 0 && a.s1 == 0 && a.s2 == 0 && a.live == 0,
    {
        MomentAcc { start: 0, end: 0, s1: 0, s2: 0, live: 0 }
    }

    /// Moves the window boundary to `[new_start, new_end)`; returns the
    /// window's sum, sum of squares and live count.
    pub fn update(&mut self, chunk: &Chunk, new_start: usize, new_end: usize) -> (r: (
        i128,
        i128,
        usize,
    ))
        requires
            chunk.wf(),
            old(self).inv(chunk@),
            cells_within(chunk@, MOMENT_VALUE_LIMIT as int),
            new_start <= new_end,
            new_end <= chunk@.len(),
            new_end - new_start <= MOMENT_GROUP_LIMIT,
        ensures
            final(self).inv(chunk@),
            final(self).start == new_start,
            final(self).end == new_end,
            r.0 as int == sum_of(live_values(window(chunk@, new_start as int, new_end as int))),
            r.1 as int == sum_sq_of(live_values(window(chunk@, new_start as int, new_end as int))),
            r.2 == live_values(window(chunk@, new_start as int, new_end as int)).len(),
    {
        let n_chunk = chunk.values.len();
        if new_start < self.start || new_end < self.end || new_start > self.end {
            let cells = take_cells_slice(chunk, new_start, new_end - new_start);
            proof {
                assert(slice_cells(chunk@, new_start as int, (new_end - new_start) as int)
                    =~= window(chunk@, new_start as int, new_end as int));
                crate::model::lemma_cells_within_subrange(
                    chunk@,
                    new_start as int,
                    new_end as int,
                    MOMENT_VALUE_LIMIT as int,
                );
            }
            let rc = crate::gather::var_moments_cells(&cells);
            self.start = new_start;
            self.end = new_end;
            self.s1 = rc.0;
            self.s2 = rc.1;
            self.live = rc.2;
        } else {
            while self.start < new_start
                invariant
                    chunk.wf(),
                    chunk@.len() == n_chunk,
                    cells_within(chunk@, MOMENT_VALUE_LIMIT as int),
                    self.inv(chunk@),
                    self.start <= new_start,
                    new_start <= self.end,
                    self.end <= new_end,
                decreases new_start - self.start,
            {
                let ghost w = window(chunk@, self.start as int, self.end as int);
                let cell = chunk_get(chunk, self.start);
                proof {
                    lemma_live_first(w);
                    assert(w.drop_first() =~= window(chunk@, self.start + 1, self.end as int));
                    crate::model::lemma_cells_within_subrange(
                        chunk@,
                        self.start + 1,
                        self.end as int,
                        MOMENT_VALUE_LIMIT as int,
                    );
                    lemma_live_within(w.drop_first(), MOMENT_VALUE_LIMIT as int);
                    lemma_live_len(w.drop_first());
                    match w[0] {
                        Some(v) => {
                            lemma_sum_concat(seq![v], live_values(w.drop_first()));
                            lemma_sum_sq_concat(seq![v], live_values(w.drop_first()));
                            lemma_sum_singleton(v);
                            lemma_sum_within(live_values(w.drop_first()), MOMENT_VALUE_LIMIT as int);
                            lemma_sum_sq_within(
                                live_values(w.drop_first()),
                                MOMENT_VALUE_LIMIT as int,
                            );
                            lemma_abs_mul_bound(v as int, v as int, 0x7fff_ffff, 0x7fff_ffff);
                        },
                        None => {},
                    }
                }
                match cell {
                    Some(v) => {
                        let v128 = v as i128;
                        self.s1 = self.s1 - v128;
                        self.s2 = self.s2 - v128 * v128;
                        self.live = self.live - 1;
                    },
                    None => {},
                }
                self.start = self.start + 1;
            }
            while self.end < new_end
                invariant
                    chunk.wf(),
                    chunk@.len() == n_chunk,
                    cells_within(chunk@, MOMENT_VALUE_LIMIT as int),
                    self.inv(chunk@),
                    self.start == new_start,
                    self.end <= new_end,
                    new_end <= chunk@.len(),
                    new_end - new_start <= MOMENT_GROUP_LIMIT,
                decreases new_end - self.end,
            {
                let ghost w = window(chunk@, self.start as int, self.end as int);
                let cell = chunk_get(chunk, self.end);
                proof {
                    assert(window(chunk@, self.start as int, self.end + 1) =~= w.push(
                        chunk@[self.end as int],
                    ));
                    lemma_live_push(w, chunk@[self.end as int]);
                    crate::model::lemma_cells_within_subrange(
                        chunk@,
                        self.start as int,
                        self.end + 1,
                        MOMENT_VALUE_LIMIT as int,
                    );
                    lemma_live_within(
                        w.push(chunk@[self.end as int]),
                        MOMENT_VALUE_LIMIT as int,
                    );
                    lemma_live_len(w.push(chunk@[self.end as int]));
                    match chunk@[self.end as int] {
                        Some(v) => {
                            lemma_sum_push(live_values(w), v);
                            lemma_sum_sq_push(live_values(w), v);
                            lemma_sum_within(
                                live_values(w).push(v),
                                MOMENT_VALUE_LIMIT as int,
                            );
                            lemma_sum_sq_within(
                                live_values(w).push(v),
                                MOMENT_VALUE_LIMIT as int,
                            );
                            lemma_abs_mul_bound(v as int, v as int, 0x7fff_ffff, 0x7fff_ffff);
                        },
                        None => {},
                    }
                }
                match cell {
                    Some(v) => {
                        let v128 = v as i128;
                        self.s1 = self.s1 + v128;
                        self.s2 = self.s2 + v128 * v128;
                        self.live = self.live + 1;
                    },
                    None => {},
                }
                self.end = self.end + 1;
            }
        }
        (self.s1, self.s2, self.live)
    }
}

/// Finishes a variance from the window's moments.
fn var_from_moments(s1: i128, s2: i128, cnt: usize, ddof: u8, Ghost(s): Ghost<Seq<i64>>) -> (r:
    Option<Rational>)
    requires
        s1 as int == sum_of(s),
        s2 as int == sum_sq_of(s),
        cnt == s.len(),
        values_within(s, MOMENT_VALUE_LIMIT as int),
        cnt <= MOMENT_GROUP_LIMIT,
    ensures
        rat_matches(r, var_pair(s, ddof as int)),
{
    if cnt <= ddof as usize {
        None
    } else {
        let n_i = cnt as i128;
        let dd = ddof as i128;
        proof {
            lemma_sum_within(s, MOMENT_VALUE_LIMIT as int);
            lemma_sum_sq_within(s, MOMENT_VALUE_LIMIT as int);
            lemma_abs_mul_bound(n_i as int, s2 as int, 0x8000_0000, 0x2000_0000_0000_0000_0000_0000);
            lemma_abs_mul_bound(s1 as int, s1 as int, 0x4000_0000_0000_0000, 0x4000_0000_0000_0000);
            lemma_abs_mul_bound(n_i as int, n_i - dd, 0x8000_0000, 0x8000_0000);
        }
        let num = n_i * s2 - s1 * s1;
        let den = n_i * (n_i - dd);
        Some(Rational { num, den })
    }
}

/// Rolling variance over every slice group via the shared moment
/// accumulator; a window whose live count does not exceed `ddof` yields
/// null.
pub fn rolling_var(chunk: &Chunk, groups: &Vec<SliceGroup>, ddof: u8) -> (out: Vec<
    Option<Rational>,
>)
    requires
        chunk.wf(),
        slice_groups_in_bounds(groups@, chunk@.len() as int),
        cells_within(chunk@, MOMENT_VALUE_LIMIT as int),
        forall|i: int| 0 <= i < groups@.len() ==> (#[trigger] groups@[i]).len <= MOMENT_GROUP_LIMIT,
    ensures
        out@.len() == groups@.len(),
        forall|i: int|
            0 <= i < groups@.len() ==> rat_matches(
                out@[i],
                spec_var(
                    slice_cells(chunk@, (#[trigger] groups@[i]).start as int, groups@[i].len as int),
                    ddof as int,
                ),
            ),
{
    let n_chunk = chunk.values.len();
    let mut acc = MomentAcc::new();
    proof {
        assert(window(chunk@, 0, 0) =~= Seq::<Option<i64>>::empty());
    }
    let mut out: Vec<Option<Rational>> = Vec::new();
    let mut i: usize = 0;
    while i < groups.len()
        invariant
            chunk.wf(),
            chunk@.len() == n_chunk,
            cells_within(chunk@, MOMENT_VALUE_LIMIT as int),
            acc.inv(chunk@),
            slice_groups_in_bounds(groups@, chunk@.len() as int),
            forall|t: int|
                0 <= t < groups@.len() ==> (#[trigger] groups@[t]).len <= MOMENT_GROUP_LIMIT,
            i <= groups@.len(),
            out@.len() == i,
            forall|j: int|
                0 <= j < i ==> rat_matches(
                    out@[j],
                    spec_var(
                        slice_cells(
                            chunk@,
                            (#[trigger] groups@[j]).start as int,
                            groups@[j].len as int,
                        ),
                        ddof as int,
                    ),
                ),
        decreases groups@.len() - i,
    {
        let g = groups[i];
        let ghost gw = window(chunk@, g.start as int, g.start + g.len);
        assert(slice_cells(chunk@, g.start as int, g.len as int) =~= gw);
        let r = acc.update(chunk, g.start, g.start + g.len);
        proof {
            crate::model::lemma_cells_within_subrange(
                chunk@,
                g.start as int,
                g.start + g.len,
                MOMENT_VALUE_LIMIT as int,
            );
            lemma_live_within(gw, MOMENT_VALUE_LIMIT as int);
            lemma_live_len(gw);
        }
        let v = var_from_moments(r.0, r.1, r.2, ddof, Ghost(live_values(gw)));
        out.push(v);
        i += 1;
    }
    out
}

/// Removes one occurrence of `x` from a sorted vector, keeping it sorted.
fn remove_sorted(buf: &mut Vec<i64>, x: i64)
    requires
        sorted_by(old(buf)@, le64()),
        old(buf)@.contains(x),
    ensures
        sorted_by(final(buf)@, le64()),
        final(buf)@.to_multiset() == old(buf)@.to_multiset().remove(x),
        final(buf)@.len() == old(buf)@.len() - 1,
{
    let n_buf = buf.len();
    let mut j: usize = 0;
    while buf[j] != x
        invariant
            buf@ == old(buf)@,
            buf@.len() == n_buf,
            j < buf@.len(),
            exists|t: int| j <= t < buf@.len() && buf@[t] == x,
        decreases buf@.len() - j,
    {
        proof {
            let t = choose|t: int| j <= t < buf@.len() && buf@[t] == x;
            assert(t >= j + 1);
        }
        j += 1;
    }
    let ghost pre = buf@;
    buf.remove(j);
    proof {
        broadcast use vstd::seq_lib::group_to_multiset_ensures;

        pre.remove_ensures(j as int);
        assert(pre.remove(j as int).to_multiset() =~= pre.to_multiset().remove(x));
        assert forall|s: int, t: int| 0 <= s < t < buf@.len() implies le64()(
            #[trigger] buf@[s],
            #[trigger] buf@[t],
        ) by {
            let sv = if s < j {
                pre[s]
            } else {
                pre[s + 1]
            };
            let tv = if t < j {
                pre[t]
            } else {
                pre[t + 1]
            };
            assert(buf@[s] == sv);
            assert(buf@[t] == tv);
        }
    }
}

/// Rolling order-statistic window for quantiles: the window's live values
/// kept in sorted order; values entering are inserted, values leaving are
/// removed, so each boundary move costs work proportional to the
/// displacement rather than the window length.
pub struct QuantAcc {
    pub start: usize,
    pub end: usize,
    pub buf: Vec<i64>,
}

impl QuantAcc {
    /// The buffer is the sorted multiset of the window's live values.
    pub open spec fn inv(self, cells: Seq<Option<i64>>) -> bool {
        &&& self.start <= self.end <= cells.len()
        &&& sorted_by(self.buf@, le64())
        &&& self.buf@.to_multiset() == live_values(
            window(cells, self.start as int, self.end as int),
        ).to_multiset()
        &&& self.buf@.len() == live_values(window(cells, self.start as int, self.end as int)).len()
    }

    /// A fresh accumulator over the empty window.
    pub fn new() -> (a: QuantAcc)
        ensures
            a.start == 0 && a.end == 0 && a.buf@.len() == 0,
    {
        QuantAcc { start: 0, end: 0, buf: Vec::new() }
    }

    /// Moves the window boundary to `[new_start, new_end)`; afterwards the
    /// buffer holds the window's live values in sorted order.
    pub fn update(&mut self, chunk: &Chunk, new_start: usize, new_end: usize)
        requires
            chunk.wf(),
            old(self).inv(chunk@),
            new_start <= new_end,
            new_end <= chunk@.len(),
        ensures
            final(self).inv(chunk@),
            final(self).start == new_start,
            final(self).end == new_end,
    {
        let n_chunk = chunk.values.len();
        if new_start < self.start || new_end < self.end || new_start > self.end {
            let cells = take_cells_slice(chunk, new_start, new_end - new_start);
            let lv = crate::gather::live_cells(&cells);
            let sorted = sort_values(&lv);
            proof {
                assert(slice_cells(chunk@, new_start as int, (new_end - new_start) as int)
                    =~= window(chunk@, new_start as int, new_end as int));
                broadcast use vstd::seq_lib::group_to_multiset_ensures;

                lemma_le64_total_ordering();
                lv@.lemma_sort_by_ensures(le64());
                assert(sorted@.to_multiset().len() == sorted@.len());
                assert(lv@.to_multiset().len() == lv@.len());
            }
            self.buf = sorted;
            self.start = new_start;
            self.end = new_end;
        } else {
            while self.start < new_start
                invariant
                    chunk.wf(),
                    chunk@.len() == n_chunk,
                    self.inv(chunk@),
                    self.start <= new_start,
                    new_start <= self.end,
                    self.end <= new_end,
                decreases new_start - self.start,
            {
                let ghost w = window(chunk@, self.start as int, self.end as int);
                let cell = chunk_get(chunk, self.start);
                proof {
                    lemma_live_first(w);
                    assert(w.drop_first() =~= window(chunk@, self.start + 1, self.end as int));
                    broadcast use vstd::seq_lib::group_to_multiset_ensures;

                    match w[0] {
                        Some(v) => {
                            vstd::seq_lib::lemma_multiset_commutative(
                                seq![v],
                                live_values(w.drop_first()),
                            );
                            assert(seq![v] =~= Seq::<i64>::empty().push(v));
                            assert(seq![v].to_multiset() =~= Multiset::<i64>::empty().insert(v));
                            assert(live_values(w).to_multiset() =~= live_values(
                                w.drop_first(),
                            ).to_multiset().insert(v));
                            assert(live_values(w).to_multiset().remove(v) =~= live_values(
                                w.drop_first(),
                            ).to_multiset());
                            assert(self.buf@.to_multiset().count(v) > 0);
                            assert(self.buf@.contains(v));
                        },
                        None => {},
                    }
                }
                match cell {
                    Some(v) => {
                        remove_sorted(&mut self.buf, v);
                        proof {
                            broadcast use vstd::seq_lib::group_to_multiset_ensures;

                            assert(self.buf@.to_multiset().len() == self.buf@.len());
                        }
                    },
                    None => {},
                }
                self.start = self.start + 1;
            }
            while self.end < new_end
                invariant
                    chunk.wf(),
                    chunk@.len() == n_chunk,
                    self.inv(chunk@),
                    self.start == new_start,
                    self.end <= new_end,
                    new_end <= chunk@.len(),
                decreases new_end - self.end,
            {
                let ghost w = window(chunk@, self.start as int, self.end as int);
                let cell = chunk_get(chunk, self.end);
                proof {
                    assert(window(chunk@, self.start as int, self.end + 1) =~= w.push(
                        chunk@[self.end as int],
                    ));
                    lemma_live_push(w, chunk@[self.end as int]);
                    broadcast use vstd::seq_lib::group_to_multiset_ensures;

                    match chunk@[self.end as int] {
                        Some(v) => {
                            assert(live_values(w).push(v).to_multiset() =~= live_values(
                                w,
                            ).to_multiset().insert(v));
                        },
                        None => {},
                    }
                }
                match cell {
                    Some(v) => {
                        insert_sorted(&mut self.buf, v);
                        proof {
                            broadcast use vstd::seq_lib::group_to_multiset_ensures;

                            assert(self.buf@.to_multiset().len() == self.buf@.len());
                        }
                    },
                    None => {},
                }
                self.end = self.end + 1;
            }
        }
    }
}

/// Rolling quantile over every slice group: one sweep of the sorted
/// order-statistic window, interpolating each window exactly.
pub fn rolling_quantile(
    chunk: &Chunk,
    groups: &Vec<SliceGroup>,
    prob: QuantileProb,
    method: QuantileMethod,
) -> (out: Vec<Option<Rational>>)
    requires
        chunk.wf(),
        slice_groups_in_bounds(groups@, chunk@.len() as int),
        prob.valid(),
        prob.small(),
    ensures
        out@.len() == groups@.len(),
        forall|i: int|
            0 <= i < groups@.len() ==> rat_matches(
                out@[i],
                spec_quantile(
                    slice_cells(chunk@, (#[trigger] groups@[i]).start as int, groups@[i].len as int),
                    prob.num as int,
                    prob.den as int,
                    method,
                ),
            ),
{
    let n_chunk = chunk.values.len();
    let mut acc = QuantAcc::new();
    proof {
        assert(window(chunk@, 0, 0) =~= Seq::<Option<i64>>::empty());
        assert(acc.buf@ =~= live_values(window(chunk@, 0, 0)));
    }
    let mut out: Vec<Option<Rational>> = Vec::new();
    let mut i: usize = 0;
    while i < groups.len()
        invariant
            chunk.wf(),
            chunk@.len() == n_chunk,
            acc.inv(chunk@),
            slice_groups_in_bounds(groups@, chunk@.len() as int),
            prob.valid(),
            prob.small(),
            i <= groups@.len(),
            out@.len() == i,
            forall|j: int|
                0 <= j < i ==> rat_matches(
                    out@[j],
                    spec_quantile(
                        slice_cells(
                            chunk@,
                            (#[trigger] groups@[j]).start as int,
                            groups@[j].len as int,
                        ),
                        prob.num as int,
                        prob.den as int,
                        method,
                    ),
                ),
        decreases groups@.len() - i,
    {
        let g = groups[i];
        let ghost gw = window(chunk@, g.start as int, g.start + g.len);
        assert(slice_cells(chunk@, g.start as int, g.len as int) =~= gw);
        acc.update(chunk, g.start, g.start + g.len);
        proof {
            lemma_le64_total_ordering();
            live_values(gw).lemma_sort_by_ensures(le64());
            lemma_sorted_unique(acc.buf@, live_values(gw).sort_by(le64()), le64());
        }
        if acc.buf.len() == 0 {
            out.push(None);
        } else {
            let q = quantile_of_sorted(&acc.buf, prob, method);
            out.push(Some(q));
        }
        i += 1;
    }
    out
}

/// Rolling sum over every slice group, one accumulator sweep, never
/// re-scanning the source: the result column has one slot per group, the
/// identity 0 for a live-empty window.
pub fn rolling_sum(chunk: &Chunk, groups: &Vec<SliceGroup>) -> (out: Vec<i128>)
    requires
        chunk.wf(),
        slice_groups_in_bounds(groups@, chunk@.len() as int),
    ensures
        out@.len() == groups@.len(),
        forall|i: int|
            0 <= i < groups@.len() ==> out@[i] as int == spec_sum(
                slice_cells(chunk@, (#[trigger] groups@[i]).start as int, groups@[i].len as int),
            ),
{
    let n_chunk = chunk.values.len();
    let mut acc = SumAcc::new();
    proof {
        assert(window(chunk@, 0, 0) =~= Seq::<Option<i64>>::empty());
    }
    let mut out: Vec<i128> = Vec::new();
    let mut i: usize = 0;
    while i < groups.len()
        invariant
            chunk.wf(),
            chunk@.len() == n_chunk,
            acc.inv(chunk@),
            slice_groups_in_bounds(groups@, chunk@.len() as int),
            i <= groups@.len(),
            out@.len() == i,
            forall|j: int|
                0 <= j < i ==> out@[j] as int == spec_sum(
                    slice_cells(chunk@, (#[trigger] groups@[j]).start as int, groups@[j].len as int),
                ),
        decreases groups@.len() - i,
    {
        let g = groups[i];
        assert(slice_cells(chunk@, g.start as int, g.len as int) =~= window(
            chunk@,
            g.start as int,
            g.start + g.len,
        ));
        let r = acc.update(chunk, g.start, g.start + g.len);
        out.push(r.0);
        i += 1;
    }
    out
}

/// Rolling mean over every slice group: the sum accumulator's running sum
/// and live count give the exact rational mean; a live-empty window's
/// slot is null.
pub fn rolling_mean(chunk: &Chunk, groups: &Vec<SliceGroup>) -> (out: Vec<Option<Rational>>)
    requires
        chunk.wf(),
        slice_groups_in_bounds(groups@, chunk@.len() as int),
    ensures
        out@.len() == groups@.len(),
        forall|i: int|
            0 <= i < groups@.len() ==> rat_matches(
                out@[i],
                spec_mean(
                    slice_cells(chunk@, (#[trigger] groups@[i]).start as int, groups@[i].len as int),
                ),
            ),
{
    let n_chunk = chunk.values.len();
    let mut acc = SumAcc::new();
    proof {
        assert(window(chunk@, 0, 0) =~= Seq::<Option<i64>>::empty());
    }
    let mut out: Vec<Option<Rational>> = Vec::new();
    let mut i: usize = 0;
    while i < groups.len()
        invariant
            chunk.wf(),
            chunk@.len() == n_chunk,
            acc.inv(chunk@),
            slice_groups_in_bounds(groups@, chunk@.len() as int),
            i <= groups@.len(),
            out@.len() == i,
            forall|j: int|
                0 <= j < i ==> rat_matches(
                    out@[j],
                    spec_mean(
                        slice_cells(
                            chunk@,
                            (#[trigger] groups@[j]).start as int,
                            groups@[j].len as int,
                        ),
                    ),
                ),
        decreases groups@.len() - i,
    {
        let g = groups[i];
        assert(slice_cells(chunk@, g.start as int, g.len as int) =~= window(
            chunk@,
            g.start as int,
            g.start + g.len,
        ));
        let r = acc.update(chunk, g.start, g.start + g.len);
        if r.1 == 0 {
            out.push(None);
        } else {
            out.push(Some(Rational { num: r.0, den: r.1 as i128 }));
        }
        i += 1;
    }
    out
}

} // verus!
