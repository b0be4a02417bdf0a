//! The mathematical model of grouped aggregation.
//!
//! A group's members are a sequence of cells (`Some(value)` or `None`).
//! Every reducer is specified over the sequence of *live* (non-null)
//! values of those cells; both execution strategies of the engine are
//! proved against these functions, so path equivalence holds by
//! construction.

use vstd::prelude::*;

use crate::column::no_nulls;

verus! {

/// The live (non-null) values of a cell sequence, in order.
pub open spec fn live_values(cells: Seq<Option<i64>>) -> Seq<i64>
    decreases cells.len(),
{
    if cells.len() == 0 {
        Seq::empty()
    } else {
        let rest = live_values(cells.drop_last());
        match cells.last() {
            Some(v) => rest.push(v),
            None => rest,
        }
    }
}

/// Sum of a value sequence, as an unbounded integer.
pub open spec fn sum_of(s: Seq<i64>) -> int
    decreases s.len(),
{
    if s.len() == 0 {
        0
    } else {
        sum_of(s.drop_last()) + s.last()
    }
}

/// Sum of squares of a value sequence, as an unbounded integer.
pub open spec fn sum_sq_of(s: Seq<i64>) -> int
    decreases s.len(),
{
    if s.len() == 0 {
        0
    } else {
        sum_sq_of(s.drop_last()) + s.last() * s.last()
    }
}

/// Minimum of a non-empty value sequence.
pub open spec fn min_of(s: Seq<i64>) -> i64
    recommends
        s.len() > 0,
    decreases s.len(),
{
    if s.len() <= 1 {
        s[0]
    } else {
        let m = min_of(s.drop_last());
        if s.last() < m {
            s.last()
        } else {
            m
        }
    }
}

/// Maximum of a non-empty value sequence.
pub open spec fn max_of(s: Seq<i64>) -> i64
    recommends
        s.len() > 0,
    decreases s.len(),
{
    if s.len() <= 1 {
        s[0]
    } else {
        let m = max_of(s.drop_last());
        if s.last() > m {
            s.last()
        } else {
            m
        }
    }
}

/// Left-to-right bitwise-and fold of a non-empty value sequence.
pub open spec fn and_of(s: Seq<i64>) -> i64
    recommends
        s.len() > 0,
    decreases s.len(),
{
    if s.len() <= 1 {
        s[0]
    } else {
        and_of(s.drop_last()) & s.last()
    }
}

/// Left-to-right bitwise-or fold of a non-empty value sequence.
pub open spec fn or_of(s: Seq<i64>) -> i64
    recommends
        s.len() > 0,
    decreases s.len(),
{
    if s.len() <= 1 {
        s[0]
    } else {
        or_of(s.drop_last()) | s.last()
    }
}

/// Left-to-right bitwise-xor fold of a non-empty value sequence.
pub open spec fn xor_of(s: Seq<i64>) -> i64
    recommends
        s.len() > 0,
    decreases s.len(),
{
    if s.len() <= 1 {
        s[0]
    } else {
        xor_of(s.drop_last()) ^ s.last()
    }
}

/// Cells selected by an index-list group: one cell per member position.
pub open spec fn idx_cells(cells: Seq<Option<i64>>, members: Seq<usize>) -> Seq<Option<i64>> {
    Seq::new(members.len(), |i: int| cells[members[i] as int])
}

/// Cells selected by a slice group: `len` cells from `start`.
pub open spec fn slice_cells(cells: Seq<Option<i64>>, start: int, len: int) -> Seq<Option<i64>> {
    cells.subrange(start, start + len)
}

/// Sum of a group: the fold identity 0 for an empty or all-null group.
pub open spec fn spec_sum(gc: Seq<Option<i64>>) -> int {
    sum_of(live_values(gc))
}

/// Minimum of a group, null when no live value exists.
pub open spec fn spec_min(gc: Seq<Option<i64>>) -> Option<i64> {
    let lv = live_values(gc);
    if lv.len() == 0 {
        None
    } else {
        Some(min_of(lv))
    }
}

/// Maximum of a group, null when no live value exists.
pub open spec fn spec_max(gc: Seq<Option<i64>>) -> Option<i64> {
    let lv = live_values(gc);
    if lv.len() == 0 {
        None
    } else {
        Some(max_of(lv))
    }
}

/// Bitwise-and of a group, null when no live value exists.
pub open spec fn spec_and(gc: Seq<Option<i64>>) -> Option<i64> {
    let lv = live_values(gc);
    if lv.len() == 0 {
        None
    } else {
        Some(and_of(lv))
    }
}

/// Bitwise-or of a group, null when no live value exists.
pub open spec fn spec_or(gc: Seq<Option<i64>>) -> Option<i64> {
    let lv = live_values(gc);
    if lv.len() == 0 {
        None
    } else {
        Some(or_of(lv))
    }
}

/// Bitwise-xor of a group, null when no live value exists.
pub open spec fn spec_xor(gc: Seq<Option<i64>>) -> Option<i64> {
    let lv = live_values(gc);
    if lv.len() == 0 {
        None
    } else {
        Some(xor_of(lv))
    }
}

/// Mean of a value sequence as an exact rational (sum, count); undefined
/// on an empty sequence.
pub open spec fn mean_pair(s: Seq<i64>) -> Option<(int, int)> {
    if s.len() == 0 {
        None
    } else {
        Some((sum_of(s), s.len() as int))
    }
}

/// Variance of a value sequence as an exact rational, parameterized by
/// delta degrees of freedom: `(n*sum(x^2) - sum(x)^2) / (n*(n - ddof))`;
/// undefined when `n <= ddof`, which covers the empty sequence and avoids
/// the division by zero at `n == ddof`.
pub open spec fn var_pair(s: Seq<i64>, ddof: int) -> Option<(int, int)> {
    let n = s.len() as int;
    if n <= ddof {
        None
    } else {
        Some((n * sum_sq_of(s) - sum_of(s) * sum_of(s), n * (n - ddof)))
    }
}

/// Mean of a group, over its live values only; null when the live count
/// is zero, so null density never biases it.
pub open spec fn spec_mean(gc: Seq<Option<i64>>) -> Option<(int, int)> {
    mean_pair(live_values(gc))
}

/// Variance of a group, over its live values only; null when the live
/// count does not exceed `ddof`. A singleton group with `ddof == 0`
/// therefore yields exactly zero, never null.
pub open spec fn spec_var(gc: Seq<Option<i64>>, ddof: int) -> Option<(int, int)> {
    var_pair(live_values(gc), ddof)
}

// ---------------------------------------------------------------------------
// Concatenation and bound lemmas, the workhorses of every loop proof.
// ---------------------------------------------------------------------------

/// Live values distribute over concatenation.
pub proof fn lemma_live_concat(a: Seq<Option<i64>>, b: Seq<Option<i64>>)
    ensures
        live_values(a + b) == live_values(a) + live_values(b),
    decreases b.len(),
{
    if b.len() == 0 {
        assert(a + b =~= a);
        assert(live_values(a) + live_values(b) =~= live_values(a));
    } else {
        lemma_live_concat(a, b.drop_last());
        assert((a + b).drop_last() =~= a + b.drop_last());
        assert((a + b).last() == b.last());
        match b.last() {
            Some(v) => {
                assert(live_values(a) + live_values(b) =~= (live_values(a) + live_values(
                    b.drop_last(),
                )).push(v));
            },
            None => {},
        }
    }
}

/// Sum distributes over concatenation.
pub proof fn lemma_sum_concat(a: Seq<i64>, b: Seq<i64>)
    ensures
        sum_of(a + b) == sum_of(a) + sum_of(b),
    decreases b.len(),
{
    if b.len() == 0 {
        assert(a + b =~= a);
    } else {
        lemma_sum_concat(a, b.drop_last());
        assert((a + b).drop_last() =~= a + b.drop_last());
    }
}

/// Sum of squares distributes over concatenation.
pub proof fn lemma_sum_sq_concat(a: Seq<i64>, b: Seq<i64>)
    ensures
        sum_sq_of(a + b) == sum_sq_of(a) + sum_sq_of(b),
    decreases b.len(),
{
    if b.len() == 0 {
        assert(a + b =~= a);
    } else {
        lemma_sum_sq_concat(a, b.drop_last());
        assert((a + b).drop_last() =~= a + b.drop_last());
    }
}

/// The minimum of a concatenation of non-empty sequences is the smaller
/// of the two minima.
pub proof fn lemma_min_concat(a: Seq<i64>, b: Seq<i64>)
    requires
        a.len() > 0,
        b.len() > 0,
    ensures
        min_of(a + b) == if min_of(b) < min_of(a) {
            min_of(b)
        } else {
            min_of(a)
        },
    decreases b.len(),
{
    if b.len() == 1 {
        assert((a + b).drop_last() =~= a);
        assert((a + b).last() == b[0]);
    } else {
        lemma_min_concat(a, b.drop_last());
        assert((a + b).drop_last() =~= a + b.drop_last());
    }
}

/// The maximum of a concatenation of non-empty sequences is the larger
/// of the two maxima.
pub proof fn lemma_max_concat(a: Seq<i64>, b: Seq<i64>)
    requires
        a.len() > 0,
        b.len() > 0,
    ensures
        max_of(a + b) == if max_of(b) > max_of(a) {
            max_of(b)
        } else {
            max_of(a)
        },
    decreases b.len(),
{
    if b.len() == 1 {
        assert((a + b).drop_last() =~= a);
        assert((a + b).last() == b[0]);
    } else {
        lemma_max_concat(a, b.drop_last());
        assert((a + b).drop_last() =~= a + b.drop_last());
    }
}

/// The minimum of a non-empty sequence is one of its elements and a lower
/// bound for all of them.
pub proof fn lemma_min_characterizes(s: Seq<i64>)
    requires
        s.len() > 0,
    ensures
        exists|k: int| 0 <= k < s.len() && s[k] == min_of(s),
        forall|i: int| 0 <= i < s.len() ==> min_of(s) <= #[trigger] s[i],
    decreases s.len(),
{
    if s.len() > 1 {
        lemma_min_characterizes(s.drop_last());
        assert forall|i: int| 0 <= i < s.len() implies min_of(s) <= #[trigger] s[i] by {
            if i < s.len() - 1 {
                assert(s[i] == s.drop_last()[i]);
            }
        }
        if s.last() < min_of(s.drop_last()) {
            assert(s[s.len() - 1] == min_of(s));
        } else {
            let k = choose|k: int| 0 <= k < s.drop_last().len() && s.drop_last()[k] == min_of(
                s.drop_last(),
            );
            assert(s[k] == min_of(s));
        }
    } else {
        assert(s[0] == min_of(s));
    }
}

/// The maximum of a non-empty sequence is one of its elements and an upper
/// bound for all of them.
pub proof fn lemma_max_characterizes(s: Seq<i64>)
    requires
        s.len() > 0,
    ensures
        exists|k: int| 0 <= k < s.len() && s[k] == max_of(s),
        forall|i: int| 0 <= i < s.len() ==> max_of(s) >= #[trigger] s[i],
    decreases s.len(),
{
    if s.len() > 1 {
        lemma_max_characterizes(s.drop_last());
        assert forall|i: int| 0 <= i < s.len() implies max_of(s) >= #[trigger] s[i] by {
            if i < s.len() - 1 {
                assert(s[i] == s.drop_last()[i]);
            }
        }
        if s.last() > max_of(s.drop_last()) {
            assert(s[s.len() - 1] == max_of(s));
        } else {
            let k = choose|k: int| 0 <= k < s.drop_last().len() && s.drop_last()[k] == max_of(
                s.drop_last(),
            );
            assert(s[k] == max_of(s));
        }
    } else {
        assert(s[0] == max_of(s));
    }
}

/// Live values of a null-free cell sequence are the values themselves.
pub proof fn lemma_live_no_nulls(cells: Seq<Option<i64>>)
    requires
        no_nulls(cells),
    ensures
        live_values(cells) == Seq::new(cells.len(), |i: int| cells[i]->Some_0),
    decreases cells.len(),
{
    if cells.len() > 0 {
        lemma_live_no_nulls(cells.drop_last());
        assert(live_values(cells) =~= Seq::new(cells.len(), |i: int| cells[i]->Some_0));
    } else {
        assert(live_values(cells) =~= Seq::new(cells.len(), |i: int| cells[i]->Some_0));
    }
}

/// There are never more live values than cells.
pub proof fn lemma_live_len(cells: Seq<Option<i64>>)
    ensures
        live_values(cells).len() <= cells.len(),
    decreases cells.len(),
{
    if cells.len() > 0 {
        lemma_live_len(cells.drop_last());
    }
}

/// Appending one cell extends the live values by its value, if present.
pub proof fn lemma_live_push(gc: Seq<Option<i64>>, cell: Option<i64>)
    ensures
        live_values(gc.push(cell)) == match cell {
            Some(v) => live_values(gc).push(v),
            None => live_values(gc),
        },
{
    assert(gc.push(cell).drop_last() =~= gc);
    assert(gc.push(cell).last() == cell);
}

/// Unfolds one step of `sum_of`.
pub proof fn lemma_sum_push(s: Seq<i64>, v: i64)
    ensures
        sum_of(s.push(v)) == sum_of(s) + v,
{
    assert(s.push(v).drop_last() =~= s);
}

/// Unfolds one step of `sum_sq_of`.
pub proof fn lemma_sum_sq_push(s: Seq<i64>, v: i64)
    ensures
        sum_sq_of(s.push(v)) == sum_sq_of(s) + v * v,
{
    assert(s.push(v).drop_last() =~= s);
}

/// Unfolds one step of `min_of`.
pub proof fn lemma_min_push(s: Seq<i64>, v: i64)
    ensures
        min_of(s.push(v)) == if s.len() == 0 {
            v
        } else if v < min_of(s) {
            v
        } else {
            min_of(s)
        },
{
    assert(s.push(v).drop_last() =~= s);
    if s.len() == 0 {
        assert(s.push(v)[0] == v);
    }
}

/// Unfolds one step of `max_of`.
pub proof fn lemma_max_push(s: Seq<i64>, v: i64)
    ensures
        max_of(s.push(v)) == if s.len() == 0 {
            v
        } else if v > max_of(s) {
            v
        } else {
            max_of(s)
        },
{
    assert(s.push(v).drop_last() =~= s);
    if s.len() == 0 {
        assert(s.push(v)[0] == v);
    }
}

/// Unfolds one step of `and_of`.
pub proof fn lemma_and_push(s: Seq<i64>, v: i64)
    ensures
        and_of(s.push(v)) == if s.len() == 0 {
            v
        } else {
            and_of(s) & v
        },
{
    assert(s.push(v).drop_last() =~= s);
    if s.len() == 0 {
        assert(s.push(v)[0] == v);
    }
}

/// Unfolds one step of `or_of`.
pub proof fn lemma_or_push(s: Seq<i64>, v: i64)
    ensures
        or_of(s.push(v)) == if s.len() == 0 {
            v
        } else {
            or_of(s) | v
        },
{
    assert(s.push(v).drop_last() =~= s);
    if s.len() == 0 {
        assert(s.push(v)[0] == v);
    }
}

/// Unfolds one step of `xor_of`.
pub proof fn lemma_xor_push(s: Seq<i64>, v: i64)
    ensures
        xor_of(s.push(v)) == if s.len() == 0 {
            v
        } else {
            xor_of(s) ^ v
        },
{
    assert(s.push(v).drop_last() =~= s);
    if s.len() == 0 {
        assert(s.push(v)[0] == v);
    }
}

/// Every value of the sequence lies within `[-bound, bound]`.
pub open spec fn values_within(s: Seq<i64>, bound: int) -> bool {
    forall|i: int| 0 <= i < s.len() ==> -bound <= #[trigger] s[i] <= bound
}

/// Every present value of the cells lies within `[-bound, bound]`.
pub open spec fn cells_within(cells: Seq<Option<i64>>, bound: int) -> bool {
    forall|i: int|
        0 <= i < cells.len() && cells[i] is Some ==> -bound <= (#[trigger] cells[i])->Some_0
            <= bound
}

/// A magnitude bound on cells carries over to any subrange.
pub proof fn lemma_cells_within_subrange(cells: Seq<Option<i64>>, a: int, b: int, bound: int)
    requires
        cells_within(cells, bound),
        0 <= a <= b <= cells.len(),
    ensures
        cells_within(cells.subrange(a, b), bound),
{
    assert forall|i: int|
        0 <= i < b - a && cells.subrange(a, b)[i] is Some implies -bound <= (#[trigger] cells.subrange(
        a,
        b,
    )[i])->Some_0 <= bound by {
        assert(cells.subrange(a, b)[i] == cells[a + i]);
    }
}

/// Live values inherit the magnitude bound of their cells.
pub proof fn lemma_live_within(cells: Seq<Option<i64>>, bound: int)
    requires
        cells_within(cells, bound),
    ensures
        values_within(live_values(cells), bound),
    decreases cells.len(),
{
    if cells.len() > 0 {
        assert(cells_within(cells.drop_last(), bound)) by {
            assert(forall|i: int|
                0 <= i < cells.len() - 1 ==> cells.drop_last()[i] == #[trigger] cells[i]);
        }
        lemma_live_within(cells.drop_last(), bound);
        match cells.last() {
            Some(v) => {
                assert(cells[cells.len() - 1] is Some);
                assert(-bound <= v <= bound);
                assert(values_within(live_values(cells.drop_last()).push(v), bound));
            },
            None => {},
        }
    }
}

/// The sum of values bounded by `bound` is bounded by the length times it.
pub proof fn lemma_sum_within(s: Seq<i64>, bound: int)
    requires
        values_within(s, bound),
        bound >= 0,
    ensures
        -(s.len() as int) * bound <= sum_of(s) <= (s.len() as int) * bound,
    decreases s.len(),
{
    if s.len() > 0 {
        assert(values_within(s.drop_last(), bound));
        lemma_sum_within(s.drop_last(), bound);
        assert((s.len() as int) * bound == ((s.len() - 1) as int) * bound + bound)
            by (nonlinear_arith);
        assert(-(s.len() as int) * bound == -((s.len() - 1) as int) * bound + -bound)
            by (nonlinear_arith);
    }
}

/// The sum of squares of values bounded by `bound` is bounded by the
/// length times its square.
pub proof fn lemma_sum_sq_within(s: Seq<i64>, bound: int)
    requires
        values_within(s, bound),
        bound >= 0,
    ensures
        0 <= sum_sq_of(s) <= (s.len() as int) * (bound * bound),
    decreases s.len(),
{
    if s.len() > 0 {
        assert(values_within(s.drop_last(), bound));
        lemma_sum_sq_within(s.drop_last(), bound);
        assert(s.last() * s.last() <= bound * bound) by (nonlinear_arith)
            requires
                -bound <= s.last() <= bound,
        ;
        assert(s.last() * s.last() >= 0) by (nonlinear_arith);
        assert((s.len() as int) * (bound * bound) == ((s.len() - 1) as int) * (bound * bound) + (
        bound * bound)) by (nonlinear_arith);
    }
}

/// Dropping the first cell drops its value from the live values, if
/// present.
pub proof fn lemma_live_first(cells: Seq<Option<i64>>)
    requires
        cells.len() > 0,
    ensures
        live_values(cells) == match cells[0] {
            Some(v) => seq![v] + live_values(cells.drop_first()),
            None => live_values(cells.drop_first()),
        },
{
    assert(cells =~= cells.take(1) + cells.skip(1));
    lemma_live_concat(cells.take(1), cells.skip(1));
    assert(cells.take(1) =~= Seq::<Option<i64>>::empty().push(cells[0]));
    lemma_live_push(Seq::<Option<i64>>::empty(), cells[0]);
    assert(cells.skip(1) =~= cells.drop_first());
    match cells[0] {
        Some(v) => {
            assert(live_values(cells.take(1)) =~= seq![v]);
        },
        None => {
            assert(live_values(cells.take(1)) =~= Seq::<i64>::empty());
            assert(Seq::<i64>::empty() + live_values(cells.drop_first()) =~= live_values(
                cells.drop_first(),
            ));
        },
    }
}

/// A present value at any position occurs among the live values.
pub proof fn lemma_live_contains(cells: Seq<Option<i64>>, i: int)
    requires
        0 <= i < cells.len(),
        cells[i] is Some,
    ensures
        live_values(cells).contains(cells[i]->Some_0),
    decreases cells.len(),
{
    if i == cells.len() - 1 {
        assert(live_values(cells) == live_values(cells.drop_last()).push(cells[i]->Some_0));
        assert(live_values(cells).last() == cells[i]->Some_0);
    } else {
        lemma_live_contains(cells.drop_last(), i);
        let v = cells[i]->Some_0;
        let k = choose|k: int|
            0 <= k < live_values(cells.drop_last()).len() && live_values(cells.drop_last())[k] == v;
        match cells.last() {
            Some(w) => {
                assert(live_values(cells)[k] == v);
            },
            None => {
                assert(live_values(cells)[k] == v);
            },
        }
    }
}

/// Every live value is the value of some present cell.
pub proof fn lemma_live_sourced(cells: Seq<Option<i64>>)
    ensures
        forall|k: int|
            0 <= k < live_values(cells).len() ==> exists|i: int|
                0 <= i < cells.len() && cells[i] == Some(#[trigger] live_values(cells)[k]),
    decreases cells.len(),
{
    if cells.len() > 0 {
        lemma_live_sourced(cells.drop_last());
        let lv = live_values(cells);
        assert forall|k: int| 0 <= k < lv.len() implies exists|i: int|
            0 <= i < cells.len() && cells[i] == Some(#[trigger] lv[k]) by {
            match cells.last() {
                Some(v) => {
                    if k == lv.len() - 1 {
                        assert(cells[cells.len() - 1] == Some(lv[k]));
                    } else {
                        assert(lv[k] == live_values(cells.drop_last())[k]);
                        let i = choose|i: int|
                            0 <= i < cells.drop_last().len() && cells.drop_last()[i] == Some(
                                live_values(cells.drop_last())[k],
                            );
                        assert(cells[i] == Some(lv[k]));
                    }
                },
                None => {
                    assert(lv[k] == live_values(cells.drop_last())[k]);
                    let i = choose|i: int|
                        0 <= i < cells.drop_last().len() && cells.drop_last()[i] == Some(
                            live_values(cells.drop_last())[k],
                        );
                    assert(cells[i] == Some(lv[k]));
                },
            }
        }
    }
}

/// The sum of a singleton is its element.
pub proof fn lemma_sum_singleton(v: i64)
    ensures
        sum_of(seq![v]) == v,
        sum_sq_of(seq![v]) == v * v,
{
    assert(seq![v] =~= Seq::<i64>::empty().push(v));
    lemma_sum_push(Seq::<i64>::empty(), v);
    lemma_sum_sq_push(Seq::<i64>::empty(), v);
}

/// A product is bounded by the product of the factors' bounds.
pub proof fn lemma_abs_mul_bound(a: int, b: int, aa: int, bb: int)
    by (nonlinear_arith)
    requires
        -aa <= a <= aa,
        -bb <= b <= bb,
        0 <= aa,
        0 <= bb,
    ensures
        -(aa * bb) <= a * b <= aa * bb,
{
}

/// The sum of `n` native values lies within `n` times the native range.
pub proof fn lemma_sum_bound(s: Seq<i64>)
    ensures
        -(s.len() as int) * 0x8000_0000_0000_0000 <= sum_of(s),
        sum_of(s) <= (s.len() as int) * 0x7fff_ffff_ffff_ffff,
    decreases s.len(),
{
    if s.len() > 0 {
        lemma_sum_bound(s.drop_last());
        assert(-(s.len() as int) * 0x8000_0000_0000_0000 == -((s.len() - 1) as int)
            * 0x8000_0000_0000_0000 + -0x8000_0000_0000_0000) by (nonlinear_arith);
        assert((s.len() as int) * 0x7fff_ffff_ffff_ffff == ((s.len() - 1) as int)
            * 0x7fff_ffff_ffff_ffff + 0x7fff_ffff_ffff_ffff) by (nonlinear_arith);
    }
}

} // verus!
