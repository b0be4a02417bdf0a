//! The engine's general laws, stated and proved once over the
//! specification functions that every execution path is verified against.

use vstd::prelude::*;

use crate::column::{no_nulls, non_decreasing, non_increasing};
use crate::gather::{reduce_matches, AggValue, ReduceOp};
use crate::groups::SliceGroup;
use crate::model::{
    idx_cells, lemma_live_no_nulls, lemma_max_characterizes, lemma_min_characterizes,
    lemma_sum_singleton, live_values, max_of, min_of, slice_cells, spec_and, spec_max, spec_mean,
    spec_min, spec_or, spec_sum, spec_var, spec_xor,
};
use crate::quantile::{le64, lemma_le64_total_ordering, sorted_live, spec_quantile};
use crate::rational::QuantileMethod;

verus! {

/// Null propagation: a group composed entirely of nulls (and likewise an
/// empty group) yields null for every reducer except the sum, whose
/// result is the fold identity 0.
pub proof fn lemma_null_propagation(gc: Seq<Option<i64>>, ddof: int, pn: int, pd: int, m:
    QuantileMethod)
    requires
        forall|i: int| 0 <= i < gc.len() ==> gc[i] is None,
        ddof >= 0,
    ensures
        spec_sum(gc) == 0,
        spec_min(gc) is None,
        spec_max(gc) is None,
        spec_mean(gc) is None,
        spec_var(gc, ddof) is None,
        spec_quantile(gc, pn, pd, m) is None,
        spec_and(gc) is None,
        spec_or(gc) is None,
        spec_xor(gc) is None,
{
    lemma_all_null_live_empty(gc);
    broadcast use vstd::seq_lib::group_to_multiset_ensures;

    lemma_le64_total_ordering();
    live_values(gc).lemma_sort_by_ensures(le64());
    assert(live_values(gc).to_multiset().len() == live_values(gc).len());
    assert(sorted_live(gc).to_multiset().len() == sorted_live(gc).len());
    assert(sorted_live(gc).len() == 0);
}

/// A group whose cells are all null has no live values.
proof fn lemma_all_null_live_empty(gc: Seq<Option<i64>>)
    requires
        forall|i: int| 0 <= i < gc.len() ==> gc[i] is None,
    ensures
        live_values(gc).len() == 0,
    decreases gc.len(),
{
    if gc.len() > 0 {
        lemma_all_null_live_empty(gc.drop_last());
    }
}

/// On a null-free, ascending-sorted group the minimum is the first cell
/// and the maximum the last: row order is non-decreasing in value, so the
/// member at the smallest row position bounds the rest from below.
pub proof fn lemma_sorted_group_extremes(gc: Seq<Option<i64>>)
    requires
        no_nulls(gc),
        non_decreasing(gc),
        gc.len() > 0,
    ensures
        spec_min(gc) == gc[0],
        spec_max(gc) == gc[gc.len() - 1],
{
    lemma_live_no_nulls(gc);
    let lv = live_values(gc);
    lemma_min_characterizes(lv);
    lemma_max_characterizes(lv);
    let k = choose|k: int| 0 <= k < lv.len() && lv[k] == min_of(lv);
    assert(lv[0] <= lv[k]);
    let k2 = choose|k2: int| 0 <= k2 < lv.len() && lv[k2] == max_of(lv);
    assert(lv[k2] <= lv[lv.len() - 1]);
    assert(gc[0] == Some(lv[0]));
    assert(gc[gc.len() - 1] == Some(lv[lv.len() - 1]));
}

/// On a null-free, descending-sorted group the minimum is the last cell
/// and the maximum the first.
pub proof fn lemma_rev_sorted_group_extremes(gc: Seq<Option<i64>>)
    requires
        no_nulls(gc),
        non_increasing(gc),
        gc.len() > 0,
    ensures
        spec_min(gc) == gc[gc.len() - 1],
        spec_max(gc) == gc[0],
{
    lemma_live_no_nulls(gc);
    let lv = live_values(gc);
    lemma_min_characterizes(lv);
    lemma_max_characterizes(lv);
    let k = choose|k: int| 0 <= k < lv.len() && lv[k] == min_of(lv);
    assert(lv[k] >= lv[lv.len() - 1]);
    let k2 = choose|k2: int| 0 <= k2 < lv.len() && lv[k2] == max_of(lv);
    assert(lv[0] >= lv[k2]);
    assert(gc[0] == Some(lv[0]));
    assert(gc[gc.len() - 1] == Some(lv[lv.len() - 1]));
}

/// Group cells selected by position-ordered members from a null-free,
/// non-decreasing column are themselves null-free and non-decreasing, the
/// precondition of the min/max sortedness shortcut.
pub proof fn lemma_idx_group_cells_sorted(cells: Seq<Option<i64>>, members: Seq<usize>)
    requires
        no_nulls(cells),
        forall|i: int| 0 <= i < members.len() ==> (#[trigger] members[i]) < cells.len(),
        forall|i: int, j: int|
            0 <= i <= j < members.len() ==> #[trigger] members[i] <= #[trigger] members[j],
    ensures
        non_decreasing(cells) ==> no_nulls(idx_cells(cells, members)) && non_decreasing(
            idx_cells(cells, members),
        ),
        non_increasing(cells) ==> no_nulls(idx_cells(cells, members)) && non_increasing(
            idx_cells(cells, members),
        ),
{
    let gc = idx_cells(cells, members);
    assert forall|i: int| 0 <= i < gc.len() implies gc[i] is Some by {
        assert(gc[i] == cells[members[i] as int]);
    }
    if non_decreasing(cells) {
        assert forall|i: int, j: int| 0 <= i <= j < gc.len() implies #[trigger] gc[i]->Some_0
            <= #[trigger] gc[j]->Some_0 by {
            assert(members[i] <= members[j]);
            assert(cells[members[i] as int]->Some_0 <= cells[members[j] as int]->Some_0);
        }
    }
    if non_increasing(cells) {
        assert forall|i: int, j: int| 0 <= i <= j < gc.len() implies #[trigger] gc[i]->Some_0
            >= #[trigger] gc[j]->Some_0 by {
            assert(members[i] <= members[j]);
            assert(cells[members[i] as int]->Some_0 >= cells[members[j] as int]->Some_0);
        }
    }
}

/// The per-group contract pins the result down completely: any two values
/// that satisfy it for the same group and reducer are identical. This is
/// the heart of rolling/gather path equivalence.
pub proof fn lemma_reduce_deterministic(gc: Seq<Option<i64>>, op: ReduceOp, a: AggValue, b:
    AggValue)
    requires
        reduce_matches(a, gc, op),
        reduce_matches(b, gc, op),
    ensures
        a == b,
{
}

/// Rolling/gather equivalence: for any slice groups (the eligible rolling
/// descriptors among them), two result columns that each satisfy the
/// per-group contract — as the rolling sweep's and the parallel
/// gather-reduce's outputs are proved to — are identical, slot for slot.
pub proof fn lemma_path_equivalence(
    cells: Seq<Option<i64>>,
    gs: Seq<SliceGroup>,
    op: ReduceOp,
    a: Seq<AggValue>,
    b: Seq<AggValue>,
)
    requires
        a.len() == gs.len(),
        b.len() == gs.len(),
        forall|i: int|
            0 <= i < gs.len() ==> reduce_matches(
                a[i],
                slice_cells(cells, (#[trigger] gs[i]).start as int, gs[i].len as int),
                op,
            ),
        forall|i: int|
            0 <= i < gs.len() ==> reduce_matches(
                b[i],
                slice_cells(cells, (#[trigger] gs[i]).start as int, gs[i].len as int),
                op,
            ),
    ensures
        a =~= b,
{
    assert forall|i: int| 0 <= i < gs.len() implies a[i] == b[i] by {
        lemma_reduce_deterministic(
            slice_cells(cells, gs[i].start as int, gs[i].len as int),
            op,
            a[i],
            b[i],
        );
    }
}

/// The minimum and maximum of a non-empty value sequence depend only on
/// its multiset of values, never on their order.
pub proof fn lemma_extremes_of_permutation(a: Seq<i64>, b: Seq<i64>)
    requires
        a.to_multiset() == b.to_multiset(),
        a.len() > 0,
    ensures
        b.len() == a.len(),
        min_of(a) == min_of(b),
        max_of(a) == max_of(b),
{
    broadcast use vstd::seq_lib::group_to_multiset_ensures;

    assert(a.to_multiset().len() == a.len());
    assert(b.to_multiset().len() == b.len());
    lemma_min_characterizes(a);
    lemma_min_characterizes(b);
    lemma_max_characterizes(a);
    lemma_max_characterizes(b);
    assert(a.contains(min_of(a))) by {
        let k = choose|k: int| 0 <= k < a.len() && a[k] == min_of(a);
        assert(a[k] == min_of(a));
    }
    assert(b.to_multiset().count(min_of(a)) > 0);
    assert(b.contains(min_of(a)));
    assert(b.contains(min_of(b))) by {
        let k = choose|k: int| 0 <= k < b.len() && b[k] == min_of(b);
        assert(b[k] == min_of(b));
    }
    assert(a.to_multiset().count(min_of(b)) > 0);
    assert(a.contains(min_of(b)));
    let ia = choose|k: int| 0 <= k < a.len() && a[k] == min_of(b);
    let ib = choose|k: int| 0 <= k < b.len() && b[k] == min_of(a);
    assert(min_of(a) <= a[ia]);
    assert(min_of(b) <= b[ib]);
    assert(a.contains(max_of(a))) by {
        let k = choose|k: int| 0 <= k < a.len() && a[k] == max_of(a);
        assert(a[k] == max_of(a));
    }
    assert(b.to_multiset().count(max_of(a)) > 0);
    assert(b.contains(max_of(a)));
    assert(a.contains(max_of(b))) by {
        let k = choose|k: int| 0 <= k < b.len() && b[k] == max_of(b);
        assert(b[k] == max_of(b));
        assert(b.contains(max_of(b)));
        assert(a.to_multiset().count(max_of(b)) > 0);
    }
    let ja = choose|k: int| 0 <= k < a.len() && a[k] == max_of(b);
    let jb = choose|k: int| 0 <= k < b.len() && b[k] == max_of(a);
    assert(max_of(a) >= a[ja]);
    assert(max_of(b) >= b[jb]);
}

/// In a sorted non-empty sequence, the minimum is the first element and
/// the maximum the last.
pub proof fn lemma_extremes_of_sorted(w: Seq<i64>)
    requires
        vstd::relations::sorted_by(w, le64()),
        w.len() > 0,
    ensures
        min_of(w) == w[0],
        max_of(w) == w[w.len() - 1],
{
    lemma_min_characterizes(w);
    lemma_max_characterizes(w);
    let k = choose|k: int| 0 <= k < w.len() && w[k] == min_of(w);
    if k > 0 {
        assert(le64()(w[0], w[k]));
    }
    let k2 = choose|k: int| 0 <= k < w.len() && w[k] == max_of(w);
    if k2 < w.len() - 1 {
        assert(le64()(w[k2], w[w.len() - 1]));
    }
}

/// Quantile boundary: at probability 0 the linear quantile of a group is
/// its minimum, at probability 1 its maximum, in both cases exactly (a
/// rational with denominator one); null exactly when the group has no
/// live value.
pub proof fn lemma_quantile_boundary(gc: Seq<Option<i64>>, pd: int)
    requires
        1 <= pd,
    ensures
        spec_quantile(gc, 0, pd, QuantileMethod::Linear) == match spec_min(gc) {
            Some(m) => Some((m as int, 1int)),
            None => None::<(int, int)>,
        },
        spec_quantile(gc, pd, pd, QuantileMethod::Linear) == match spec_max(gc) {
            Some(m) => Some((m as int, 1int)),
            None => None::<(int, int)>,
        },
{
    broadcast use vstd::seq_lib::group_to_multiset_ensures;

    lemma_le64_total_ordering();
    let lv = live_values(gc);
    lv.lemma_sort_by_ensures(le64());
    let w = sorted_live(gc);
    assert(lv.to_multiset().len() == lv.len());
    assert(w.to_multiset().len() == w.len());
    if lv.len() == 0 {
        assert(w.len() == 0);
    } else {
        lemma_extremes_of_permutation(lv, w);
        lemma_extremes_of_sorted(w);
        let n = w.len() as int;
        assert((n - 1) * 0 == 0) by (nonlinear_arith);
        vstd::arithmetic::div_mod::lemma_basic_div(0, pd);
        vstd::arithmetic::div_mod::lemma_mod_self_0(pd);
        vstd::arithmetic::div_mod::lemma_small_mod(0nat, pd as nat);
        let h = (n - 1) * pd;
        vstd::arithmetic::div_mod::lemma_div_by_multiple(n - 1, pd);
        assert(h / pd == n - 1);
        vstd::arithmetic::div_mod::lemma_mod_multiples_basic(n - 1, pd);
        assert(h % pd == 0);
    }
}

/// Variance singleton rule: a group with exactly one live value yields
/// exactly zero at `ddof == 0` and null at any `ddof >= 1`.
pub proof fn lemma_var_singleton(gc: Seq<Option<i64>>, ddof: int)
    requires
        live_values(gc).len() == 1,
        ddof >= 0,
    ensures
        ddof == 0 ==> spec_var(gc, 0) == Some((0int, 1int)),
        ddof >= 1 ==> spec_var(gc, ddof) is None,
{
    let lv = live_values(gc);
    assert(lv =~= seq![lv[0]]);
    lemma_sum_singleton(lv[0]);
}

/// A contiguous subrange of a null-free, sorted column keeps both
/// properties.
pub proof fn lemma_subrange_cells_sorted(cells: Seq<Option<i64>>, a: int, b: int)
    requires
        no_nulls(cells),
        0 <= a <= b <= cells.len(),
    ensures
        no_nulls(cells.subrange(a, b)),
        non_decreasing(cells) ==> non_decreasing(cells.subrange(a, b)),
        non_increasing(cells) ==> non_increasing(cells.subrange(a, b)),
{
    let gc = cells.subrange(a, b);
    assert forall|i: int| 0 <= i < gc.len() implies gc[i] is Some by {
        assert(gc[i] == cells[a + i]);
    }
    if non_decreasing(cells) {
        assert forall|i: int, j: int| 0 <= i <= j < gc.len() implies #[trigger] gc[i]->Some_0
            <= #[trigger] gc[j]->Some_0 by {
            assert(cells[a + i]->Some_0 <= cells[a + j]->Some_0);
        }
    }
    if non_increasing(cells) {
        assert forall|i: int, j: int| 0 <= i <= j < gc.len() implies #[trigger] gc[i]->Some_0
            >= #[trigger] gc[j]->Some_0 by {
            assert(cells[a + i]->Some_0 >= cells[a + j]->Some_0);
        }
    }
}

} // verus!
