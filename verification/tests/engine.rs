use groupagg::column::{Chunk, Column, Sorted};
use groupagg::groups::{GroupsType, IdxGroup, SliceGroup};
use groupagg::rational::Rational;

fn col(values: Vec<i64>, sorted: Sorted) -> Column {
    Column::new(values, None, sorted)
}

fn col_nulls(values: Vec<i64>, validity: Vec<bool>) -> Column {
    Column::new(values, Some(validity), Sorted::Unknown)
}

fn slices(gs: &[(usize, usize)]) -> GroupsType {
    GroupsType::Slice(gs.iter().map(|&(start, len)| SliceGroup { start, len }).collect())
}

fn idx(gs: &[(usize, &[usize])]) -> GroupsType {
    GroupsType::Idx(
        gs.iter().map(|&(first, members)| IdxGroup { first, members: members.to_vec() }).collect(),
    )
}

fn rat_f64(r: &Rational) -> f64 {
    r.num as f64 / r.den as f64
}

#[test]
fn contiguous_slices_sum_min_max_mean() {
    let c = col(vec![1, 2, 3, 4, 5, 6], Sorted::Ascending);
    let g = slices(&[(0, 3), (3, 3)]);
    assert_eq!(c.agg_sum(&g).unwrap(), vec![6, 15]);
    assert_eq!(c.agg_min(&g).unwrap(), vec![Some(1), Some(4)]);
    assert_eq!(c.agg_max(&g).unwrap(), vec![Some(3), Some(6)]);
    let mean = c.agg_mean(&g).unwrap();
    assert_eq!(rat_f64(mean[0].as_ref().unwrap()), 2.0);
    assert_eq!(rat_f64(mean[1].as_ref().unwrap()), 5.0);
}

#[test]
fn mean_excludes_nulls_from_denominator() {
    let c = col_nulls(vec![1, 0, 3], vec![true, false, true]);
    let g = idx(&[(0, &[0, 1, 2])]);
    let mean = c.agg_mean(&g).unwrap();
    assert_eq!(rat_f64(mean[0].as_ref().unwrap()), 2.0);
    assert_eq!(mean[0], Some(Rational { num: 4, den: 2 }));
}

#[test]
fn rolling_windows_match_naive_scan() {
    let c = col(vec![1, 2, 3, 4, 5], Sorted::Unknown);
    let g = slices(&[(0, 3), (1, 3), (2, 3)]);
    assert_eq!(c.agg_sum(&g).unwrap(), vec![6, 9, 12]);
}

#[test]
fn rolling_and_gather_agree_on_overlapping_windows() {
    // The same cells in one chunk (rolling-eligible) and in two chunks
    // (not eligible, so the gather path runs) must agree on every reducer.
    let values = vec![5, -2, 7, 0, 3, 3, -9, 4];
    let validity = vec![true, true, false, true, true, true, true, false];
    let one = Column::new_chunked(vec![Chunk {
        values: values.clone(),
        validity: Some(validity.clone()),
    }]);
    let two = Column::new_chunked(vec![
        Chunk { values: values[..4].to_vec(), validity: Some(validity[..4].to_vec()) },
        Chunk { values: values[4..].to_vec(), validity: Some(validity[4..].to_vec()) },
    ]);
    let g = slices(&[(0, 4), (1, 4), (2, 4), (3, 4), (4, 4)]);
    assert_eq!(one.agg_sum(&g).unwrap(), two.agg_sum(&g).unwrap());
    assert_eq!(one.agg_min(&g).unwrap(), two.agg_min(&g).unwrap());
    assert_eq!(one.agg_max(&g).unwrap(), two.agg_max(&g).unwrap());
    assert_eq!(one.agg_mean(&g).unwrap(), two.agg_mean(&g).unwrap());
    assert_eq!(one.agg_var(&g, 1).unwrap(), two.agg_var(&g, 1).unwrap());
    assert_eq!(one.agg_median(&g).unwrap(), two.agg_median(&g).unwrap());
}

#[test]
fn sorted_shortcut_matches_full_scan() {
    // Ascending-sorted, null-free column: min/max go through the O(1)
    // shortcut; the same cells with the sortedness tag withheld go through
    // the general reducer. Both must agree for any descriptor.
    let values = vec![-5, -2, 0, 3, 3, 9];
    let tagged = col(values.clone(), Sorted::Ascending);
    let untagged = col(values, Sorted::Unknown);
    let g = idx(&[(0, &[0, 2, 5]), (1, &[1, 3]), (4, &[4])]);
    assert_eq!(tagged.agg_min(&g).unwrap(), untagged.agg_min(&g).unwrap());
    assert_eq!(tagged.agg_max(&g).unwrap(), untagged.agg_max(&g).unwrap());
    assert_eq!(tagged.agg_min(&g).unwrap(), vec![Some(-5), Some(-2), Some(3)]);
    assert_eq!(tagged.agg_max(&g).unwrap(), vec![Some(9), Some(3), Some(3)]);
    let s = slices(&[(0, 2), (2, 4)]);
    assert_eq!(tagged.agg_min(&s).unwrap(), untagged.agg_min(&s).unwrap());
    assert_eq!(tagged.agg_max(&s).unwrap(), untagged.agg_max(&s).unwrap());
}

#[test]
fn descending_shortcut_matches_full_scan() {
    let values = vec![9, 7, 4, 4, 1];
    let tagged = col(values.clone(), Sorted::Descending);
    let untagged = col(values, Sorted::Unknown);
    let g = slices(&[(0, 2), (2, 3)]);
    assert_eq!(tagged.agg_min(&g).unwrap(), vec![Some(7), Some(1)]);
    assert_eq!(tagged.agg_max(&g).unwrap(), vec![Some(9), Some(4)]);
    assert_eq!(tagged.agg_min(&g).unwrap(), untagged.agg_min(&g).unwrap());
    assert_eq!(tagged.agg_max(&g).unwrap(), untagged.agg_max(&g).unwrap());
}

#[test]
fn unordered_members_fall_back_to_full_scan() {
    // Member lists that are not in ascending row order violate the
    // shortcut's precondition; the engine detects that and scans.
    let c = col(vec![1, 2, 3, 4], Sorted::Ascending);
    let g = idx(&[(3, &[3, 0, 2])]);
    assert_eq!(c.agg_min(&g).unwrap(), vec![Some(1)]);
    assert_eq!(c.agg_max(&g).unwrap(), vec![Some(4)]);
}

#[test]
fn false_sortedness_claim_is_downgraded() {
    let c = col(vec![3, 1, 2], Sorted::Ascending);
    assert_eq!(c.sorted, Sorted::Unknown);
    let with_null = Column::new(vec![1, 2], Some(vec![true, false]), Sorted::Ascending);
    assert_eq!(with_null.sorted, Sorted::Unknown);
    let honest = col(vec![1, 2, 3], Sorted::Ascending);
    assert_eq!(honest.sorted, Sorted::Ascending);
}

#[test]
fn null_propagation_all_null_group() {
    let c = col_nulls(vec![0, 0, 5], vec![false, false, true]);
    let g = idx(&[(0, &[0, 1]), (2, &[2])]);
    // Sum of an all-null group is the identity 0, not null.
    assert_eq!(c.agg_sum(&g).unwrap(), vec![0, 5]);
    assert_eq!(c.agg_min(&g).unwrap(), vec![None, Some(5)]);
    assert_eq!(c.agg_max(&g).unwrap(), vec![None, Some(5)]);
    assert_eq!(c.agg_mean(&g).unwrap()[0], None);
    assert_eq!(c.agg_var(&g, 0).unwrap()[0], None);
    assert_eq!(c.agg_median(&g).unwrap()[0], None);
    assert_eq!(c.agg_and(&g).unwrap()[0], None);
    assert_eq!(c.agg_or(&g).unwrap()[0], None);
    assert_eq!(c.agg_xor(&g).unwrap()[0], None);
}

#[test]
fn empty_group_results() {
    let c = col(vec![1, 2], Sorted::Unknown);
    let g = slices(&[(0, 0), (0, 2)]);
    assert_eq!(c.agg_sum(&g).unwrap(), vec![0, 3]);
    assert_eq!(c.agg_min(&g).unwrap(), vec![None, Some(1)]);
    assert_eq!(c.agg_mean(&g).unwrap()[0], None);
    let gi = idx(&[(0, &[]), (0, &[0, 1])]);
    assert_eq!(c.agg_sum(&gi).unwrap(), vec![0, 3]);
    assert_eq!(c.agg_max(&gi).unwrap(), vec![None, Some(2)]);
}

#[test]
fn out_of_bounds_group_is_reported() {
    let c = col(vec![1, 2, 3], Sorted::Unknown);
    let g = idx(&[(0, &[0, 1]), (2, &[2, 3])]);
    assert_eq!(c.agg_sum(&g), Err(groupagg::AggError::GroupOutOfBounds { group: 1 }));
    let s = slices(&[(0, 3), (2, 2)]);
    assert_eq!(c.agg_min(&s), Err(groupagg::AggError::GroupOutOfBounds { group: 1 }));
}

#[test]
fn bitwise_folds() {
    let c = col(vec![0b1100, 0b1010, 0b0110], Sorted::Unknown);
    let g = slices(&[(0, 3)]);
    assert_eq!(c.agg_and(&g).unwrap(), vec![Some(0b1100 & 0b1010 & 0b0110)]);
    assert_eq!(c.agg_or(&g).unwrap(), vec![Some(0b1110)]);
    assert_eq!(c.agg_xor(&g).unwrap(), vec![Some(0b1100 ^ 0b1010 ^ 0b0110)]);
    // Nulls are skipped by the fold.
    let cn = col_nulls(vec![0b1100, 0b1010, 0b0110], vec![true, false, true]);
    assert_eq!(cn.agg_xor(&g).unwrap(), vec![Some(0b1100 ^ 0b0110)]);
}

#[test]
fn multi_chunk_rows_flatten_in_order() {
    let c = Column::new_chunked(vec![
        Chunk { values: vec![1, 2], validity: None },
        Chunk { values: vec![3], validity: Some(vec![false]) },
        Chunk { values: vec![4], validity: None },
    ]);
    assert_eq!(c.len(), 4);
    assert_eq!(c.null_count(), 1);
    let g = slices(&[(0, 4)]);
    assert_eq!(c.agg_sum(&g).unwrap(), vec![7]);
    assert_eq!(c.agg_max(&g).unwrap(), vec![Some(4)]);
}

#[test]
fn rolling_accumulators_handle_regressing_windows() {
    // The eligibility test never admits regressing windows, but the
    // accumulators are exercised directly to show they recompute safely.
    let c = col_nulls(vec![4, 8, 15, 16, 23], vec![true, true, true, false, true]);
    let chunk = c.rechunk();
    let gs = vec![
        SliceGroup { start: 2, len: 3 },
        SliceGroup { start: 0, len: 2 },
        SliceGroup { start: 1, len: 4 },
    ];
    assert_eq!(groupagg::rolling::rolling_sum(&chunk, &gs), vec![38, 12, 46]);
    assert_eq!(groupagg::rolling::rolling_min(&chunk, &gs), vec![
        Some(15),
        Some(4),
        Some(8),
    ]);
    assert_eq!(groupagg::rolling::rolling_max(&chunk, &gs), vec![
        Some(23),
        Some(8),
        Some(23),
    ]);
}
