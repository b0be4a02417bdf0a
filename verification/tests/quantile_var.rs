use groupagg::column::{Column, Sorted};
use groupagg::groups::{GroupsType, IdxGroup, SliceGroup};
use groupagg::rational::{QuantileMethod, QuantileProb, Rational};

fn col(values: Vec<i64>) -> Column {
    Column::new(values, None, Sorted::Unknown)
}

fn whole(n: usize) -> GroupsType {
    GroupsType::Slice(vec![SliceGroup { start: 0, len: n }])
}

fn prob(num: u64, den: u64) -> QuantileProb {
    QuantileProb { num, den }
}

fn rat_f64(r: &Rational) -> f64 {
    r.num as f64 / r.den as f64
}

#[test]
fn quantile_out_of_range_yields_all_null_column() {
    let c = col(vec![1, 2, 3]);
    let g = GroupsType::Slice(vec![SliceGroup { start: 0, len: 2 }, SliceGroup {
        start: 2,
        len: 1,
    }]);
    // 1.5 as a probability is outside [0, 1]: graceful all-null output.
    let out = c.agg_quantile(&g, prob(3, 2), QuantileMethod::Linear).unwrap();
    assert_eq!(out, vec![None, None]);
    // A zero denominator is equally invalid.
    let out = c.agg_quantile(&g, prob(0, 0), QuantileMethod::Linear).unwrap();
    assert_eq!(out, vec![None, None]);
}

#[test]
fn quantile_zero_is_min_and_one_is_max() {
    let c = col(vec![7, -3, 12, 0, 5]);
    let g = whole(5);
    let q0 = c.agg_quantile(&g, prob(0, 1), QuantileMethod::Linear).unwrap();
    assert_eq!(q0[0], Some(Rational { num: -3, den: 1 }));
    let q1 = c.agg_quantile(&g, prob(1, 1), QuantileMethod::Linear).unwrap();
    assert_eq!(q1[0], Some(Rational { num: 12, den: 1 }));
    assert_eq!(c.agg_min(&g).unwrap()[0], Some(-3));
    assert_eq!(c.agg_max(&g).unwrap()[0], Some(12));
}

#[test]
fn median_interpolates_linearly() {
    let even = col(vec![1, 2, 3, 4]);
    let m = even.agg_median(&whole(4)).unwrap();
    assert_eq!(rat_f64(m[0].as_ref().unwrap()), 2.5);
    let odd = col(vec![5, 1, 3]);
    let m = odd.agg_median(&whole(3)).unwrap();
    assert_eq!(rat_f64(m[0].as_ref().unwrap()), 3.0);
}

#[test]
fn quantile_methods_resolve_fractional_ranks() {
    // Sorted data 10,20,30,40; p = 1/4 gives rank h = 3/4: between the
    // first and second order statistics, fraction 3/4.
    let c = col(vec![40, 10, 30, 20]);
    let g = whole(4);
    let p = prob(1, 4);
    let lower = c.agg_quantile(&g, p, QuantileMethod::Lower).unwrap();
    assert_eq!(lower[0], Some(Rational { num: 10, den: 1 }));
    let higher = c.agg_quantile(&g, p, QuantileMethod::Higher).unwrap();
    assert_eq!(higher[0], Some(Rational { num: 20, den: 1 }));
    let nearest = c.agg_quantile(&g, p, QuantileMethod::Nearest).unwrap();
    assert_eq!(nearest[0], Some(Rational { num: 20, den: 1 }));
    let midpoint = c.agg_quantile(&g, p, QuantileMethod::Midpoint).unwrap();
    assert_eq!(rat_f64(midpoint[0].as_ref().unwrap()), 15.0);
    let linear = c.agg_quantile(&g, p, QuantileMethod::Linear).unwrap();
    assert_eq!(rat_f64(linear[0].as_ref().unwrap()), 17.5);
}

#[test]
fn rolling_quantile_matches_gather_quantile() {
    let values = vec![9, 1, 4, 7, 2, 8, 6];
    let one = Column::new(values.clone(), None, Sorted::Unknown);
    let overlapping: Vec<SliceGroup> =
        (0..5).map(|s| SliceGroup { start: s, len: 3 }).collect();
    let g = GroupsType::Slice(overlapping.clone());
    let rolled = one.agg_quantile(&g, prob(1, 2), QuantileMethod::Linear).unwrap();
    // Each window computed independently as its own call (single-group
    // descriptors are never rolling-eligible).
    for (i, w) in overlapping.iter().enumerate() {
        let single = GroupsType::Slice(vec![*w]);
        let direct = one.agg_quantile(&single, prob(1, 2), QuantileMethod::Linear).unwrap();
        assert_eq!(rolled[i], direct[0], "window {}", i);
    }
}

#[test]
fn variance_singleton_rule() {
    let c = col(vec![42]);
    let g = whole(1);
    let v0 = c.agg_var(&g, 0).unwrap();
    assert_eq!(rat_f64(v0[0].as_ref().unwrap()), 0.0);
    let v1 = c.agg_var(&g, 1).unwrap();
    assert_eq!(v1[0], None);
}

#[test]
fn variance_known_values() {
    let c = col(vec![1, 2, 3, 4]);
    let g = whole(4);
    let pop = c.agg_var(&g, 0).unwrap();
    assert_eq!(rat_f64(pop[0].as_ref().unwrap()), 1.25);
    let sample = c.agg_var(&g, 1).unwrap();
    let x = sample[0].as_ref().unwrap();
    assert_eq!((x.num, x.den), (20, 12));
    // Standard deviation is the square root of the exact variance.
    let std = rat_f64(x).sqrt();
    assert!((std - (5.0f64 / 3.0).sqrt()).abs() < 1e-12);
}

#[test]
fn variance_rejects_oversized_values() {
    let c = col(vec![1, 1 << 40]);
    let g = whole(2);
    assert_eq!(c.agg_var(&g, 1), Err(groupagg::AggError::ValueTooLarge { position: 1 }));
}

#[test]
fn variance_skips_nulls() {
    let c = Column::new(vec![1, 99, 3], Some(vec![true, false, true]), Sorted::Unknown);
    let g = GroupsType::Idx(vec![IdxGroup { first: 0, members: vec![0, 1, 2] }]);
    // Live values 1 and 3: sample variance 2, population variance 1.
    let v = c.agg_var(&g, 1).unwrap();
    assert_eq!(rat_f64(v[0].as_ref().unwrap()), 2.0);
    let v = c.agg_var(&g, 0).unwrap();
    assert_eq!(rat_f64(v[0].as_ref().unwrap()), 1.0);
}

#[test]
fn rolling_variance_matches_per_window_calls() {
    let values = vec![3, -1, 4, 1, -5, 9, 2];
    let c = Column::new(values, None, Sorted::Unknown);
    let windows: Vec<SliceGroup> = (0..4).map(|s| SliceGroup { start: s, len: 4 }).collect();
    let g = GroupsType::Slice(windows.clone());
    let rolled = c.agg_var(&g, 1).unwrap();
    for (i, w) in windows.iter().enumerate() {
        let single = GroupsType::Slice(vec![*w]);
        assert_eq!(rolled[i], c.agg_var(&single, 1).unwrap()[0], "window {}", i);
    }
}

#[test]
fn quantile_ignores_nulls() {
    let c = Column::new(vec![10, 0, 30], Some(vec![true, false, true]), Sorted::Unknown);
    let m = c.agg_median(&whole(3)).unwrap();
    assert_eq!(rat_f64(m[0].as_ref().unwrap()), 20.0);
}
