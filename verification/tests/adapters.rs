use groupagg::column::{Column, Sorted};
use groupagg::groups::use_rolling_kernels;
use groupagg::decimal::{DecimalColumn, SeriesWrap};
use groupagg::groups::{GroupsType, SliceGroup};
use groupagg::rational::Rational;
use groupagg::time::{TimeColumn, NANOS_PER_DAY};

fn decimal(values: Vec<i64>, scale: u32) -> SeriesWrap {
    SeriesWrap(DecimalColumn {
        physical: Column::new(values, None, Sorted::Unknown),
        precision: 38,
        scale,
    })
}

#[test]
fn decimal_scale_factor_powers_of_ten() {
    assert_eq!(decimal(vec![], 0).scale_factor(), 1);
    assert_eq!(decimal(vec![], 2).scale_factor(), 100);
    assert_eq!(decimal(vec![], 9).scale_factor(), 1_000_000_000);
}

#[test]
fn decimal_apply_scale_divides_by_factor() {
    let w = decimal(vec![], 2);
    assert_eq!(w.apply_scale(None), None);
    // 125/10 in physical units is 1.25/10 = 125/1000 after rescaling.
    let scaled = w.apply_scale(Some(Rational { num: 125, den: 10 }));
    assert_eq!(scaled, Some(Rational { num: 125, den: 1000 }));
}

#[test]
fn decimal_aggregates_on_physical_units() {
    // 1.25, 2.50, 3.25 at scale 2.
    let w = decimal(vec![125, 250, 325], 2);
    let g = GroupsType::Slice(vec![SliceGroup { start: 0, len: 3 }]);
    assert_eq!(w.agg_sum(&g).unwrap(), vec![700]);
    assert_eq!(w.agg_min(&g).unwrap(), vec![Some(125)]);
    assert_eq!(w.agg_max(&g).unwrap(), vec![Some(325)]);
}

#[test]
fn decimal_apply_physical_rewraps() {
    let w = decimal(vec![5, 7], 3);
    let r = w.apply_physical_to_s(|c: &Column| c.clone());
    assert_eq!(r.0.scale, 3);
    assert_eq!(r.0.precision, 38);
    assert_eq!(r.0.physical.len(), 2);
    let n = w.apply_physical(|c: &Column| c.len());
    assert_eq!(n, 2);
}

#[test]
fn whole_column_reductions() {
    let c = Column::new(vec![4, 1, 3, 2], Some(vec![true, true, false, true]), Sorted::Unknown);
    assert_eq!(c.sum_reduce(), 7);
    assert_eq!(c.min_reduce(), Some(1));
    assert_eq!(c.max_reduce(), Some(4));
    let m = c.mean_reduce().unwrap();
    assert_eq!((m.num, m.den), (7, 3));
    let md = c.median_reduce().unwrap();
    assert_eq!(md.num as f64 / md.den as f64, 2.0);
    let empty = Column::new(vec![], None, Sorted::Unknown);
    assert_eq!(empty.sum_reduce(), 0);
    assert_eq!(empty.min_reduce(), None);
    assert_eq!(empty.mean_reduce(), None);
    assert_eq!(empty.median_reduce(), None);
}

#[test]
fn decimal_whole_column_reductions_rescale() {
    // 1.25, 2.75 at scale 2: mean 2.0, median 2.0, in decimal units.
    let w = decimal(vec![125, 275], 2);
    assert_eq!(w.sum_reduce(), 400);
    assert_eq!(w.min_reduce(), Some(125));
    assert_eq!(w.max_reduce(), Some(275));
    let m = w.mean().unwrap();
    assert_eq!(m.num as f64 / m.den as f64, 2.0);
    assert_eq!((m.num, m.den), (400, 200));
    let md = w.median_reduce().unwrap();
    assert_eq!(md.num as f64 / md.den as f64, 2.0);
    let q = w
        .quantile_reduce(
            groupagg::rational::QuantileProb { num: 1, den: 1 },
            groupagg::rational::QuantileMethod::Linear,
        )
        .unwrap();
    // The maximum 2.75, in decimal units.
    assert_eq!(q.num as f64 / q.den as f64, 2.75);
    let invalid = w.quantile_reduce(
        groupagg::rational::QuantileProb { num: 2, den: 1 },
        groupagg::rational::QuantileMethod::Linear,
    );
    assert_eq!(invalid, None);
}

#[test]
fn time_range_is_asserted_not_assumed() {
    let ok = TimeColumn::new(Column::new(vec![0, 1_000, NANOS_PER_DAY - 1], None, Sorted::Unknown));
    assert!(ok.is_some());
    let too_big = TimeColumn::new(Column::new(vec![NANOS_PER_DAY], None, Sorted::Unknown));
    assert!(too_big.is_none());
    let negative = TimeColumn::new(Column::new(vec![-1], None, Sorted::Unknown));
    assert!(negative.is_none());
}

#[test]
fn time_aggregates_stay_in_range() {
    let t = TimeColumn::new(Column::new(
        vec![3_600_000_000_000, 60_000_000_000, 7_200_000_000_000],
        None,
        Sorted::Unknown,
    ))
    .unwrap();
    let g = GroupsType::Slice(vec![SliceGroup { start: 0, len: 3 }]);
    assert_eq!(t.agg_min(&g).unwrap(), vec![Some(60_000_000_000)]);
    assert_eq!(t.agg_max(&g).unwrap(), vec![Some(7_200_000_000_000)]);
}

#[test]
fn eligibility_requires_overlap_and_single_chunk() {
    let overlapping = vec![SliceGroup { start: 0, len: 3 }, SliceGroup { start: 1, len: 3 }];
    assert!(use_rolling_kernels(&overlapping, 1));
    assert!(!use_rolling_kernels(&overlapping, 2));
    let disjoint = vec![SliceGroup { start: 0, len: 3 }, SliceGroup { start: 3, len: 3 }];
    assert!(!use_rolling_kernels(&disjoint, 1));
    let out_of_order = vec![SliceGroup { start: 4, len: 3 }, SliceGroup { start: 0, len: 3 }];
    assert!(!use_rolling_kernels(&out_of_order, 1));
    let single = vec![SliceGroup { start: 0, len: 3 }];
    assert!(!use_rolling_kernels(&single, 1));
}
