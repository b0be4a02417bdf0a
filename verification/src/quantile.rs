//! Quantile and median: order statistics with configurable interpolation.
//!
//! A group's quantile is defined over its live values in non-decreasing
//! order. The rank `h = (n-1) * prob` generally falls between two order
//! statistics; the interpolation method decides how the fractional part
//! is resolved. All arithmetic is exact: the result is a rational whose
//! denominator is the probability's denominator (or 1 or 2), so both
//! execution strategies produce identical results.

use vstd::prelude::*;
use vstd::arithmetic::div_mod::{lemma_div_is_ordered, lemma_fundamental_div_mod};
use vstd::multiset::Multiset;
use vstd::relations::{sorted_by, total_ordering};
use vstd::seq_lib::lemma_multiset_commutative;
use vstd::seq_lib::lemma_sorted_unique;

use crate::model::live_values;
use crate::rational::{QuantileMethod, QuantileProb, Rational};

verus! {

/// The non-decreasing order on native values, the sort relation of every
/// order-statistic computation here.
pub open spec fn le64() -> spec_fn(i64, i64) -> bool {
    |x: i64, y: i64| x <= y
}

/// `le64` is a total ordering.
pub proof fn lemma_le64_total_ordering()
    ensures
        total_ordering(le64()),
{
    assert(vstd::relations::reflexive(le64())) by {
        assert(forall|x: i64| #[trigger] le64()(x, x));
    }
    assert(vstd::relations::antisymmetric(le64())) by {
        assert(forall|x: i64, y: i64| #[trigger] le64()(x, y) && #[trigger] le64()(y, x) ==> x == y);
    }
    assert(vstd::relations::transitive(le64())) by {
        assert(forall|x: i64, y: i64, z: i64|
            #[trigger] le64()(x, y) && #[trigger] le64()(y, z) ==> le64()(x, z));
    }
    assert(vstd::relations::strongly_connected(le64())) by {
        assert(forall|x: i64, y: i64| #[trigger] le64()(x, y) || #[trigger] le64()(y, x));
    }
}

/// The live values of a group in non-decreasing order.
pub open spec fn sorted_live(gc: Seq<Option<i64>>) -> Seq<i64> {
    live_values(gc).sort_by(le64())
}

/// The quantile of a non-empty sorted window `w` at probability `pn/pd`,
/// as an exact rational. With `h = (len-1)*pn`, the lower order statistic
/// sits at `h / pd` and the fractional remainder `h % pd` is resolved by
/// the method.
pub open spec fn spec_quantile_sorted(w: Seq<i64>, pn: int, pd: int, m: QuantileMethod) -> (
    int,
    int,
)
    recommends
        w.len() > 0,
        1 <= pd,
        0 <= pn <= pd,
{
    let h = (w.len() - 1) * pn;
    let idx = h / pd;
    let frac = h % pd;
    let hi = if frac == 0 {
        idx
    } else {
        idx + 1
    };
    match m {
        QuantileMethod::Lower => (w[idx] as int, 1),
        QuantileMethod::Higher => (w[hi] as int, 1),
        QuantileMethod::Nearest => if 2 * frac <= pd {
            (w[idx] as int, 1)
        } else {
            (w[hi] as int, 1)
        },
        QuantileMethod::Midpoint => (w[idx] + w[hi], 2),
        QuantileMethod::Linear => if frac == 0 {
            (w[idx] as int, 1)
        } else {
            (w[idx] * pd + frac * (w[hi] - w[idx]), pd)
        },
    }
}

/// The quantile of a group: null when the group has no live value.
pub open spec fn spec_quantile(gc: Seq<Option<i64>>, pn: int, pd: int, m: QuantileMethod) -> Option<
    (int, int),
> {
    let w = sorted_live(gc);
    if w.len() == 0 {
        None
    } else {
        Some(spec_quantile_sorted(w, pn, pd, m))
    }
}

/// Inserting anywhere adds the element to the sequence's multiset.
pub proof fn lemma_insert_multiset(s: Seq<i64>, i: int, x: i64)
    requires
        0 <= i <= s.len(),
    ensures
        s.insert(i, x).to_multiset() =~= s.to_multiset().insert(x),
{
    broadcast use vstd::seq_lib::group_to_multiset_ensures;
    broadcast use vstd::multiset::group_multiset_axioms;

    let a = s.subrange(0, i);
    let b = s.subrange(i, s.len() as int);
    assert(s =~= a + b);
    assert(s.insert(i, x) == a.push(x) + b);
    assert(a.push(x) =~= a + seq![x]);
    lemma_multiset_commutative(a, seq![x]);
    lemma_multiset_commutative(a + seq![x], b);
    lemma_multiset_commutative(a, b);
    assert(seq![x] =~= Seq::<i64>::empty().push(x));
    assert(seq![x].to_multiset() =~= Multiset::<i64>::empty().insert(x));
}

/// Inserts a value into a sorted vector, keeping it sorted.
pub(crate) fn insert_sorted(out: &mut Vec<i64>, x: i64)
    requires
        sorted_by(old(out)@, le64()),
    ensures
        sorted_by(final(out)@, le64()),
        final(out)@.to_multiset() == old(out)@.to_multiset().insert(x),
        final(out)@.len() == old(out)@.len() + 1,
{
    let mut j: usize = 0;
    while j < out.len() && out[j] <= x
        invariant
            j <= out@.len(),
            out@ == old(out)@,
            forall|t: int| 0 <= t < j ==> le64()(#[trigger] out@[t], x),
        decreases out@.len() - j,
    {
        assert(le64()(out@[j as int], x));
        j += 1;
    }
    let ghost pre = out@;
    proof {
        if (j as int) < pre.len() {
            assert(!le64()(pre[j as int], x));
            assert forall|t: int| j <= t < pre.len() implies !le64()(#[trigger] pre[t], x) by {
                if t > j {
                    assert(le64()(pre[j as int], pre[t]));
                }
            }
        }
    }
    out.insert(j, x);
    proof {
        lemma_insert_multiset(pre, j as int, x);
        pre.insert_ensures(j as int, x);
        assert forall|s: int, t: int| 0 <= s < t < out@.len() implies le64()(
            #[trigger] out@[s],
            #[trigger] out@[t],
        ) by {
            let sj = if s < j {
                pre[s]
            } else if s == j {
                x
            } else {
                pre[s - 1]
            };
            assert(out@[s] == sj);
            let tj = if t < j {
                pre[t]
            } else if t == j {
                x
            } else {
                pre[t - 1]
            };
            assert(out@[t] == tj);
            if s < j && t > j {
                if !le64()(pre[s], pre[t - 1]) {
                    assert(le64()(pre[t - 1], pre[s]));
                }
            }
        }
    }
}

/// Sorts the given values in non-decreasing order by insertion; the
/// result is the unique sorted permutation of the input.
pub fn sort_values(vals: &Vec<i64>) -> (out: Vec<i64>)
    ensures
        out@ == vals@.sort_by(le64()),
        out@.len() == vals@.len(),
        sorted_by(out@, le64()),
{
    broadcast use vstd::seq_lib::group_to_multiset_ensures;

    let mut out: Vec<i64> = Vec::new();
    let mut k: usize = 0;
    while k < vals.len()
        invariant
            k <= vals@.len(),
            sorted_by(out@, le64()),
            out@.len() == k,
            out@.to_multiset() == vals@.take(k as int).to_multiset(),
        decreases vals@.len() - k,
    {
        let ghost prefix = vals@.take(k as int);
        insert_sorted(&mut out, vals[k]);
        proof {
            broadcast use vstd::seq_lib::group_to_multiset_ensures;

            assert(vals@.take(k + 1) =~= prefix.push(vals@[k as int]));
            assert(prefix.push(vals@[k as int]).to_multiset() =~= prefix.to_multiset().insert(
                vals@[k as int],
            ));
        }
        k += 1;
    }
    proof {
        assert(vals@.take(vals@.len() as int) =~= vals@);
        vals@.lemma_sort_by_ensures(le64());
        lemma_le64_total_ordering();
        lemma_sorted_unique(out@, vals@.sort_by(le64()), le64());
    }
    out
}

/// Computes the quantile of a non-empty sorted window at probability
/// `prob` under the given interpolation method, exactly.
pub fn quantile_of_sorted(w: &Vec<i64>, prob: QuantileProb, method: QuantileMethod) -> (r: Rational)
    requires
        sorted_by(w@, le64()),
        w@.len() > 0,
        prob.valid(),
        prob.small(),
    ensures
        ({
            let p = spec_quantile_sorted(w@, prob.num as int, prob.den as int, method);
            r.num == p.0 && r.den == p.1
        }),
{
    let n = w.len();
    let pn = prob.num as u128;
    let pd = prob.den as u128;
    let ghost gn = n as int;
    let ghost gpn = prob.num as int;
    let ghost gpd = prob.den as int;
    assert(((n - 1) as u128) * pn <= 0xffff_ffff_ffff_ffff_u128 * 0x1_0000_0001_u128)
        by (nonlinear_arith)
        requires
            n >= 1,
            n <= 0xffff_ffff_ffff_ffff_u128,
            pn <= 0x1_0000_0001_u128,
    ;
    let h: u128 = ((n - 1) as u128) * pn;
    let ghost gh = (gn - 1) * gpn;
    assert(h == gh);
    let idx128: u128 = h / pd;
    let frac: u128 = h % pd;
    let ghost gidx = gh / gpd;
    let ghost gfrac = gh % gpd;
    assert(idx128 == gidx && frac == gfrac);
    proof {
        lemma_fundamental_div_mod(gh, gpd);
        assert(0 <= gfrac < gpd) by {
            vstd::arithmetic::div_mod::lemma_mod_bound(gh, gpd);
        }
        assert(gh <= (gn - 1) * gpd) by (nonlinear_arith)
            requires
                0 <= gpn <= gpd,
                gn >= 1,
                gh == (gn - 1) * gpn,
        ;
        lemma_div_is_ordered(gh, (gn - 1) * gpd, gpd);
        vstd::arithmetic::div_mod::lemma_div_by_multiple(gn - 1, gpd);
        assert(((gn - 1) * gpd) / gpd == gn - 1);
        assert(gidx <= gn - 1);
        if gfrac != 0 {
            assert(gidx < gn - 1) by {
                if gidx == gn - 1 {
                    assert(gh == gpd * (gn - 1) + gfrac);
                    assert(gpd * (gn - 1) == (gn - 1) * gpd) by (nonlinear_arith);
                    assert(gh > (gn - 1) * gpd);
                    assert(false);
                }
            }
        }
    }
    let idx: usize = idx128 as usize;
    let hi: usize = if frac == 0 {
        idx
    } else {
        idx + 1
    };
    match method {
        QuantileMethod::Lower => Rational { num: w[idx] as i128, den: 1 },
        QuantileMethod::Higher => Rational { num: w[hi] as i128, den: 1 },
        QuantileMethod::Nearest => {
            if 2 * frac <= pd {
                Rational { num: w[idx] as i128, den: 1 }
            } else {
                Rational { num: w[hi] as i128, den: 1 }
            }
        },
        QuantileMethod::Midpoint => {
            let lo_v = w[idx] as i128;
            let hi_v = w[hi] as i128;
            Rational { num: lo_v + hi_v, den: 2 }
        },
        QuantileMethod::Linear => {
            if frac == 0 {
                Rational { num: w[idx] as i128, den: 1 }
            } else {
                let lo_v = w[idx] as i128;
                let hi_v = w[hi] as i128;
                let pd_i = pd as i128;
                let frac_i = frac as i128;
                proof {
                    crate::model::lemma_abs_mul_bound(
                        lo_v as int,
                        pd_i as int,
                        0x8000_0000_0000_0000,
                        0x1_0000_0000,
                    );
                    crate::model::lemma_abs_mul_bound(
                        frac_i as int,
                        hi_v - lo_v,
                        0x1_0000_0000,
                        0x1_0000_0000_0000_0000,
                    );
                }
                Rational { num: lo_v * pd_i + frac_i * (hi_v - lo_v), den: pd_i }
            }
        },
    }
}

} // verus!
