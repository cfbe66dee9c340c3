//! Percentiles, distributions, and the scores of single values.

use crate::arithmetic::{
    carry_out, follows, is_total, mean, mean_of, rounds_to_nearest, Arithmetic, Operation,
    EXACT_INTEGERS,
};
use crate::double::{
    law_floor_is_up_to_ceil, Double, FRACTION_COUNT, INFINITY_BITS, ONE_BITS, SIGN_BIT,
};
use crate::feature::{
    feature_values, law_measuring_ignores_order, measured_values, metrics_views, Feature,
    Transform,
};
use crate::metrics::{ConnectionMetrics, MetricsView};
use crate::order::{law_sorted_values, law_sorting_ignores_order, sort_doubles, sorted_values};
use crate::permutation::{lemma_filtered_permuted, lemma_mapped_permuted};
use vstd::prelude::*;

verus! {

/// The bit pattern of 1.4826, the factor that makes a median absolute deviation
/// comparable to a standard deviation.
pub const MAD_NORMAL_SCALE_BITS: u64 = 0x3ff7_b8ba_c710_cb29;

/// The bit pattern of 0.05.
pub const P05_BITS: u64 = 0x3fa9_9999_9999_999a;

/// The bit pattern of 0.25.
pub const P25_BITS: u64 = 0x3fd0_0000_0000_0000;

/// The bit pattern of 0.5.
pub const MEDIAN_BITS: u64 = 0x3fe0_0000_0000_0000;

/// The bit pattern of 0.75.
pub const P75_BITS: u64 = 0x3fe8_0000_0000_0000;

/// The bit pattern of 0.95.
pub const P95_BITS: u64 = 0x3fee_6666_6666_6666;

/// The bit pattern of the number that is none.
pub const NAN_BITS: u64 = 0x7ff8_0000_0000_0000;

/// The bit pattern of 1e300.
pub const BOUND_BITS: u64 = 0x7e37_e43c_8800_759c;

/// The value at a rank on the line through sorted values, the first of which stands
/// at zero. There is none beyond the last value.
pub open spec fn value_at(sorted: Seq<Double>, rank: Double, a: Arithmetic) -> Option<Double> {
    if rank.ceil() < sorted.len() {
        let low = sorted[rank.floor()];
        let high = sorted[rank.ceil()];
        let fraction = a(Operation::Minus(rank, a(Operation::Convert(rank.floor() as u64))));
        Some(
            a(
                Operation::Plus(
                    low,
                    a(Operation::Times(a(Operation::Minus(high, low)), fraction)),
                ),
            ),
        )
    } else {
        None
    }
}

/// A percentile, from zero to one, of sorted values: the value at that share of the
/// way from the first to the last. There is none of no values.
pub open spec fn percentile_of(
    sorted: Seq<Double>,
    percentile: Double,
    a: Arithmetic,
) -> Option<Double> {
    if sorted.len() == 0 || !percentile.at_least(Double { bits: 0 }) || !(Double {
        bits: ONE_BITS,
    }).at_least(percentile) {
        None
    } else if sorted.len() == 1 {
        Some(sorted[0])
    } else {
        let last = a(Operation::Convert((sorted.len() - 1) as u64));
        value_at(sorted, a(Operation::Times(percentile, last)), a)
    }
}

/// A percentile, from zero to one, of sorted values.
pub fn percentile_sorted<E: Fn(Operation) -> Double>(
    sorted: &Vec<Double>,
    percentile: Double,
    evaluate: &E,
) -> (value: Option<Double>)
    requires
        is_total(*evaluate),
    ensures
        forall|a: Arithmetic| #[trigger]
            follows(*evaluate, a) ==> value == percentile_of(sorted@, percentile, a),
{
    if sorted.len() == 0 || !percentile.ge(Double::zero()) || !Double::from_bits(ONE_BITS).ge(
        percentile,
    ) {
        return None;
    }
    if sorted.len() == 1 {
        return Some(sorted[0]);
    }
    let last = carry_out(evaluate, Operation::Convert((sorted.len() - 1) as u64));
    let rank = carry_out(evaluate, Operation::Times(percentile, last));
    let (lower, upper) = rank.rounded();
    if upper >= sorted.len() {
        return None;
    }
    let low = sorted[lower];
    let high = sorted[upper];
    let floor = carry_out(evaluate, Operation::Convert(lower as u64));
    let fraction = carry_out(evaluate, Operation::Minus(rank, floor));
    let range = carry_out(evaluate, Operation::Minus(high, low));
    let step = carry_out(evaluate, Operation::Times(range, fraction));
    Some(carry_out(evaluate, Operation::Plus(low, step)))
}

/// The finite ones among some numbers.
pub open spec fn finite_part(values: Seq<Double>) -> Seq<Double> {
    values.filter(|value: Double| value.finite())
}

/// The finite ones among some numbers.
pub fn finite_values(values: &Vec<Double>) -> (finite: Vec<Double>)
    ensures
        finite@ == finite_part(values@),
{
    let mut finite: Vec<Double> = Vec::new();
    let mut i: usize = 0;
    proof {
        reveal(Seq::filter);
    }
    while i < values.len()
        invariant
            i <= values@.len(),
            finite@ == finite_part(values@.take(i as int)),
        decreases values@.len() - i,
    {
        proof {
            reveal(Seq::filter);
        }
        assert(values@.take(i + 1).drop_last() =~= values@.take(i as int));
        let value = values[i];
        if value.is_finite() {
            finite.push(value);
        }
        i += 1;
    }
    assert(values@.take(values@.len() as int) =~= values@);
    finite
}

/// A summary of some values.
#[derive(Clone, Copy, Debug, PartialEq, Eq, Structural)]
pub struct Summary {
    /// Their number.
    pub count: usize,
    /// The smallest.
    pub min: Double,
    /// The 5th percentile.
    pub p05: Double,
    /// The 25th percentile.
    pub p25: Double,
    /// The median.
    pub median: Double,
    /// The mean.
    pub mean: Double,
    /// The 75th percentile.
    pub p75: Double,
    /// The 95th percentile.
    pub p95: Double,
    /// The largest.
    pub max: Double,
    /// The median of the distances from the median.
    pub mad: Double,
}

/// The distances of values from a center.
pub open spec fn distances(values: Seq<Double>, center: Double, a: Arithmetic) -> Seq<Double> {
    values.map_values(|value: Double| a(Operation::Minus(value, center)).absolute())
}

/// The distances of values from a center.
fn distances_from<E: Fn(Operation) -> Double>(
    values: &Vec<Double>,
    center: Double,
    evaluate: &E,
) -> (result: Vec<Double>)
    requires
        is_total(*evaluate),
    ensures
        forall|a: Arithmetic| #[trigger]
            follows(*evaluate, a) ==> result@ == distances(values@, center, a),
{
    let mut result: Vec<Double> = Vec::new();
    let mut i: usize = 0;
    while i < values.len()
        invariant
            is_total(*evaluate),
            i <= values@.len(),
            result@.len() == i,
            forall|a: Arithmetic, k: int|
                #![trigger follows(*evaluate, a), result@[k]]
                follows(*evaluate, a) && 0 <= k < i ==> result@[k] == a(
                    Operation::Minus(values@[k], center),
                ).absolute(),
        decreases values@.len() - i,
    {
        let difference = carry_out(evaluate, Operation::Minus(values[i], center));
        result.push(difference.abs());
        i += 1;
    }
    assert forall|a: Arithmetic| #[trigger] follows(*evaluate, a) implies result@ == distances(
        values@,
        center,
        a,
    ) by {
        assert(result@ =~= distances(values@, center, a));
    }
    result
}

/// The summary of some values, if there are any.
pub open spec fn summary_of(values: Seq<Double>, a: Arithmetic) -> Option<Summary> {
    let sorted = sorted_values(values);
    match percentile_of(sorted, Double { bits: MEDIAN_BITS }, a) {
        None => None,
        Some(median) => {
            let deviations = sorted_values(distances(sorted, median, a));
            match (
                percentile_of(deviations, Double { bits: MEDIAN_BITS }, a),
                percentile_of(sorted, Double { bits: P05_BITS }, a),
                percentile_of(sorted, Double { bits: P25_BITS }, a),
                percentile_of(sorted, Double { bits: P75_BITS }, a),
                percentile_of(sorted, Double { bits: P95_BITS }, a),
            ) {
                (Some(mad), Some(p05), Some(p25), Some(p75), Some(p95)) => Some(
                    Summary {
                        count: sorted.len() as usize,
                        min: sorted[0],
                        p05,
                        p25,
                        median,
                        mean: mean(sorted, a),
                        p75,
                        p95,
                        max: sorted.last(),
                        mad,
                    },
                ),
                _ => None,
            }
        },
    }
}

/// The summary of some values, if there are any.
pub fn summarize<E: Fn(Operation) -> Double>(values: &Vec<Double>, evaluate: &E) -> (summary:
    Option<Summary>)
    requires
        is_total(*evaluate),
    ensures
        forall|a: Arithmetic| #[trigger]
            follows(*evaluate, a) ==> summary == summary_of(values@, a),
{
    let sorted = sort_doubles(values);
    let median = match percentile_sorted(&sorted, Double::from_bits(MEDIAN_BITS), evaluate) {
        Some(median) => median,
        None => {
            return None;
        },
    };
    let deviations = sort_doubles(&distances_from(&sorted, median, evaluate));
    let mad = percentile_sorted(&deviations, Double::from_bits(MEDIAN_BITS), evaluate);
    let p05 = percentile_sorted(&sorted, Double::from_bits(P05_BITS), evaluate);
    let p25 = percentile_sorted(&sorted, Double::from_bits(P25_BITS), evaluate);
    let p75 = percentile_sorted(&sorted, Double::from_bits(P75_BITS), evaluate);
    let p95 = percentile_sorted(&sorted, Double::from_bits(P95_BITS), evaluate);
    let mean = mean_of(&sorted, evaluate);
    if sorted.len() == 0 {
        return None;
    }
    match (mad, p05, p25, p75, p95) {
        (Some(mad), Some(p05), Some(p25), Some(p75), Some(p95)) => Some(
            Summary {
                count: sorted.len(),
                min: sorted[0],
                p05,
                p25,
                median,
                mean,
                p75,
                p95,
                max: sorted[sorted.len() - 1],
                mad,
            },
        ),
        _ => None,
    }
}

/// Law: a summary is of all values, and none of them lies outside of it.
pub proof fn law_summary_bounds_values(values: Seq<Double>, a: Arithmetic, i: int)
    requires
        summary_of(values, a) is Some,
        0 <= i < values.len() <= usize::MAX,
    ensures
        summary_of(values, a)->0.count == values.len(),
        summary_of(values, a)->0.min.rank() <= values[i].rank() <= summary_of(
            values,
            a,
        )->0.max.rank(),
{
    broadcast use vstd::seq_lib::group_to_multiset_ensures;

    let sorted = sorted_values(values);
    law_sorted_values(values);
    assert(values.contains(values[i]));
    assert(values.to_multiset().contains(values[i]));
    assert(sorted.to_multiset().contains(values[i]));
    assert(sorted.contains(values[i]));
    let k = choose|k: int| 0 <= k < sorted.len() && sorted[k] == values[i];
    assert(sorted[0].rank() <= sorted[k].rank());
    assert(sorted[k].rank() <= sorted[sorted.len() - 1].rank());
}

/// Law: no values have no summary.
pub proof fn law_nothing_has_no_summary(a: Arithmetic)
    ensures
        summary_of(Seq::empty(), a) is None,
{
    law_sorted_values(Seq::empty());
}

/// Law: in an arithmetic that rounds to the nearest number, values have each of their
/// percentiles.
pub proof fn law_percentile_exists(sorted: Seq<Double>, percentile: Double, a: Arithmetic)
    requires
        rounds_to_nearest(a),
        0 < sorted.len() <= EXACT_INTEGERS,
        percentile.at_least(Double { bits: 0 }),
        (Double { bits: ONE_BITS }).at_least(percentile),
    ensures
        percentile_of(sorted, percentile, a) is Some,
{
    if sorted.len() > 1 {
        let n = (sorted.len() - 1) as u64;
        let last = a(Operation::Convert(n));
        let rank = a(Operation::Times(percentile, last));
        assert(rank.ceil() <= n);
    }
}

/// Law: in an arithmetic that rounds to the nearest number, a percentile of sorted
/// values none of which is negative is not negative.
pub proof fn law_percentile_keeps_sign(sorted: Seq<Double>, percentile: Double, a: Arithmetic)
    requires
        rounds_to_nearest(a),
        percentile_of(sorted, percentile, a) is Some,
        forall|i: int|
            0 <= i < sorted.len() ==> (#[trigger] sorted[i]).finite() && sorted[i].level() >= 0,
        forall|i: int, j: int|
            #![trigger sorted[i], sorted[j]]
            0 <= i <= j < sorted.len() ==> sorted[i].rank() <= sorted[j].rank(),
    ensures
        !percentile_of(sorted, percentile, a)->0.nan(),
        percentile_of(sorted, percentile, a)->0.level() >= 0,
{
    if sorted.len() > 1 {
        let last = a(Operation::Convert((sorted.len() - 1) as u64));
        let rank = a(Operation::Times(percentile, last));
        law_floor_is_up_to_ceil(rank);
        let low = sorted[rank.floor()];
        let high = sorted[rank.ceil()];
        assert(low.rank() <= high.rank());
        assert(low.level() <= high.level());
        assert(rank.finite() && rank.level() >= 0);
        let floor = a(Operation::Convert(rank.floor() as u64));
        assert(floor.level() <= rank.level());
        let fraction = a(Operation::Minus(rank, floor));
        assert(fraction.finite() && fraction.level() >= 0);
        let range = a(Operation::Minus(high, low));
        assert(range.finite() && range.level() >= 0);
        let step = a(Operation::Times(range, fraction));
        assert(!step.nan() && step.level() >= 0);
    } else {
        assert(sorted[0].finite());
    }
}

/// Law: in an arithmetic that rounds to the nearest number, there is a summary exactly
/// where there are values.
pub proof fn law_values_have_a_summary(values: Seq<Double>, a: Arithmetic)
    requires
        rounds_to_nearest(a),
        values.len() <= EXACT_INTEGERS,
    ensures
        summary_of(values, a) is Some <==> values.len() > 0,
{
    let sorted = sorted_values(values);
    law_sorted_values(values);
    if values.len() > 0 {
        let half = Double { bits: MEDIAN_BITS };
        law_percentile_exists(sorted, half, a);
        law_percentile_exists(sorted, Double { bits: P05_BITS }, a);
        law_percentile_exists(sorted, Double { bits: P25_BITS }, a);
        law_percentile_exists(sorted, Double { bits: P75_BITS }, a);
        law_percentile_exists(sorted, Double { bits: P95_BITS }, a);
        let spread = distances(sorted, percentile_of(sorted, half, a)->0, a);
        law_sorted_values(spread);
        law_percentile_exists(sorted_values(spread), half, a);
    }
}

/// Law: in an arithmetic that rounds to the nearest number, the median absolute
/// deviation is not negative where the deviations are finite.
pub proof fn law_deviation_is_not_negative(values: Seq<Double>, a: Arithmetic)
    requires
        rounds_to_nearest(a),
        summary_of(values, a) is Some,
        forall|i: int|
            0 <= i < values.len() ==> (#[trigger] distances(
                values,
                summary_of(values, a)->0.median,
                a,
            )[i]).finite(),
    ensures
        !summary_of(values, a)->0.mad.nan(),
        summary_of(values, a)->0.mad.level() >= 0,
{
    broadcast use vstd::seq_lib::group_to_multiset_ensures;

    let median = summary_of(values, a)->0.median;
    let sorted = sorted_values(values);
    law_sorted_values(values);
    let spread = distances(sorted, median, a);
    let deviations = sorted_values(spread);
    law_sorted_values(spread);
    assert forall|i: int| 0 <= i < deviations.len() implies (#[trigger] deviations[i]).finite()
        && deviations[i].level() >= 0 by {
        assert(deviations.contains(deviations[i]));
        assert(spread.to_multiset().contains(deviations[i]));
        assert(spread.contains(deviations[i]));
        let k = choose|k: int| 0 <= k < spread.len() && spread[k] == deviations[i];
        assert(sorted.contains(sorted[k]));
        assert(values.to_multiset().contains(sorted[k]));
        assert(values.contains(sorted[k]));
        let l = choose|l: int| 0 <= l < values.len() && values[l] == sorted[k];
        assert(distances(values, median, a)[l].finite());
    }
    law_percentile_keeps_sign(deviations, Double { bits: MEDIAN_BITS }, a);
}

/// A percentile of sorted values is at most four times as large as the largest of
/// them: rounding can take it past the last of them, but no further than that.
proof fn lemma_percentile_within(
    sorted: Seq<Double>,
    percentile: Double,
    limit: int,
    a: Arithmetic,
)
    requires
        rounds_to_nearest(a),
        percentile_of(sorted, percentile, a) is Some,
        sorted.len() <= usize::MAX,
        FRACTION_COUNT <= limit < INFINITY_BITS - 2 * FRACTION_COUNT,
        forall|i: int| 0 <= i < sorted.len() ==> (#[trigger] sorted[i]).within(limit),
        forall|i: int, j: int|
            #![trigger sorted[i], sorted[j]]
            0 <= i <= j < sorted.len() ==> sorted[i].rank() <= sorted[j].rank(),
    ensures
        percentile_of(sorted, percentile, a)->0.within(limit + 2 * FRACTION_COUNT),
{
    if sorted.len() > 1 {
        let last = a(Operation::Convert((sorted.len() - 1) as u64));
        let rank = a(Operation::Times(percentile, last));
        law_floor_is_up_to_ceil(rank);
        let low = sorted[rank.floor()];
        let high = sorted[rank.ceil()];
        assert(low.rank() <= high.rank());
        assert(low.within(limit) && high.within(limit));
        let fraction = a(Operation::Minus(rank, a(Operation::Convert(rank.floor() as u64))));
        assert(fraction.level() <= (Double { bits: ONE_BITS }).level());
        let range = a(Operation::Minus(high, low));
        assert(range.within(limit + FRACTION_COUNT) && range.level() >= 0);
        let step = a(Operation::Times(range, fraction));
        assert(step.level() <= range.level());
        assert(step.within(limit + FRACTION_COUNT));
        assert(low.within(limit + FRACTION_COUNT));
    } else {
        assert(sorted[0].within(limit));
    }
}

/// Law: in an arithmetic that rounds to the nearest number, values of up to 1e300 in
/// size have a summary exactly where there are any. It counts them all, its least and
/// its greatest value are among them and bound the others, its median absolute
/// deviation is not negative, and it is the same for every order of the values.
pub proof fn law_summary_of_bounded_values(values: Seq<Double>, a: Arithmetic)
    requires
        rounds_to_nearest(a),
        values.len() <= EXACT_INTEGERS,
        values.len() <= usize::MAX,
        forall|i: int| 0 <= i < values.len() ==> (#[trigger] values[i]).within(BOUND_BITS as int),
    ensures
        summary_of(values, a) is None <==> values.len() == 0,
        summary_of(values, a) matches Some(summary) ==> {
            &&& summary.count == values.len()
            &&& values.contains(summary.min)
            &&& values.contains(summary.max)
            &&& forall|i: int|
                0 <= i < values.len() ==> (#[trigger] values[i]).at_least(summary.min)
                    && summary.max.at_least(values[i])
            &&& summary.mad.at_least(Double { bits: 0 })
        },
        forall|permuted: Seq<Double>|
            permuted.to_multiset() == values.to_multiset() ==> #[trigger] summary_of(permuted, a)
                == summary_of(values, a),
{
    broadcast use vstd::seq_lib::group_to_multiset_ensures;

    law_values_have_a_summary(values, a);
    if values.len() > 0 {
        let summary = summary_of(values, a)->0;
        let sorted = sorted_values(values);
        let limit = BOUND_BITS as int;
        law_sorted_values(values);
        assert forall|i: int| 0 <= i < sorted.len() implies values.contains(
            #[trigger] sorted[i],
        ) by {
            assert(sorted.contains(sorted[i]));
            assert(values.to_multiset().contains(sorted[i]));
        }
        assert forall|i: int| 0 <= i < sorted.len() implies (#[trigger] sorted[i]).within(
            limit,
        ) by {
            assert(values.contains(sorted[i]));
        }
        assert(values.contains(sorted[0]) && values.contains(sorted[sorted.len() - 1]));
        lemma_percentile_within(sorted, Double { bits: MEDIAN_BITS }, limit, a);
        let wide = limit + 2 * FRACTION_COUNT;
        assert(summary.median.within(wide));
        assert forall|i: int| 0 <= i < values.len() implies (#[trigger] distances(
            values,
            summary.median,
            a,
        )[i]).finite() by {
            assert(values[i].within(limit));
            assert(values[i].within(wide));
            assert(a(Operation::Minus(values[i], summary.median)).within(wide + FRACTION_COUNT));
        }
        law_deviation_is_not_negative(values, a);
        assert forall|i: int| 0 <= i < values.len() implies (#[trigger] values[i]).at_least(
            summary.min,
        ) && summary.max.at_least(values[i]) by {
            law_summary_bounds_values(values, a, i);
            assert(values[i].within(limit));
        }
        law_summary_bounds_values(values, a, 0);
    }
    assert forall|permuted: Seq<Double>|
        permuted.to_multiset() == values.to_multiset() implies #[trigger] summary_of(permuted, a)
        == summary_of(values, a) by {
        law_summary_ignores_order(permuted, values, a);
    }
}

/// Law: the summary is the same for every order of the values.
pub proof fn law_summary_ignores_order(x: Seq<Double>, y: Seq<Double>, a: Arithmetic)
    requires
        x.to_multiset() == y.to_multiset(),
    ensures
        summary_of(x, a) == summary_of(y, a),
{
    law_sorting_ignores_order(x, y);
}

/// A value after its transform.
pub open spec fn transformed(transform: Transform, value: Double, a: Arithmetic) -> Double {
    match transform {
        Transform::Identity => value,
        Transform::Log1p => a(Operation::LogOnePlus(value)),
    }
}

impl Transform {
    /// Transforms a value.
    pub fn apply<E: Fn(Operation) -> Double>(self, value: Double, evaluate: &E) -> (result: Double)
        requires
            is_total(*evaluate),
        ensures
            forall|a: Arithmetic| #[trigger]
                follows(*evaluate, a) ==> result == transformed(self, value, a),
    {
        match self {
            Transform::Identity => value,
            Transform::Log1p => carry_out(evaluate, Operation::LogOnePlus(value)),
        }
    }
}

/// Values after their transform.
pub open spec fn all_transformed(
    transform: Transform,
    values: Seq<Double>,
    a: Arithmetic,
) -> Seq<Double> {
    values.map_values(|value: Double| transformed(transform, value, a))
}

/// Transforms values.
fn apply_all<E: Fn(Operation) -> Double>(
    transform: Transform,
    values: &Vec<Double>,
    evaluate: &E,
) -> (result: Vec<Double>)
    requires
        is_total(*evaluate),
    ensures
        forall|a: Arithmetic| #[trigger]
            follows(*evaluate, a) ==> result@ == all_transformed(transform, values@, a),
{
    let mut result: Vec<Double> = Vec::new();
    let mut i: usize = 0;
    while i < values.len()
        invariant
            is_total(*evaluate),
            i <= values@.len(),
            result@.len() == i,
            forall|a: Arithmetic, k: int|
                #![trigger follows(*evaluate, a), result@[k]]
                follows(*evaluate, a) && 0 <= k < i ==> result@[k] == transformed(
                    transform,
                    values@[k],
                    a,
                ),
        decreases values@.len() - i,
    {
        result.push(transform.apply(values[i], evaluate));
        i += 1;
    }
    assert forall|a: Arithmetic| #[trigger] follows(*evaluate, a) implies result@
        == all_transformed(transform, values@, a) by {
        assert(result@ =~= all_transformed(transform, values@, a));
    }
    result
}

/// How a feature is distributed over the connections.
#[derive(Clone, Copy, Debug, PartialEq, Eq, Structural)]
pub struct Distribution {
    /// The feature.
    pub feature: Feature,
    /// A summary of its values, if there are any.
    pub raw: Option<Summary>,
    /// A summary of its transformed values, if there are any.
    pub model: Option<Summary>,
    /// The scale of the transformed values, if there are any.
    pub model_scale: Option<Double>,
}

/// How a feature is distributed over some connections: over its finite values, and
/// over those of them that are finite once transformed.
pub open spec fn distribution_of(
    feature: Feature,
    connections: Seq<MetricsView>,
    a: Arithmetic,
) -> Distribution {
    let raw_values = finite_part(measured_values(feature, connections, a));
    let model_values = finite_part(all_transformed(feature.treatment(), raw_values, a));
    let model = summary_of(model_values, a);
    Distribution {
        feature,
        raw: summary_of(raw_values, a),
        model,
        model_scale: match model {
            Some(summary) => Some(
                a(Operation::Times(summary.mad, Double { bits: MAD_NORMAL_SCALE_BITS })),
            ),
            None => None,
        },
    }
}

/// How a feature is distributed over some connections.
pub fn distribution<E: Fn(Operation) -> Double>(
    feature: Feature,
    connections: &Vec<ConnectionMetrics>,
    evaluate: &E,
) -> (result: Distribution)
    requires
        is_total(*evaluate),
    ensures
        forall|a: Arithmetic| #[trigger]
            follows(*evaluate, a) ==> result == distribution_of(
                feature,
                metrics_views(connections@),
                a,
            ),
{
    let raw_values = finite_values(&feature_values(feature, connections, evaluate));
    let model_values = finite_values(&apply_all(feature.transform(), &raw_values, evaluate));
    let raw = summarize(&raw_values, evaluate);
    let model = summarize(&model_values, evaluate);
    let model_scale = match model {
        Some(summary) => Some(
            carry_out(
                evaluate,
                Operation::Times(summary.mad, Double::from_bits(MAD_NORMAL_SCALE_BITS)),
            ),
        ),
        None => None,
    };
    Distribution { feature, raw, model, model_scale }
}

/// Law: in an arithmetic that rounds to the nearest number, there is a distribution of
/// the bytes in both directions wherever there are connections, and each connection
/// has a score by it.
pub proof fn law_bytes_are_scored(
    connections: Seq<MetricsView>,
    metrics: MetricsView,
    a: Arithmetic,
)
    requires
        rounds_to_nearest(a),
        0 < connections.len() <= EXACT_INTEGERS,
    ensures
        feature_score(metrics, distribution_of(Feature::TotalBytes, connections, a), a) is Some,
{
    let values = measured_values(Feature::TotalBytes, connections, a);
    lemma_bytes_are_measured(connections, a);
    lemma_all_finite(values);
    let logs = all_transformed(Transform::Log1p, values, a);
    assert forall|i: int| 0 <= i < logs.len() implies (#[trigger] logs[i]).finite() by {
        assert(values[i] == a(Operation::Convert(connections[i].total_bytes() as u64)));
    }
    lemma_all_finite(logs);
    law_values_have_a_summary(logs, a);
}

/// Each connection gives a number of bytes, which is finite.
proof fn lemma_bytes_are_measured(connections: Seq<MetricsView>, a: Arithmetic)
    requires
        rounds_to_nearest(a),
    ensures
        ({
            let values = measured_values(Feature::TotalBytes, connections, a);
            &&& values.len() == connections.len()
            &&& forall|i: int|
                0 <= i < values.len() ==> (#[trigger] values[i]).finite() && values[i] == a(
                    Operation::Convert(connections[i].total_bytes() as u64),
                )
        }),
    decreases connections.len(),
{
    if connections.len() > 0 {
        lemma_bytes_are_measured(connections.drop_last(), a);
    }
}

/// Where all numbers are finite, none is left out.
proof fn lemma_all_finite(values: Seq<Double>)
    requires
        forall|i: int| 0 <= i < values.len() ==> (#[trigger] values[i]).finite(),
    ensures
        finite_part(values) == values,
    decreases values.len(),
{
    reveal(Seq::filter);
    if values.len() > 0 {
        assert(values.last().finite());
        lemma_all_finite(values.drop_last());
        assert(values.drop_last().push(values.last()) =~= values);
    }
}

/// Law: the distribution of a feature is the same for every order of the
/// connections.
pub proof fn law_distribution_ignores_order(
    feature: Feature,
    x: Seq<MetricsView>,
    y: Seq<MetricsView>,
    a: Arithmetic,
)
    requires
        x.to_multiset() == y.to_multiset(),
    ensures
        distribution_of(feature, x, a) == distribution_of(feature, y, a),
{
    let finite = |value: Double| value.finite();
    let transform = feature.treatment();
    let change = |value: Double| transformed(transform, value, a);
    law_measuring_ignores_order(feature, x, y, a);
    let all_x = measured_values(feature, x, a);
    let all_y = measured_values(feature, y, a);
    lemma_filtered_permuted(all_x, all_y, finite);
    let raw_x = finite_part(all_x);
    let raw_y = finite_part(all_y);
    law_summary_ignores_order(raw_x, raw_y, a);
    lemma_mapped_permuted(raw_x, raw_y, change);
    let changed_x = all_transformed(transform, raw_x, a);
    let changed_y = all_transformed(transform, raw_y, a);
    lemma_filtered_permuted(changed_x, changed_y, finite);
    law_summary_ignores_order(finite_part(changed_x), finite_part(changed_y), a);
}

/// The robust score: the distance from the center in terms of the scale. Where the
/// scale is zero, values at the center get zero, and all others an infinity on their
/// side of it.
pub open spec fn robust_score(value: Double, center: Double, scale: Double, a: Arithmetic) -> Double {
    if scale.above(Double { bits: 0 }) {
        a(Operation::Over(a(Operation::Minus(value, center)), scale))
    } else if value.nan() || center.nan() {
        Double { bits: NAN_BITS }
    } else if value.above(center) {
        Double { bits: INFINITY_BITS }
    } else if center.above(value) {
        Double { bits: (SIGN_BIT + INFINITY_BITS) as u64 }
    } else {
        Double { bits: 0 }
    }
}

/// The robust score of a value.
pub fn robust_z<E: Fn(Operation) -> Double>(
    value: Double,
    center: Double,
    scale: Double,
    evaluate: &E,
) -> (score: Double)
    requires
        is_total(*evaluate),
    ensures
        !scale.above(Double { bits: 0 }) ==> forall|a: Arithmetic|
            score == #[trigger] robust_score(value, center, scale, a),
        forall|a: Arithmetic| #[trigger]
            follows(*evaluate, a) ==> score == robust_score(value, center, scale, a),
{
    if scale.gt(Double::zero()) {
        let difference = carry_out(evaluate, Operation::Minus(value, center));
        return carry_out(evaluate, Operation::Over(difference, scale));
    }
    if value.is_nan() || center.is_nan() {
        Double::from_bits(NAN_BITS)
    } else if value.gt(center) {
        Double::infinity()
    } else if center.gt(value) {
        Double::negative_infinity()
    } else {
        Double::zero()
    }
}

/// Law: where the scale is zero, a value equal to the center gets zero, and any other
/// value an infinity on its side of the center.
pub proof fn law_zero_scale(value: Double, center: Double, a: Arithmetic)
    requires
        value.finite(),
        center.finite(),
    ensures
        ({
            let score = robust_score(value, center, Double { bits: 0 }, a);
            &&& value.level() == center.level() ==> score.bits == 0
            &&& value.above(center) ==> score.bits == INFINITY_BITS
            &&& center.above(value) ==> score.bits == SIGN_BIT + INFINITY_BITS
        }),
{
}

/// The score of a connection by the feature of a distribution, if it has one.
pub open spec fn feature_score(
    metrics: MetricsView,
    distribution: Distribution,
    a: Arithmetic,
) -> Option<Double> {
    let feature = distribution.feature;
    match (feature.measured(metrics, a), distribution.model, distribution.model_scale) {
        (Some(value), Some(model), Some(scale)) => Some(
            robust_score(transformed(feature.treatment(), value, a), model.median, scale, a),
        ),
        _ => None,
    }
}

/// The score of a connection by the feature of a distribution, if it has one.
pub fn score<E: Fn(Operation) -> Double>(
    metrics: &ConnectionMetrics,
    distribution: &Distribution,
    evaluate: &E,
) -> (result: Option<Double>)
    requires
        is_total(*evaluate),
    ensures
        forall|a: Arithmetic| #[trigger]
            follows(*evaluate, a) ==> result == feature_score(metrics@, *distribution, a),
{
    let feature = distribution.feature;
    let value = feature.value(metrics, evaluate);
    match (value, distribution.model, distribution.model_scale) {
        (Some(value), Some(model), Some(scale)) => {
            let value = feature.transform().apply(value, evaluate);
            Some(robust_z(value, model.median, scale, evaluate))
        },
        _ => None,
    }
}

} // verus!
