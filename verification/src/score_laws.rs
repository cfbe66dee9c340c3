//! What the figures of an analysis say of its connections.

use crate::accumulator::{client_bidi, AccumulatorView};
use crate::analysis::{
    all_classified, analyzed_views, classified, feature_reaches, feature_scores, group_part,
    group_score_of, in_group, is_analysis, law_analysis_keeps_connections,
    law_strongest_is_the_farthest, represented_by, represents, strongest_index,
    valid_threshold, Analysis, AnalyzedConnection, OutlierKind,
};
use crate::arithmetic::{
    root_mean_square, rounds_to_nearest, total, Arithmetic, Operation, EXACT_INTEGERS,
};
use crate::double::{
    law_floor_is_up_to_ceil, Double, FRACTION_COUNT, HUNDRED_BITS, INFINITY_BITS, ONE_BITS,
    SIGN_BIT, THOUSAND_BITS,
};
use crate::feature::{feature_list, measured_values, Feature, FeatureGroup};
use crate::metrics::{ConnectionMetrics, MetricsView};
use crate::order::{
    arranged, is_stable_order, is_stable_sort, law_ordered_values_stay, law_stable_sort,
    lemma_arranged_multiset, Ranked,
};
use crate::stats::{
    all_transformed, distances, distribution_of, feature_score, finite_part,
    law_percentile_exists, percentile_of, robust_score, summary_of, Distribution, Summary,
    BOUND_BITS, MAD_NORMAL_SCALE_BITS, MEDIAN_BITS, NAN_BITS, P05_BITS, P25_BITS, P75_BITS,
    P95_BITS,
};
use crate::text::text_le;
use vstd::arithmetic::power2::{lemma2_to64, lemma_pow2_adds, pow2};
use vstd::prelude::*;

verus! {

/// A number without its sign.
pub open spec fn size_of_number(x: Double) -> Double {
    Double {
        bits: if x.bits >= SIGN_BIT {
            (x.bits - SIGN_BIT) as u64
        } else {
            x.bits
        },
    }
}

/// A number with the other sign.
pub open spec fn negated(x: Double) -> Double {
    Double {
        bits: if x.bits >= SIGN_BIT {
            (x.bits - SIGN_BIT) as u64
        } else {
            (x.bits + SIGN_BIT) as u64
        },
    }
}

/// Each number is followed by one that is not before it.
pub open spec fn ascends(sorted: Seq<Double>) -> bool {
    forall|i: int, j: int|
        #![trigger sorted[i], sorted[j]]
        0 <= i <= j < sorted.len() ==> sorted[i].rank() <= sorted[j].rank()
}

/// The sums of the first none, one, two and so on of some numbers.
pub open spec fn adds_up(values: Seq<Double>, sums: Seq<Double>, a: Arithmetic) -> bool {
    &&& sums.len() == values.len() + 1
    &&& sums[0].bits == SIGN_BIT
    &&& forall|i: int|
        0 <= i < values.len() ==> sums[i + 1] == a(
            Operation::Plus(sums[i], #[trigger] values[i]),
        )
}

/// The last of the sums is that of all numbers.
proof fn lemma_adds_up(values: Seq<Double>, sums: Seq<Double>, a: Arithmetic)
    requires
        adds_up(values, sums, a),
    ensures
        total(values, a) == sums.last(),
    decreases values.len(),
{
    if values.len() > 0 {
        let n = values.len() - 1;
        let shorter = values.drop_last();
        assert forall|i: int| 0 <= i < shorter.len() implies sums.drop_last()[i + 1] == a(
            Operation::Plus(sums.drop_last()[i], #[trigger] shorter[i]),
        ) by {
            assert(shorter[i] == values[i]);
        }
        lemma_adds_up(shorter, sums.drop_last(), a);
        assert(values[n] == values.last());
        assert(sums[n + 1] == a(Operation::Plus(sums[n], values[n])));
    }
}

/// The number stands at the given share of the way through sorted numbers: on the line
/// from the one below that place to the one above.
pub open spec fn is_quantile(
    sorted: Seq<Double>,
    share: Double,
    value: Double,
    a: Arithmetic,
) -> bool {
    if sorted.len() == 1 {
        value == sorted[0]
    } else {
        let place = a(
            Operation::Times(share, a(Operation::Convert((sorted.len() - 1) as u64))),
        );
        let low = sorted[place.floor()];
        let high = sorted[place.ceil()];
        let beyond = a(Operation::Minus(place, a(Operation::Convert(place.floor() as u64))));
        let climb = a(Operation::Times(a(Operation::Minus(high, low)), beyond));
        place.ceil() < sorted.len() && value == a(Operation::Plus(low, climb))
    }
}

/// Law: a percentile of sorted numbers stands at its share of the way through them.
pub proof fn law_percentiles_interpolate(sorted: Seq<Double>, share: Double, a: Arithmetic)
    requires
        percentile_of(sorted, share, a) is Some,
    ensures
        sorted.len() > 0,
        !share.nan(),
        0 <= share.level() <= ONE_BITS,
        is_quantile(sorted, share, percentile_of(sorted, share, a)->0, a),
{
}

/// To add what is not negative never makes a number smaller, as in IEEE 754.
pub open spec fn adds_in_order(a: Arithmetic) -> bool {
    forall|x: Double, y: Double|
        x.finite() && !y.nan() && y.level() >= 0 ==> (#[trigger] a(Operation::Plus(x, y))).at_least(
            x,
        )
}

/// Law: in an arithmetic that rounds to the nearest number, a percentile of sorted numbers of
/// up to 1e300 in size is not below the number that stands right before its place, nor below
/// any before that.
pub proof fn law_percentiles_reach_their_place(
    sorted: Seq<Double>,
    share: Double,
    a: Arithmetic,
    i: int,
)
    requires
        rounds_to_nearest(a),
        adds_in_order(a),
        1 < sorted.len() <= EXACT_INTEGERS,
        sorted.len() <= usize::MAX,
        ascends(sorted),
        forall|k: int| 0 <= k < sorted.len() ==> (#[trigger] sorted[k]).within(BOUND_BITS as int),
        !share.nan(),
        0 <= share.level() <= ONE_BITS,
        0 <= i <= a(
            Operation::Times(share, a(Operation::Convert((sorted.len() - 1) as u64))),
        ).floor(),
    ensures
        i < sorted.len(),
        percentile_of(sorted, share, a) matches Some(value) && value.at_least(sorted[i]),
{
    law_percentile_exists(sorted, share, a);
    let place = a(Operation::Times(share, a(Operation::Convert((sorted.len() - 1) as u64))));
    law_floor_is_up_to_ceil(place);
    let limit = BOUND_BITS as int;
    let low = sorted[place.floor()];
    let high = sorted[place.ceil()];
    assert(sorted[i].rank() <= low.rank());
    assert(low.rank() <= high.rank());
    assert(low.within(limit) && high.within(limit) && sorted[i].within(limit));
    assert(place.finite() && place.level() >= 0);
    let whole = a(Operation::Convert(place.floor() as u64));
    assert(whole.level() <= place.level());
    let beyond = a(Operation::Minus(place, whole));
    assert(beyond.finite() && beyond.level() >= 0);
    let range = a(Operation::Minus(high, low));
    assert(range.within(limit + FRACTION_COUNT) && range.level() >= 0);
    let climb = a(Operation::Times(range, beyond));
    assert(!climb.nan() && climb.level() >= 0);
}

/// Law: the figures of a summary are what their names say. The values in order, their
/// sums and their distances from the median in order are given.
pub proof fn law_summary_figures(
    values: Seq<Double>,
    sorted: Seq<Double>,
    sums: Seq<Double>,
    deviations: Seq<Double>,
    summary: Summary,
    a: Arithmetic,
)
    requires
        summary_of(values, a) == Some(summary),
        values.len() <= usize::MAX,
        sorted.to_multiset() == values.to_multiset(),
        ascends(sorted),
        adds_up(sorted, sums, a),
        deviations.to_multiset() == Seq::new(
            sorted.len(),
            |i: int| size_of_number(a(Operation::Minus(sorted[i], summary.median))),
        ).to_multiset(),
        ascends(deviations),
    ensures
        values.len() > 0,
        summary.count == values.len(),
        summary.min == sorted[0],
        is_quantile(sorted, Double { bits: P05_BITS }, summary.p05, a),
        is_quantile(sorted, Double { bits: P25_BITS }, summary.p25, a),
        is_quantile(sorted, Double { bits: MEDIAN_BITS }, summary.median, a),
        is_quantile(sorted, Double { bits: P75_BITS }, summary.p75, a),
        is_quantile(sorted, Double { bits: P95_BITS }, summary.p95, a),
        summary.mean == a(
            Operation::Over(sums.last(), a(Operation::Convert(values.len() as u64))),
        ),
        summary.max == sorted.last(),
        is_quantile(deviations, Double { bits: MEDIAN_BITS }, summary.mad, a),
{
    vstd::seq_lib::to_multiset_len(sorted);
    vstd::seq_lib::to_multiset_len(values);
    law_ordered_values_stay(sorted, values);
    lemma_adds_up(sorted, sums, a);
    let spread = Seq::new(
        sorted.len(),
        |i: int| size_of_number(a(Operation::Minus(sorted[i], summary.median))),
    );
    assert(distances(sorted, summary.median, a) =~= spread);
    law_ordered_values_stay(deviations, spread);
}

/// The bit pattern is that of the number nearest to a fraction.
pub open spec fn is_nearest(bits: u64, numerator: int, denominator: int) -> bool {
    let number = Double { bits };
    let off = denominator * number.significand() - numerator * pow2(
        (1075 - number.exponent()) as nat,
    );
    !number.negative() && number.exponent() <= 1075 && -denominator <= 2 * off <= denominator
}

/// Law: the shares of the percentiles and the factors of rates and deviations are what
/// their names say, each rounded to the nearest number.
pub proof fn law_constants_are_named()
    ensures
        is_nearest(P05_BITS, 5, 100),
        is_nearest(P25_BITS, 25, 100),
        is_nearest(MEDIAN_BITS, 50, 100),
        is_nearest(P75_BITS, 75, 100),
        is_nearest(P95_BITS, 95, 100),
        is_nearest(MAD_NORMAL_SCALE_BITS, 14826, 10000),
        is_nearest(ONE_BITS, 1, 1),
        is_nearest(HUNDRED_BITS, 100, 1),
        is_nearest(THOUSAND_BITS, 1000, 1),
{
    lemma2_to64();
    lemma_pow2_adds(32, 11);
    lemma_pow2_adds(32, 14);
    lemma_pow2_adds(32, 20);
    lemma_pow2_adds(32, 21);
    lemma_pow2_adds(32, 22);
    lemma_pow2_adds(32, 25);
}

/// The list of all indices below `n` that are wanted, in their order.
pub open spec fn is_listing(listed: Seq<int>, n: int, wanted: spec_fn(int) -> bool) -> bool {
    &&& forall|j: int|
        0 <= j < listed.len() ==> 0 <= #[trigger] listed[j] < n && wanted(listed[j])
    &&& forall|j: int, l: int|
        #![trigger listed[j], listed[l]]
        0 <= j < l < listed.len() ==> listed[j] < listed[l]
    &&& forall|i: int| 0 <= i < n && #[trigger] wanted(i) ==> listed.contains(i)
}

/// Without the last index, the list lacks just that index.
proof fn lemma_listing_step(listed: Seq<int>, n: int, wanted: spec_fn(int) -> bool)
    requires
        is_listing(listed, n, wanted),
        n > 0,
    ensures
        wanted(n - 1) ==> listed.len() > 0 && listed.last() == n - 1 && is_listing(
            listed.drop_last(),
            n - 1,
            wanted,
        ),
        !wanted(n - 1) ==> is_listing(listed, n - 1, wanted),
{
    if wanted(n - 1) {
        assert(listed.contains(n - 1));
        let j = choose|j: int| 0 <= j < listed.len() && listed[j] == n - 1;
        let last = listed.len() - 1;
        if j < last {
            assert(listed[j] < listed[last]);
        }
        let shorter = listed.drop_last();
        assert forall|i: int| 0 <= i < n - 1 && #[trigger] wanted(i) implies shorter.contains(
            i,
        ) by {
            let k = choose|k: int| 0 <= k < listed.len() && listed[k] == i;
            assert(shorter[k] == i);
        }
        assert forall|k: int| 0 <= k < shorter.len() implies 0 <= #[trigger] shorter[k] < n - 1
            && wanted(shorter[k]) by {
            assert(listed[k] < listed[last]);
        }
    } else {
        assert forall|k: int| 0 <= k < listed.len() implies 0 <= #[trigger] listed[k] < n - 1
            && wanted(listed[k]) by {}
    }
}

/// A sum of two counters that stops at the largest number of 64 bits.
pub open spec fn capped(x: nat, y: nat) -> u64 {
    if x + y > u64::MAX {
        u64::MAX
    } else {
        (x + y) as u64
    }
}

/// How many there are for each so many packets that were sent.
pub open spec fn per_sent(count: nat, each: Double, m: MetricsView, a: Arithmetic) -> Option<
    Double,
> {
    if m.packets_sent > 0 {
        let scaled = a(Operation::Times(a(Operation::Convert(count as u64)), each));
        Some(a(Operation::Over(scaled, a(Operation::Convert(m.packets_sent as u64)))))
    } else {
        None
    }
}

/// The lost packets: the larger of the losses that were seen and the last count.
pub open spec fn lost_count(m: MetricsView) -> nat {
    match m.cf_lost_packets {
        Some(count) if count as nat > m.packet_lost_events => count as nat,
        _ => m.packet_lost_events,
    }
}

/// The probe timeouts: those that were seen, or else those that were inferred.
pub open spec fn timeout_count(m: MetricsView) -> nat {
    if m.pto_timer_expirations == 0 {
        m.pto_inferred_count
    } else {
        m.pto_timer_expirations
    }
}

/// How long a connection lasted.
pub open spec fn time_span(m: MetricsView, a: Arithmetic) -> Option<Double> {
    match (m.start_time_ms, m.end_time_ms) {
        (Some(start), Some(end)) => {
            let span = a(Operation::Minus(end, start));
            if span.nan() || span.level() < 0 {
                Some(Double { bits: 0 })
            } else {
                Some(span)
            }
        },
        _ => None,
    }
}

/// What a feature is for a connection.
pub open spec fn reading(feature: Feature, m: MetricsView, a: Arithmetic) -> Option<Double> {
    match feature {
        Feature::Duration => time_span(m, a),
        Feature::TotalBytes => Some(
            a(Operation::Convert(capped(m.bytes_sent, m.bytes_received))),
        ),
        Feature::TotalPackets => Some(
            a(Operation::Convert(capped(m.packets_sent, m.packets_received))),
        ),
        Feature::ClientBidiStreams => Some(a(Operation::Convert(m.client_bidi_streams as u64))),
        Feature::SmoothedRttMedian => m.smoothed_rtt_median_ms,
        Feature::LossRate => per_sent(lost_count(m), Double { bits: HUNDRED_BITS }, m, a),
        Feature::PtoRate => per_sent(timeout_count(m), Double { bits: THOUSAND_BITS }, m, a),
        Feature::BlockedEvents => Some(a(Operation::Convert(m.blocked_events as u64))),
        Feature::MigrationsCompleted => Some(
            a(Operation::Convert(m.migrations_completed as u64)),
        ),
    }
}

/// A reading as it is compared: round trip times and loss rates as they are, all others
/// by the logarithm of one more.
pub open spec fn shaped(feature: Feature, value: Double, a: Arithmetic) -> Double {
    match feature {
        Feature::SmoothedRttMedian => value,
        Feature::LossRate => value,
        _ => a(Operation::LogOnePlus(value)),
    }
}

/// The feature with the given index, of which the first four tell about the workload and
/// the others about the network.
pub open spec fn nth_feature(k: int) -> Feature {
    if k == 0 {
        Feature::Duration
    } else if k == 1 {
        Feature::TotalBytes
    } else if k == 2 {
        Feature::TotalPackets
    } else if k == 3 {
        Feature::ClientBidiStreams
    } else if k == 4 {
        Feature::SmoothedRttMedian
    } else if k == 5 {
        Feature::LossRate
    } else if k == 6 {
        Feature::PtoRate
    } else if k == 7 {
        Feature::BlockedEvents
    } else {
        Feature::MigrationsCompleted
    }
}

/// The feature with the given index is one of the group.
pub open spec fn belongs(k: int, group: Option<FeatureGroup>) -> bool {
    match group {
        None => true,
        Some(FeatureGroup::Workload) => k < 4,
        Some(FeatureGroup::Network) => k >= 4,
    }
}

/// Law: the derived figures of a connection follow from what was counted, and each
/// feature reads the figure that it is named after.
pub proof fn law_features_read_the_metrics(feature: Feature, m: MetricsView, a: Arithmetic)
    ensures
        feature.measured(m, a) == reading(feature, m, a),
        m.duration(a) == reading(Feature::Duration, m, a),
        m.total_bytes() == capped(m.bytes_sent, m.bytes_received),
        m.total_packets() == capped(m.packets_sent, m.packets_received),
        m.loss_rate(a) == reading(Feature::LossRate, m, a),
        m.pto_rate(a) == reading(Feature::PtoRate, m, a),
        m.packets_lost() == lost_count(m),
        m.pto_count() == timeout_count(m),
{
}

/// The finite readings are those of the listed connections.
proof fn lemma_finite_readings(
    feature: Feature,
    connections: Seq<MetricsView>,
    listed: Seq<int>,
    a: Arithmetic,
)
    requires
        is_listing(
            listed,
            connections.len() as int,
            |i: int| reading(feature, connections[i], a) matches Some(value) && value.finite(),
        ),
    ensures
        finite_part(measured_values(feature, connections, a)) == Seq::new(
            listed.len(),
            |j: int| reading(feature, connections[listed[j]], a)->0,
        ),
    decreases connections.len(),
{
    reveal(Seq::filter);
    let wanted = |i: int|
        reading(feature, connections[i], a) matches Some(value) && value.finite();
    let expected = Seq::new(
        listed.len(),
        |j: int| reading(feature, connections[listed[j]], a)->0,
    );
    if connections.len() > 0 {
        let shorter = connections.drop_last();
        let n = connections.len() - 1;
        let narrower = |i: int|
            reading(feature, shorter[i], a) matches Some(value) && value.finite();
        assert forall|i: int| 0 <= i < n implies #[trigger] wanted(i) == narrower(i) by {}
        assert forall|i: int| 0 <= i < n implies wanted(i) == #[trigger] narrower(i) by {}
        lemma_listing_step(listed, n + 1, wanted);
        law_features_read_the_metrics(feature, connections.last(), a);
        let before = measured_values(feature, shorter, a);
        if wanted(n) {
            let rest = listed.drop_last();
            lemma_finite_readings(feature, shorter, rest, a);
            assert(expected.drop_last() =~= Seq::new(
                rest.len(),
                |j: int| reading(feature, shorter[rest[j]], a)->0,
            ));
            assert(before.push(expected.last()).drop_last() =~= before);
            assert(expected =~= expected.drop_last().push(expected.last()));
        } else {
            lemma_finite_readings(feature, shorter, listed, a);
            assert(expected =~= Seq::new(
                listed.len(),
                |j: int| reading(feature, shorter[listed[j]], a)->0,
            ));
            if let Some(value) = reading(feature, connections.last(), a) {
                assert(before.push(value).drop_last() =~= before);
            }
        }
    } else {
        assert(listed.len() == 0) by {
            if listed.len() > 0 {
                assert(0 <= listed[0] < connections.len());
            }
        }
        assert(finite_part(measured_values(feature, connections, a)) =~= expected);
    }
}

/// Law: the values of a feature are its readings of the connections that have one, in their
/// order. The indices of the connections are given.
pub proof fn law_feature_values_are_listed(
    feature: Feature,
    connections: Seq<MetricsView>,
    listed: Seq<int>,
    a: Arithmetic,
)
    requires
        is_listing(
            listed,
            connections.len() as int,
            |i: int| reading(feature, connections[i], a) is Some,
        ),
    ensures
        measured_values(feature, connections, a) == Seq::new(
            listed.len(),
            |j: int| reading(feature, connections[listed[j]], a)->0,
        ),
    decreases connections.len(),
{
    let wanted = |i: int| reading(feature, connections[i], a) is Some;
    let expected = Seq::new(
        listed.len(),
        |j: int| reading(feature, connections[listed[j]], a)->0,
    );
    if connections.len() > 0 {
        let shorter = connections.drop_last();
        let n = connections.len() - 1;
        let narrower = |i: int| reading(feature, shorter[i], a) is Some;
        assert forall|i: int| 0 <= i < n implies #[trigger] wanted(i) == narrower(i) by {}
        assert forall|i: int| 0 <= i < n implies wanted(i) == #[trigger] narrower(i) by {}
        lemma_listing_step(listed, n + 1, wanted);
        law_features_read_the_metrics(feature, connections.last(), a);
        if wanted(n) {
            let rest = listed.drop_last();
            law_feature_values_are_listed(feature, shorter, rest, a);
            assert(expected.drop_last() =~= Seq::new(
                rest.len(),
                |j: int| reading(feature, shorter[rest[j]], a)->0,
            ));
            assert(expected =~= expected.drop_last().push(expected.last()));
        } else {
            law_feature_values_are_listed(feature, shorter, listed, a);
            assert(expected =~= Seq::new(
                listed.len(),
                |j: int| reading(feature, shorter[listed[j]], a)->0,
            ));
        }
    } else {
        assert(listed.len() == 0) by {
            if listed.len() > 0 {
                assert(0 <= listed[0] < connections.len());
            }
        }
        assert(measured_values(feature, connections, a) =~= expected);
    }
}

/// The finite values after their transform are those of the listed values.
proof fn lemma_finite_shapes(
    feature: Feature,
    values: Seq<Double>,
    listed: Seq<int>,
    a: Arithmetic,
)
    requires
        is_listing(
            listed,
            values.len() as int,
            |i: int| shaped(feature, values[i], a).finite(),
        ),
    ensures
        finite_part(all_transformed(feature.treatment(), values, a)) == Seq::new(
            listed.len(),
            |j: int| shaped(feature, values[listed[j]], a),
        ),
    decreases values.len(),
{
    reveal(Seq::filter);
    let wanted = |i: int| shaped(feature, values[i], a).finite();
    let expected = Seq::new(listed.len(), |j: int| shaped(feature, values[listed[j]], a));
    let all = all_transformed(feature.treatment(), values, a);
    if values.len() > 0 {
        let shorter = values.drop_last();
        let n = values.len() - 1;
        let narrower = |i: int| shaped(feature, shorter[i], a).finite();
        assert forall|i: int| 0 <= i < n implies #[trigger] wanted(i) == narrower(i) by {}
        assert forall|i: int| 0 <= i < n implies wanted(i) == #[trigger] narrower(i) by {}
        lemma_listing_step(listed, n + 1, wanted);
        assert(all.drop_last() =~= all_transformed(feature.treatment(), shorter, a));
        assert(all.last() == shaped(feature, values[n], a));
        if wanted(n) {
            let rest = listed.drop_last();
            lemma_finite_shapes(feature, shorter, rest, a);
            assert(expected.drop_last() =~= Seq::new(
                rest.len(),
                |j: int| shaped(feature, shorter[rest[j]], a),
            ));
            assert(expected =~= expected.drop_last().push(expected.last()));
        } else {
            lemma_finite_shapes(feature, shorter, listed, a);
            assert(expected =~= Seq::new(
                listed.len(),
                |j: int| shaped(feature, shorter[listed[j]], a),
            ));
        }
    } else {
        assert(listed.len() == 0) by {
            if listed.len() > 0 {
                assert(0 <= listed[0] < values.len());
            }
        }
        assert(finite_part(all) =~= expected);
    }
}

/// Law: the distribution of a feature summarizes its finite readings, and those of them
/// that are finite as they are compared; its scale is the deviation of the latter, scaled.
/// The indices of the connections and of the readings are given.
pub proof fn law_distribution_figures(
    feature: Feature,
    connections: Seq<MetricsView>,
    measurable: Seq<int>,
    comparable: Seq<int>,
    a: Arithmetic,
)
    requires
        is_listing(
            measurable,
            connections.len() as int,
            |i: int| reading(feature, connections[i], a) matches Some(value) && value.finite(),
        ),
        is_listing(
            comparable,
            measurable.len() as int,
            |j: int|
                shaped(feature, reading(feature, connections[measurable[j]], a)->0, a).finite(),
        ),
    ensures
        ({
            let distribution = distribution_of(feature, connections, a);
            let raw = Seq::new(
                measurable.len(),
                |j: int| reading(feature, connections[measurable[j]], a)->0,
            );
            let model = Seq::new(comparable.len(), |j: int| shaped(feature, raw[comparable[j]], a));
            &&& distribution.feature == feature
            &&& distribution.raw == summary_of(raw, a)
            &&& distribution.model == summary_of(model, a)
            &&& distribution.model_scale == (match summary_of(model, a) {
                Some(summary) => Some(
                    a(Operation::Times(summary.mad, Double { bits: MAD_NORMAL_SCALE_BITS })),
                ),
                None => None,
            })
        }),
{
    let raw = Seq::new(
        measurable.len(),
        |j: int| reading(feature, connections[measurable[j]], a)->0,
    );
    let given = |j: int|
        shaped(feature, reading(feature, connections[measurable[j]], a)->0, a).finite();
    let wanted = |i: int| shaped(feature, raw[i], a).finite();
    assert forall|i: int| 0 <= i < raw.len() implies #[trigger] given(i) == wanted(i) by {}
    assert forall|i: int| 0 <= i < raw.len() implies given(i) == #[trigger] wanted(i) by {}
    lemma_finite_readings(feature, connections, measurable, a);
    lemma_finite_shapes(feature, raw, comparable, a);
}

/// Law: the scores by the features of a group are those that there are, in their order. The
/// indices of the features are given.
pub proof fn law_group_values_are_listed(
    z_scores: Seq<Option<Double>>,
    group: Option<FeatureGroup>,
    listed: Seq<int>,
)
    requires
        group is Some ==> z_scores.len() <= 9,
        is_listing(
            listed,
            z_scores.len() as int,
            |k: int| z_scores[k] is Some && belongs(k, group),
        ),
    ensures
        group_part(z_scores, group) == Seq::new(listed.len(), |j: int| z_scores[listed[j]]->0),
    decreases z_scores.len(),
{
    let wanted = |k: int| z_scores[k] is Some && belongs(k, group);
    let expected = Seq::new(listed.len(), |j: int| z_scores[listed[j]]->0);
    if z_scores.len() > 0 {
        let shorter = z_scores.drop_last();
        let n = z_scores.len() - 1;
        let narrower = |k: int| shorter[k] is Some && belongs(k, group);
        assert forall|i: int| 0 <= i < n implies #[trigger] wanted(i) == narrower(i) by {}
        assert forall|i: int| 0 <= i < n implies wanted(i) == #[trigger] narrower(i) by {}
        assert(in_group(n, group) == belongs(n, group));
        lemma_listing_step(listed, n + 1, wanted);
        if wanted(n) {
            let rest = listed.drop_last();
            law_group_values_are_listed(shorter, group, rest);
            assert(expected.drop_last() =~= Seq::new(rest.len(), |j: int| shorter[rest[j]]->0));
            assert(expected =~= expected.drop_last().push(expected.last()));
        } else {
            law_group_values_are_listed(shorter, group, listed);
            assert(expected =~= Seq::new(listed.len(), |j: int| shorter[listed[j]]->0));
        }
    } else {
        assert(listed.len() == 0) by {
            if listed.len() > 0 {
                assert(0 <= listed[0] < z_scores.len());
            }
        }
        assert(group_part(z_scores, group) =~= expected);
    }
}

/// The score by the listed features: none without any, infinity where one of their scores
/// is infinite, and else the root of the mean of the squares, of which the sums are given.
pub open spec fn is_typical_size(
    score: Option<Double>,
    z_scores: Seq<Option<Double>>,
    listed: Seq<int>,
    sums: Seq<Double>,
    a: Arithmetic,
) -> bool {
    if listed.len() == 0 {
        score is None
    } else if exists|j: int|
        0 <= j < listed.len() && size_of_number(
            z_scores[#[trigger] listed[j]]->0,
        ).bits == INFINITY_BITS {
        score == Some(Double { bits: INFINITY_BITS })
    } else {
        score == Some(
            a(
                Operation::Root(
                    a(
                        Operation::Over(
                            sums.last(),
                            a(Operation::Convert(listed.len() as u64)),
                        ),
                    ),
                ),
            ),
        )
    }
}

/// The squares of the scores of the listed features.
pub open spec fn squares(z_scores: Seq<Option<Double>>, listed: Seq<int>, a: Arithmetic) -> Seq<
    Double,
> {
    Seq::new(
        listed.len(),
        |j: int| a(Operation::Times(z_scores[listed[j]]->0, z_scores[listed[j]]->0)),
    )
}

/// Law: the score by a group of features, or by all of them, is the root of the mean of
/// the squares of the scores that there are. The features with such scores and the sums of
/// the squares are given.
pub proof fn law_group_scores_are_root_mean_squares(
    z_scores: Seq<Option<Double>>,
    group: Option<FeatureGroup>,
    listed: Seq<int>,
    sums: Seq<Double>,
    a: Arithmetic,
)
    requires
        group is Some ==> z_scores.len() <= 9,
        is_listing(
            listed,
            z_scores.len() as int,
            |k: int| z_scores[k] is Some && belongs(k, group),
        ),
        adds_up(squares(z_scores, listed, a), sums, a),
    ensures
        is_typical_size(group_score_of(z_scores, group, a), z_scores, listed, sums, a),
{
    law_group_values_are_listed(z_scores, group, listed);
    let values = group_part(z_scores, group);
    assert forall|j: int| 0 <= j < listed.len() implies values[j] == z_scores[
        #[trigger] listed[j]
    ]->0 by {}
    if exists|j: int| 0 <= j < values.len() && (#[trigger] values[j]).infinite() {
        let j = choose|j: int| 0 <= j < values.len() && (#[trigger] values[j]).infinite();
        assert(size_of_number(z_scores[listed[j]]->0).bits == INFINITY_BITS);
    }
    if exists|j: int|
        0 <= j < listed.len() && size_of_number(
            z_scores[#[trigger] listed[j]]->0,
        ).bits == INFINITY_BITS {
        let j = choose|j: int|
            0 <= j < listed.len() && size_of_number(
                z_scores[#[trigger] listed[j]]->0,
            ).bits == INFINITY_BITS;
        assert(values[j].infinite());
    }
    lemma_adds_up(squares(z_scores, listed, a), sums, a);
    assert(values.map_values(|value: Double| a(Operation::Times(value, value))) =~= squares(
        z_scores,
        listed,
        a,
    ));
}

/// The signs of operands make no difference but to the sign of the result, as in IEEE 754.
pub open spec fn respects_signs(a: Arithmetic) -> bool {
    &&& forall|x: Double|
        !x.nan() ==> #[trigger] a(Operation::Times(negated(x), negated(x))) == a(
            Operation::Times(x, x),
        )
    &&& forall|x: Double, y: Double|
        x.finite() && y.finite() && y.level() > 0 ==> #[trigger] a(Operation::Over(negated(x), y))
            == negated(a(Operation::Over(x, y)))
}

/// To divide takes a product back, as in IEEE 754: what is more than the product of two
/// numbers is, over one of them, at least the other.
pub open spec fn divides_in_order(a: Arithmetic) -> bool {
    forall|x: Double, y: Double, scale: Double|
        #![trigger a(Operation::Over(x, scale)), a(Operation::Times(y, scale))]
        x.finite() && y.finite() && scale.finite() && y.level() > 0 && scale.level() > 0
            && size_of_number(x).above(a(Operation::Times(y, scale))) ==> size_of_number(
            a(Operation::Over(x, scale)),
        ).at_least(y)
}

/// Where one score has the other sign, the same features have scores, of the same sizes.
proof fn lemma_flipped_part(
    z_scores: Seq<Option<Double>>,
    group: Option<FeatureGroup>,
    i: int,
)
    requires
        0 <= i < z_scores.len(),
        z_scores[i] is Some,
    ensures
        ({
            let flipped = z_scores.update(i, Some(negated(z_scores[i]->0)));
            let x = group_part(z_scores, group);
            let y = group_part(flipped, group);
            &&& x.len() == y.len()
            &&& forall|j: int|
                #![trigger x[j]]
                #![trigger y[j]]
                0 <= j < x.len() ==> x[j] == y[j] || (x[j] == z_scores[i]->0 && y[j] == negated(
                    x[j],
                ))
        }),
    decreases z_scores.len(),
{
    let flipped = z_scores.update(i, Some(negated(z_scores[i]->0)));
    let shorter = z_scores.drop_last();
    if i < shorter.len() {
        lemma_flipped_part(shorter, group, i);
        assert(flipped.drop_last() =~= shorter.update(i, Some(negated(shorter[i]->0))));
    } else {
        assert(flipped.drop_last() =~= shorter);
    }
}

/// Law: the score by a group of features does not depend on the sides of the center on
/// which its features lie: deviations of opposite signs do not cancel.
pub proof fn law_group_scores_ignore_signs(
    z_scores: Seq<Option<Double>>,
    group: Option<FeatureGroup>,
    i: int,
    a: Arithmetic,
)
    requires
        respects_signs(a),
        0 <= i < z_scores.len(),
        z_scores[i] matches Some(score) && !score.nan(),
    ensures
        group_score_of(z_scores.update(i, Some(negated(z_scores[i]->0))), group, a)
            == group_score_of(z_scores, group, a),
{
    let flipped = z_scores.update(i, Some(negated(z_scores[i]->0)));
    lemma_flipped_part(z_scores, group, i);
    let x = group_part(z_scores, group);
    let y = group_part(flipped, group);
    let square = |value: Double| a(Operation::Times(value, value));
    assert forall|j: int| 0 <= j < x.len() implies x.map_values(square)[j]
        == #[trigger] y.map_values(square)[j] by {
        assert(x[j] == y[j] || y[j] == negated(x[j]));
    }
    assert(x.map_values(square) =~= y.map_values(square));
    if exists|j: int| 0 <= j < x.len() && (#[trigger] x[j]).infinite() {
        let j = choose|j: int| 0 <= j < x.len() && (#[trigger] x[j]).infinite();
        assert(y[j].infinite());
    }
    if exists|j: int| 0 <= j < y.len() && (#[trigger] y[j]).infinite() {
        let j = choose|j: int| 0 <= j < y.len() && (#[trigger] y[j]).infinite();
        assert(x[j].infinite());
    }
    assert(root_mean_square(x, a) == root_mean_square(y, a));
}

/// Law: where all scores that there are belong to one group, the score by that group is
/// the score by all features.
pub proof fn law_one_group_is_all(
    z_scores: Seq<Option<Double>>,
    group: FeatureGroup,
    a: Arithmetic,
)
    requires
        z_scores.len() <= 9,
        forall|k: int|
            0 <= k < z_scores.len() && (#[trigger] z_scores[k]) is Some ==> belongs(
                k,
                Some(group),
            ),
    ensures
        group_score_of(z_scores, None, a) == group_score_of(z_scores, Some(group), a),
{
    lemma_one_group(z_scores, group);
}

/// Where all scores belong to one group, its part is all of them.
proof fn lemma_one_group(z_scores: Seq<Option<Double>>, group: FeatureGroup)
    requires
        z_scores.len() <= 9,
        forall|k: int|
            0 <= k < z_scores.len() && (#[trigger] z_scores[k]) is Some ==> belongs(
                k,
                Some(group),
            ),
    ensures
        group_part(z_scores, None) == group_part(z_scores, Some(group)),
    decreases z_scores.len(),
{
    if z_scores.len() > 0 {
        let shorter = z_scores.drop_last();
        let n = z_scores.len() - 1;
        assert forall|k: int| 0 <= k < shorter.len() && (#[trigger] shorter[k]) is Some implies
            belongs(k, Some(group)) by {
            assert(z_scores[k] is Some);
        }
        lemma_one_group(shorter, group);
        assert(z_scores[n] == z_scores.last());
        assert(in_group(n, Some(group)) == belongs(n, Some(group)));
    }
}

/// The features are listed.
proof fn lemma_features(k: int)
    requires
        0 <= k < 9,
    ensures
        feature_list().len() == 9,
        feature_list()[k] == nth_feature(k),
        in_group(k, Some(FeatureGroup::Workload)) == (k < 4),
        in_group(k, Some(FeatureGroup::Network)) == (k >= 4),
{
}

/// A connection of an analysis is one of the given, scored and classified.
proof fn lemma_analyzed(
    connections: Seq<MetricsView>,
    threshold: Double,
    a: Arithmetic,
    analysis: Analysis,
    i: int,
)
    requires
        is_analysis(connections, threshold, a, analysis),
        0 <= i < analysis.connections@.len(),
    ensures
        ({
            let connection = analysis.connections@[i]@;
            &&& connections.contains(connection.metrics)
            &&& connection == classified(
                connection.metrics,
                feature_scores(connection.metrics, analysis.distributions@, a),
                threshold,
                a,
            )
        }),
{
    let scored = choose|scored: Seq<AnalyzedConnection>|
        #[trigger] is_stable_sort(scored, analysis.connections@) && analyzed_views(scored)
            == all_classified(connections, threshold, a);
    let order = choose|order: Seq<usize>|
        #[trigger] is_stable_order(scored, order) && analysis.connections@ == arranged(
            scored,
            order,
        );
    let k = order[i] as int;
    assert(analysis.connections@[i] == scored[k]);
    assert(analyzed_views(scored).len() == scored.len());
    assert(analyzed_views(scored)[k] == scored[k]@);
    assert(all_classified(connections, threshold, a)[k].metrics == connections[k]);
}

/// Law: an analysis holds the distribution of each feature over all its connections.
pub proof fn law_analysis_holds_distributions(
    connections: Seq<MetricsView>,
    threshold: Double,
    a: Arithmetic,
    analysis: Analysis,
    k: int,
)
    requires
        is_analysis(connections, threshold, a, analysis),
        0 <= k < 9,
    ensures
        analysis.distributions@.len() == 9,
        analysis.distributions@[k] == distribution_of(nth_feature(k), connections, a),
        analysis.threshold == threshold,
{
    lemma_features(k);
}

/// The score of a value as it is compared: its distance from the center in terms of the
/// scale, and infinitely far or not at all where there is no scale.
pub open spec fn is_distance(
    score: Double,
    value: Double,
    center: Double,
    scale: Double,
    a: Arithmetic,
) -> bool {
    if !scale.nan() && scale.level() > 0 {
        score == a(Operation::Over(a(Operation::Minus(value, center)), scale))
    } else if value.nan() || center.nan() {
        score.bits == NAN_BITS
    } else if value.level() == center.level() {
        score.bits == 0
    } else if value.level() > center.level() {
        score.bits == INFINITY_BITS
    } else {
        score.bits == SIGN_BIT + INFINITY_BITS
    }
}

/// Law: the robust score of a value is its distance from the center in terms of the scale.
pub proof fn law_robust_scores_are_distances(
    value: Double,
    center: Double,
    scale: Double,
    a: Arithmetic,
)
    ensures
        is_distance(robust_score(value, center, scale, a), value, center, scale, a),
{
}

/// Law: a connection has a score by a feature exactly if it has a reading of it and there is
/// a distribution of it with a scale; it is the distance of that reading.
pub proof fn law_feature_scores_are_distances(
    metrics: MetricsView,
    distribution: Distribution,
    a: Arithmetic,
)
    ensures
        ({
            let value = reading(distribution.feature, metrics, a);
            let score = feature_score(metrics, distribution, a);
            &&& score is Some <==> value is Some && distribution.model is Some
                && distribution.model_scale is Some
            &&& score is Some ==> is_distance(
                score->0,
                shaped(distribution.feature, value->0, a),
                distribution.model->0.median,
                distribution.model_scale->0,
                a,
            )
        }),
{
    law_features_read_the_metrics(distribution.feature, metrics, a);
}

/// Law: each connection has a score by each feature that it has a reading of and that has
/// a distribution: the distance of the reading from the median of all connections, on
/// either side of it, in terms of the scale.
pub proof fn law_scores_are_distances(
    connections: Seq<MetricsView>,
    threshold: Double,
    a: Arithmetic,
    analysis: Analysis,
    i: int,
    k: int,
)
    requires
        is_analysis(connections, threshold, a, analysis),
        0 <= i < analysis.connections@.len(),
        0 <= k < 9,
    ensures
        ({
            let connection = analysis.connections@[i];
            let z_scores = connection.feature_z_scores@;
            let distribution = analysis.distributions@[k];
            let value = reading(nth_feature(k), connection.metrics@, a);
            &&& z_scores.len() == 9
            &&& z_scores[k] is Some <==> value is Some && distribution.model is Some
            &&& z_scores[k] is Some ==> distribution.model_scale is Some && is_distance(
                z_scores[k]->0,
                shaped(nth_feature(k), value->0, a),
                distribution.model->0.median,
                distribution.model_scale->0,
                a,
            )
        }),
{
    lemma_analyzed(connections, threshold, a, analysis, i);
    lemma_features(k);
    let metrics = analysis.connections@[i].metrics@;
    law_features_read_the_metrics(nth_feature(k), metrics, a);
    assert(analysis.connections@[i].feature_z_scores@ == feature_scores(
        metrics,
        analysis.distributions@,
        a,
    ));
}

/// Law: connections at the same distance from the median, on opposite sides of it, have
/// scores of the same size and opposite signs.
pub proof fn law_scores_are_symmetric(
    connections: Seq<MetricsView>,
    threshold: Double,
    a: Arithmetic,
    analysis: Analysis,
    i: int,
    j: int,
    k: int,
)
    requires
        respects_signs(a),
        is_analysis(connections, threshold, a, analysis),
        0 <= i < analysis.connections@.len(),
        0 <= j < analysis.connections@.len(),
        0 <= k < 9,
        ({
            let distribution = analysis.distributions@[k];
            let feature = nth_feature(k);
            let x = reading(feature, analysis.connections@[i].metrics@, a);
            let y = reading(feature, analysis.connections@[j].metrics@, a);
            &&& distribution.model is Some
            &&& distribution.model_scale->0.finite()
            &&& distribution.model_scale->0.level() > 0
            &&& x is Some
            &&& y is Some
            &&& a(
                Operation::Minus(shaped(feature, x->0, a), distribution.model->0.median),
            ).finite()
            &&& a(Operation::Minus(shaped(feature, y->0, a), distribution.model->0.median))
                == negated(
                a(Operation::Minus(shaped(feature, x->0, a), distribution.model->0.median)),
            )
        }),
    ensures
        analysis.connections@[i].feature_z_scores@[k] is Some,
        analysis.connections@[j].feature_z_scores@[k] == Some(
            negated(analysis.connections@[i].feature_z_scores@[k]->0),
        ),
{
    law_scores_are_distances(connections, threshold, a, analysis, i, k);
    law_scores_are_distances(connections, threshold, a, analysis, j, k);
}

/// The score by a feature reaches the threshold, on either side.
pub open spec fn reaches(score: Option<Double>, threshold: Double) -> bool {
    score matches Some(score) && !score.nan() && !threshold.nan() && size_of_number(score).bits
        >= threshold.level()
}

/// One of the features from one index to another has a score that reaches the threshold.
pub open spec fn one_reaches(
    z_scores: Seq<Option<Double>>,
    from: int,
    to: int,
    threshold: Double,
) -> bool {
    exists|k: int| from <= k < to && #[trigger] reaches(z_scores[k], threshold)
}

/// The score by a group reaches the threshold.
pub open spec fn group_reaches(score: Option<Double>, threshold: Double) -> bool {
    score matches Some(score) && !score.nan() && !threshold.nan() && score.level()
        >= threshold.level()
}

/// Law: a connection is an outlier by the workload, by the network or by both, exactly as
/// the scores by those groups or by one of their features reach the threshold.
pub proof fn law_outliers_reach_the_threshold(
    connections: Seq<MetricsView>,
    threshold: Double,
    a: Arithmetic,
    analysis: Analysis,
    i: int,
)
    requires
        is_analysis(connections, threshold, a, analysis),
        0 <= i < analysis.connections@.len(),
    ensures
        ({
            let connection = analysis.connections@[i];
            let z_scores = connection.feature_z_scores@;
            let workload = group_reaches(connection.workload_score, threshold) || one_reaches(
                z_scores,
                0,
                4,
                threshold,
            );
            let network = group_reaches(connection.network_score, threshold) || one_reaches(
                z_scores,
                4,
                9,
                threshold,
            );
            &&& workload && network <==> connection.outlier_kind == Some(OutlierKind::Both)
            &&& workload && !network <==> connection.outlier_kind == Some(OutlierKind::Workload)
            &&& !workload && network <==> connection.outlier_kind == Some(OutlierKind::Network)
            &&& !workload && !network <==> connection.outlier_kind is None
        }),
{
    lemma_analyzed(connections, threshold, a, analysis, i);
    lemma_features(0);
    let z = analysis.connections@[i].feature_z_scores@;
    assert(z.len() == 9);
    lemma_reaching(z, FeatureGroup::Workload, 0, 4, threshold);
    lemma_reaching(z, FeatureGroup::Network, 4, 9, threshold);
}

/// A feature of a group reaches the threshold if one of those with its indices does.
proof fn lemma_reaching(
    z_scores: Seq<Option<Double>>,
    group: FeatureGroup,
    from: int,
    to: int,
    threshold: Double,
)
    requires
        z_scores.len() == 9,
        0 <= from <= to <= 9,
        forall|k: int| 0 <= k < 9 ==> (from <= k < to <==> #[trigger] belongs(k, Some(group))),
    ensures
        feature_reaches(z_scores, group, threshold) <==> one_reaches(z_scores, from, to, threshold),
{
    if feature_reaches(z_scores, group, threshold) {
        let k = choose|k: int|
            0 <= k < z_scores.len() && in_group(k, Some(group)) && (#[trigger] z_scores[k])
                is Some && z_scores[k]->0.absolute().at_least(threshold);
        lemma_features(k);
        assert(belongs(k, Some(group)));
        assert(reaches(z_scores[k], threshold));
    }
    if one_reaches(z_scores, from, to, threshold) {
        let k = choose|k: int| from <= k < to && #[trigger] reaches(z_scores[k], threshold);
        lemma_features(k);
        assert(belongs(k, Some(group)));
        assert(z_scores[k] is Some);
    }
}

/// Law: a connection whose reading lies more than the threshold times the scale away from
/// the median, below it or above, is an outlier by the group of that feature.
pub proof fn law_far_connections_are_outliers(
    connections: Seq<MetricsView>,
    threshold: Double,
    a: Arithmetic,
    analysis: Analysis,
    i: int,
    k: int,
)
    requires
        divides_in_order(a),
        is_analysis(connections, threshold, a, analysis),
        threshold.finite(),
        threshold.level() > 0,
        0 <= i < analysis.connections@.len(),
        0 <= k < 9,
        ({
            let distribution = analysis.distributions@[k];
            let value = reading(nth_feature(k), analysis.connections@[i].metrics@, a);
            let distance = a(
                Operation::Minus(
                    shaped(nth_feature(k), value->0, a),
                    distribution.model->0.median,
                ),
            );
            &&& value is Some
            &&& distribution.model is Some
            &&& distribution.model_scale->0.finite()
            &&& distribution.model_scale->0.level() > 0
            &&& distance.finite()
            &&& size_of_number(distance).above(
                a(Operation::Times(threshold, distribution.model_scale->0)),
            )
        }),
    ensures
        analysis.connections@[i].outlier_kind == Some(OutlierKind::Both)
            || analysis.connections@[i].outlier_kind == Some(
            if k < 4 {
                OutlierKind::Workload
            } else {
                OutlierKind::Network
            },
        ),
{
    law_scores_are_distances(connections, threshold, a, analysis, i, k);
    law_outliers_reach_the_threshold(connections, threshold, a, analysis, i);
    let z_scores = analysis.connections@[i].feature_z_scores@;
    assert(reaches(z_scores[k], threshold));
    assert(k < 4 ==> one_reaches(z_scores, 0, 4, threshold));
    assert(k >= 4 ==> one_reaches(z_scores, 4, 9, threshold));
}

/// Law: the scores of a connection by the workload, by the network and by all features
/// are the root mean squares of its scores by those features. The features with scores
/// and the sums of the squares are given.
pub proof fn law_analysis_holds_group_scores(
    connections: Seq<MetricsView>,
    threshold: Double,
    a: Arithmetic,
    analysis: Analysis,
    i: int,
    group: Option<FeatureGroup>,
    listed: Seq<int>,
    sums: Seq<Double>,
)
    requires
        is_analysis(connections, threshold, a, analysis),
        0 <= i < analysis.connections@.len(),
        is_listing(
            listed,
            9,
            |k: int|
                analysis.connections@[i].feature_z_scores@[k] is Some && belongs(k, group),
        ),
        adds_up(squares(analysis.connections@[i].feature_z_scores@, listed, a), sums, a),
    ensures
        is_typical_size(
            match group {
                Some(FeatureGroup::Workload) => analysis.connections@[i].workload_score,
                Some(FeatureGroup::Network) => analysis.connections@[i].network_score,
                None => analysis.connections@[i].typicality_score,
            },
            analysis.connections@[i].feature_z_scores@,
            listed,
            sums,
            a,
        ),
{
    lemma_analyzed(connections, threshold, a, analysis, i);
    lemma_features(0);
    let z_scores = analysis.connections@[i].feature_z_scores@;
    assert(z_scores.len() == 9);
    law_group_scores_are_root_mean_squares(z_scores, group, listed, sums, a);
}

/// Law: the strongest feature of a connection is the last of those whose score is the
/// farthest from zero; there is none exactly where there are no scores.
pub proof fn law_strongest_features_are_the_farthest(
    connections: Seq<MetricsView>,
    threshold: Double,
    a: Arithmetic,
    analysis: Analysis,
    i: int,
)
    requires
        is_analysis(connections, threshold, a, analysis),
        0 <= i < analysis.connections@.len(),
    ensures
        ({
            let connection = analysis.connections@[i];
            let z_scores = connection.feature_z_scores@;
            match (connection.max_abs_z, connection.strongest_feature) {
                (Some(most), Some(feature)) => exists|k: int|
                    0 <= k < 9 && #[trigger] z_scores[k] is Some && feature == nth_feature(k)
                        && most == size_of_number(z_scores[k]->0) && forall|j: int|
                        0 <= j < 9 && #[trigger] z_scores[j] is Some ==> {
                            let size = size_of_number(z_scores[j]->0).bits;
                            size <= most.bits && (j > k ==> size < most.bits)
                        },
                (None, None) => forall|k: int| 0 <= k < 9 ==> #[trigger] z_scores[k] is None,
                _ => false,
            }
        }),
{
    lemma_analyzed(connections, threshold, a, analysis, i);
    lemma_features(0);
    let z_scores = analysis.connections@[i].feature_z_scores@;
    assert(z_scores.len() == 9);
    lemma_strongest(z_scores);
    match strongest_index(z_scores) {
        Some(k) => {
            lemma_features(k);
            assert forall|j: int| 0 <= j < 9 && #[trigger] z_scores[j] is Some implies ({
                let size = size_of_number(z_scores[j]->0).bits;
                let most = size_of_number(z_scores[k]->0).bits;
                size <= most && (j > k ==> size < most)
            }) by {
                law_strongest_is_the_farthest(z_scores, j);
            }
        },
        None => {
            assert forall|j: int| 0 <= j < 9 implies #[trigger] z_scores[j] is None by {
                if z_scores[j] is Some {
                    law_strongest_is_the_farthest(z_scores, j);
                }
            }
        },
    }
}

/// The strongest of some scores is one of them.
proof fn lemma_strongest(z_scores: Seq<Option<Double>>)
    ensures
        strongest_index(z_scores) matches Some(k) ==> 0 <= k < z_scores.len()
            && z_scores[k] is Some,
    decreases z_scores.len(),
{
    if z_scores.len() > 0 {
        lemma_strongest(z_scores.drop_last());
        if let Some(k) = strongest_index(z_scores.drop_last()) {
            assert(z_scores.drop_last()[k] == z_scores[k]);
        }
    }
}

/// The metrics of the connections of an analysis.
pub open spec fn analyzed_metrics(connections: Seq<AnalyzedConnection>) -> Seq<MetricsView> {
    connections.map_values(|connection: AnalyzedConnection| connection.metrics@)
}

/// Law: an analysis is of the given connections, each of them once, in the order of their
/// paths.
pub proof fn law_analysis_is_of_its_connections(
    connections: Seq<MetricsView>,
    threshold: Double,
    a: Arithmetic,
    analysis: Analysis,
)
    requires
        is_analysis(connections, threshold, a, analysis),
        connections.len() <= usize::MAX,
    ensures
        analyzed_metrics(analysis.connections@).to_multiset() == connections.to_multiset(),
        analysis.connections@.len() == connections.len(),
        forall|k: int, l: int|
            #![trigger analysis.connections@[k], analysis.connections@[l]]
            0 <= k < l < connections.len() ==> text_le(
                analysis.connections@[k].metrics.path@,
                analysis.connections@[l].metrics.path@,
            ),
{
    law_analysis_keeps_connections(connections, threshold, a, analysis);
    let scored = choose|scored: Seq<AnalyzedConnection>|
        #[trigger] is_stable_sort(scored, analysis.connections@) && analyzed_views(scored)
            == all_classified(connections, threshold, a);
    let order = choose|order: Seq<usize>|
        #[trigger] is_stable_order(scored, order) && analysis.connections@ == arranged(
            scored,
            order,
        );
    assert(analyzed_views(scored).len() == scored.len());
    assert forall|k: int| 0 <= k < connections.len() implies #[trigger] scored[k].metrics@
        == connections[k] by {
        assert(analyzed_views(scored)[k] == scored[k]@);
        assert(all_classified(connections, threshold, a)[k].metrics == connections[k]);
    }
    assert(analyzed_metrics(analysis.connections@) =~= arranged(connections, order));
    lemma_arranged_multiset(connections, order);
}

/// A score for comparison: where there is none, it is farther than any.
pub open spec fn rank_of_score(score: Option<Double>) -> int {
    match score {
        Some(score) => score.rank(),
        None => INFINITY_BITS as int,
    }
}

/// Law: the representative is a connection with the smallest score by the workload; among
/// those that share it, one with the smallest score by all features; among those that share
/// that too, the first by its path, and the first of all of these. There is none exactly
/// where no connection has a score by the workload.
pub proof fn law_representative_is_the_closest(
    connections: Seq<AnalyzedConnection>,
    representative: Option<usize>,
    i: int,
)
    requires
        represented_by(connections, representative),
        0 <= i < connections.len(),
    ensures
        representative is None ==> connections[i].workload_score is None,
        representative matches Some(index) ==> index < connections.len() && ({
            let best = connections[index as int];
            let other = connections[i];
            let workload = best.workload_score->0.rank();
            let typicality = rank_of_score(best.typicality_score);
            &&& best.workload_score is Some
            &&& other.workload_score is Some ==> {
                &&& workload <= other.workload_score->0.rank()
                &&& workload == other.workload_score->0.rank() ==> {
                    &&& typicality <= rank_of_score(other.typicality_score)
                    &&& typicality == rank_of_score(other.typicality_score) ==> {
                        &&& text_le(best.metrics.path@, other.metrics.path@)
                        &&& text_le(other.metrics.path@, best.metrics.path@) ==> index <= i
                    }
                }
            }
        }),
{
    if let Some(index) = representative {
        if connections[i].workload_score is Some {
            assert(represents(connections[index as int], connections[i]));
        }
    }
}

/// Law: the representative of an analysis represents its connections.
pub proof fn law_analysis_is_represented(
    connections: Seq<MetricsView>,
    threshold: Double,
    a: Arithmetic,
    analysis: Analysis,
)
    requires
        is_analysis(connections, threshold, a, analysis),
    ensures
        represented_by(analysis.connections@, analysis.representative),
{
}

/// Law: a finished connection counts its streams, those of them that the client opened for
/// both directions, whose numbers are multiples of four, and its round trip times, of which
/// it holds the median and the 95th percentile; all else stays as it was. The round trip
/// times in order are given.
pub proof fn law_finished_figures(v: AccumulatorView, sorted: Seq<Double>, a: Arithmetic)
    requires
        sorted.to_multiset() == v.smoothed_rtt_samples_ms.to_multiset(),
        ascends(sorted),
    ensures
        ({
            let m = v.finished(a);
            let n = v.smoothed_rtt_samples_ms.len();
            &&& m.unique_streams == v.stream_ids.len()
            &&& m.client_bidi_streams == v.stream_ids.filter(|id: u64| id % 4 == 0).len()
            &&& m.smoothed_rtt_sample_count == n
            &&& n == 0 ==> m.smoothed_rtt_median_ms is None && m.smoothed_rtt_p95_ms is None
            &&& (m.smoothed_rtt_median_ms matches Some(rtt) ==> is_quantile(
                sorted,
                Double { bits: MEDIAN_BITS },
                rtt,
                a,
            ))
            &&& (m.smoothed_rtt_p95_ms matches Some(rtt) ==> is_quantile(
                sorted,
                Double { bits: P95_BITS },
                rtt,
                a,
            ))
            &&& rounds_to_nearest(a) && 0 < n <= EXACT_INTEGERS ==> m.smoothed_rtt_median_ms is Some
                && m.smoothed_rtt_p95_ms is Some
            &&& m == (MetricsView {
                unique_streams: m.unique_streams,
                client_bidi_streams: m.client_bidi_streams,
                smoothed_rtt_sample_count: m.smoothed_rtt_sample_count,
                smoothed_rtt_median_ms: m.smoothed_rtt_median_ms,
                smoothed_rtt_p95_ms: m.smoothed_rtt_p95_ms,
                ..v.connection
            })
        }),
{
    vstd::seq_lib::to_multiset_len(sorted);
    vstd::seq_lib::to_multiset_len(v.smoothed_rtt_samples_ms);
    law_ordered_values_stay(sorted, v.smoothed_rtt_samples_ms);
    assert(client_bidi(v.stream_ids) =~= v.stream_ids.filter(|id: u64| id % 4 == 0));
    if rounds_to_nearest(a) && 0 < sorted.len() <= EXACT_INTEGERS {
        law_percentile_exists(sorted, Double { bits: MEDIAN_BITS }, a);
        law_percentile_exists(sorted, Double { bits: P95_BITS }, a);
    }
}

/// Law: connections are sorted by their paths, and all of them are kept.
pub proof fn law_connections_are_sorted(
    connections: Seq<ConnectionMetrics>,
    sorted: Seq<ConnectionMetrics>,
    k: int,
    l: int,
)
    requires
        is_stable_sort(connections, sorted),
        connections.len() <= usize::MAX,
        0 <= k < l < sorted.len(),
    ensures
        sorted.to_multiset() == connections.to_multiset(),
        text_le(sorted[k].path@, sorted[l].path@),
{
    law_stable_sort(connections, sorted, sorted);
    assert(sorted[k].le(&sorted[l]));
}

/// Law: the features go by their names, in their order, with what they tell about and what
/// is done to their values.
pub proof fn law_features_are_named(k: int)
    requires
        0 <= k < 9,
    ensures
        feature_list().len() == 9,
        ({
            let feature = feature_list()[k];
            &&& feature == nth_feature(k)
            &&& feature.label() == (if k == 0 {
                "duration_ms"@
            } else if k == 1 {
                "total_bytes"@
            } else if k == 2 {
                "total_packets"@
            } else if k == 3 {
                "client_bidi_streams"@
            } else if k == 4 {
                "smoothed_rtt_median_ms"@
            } else if k == 5 {
                "loss_rate_pct"@
            } else if k == 6 {
                "pto_per_1000_packets"@
            } else if k == 7 {
                "blocked_events"@
            } else {
                "migrations_completed"@
            })
            &&& feature.tells_about().label() == (if k < 4 {
                "workload"@
            } else {
                "network"@
            })
            &&& feature.treatment().label() == (if k == 4 || k == 5 {
                "identity"@
            } else {
                "log1p"@
            })
        }),
{
}

/// Law: a threshold is accepted exactly if it is a finite number above zero.
pub proof fn law_thresholds_are_positive(threshold: Double)
    ensures
        valid_threshold(threshold) <==> 0 < threshold.bits < INFINITY_BITS,
{
}

} // verus!
