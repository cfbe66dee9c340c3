use qlog_analyzer::analysis::{
    analyze, distributions, group_is_outlier, group_score, group_values, is_valid_threshold,
    representative_index, sort_connections, strongest, Analysis, AnalyzedConnection, OutlierKind,
};
use qlog_analyzer::arithmetic::{add_up, mean_of, root_mean_square_of, Operation};
use qlog_analyzer::double::Double;
use qlog_analyzer::feature::{
    feature_values, features, Feature, FeatureGroup, Transform, FEATURE_COUNT,
};
use qlog_analyzer::metrics::ConnectionMetrics;
use qlog_analyzer::order::sort_doubles;
use qlog_analyzer::stats::{
    distribution, finite_values, percentile_sorted, robust_z, score, summarize,
};

fn d(value: f64) -> Double {
    Double::from_bits(value.to_bits())
}

fn f(value: Double) -> f64 {
    f64::from_bits(value.to_bits())
}

fn doubles(values: &[f64]) -> Vec<Double> {
    values.iter().map(|value| d(*value)).collect()
}

fn evaluate(operation: Operation) -> Double {
    d(match operation {
        Operation::Convert(integer) => integer as f64,
        Operation::Plus(a, b) => f(a) + f(b),
        Operation::Minus(a, b) => f(a) - f(b),
        Operation::Times(a, b) => f(a) * f(b),
        Operation::Over(a, b) => f(a) / f(b),
        Operation::LogOnePlus(a) => f(a).ln_1p(),
        Operation::Root(a) => f(a).sqrt(),
    })
}

fn percentile(values: &[f64], percentile: f64) -> Option<f64> {
    percentile_sorted(&doubles(values), d(percentile), &evaluate).map(f)
}

fn robust(value: f64, center: f64, scale: f64) -> f64 {
    f(robust_z(d(value), d(center), d(scale), &evaluate))
}

fn analyzed(connections: Vec<ConnectionMetrics>, threshold: f64) -> Analysis {
    analyze(connections, d(threshold), &evaluate)
}

fn connection(path: &str, bytes: u64, rtt: f64) -> ConnectionMetrics {
    ConnectionMetrics {
        path: path.into(),
        title: None,
        vantage_point: "server".into(),
        file_size_bytes: 0,
        event_count: 2,
        start_time_ms: Some(d(0.0)),
        end_time_ms: Some(d(100.0)),
        packets_sent: 10,
        packets_received: 10,
        packet_lost_events: 0,
        cf_lost_packets: Some(0),
        bytes_sent: bytes,
        bytes_received: 0,
        packet_size_missing_sent: 0,
        packet_size_missing_received: 0,
        unique_streams: 1,
        client_bidi_streams: 1,
        smoothed_rtt_sample_count: 1,
        smoothed_rtt_median_ms: Some(d(rtt)),
        smoothed_rtt_p95_ms: Some(d(rtt)),
        smoothed_rtt_final_ms: Some(d(rtt)),
        rtt_variance_final_ms: Some(d(1.0)),
        min_rtt_final_ms: Some(d(rtt)),
        congestion_window_final_bytes: Some(12_000),
        congestion_window_max_bytes: Some(12_000),
        bytes_in_flight_max: Some(1_200),
        pto_inferred_count: 0,
        pto_timer_expirations: 0,
        pto_max_consecutive: 0,
        blocked_events: 0,
        migration_events: 0,
        migrations_completed: 0,
        handshake_completed: true,
        handshake_confirmed: true,
        close_initiator: None,
        close_trigger: Some("clean".into()),
        close_reason: None,
        close_error: None,
    }
}

fn scored(path: &str, workload: Option<f64>, typicality: Option<f64>) -> AnalyzedConnection {
    AnalyzedConnection {
        metrics: connection(path, 0, 1.0),
        feature_z_scores: vec![],
        workload_score: workload.map(d),
        network_score: None,
        typicality_score: typicality.map(d),
        max_abs_z: None,
        strongest_feature: None,
        outlier_kind: None,
    }
}

fn z(values: &[Option<f64>]) -> Vec<Option<Double>> {
    values.iter().map(|value| value.map(d)).collect()
}

#[test]
fn percentile_uses_linear_interpolation() {
    assert_eq!(percentile(&[0.0, 10.0], 0.5), Some(5.0));
    assert_eq!(percentile(&[3.0], 0.95), Some(3.0));
    assert_eq!(percentile(&[], 0.5), None);
}

#[test]
fn percentiles_lie_between_zero_and_one() {
    let sorted = [1.0, 2.0, 4.0];
    assert_eq!(percentile(&sorted, 0.0), Some(1.0));
    assert_eq!(percentile(&sorted, -0.0), Some(1.0));
    assert_eq!(percentile(&sorted, 1.0), Some(4.0));
    assert_eq!(percentile(&sorted, 0.75), Some(3.0));
    assert_eq!(percentile(&sorted, -0.1), None);
    assert_eq!(percentile(&sorted, 1.1), None);
    assert_eq!(percentile(&sorted, f64::NAN), None);
    assert_eq!(percentile(&[3.0], 1.1), None);
    let many = (0..1000).map(|value| value as f64).collect::<Vec<_>>();
    for share in [0.0, 0.05, 0.25, 0.5, 0.75, 0.95, 0.999, 1.0] {
        let rank: f64 = share * 999.0;
        let (low, high) = (rank.floor(), rank.ceil());
        let expected = low + (high - low) * (rank - low);
        assert_eq!(percentile(&many, share), Some(expected));
    }
}

#[test]
fn numbers_are_rounded_as_floats_are() {
    let samples = [
        0.0,
        -0.0,
        0.25,
        0.5,
        1.0,
        1.5,
        2.0,
        2.000001,
        1e-300,
        f64::MIN_POSITIVE / 2.0,
        4503599627370495.5,
        4503599627370496.0,
        9007199254740993.0,
        1e15 + 0.5,
        9.3e18,
        1.9e19,
        1e300,
        -0.5,
        -3.0,
        f64::INFINITY,
        f64::NEG_INFINITY,
        f64::NAN,
    ];
    for value in samples {
        let expected = (value.floor() as usize, value.ceil() as usize);
        assert_eq!(d(value).rounded(), expected, "{value}");
    }
}

#[test]
fn sums_run_from_the_first_to_the_last() {
    let values = [0.1, 0.2, 0.3, 1e16, -1e16, 7.0];
    let sum = values.iter().sum::<f64>();
    assert_eq!(f(add_up(&doubles(&values), &evaluate)), sum);
    assert_eq!(f(mean_of(&doubles(&values), &evaluate)), sum / 6.0);
    assert_eq!(f(mean_of(&doubles(&[1.0, 2.0, 6.0]), &evaluate)), 3.0);
    assert_eq!(f(root_mean_square_of(&doubles(&[3.0, -4.0]), &evaluate)), 12.5f64.sqrt());
    assert_eq!(f(add_up(&doubles(&[-0.0, -0.0]), &evaluate)).to_bits(), (-0.0f64).to_bits());
}

#[test]
fn large_download_is_a_workload_outlier() {
    let mut connections = (0..9)
        .map(|index| connection(&format!("normal-{index}"), 10_000, 20.0))
        .collect::<Vec<_>>();
    connections.push(connection("download", 8_000_000_000, 20.0));

    let analysis = analyzed(connections, 3.5);
    let download = analysis
        .connections
        .iter()
        .find(|connection| connection.metrics.path == "download")
        .unwrap();

    assert_eq!(download.outlier_kind, Some(OutlierKind::Workload));

    assert_eq!(download.strongest_feature, Some(Feature::TotalBytes));
    assert_eq!(download.max_abs_z.map(f), Some(f64::INFINITY));
    assert_eq!(download.workload_score.map(f), Some(f64::INFINITY));
    assert_eq!(download.network_score.map(f), Some(0.0));
    assert_eq!(analysis.connections[0].metrics.path, "download");
    assert_eq!(analysis.connections[1].metrics.path, "normal-0");
    assert_eq!(analysis.representative, Some(1));
    assert_eq!(analysis.connections[1].outlier_kind, None);
    assert_eq!(analysis.distributions.len(), FEATURE_COUNT);
}

#[test]
fn slow_connection_is_a_network_outlier() {
    let mut connections = (0..9)
        .map(|index| connection(&format!("normal-{index}"), 10_000, 20.0 + index as f64))
        .collect::<Vec<_>>();
    connections.push(connection("slow", 10_000, 500.0));
    connections.push(connection("both", 1, 500.0));
    let analysis = analyzed(connections, 3.5);
    let kind = |path: &str| {
        analysis
            .connections
            .iter()
            .find(|connection| connection.metrics.path == path)
            .unwrap()
            .outlier_kind
    };
    assert_eq!(kind("slow"), Some(OutlierKind::Network));
    assert_eq!(kind("both"), Some(OutlierKind::Both));
    assert_eq!(kind("normal-4"), None);
}

#[test]
fn zero_mad_marks_a_different_value_as_an_outlier() {
    assert_eq!(robust(1.0, 1.0, 0.0), 0.0);
    assert_eq!(robust(2.0, 1.0, 0.0), f64::INFINITY);
}

#[test]
fn scores_take_their_side_of_the_center() {
    assert_eq!(robust(1.0, 2.0, 0.0), f64::NEG_INFINITY);
    assert_eq!(robust(5.0, 1.0, 2.0), 2.0);
    assert_eq!(robust(1.0, 5.0, 2.0), -2.0);
    assert_eq!(robust(1.0, 1.0 + f64::EPSILON, 0.0), f64::NEG_INFINITY);
    assert_eq!(robust(1.0 + f64::EPSILON, 1.0, 0.0), f64::INFINITY);
    assert_eq!(robust(1e9, 1e9 + 1e-6, 0.0), f64::NEG_INFINITY);
    assert_eq!(robust(0.0, -0.0, 0.0).to_bits(), 0);
    assert_eq!(robust(-0.0, 0.0, -0.0).to_bits(), 0);
    assert!(robust(f64::NAN, 1.0, 0.0).is_nan());
    assert!(robust(1.0, f64::NAN, 0.0).is_nan());
}

#[test]
fn every_scale_above_zero_is_used() {
    assert_eq!(robust(2.0, 1.0, f64::EPSILON), 1.0 / f64::EPSILON);
    assert_eq!(robust(2.0, 1.0, f64::EPSILON / 2.0), 9007199254740992.0);
    assert_eq!(robust(1.0, 1.0, f64::MIN_POSITIVE), 0.0);
}

#[test]
fn summaries_hold_the_extremes() {
    let values = doubles(&[4.0, 1.0, 3.0, 2.0]);
    let summary = summarize(&values, &evaluate).unwrap();
    assert_eq!(summary.count, 4);
    assert_eq!(f(summary.min), 1.0);
    assert_eq!(f(summary.p25), 1.75);
    assert_eq!(f(summary.median), 2.5);
    assert_eq!(f(summary.mean), 2.5);
    assert_eq!(f(summary.p75), 3.25);
    assert_eq!(f(summary.max), 4.0);
    assert_eq!(f(summary.mad), 1.0);
}

#[test]
fn no_values_have_no_summary() {
    assert_eq!(summarize(&vec![], &evaluate), None);
    let mut blank = connection("a", 1, 1.0);
    blank.end_time_ms = None;
    let connections = vec![blank];
    let empty = distribution(Feature::Duration, &connections, &evaluate);
    assert_eq!(empty.raw, None);
    assert_eq!(empty.model, None);
    assert_eq!(empty.model_scale, None);
    assert_eq!(score(&connection("a", 1, 1.0), &empty, &evaluate), None);
}

#[test]
fn distributions_are_of_transformed_values() {
    let connections = (1..=5u64)
        .map(|index| connection("a", index * index, index as f64))
        .collect::<Vec<_>>();
    let bytes = distribution(Feature::TotalBytes, &connections, &evaluate);
    assert_eq!(bytes.raw.map(|summary| f(summary.median)), Some(9.0));
    let model = bytes.model.unwrap();
    assert_eq!(f(model.median), 9.0f64.ln_1p());
    assert_eq!(bytes.model_scale, Some(d(f(model.mad) * 1.4826)));
    let expected = (25.0f64.ln_1p() - f(model.median)) / (f(model.mad) * 1.4826);
    assert_eq!(score(&connections[4], &bytes, &evaluate).map(f), Some(expected));
    let rtt = distribution(Feature::SmoothedRttMedian, &connections, &evaluate);
    assert_eq!(rtt.raw, rtt.model);
    assert_eq!(rtt.model_scale, Some(d(1.4826)));
    assert_eq!(score(&connections[4], &rtt, &evaluate).map(f), Some(2.0 / 1.4826));
    assert_eq!(distributions(&connections, &evaluate)[1], bytes);
    assert_eq!(f(Transform::Log1p.apply(d(2.0), &evaluate)), 2.0f64.ln_1p());
    assert_eq!(Transform::Identity.apply(d(2.0), &evaluate), d(2.0));
}

#[test]
fn summaries_do_not_depend_on_order() {
    let mut values = vec![0.1, 7.5, -3.25, 1e10, 0.2, 0.3, -1e10, 7.5];
    let expected = summarize(&doubles(&values), &evaluate);
    assert!(expected.is_some_and(|summary| f(summary.mad) >= 0.0));
    for shift in [1, 3, 5] {
        values.rotate_left(shift);
        assert_eq!(summarize(&doubles(&values), &evaluate), expected);
    }
    values.reverse();
    assert_eq!(summarize(&doubles(&values), &evaluate), expected);
}

#[test]
fn only_finite_values_are_kept() {
    let values = doubles(&[1.0, f64::NAN, f64::INFINITY, -2.0, f64::NEG_INFINITY, 0.0]);
    assert_eq!(finite_values(&values), doubles(&[1.0, -2.0, 0.0]));
}

#[test]
fn numbers_are_sorted_by_the_total_order() {
    let mut values = vec![
        3.0,
        -0.0,
        f64::NAN,
        f64::NEG_INFINITY,
        0.0,
        -1.5,
        -f64::NAN,
        f64::INFINITY,
        3.0,
    ];
    let sorted = sort_doubles(&doubles(&values));
    values.sort_by(f64::total_cmp);
    assert_eq!(sorted, doubles(&values));
}

#[test]
fn comparisons_agree_with_those_of_floats() {
    let samples = [
        0.0,
        -0.0,
        1.0,
        -1.0,
        f64::MIN_POSITIVE,
        f64::MAX,
        f64::INFINITY,
        f64::NEG_INFINITY,
        f64::NAN,
        -f64::NAN,
        f64::EPSILON,
    ];
    for a in samples {
        assert_eq!(d(a).is_finite(), a.is_finite());
        assert_eq!(d(a).is_infinite(), a.is_infinite());
        assert_eq!(d(a).is_nan(), a.is_nan());
        assert_eq!(d(a).is_negative(), a.is_sign_negative());
        assert_eq!(d(a).abs(), d(a.abs()));
        for b in samples {
            assert_eq!(d(a).ge(d(b)), a >= b);
            assert_eq!(d(a).gt(d(b)), a > b);
            assert_eq!(d(a).total_le(d(b)), a.total_cmp(&b).is_le());
            if !a.is_nan() || !b.is_nan() {
                assert_eq!(f(d(a).max(d(b))), a.max(b));
                assert_eq!(f(d(a).min(d(b))), a.min(b));
            }
        }
    }
}

#[test]
fn features_are_listed_in_order() {
    let names = features()
        .into_iter()
        .map(|feature| feature.name())
        .collect::<Vec<_>>();
    assert_eq!(
        names,
        vec![
            "duration_ms",
            "total_bytes",
            "total_packets",
            "client_bidi_streams",
            "smoothed_rtt_median_ms",
            "loss_rate_pct",
            "pto_per_1000_packets",
            "blocked_events",
            "migrations_completed",
        ]
    );
    for (index, feature) in features().into_iter().enumerate() {
        let workload = index < 4;
        let expected = if workload { "workload" } else { "network" };
        assert_eq!(feature.group().as_str(), expected);
        let expected = if index == 4 || index == 5 { "identity" } else { "log1p" };
        assert_eq!(feature.transform().as_str(), expected);
    }
}

#[test]
fn features_are_measured() {
    let mut metrics = connection("a", 30, 7.0);
    metrics.packet_lost_events = 1;
    metrics.pto_inferred_count = 2;
    metrics.blocked_events = 3;
    metrics.migrations_completed = 4;
    let values = features()
        .into_iter()
        .map(|feature| feature.value(&metrics, &evaluate).map(f))
        .collect::<Vec<_>>();
    let expected = [100.0, 30.0, 20.0, 1.0, 7.0, 10.0, 200.0, 3.0, 4.0];
    assert_eq!(values, expected.map(Some).to_vec());
    metrics.start_time_ms = None;
    metrics.smoothed_rtt_median_ms = None;
    metrics.packets_sent = 0;
    for feature in [
        Feature::Duration,
        Feature::SmoothedRttMedian,
        Feature::LossRate,
        Feature::PtoRate,
    ] {
        assert_eq!(feature.value(&metrics, &evaluate), None);
    }
    let connections = vec![connection("b", 1, 5.0), metrics, connection("c", 1, 6.0)];
    let rtts = feature_values(Feature::SmoothedRttMedian, &connections, &evaluate);
    assert_eq!(rtts, doubles(&[5.0, 6.0]));
}

#[test]
fn groups_are_scored_apart() {
    let scores = z(&[Some(1.0), None, None, Some(2.0), Some(f64::INFINITY), None]);
    let workload = Some(FeatureGroup::Workload);
    let network = Some(FeatureGroup::Network);
    assert_eq!(group_values(&scores, workload), doubles(&[1.0, 2.0]));
    assert_eq!(group_values(&scores, network), doubles(&[f64::INFINITY]));
    assert_eq!(group_values(&scores, None), doubles(&[1.0, 2.0, f64::INFINITY]));
    assert_eq!(group_score(&scores, workload, &evaluate), Some(d(2.5f64.sqrt())));
    assert_eq!(group_score(&scores, network, &evaluate), Some(d(f64::INFINITY)));
    assert_eq!(group_score(&scores, None, &evaluate), Some(d(f64::INFINITY)));
    assert_eq!(group_score(&z(&[None, None]), workload, &evaluate), None);
    let negative = z(&[Some(f64::NEG_INFINITY)]);
    assert_eq!(group_score(&negative, workload, &evaluate), Some(d(f64::INFINITY)));
}

#[test]
fn the_last_of_the_strongest_scores_counts() {
    let scores = z(&[Some(-3.0), Some(2.0), None, Some(3.0), Some(1.0)]);
    assert_eq!(strongest(&scores), (Some(Feature::ClientBidiStreams), Some(d(3.0))));
    assert_eq!(strongest(&z(&[None])), (None, None));
    assert_eq!(strongest(&vec![]), (None, None));
}

#[test]
fn outliers_reach_the_threshold() {
    let workload = FeatureGroup::Workload;
    let scores = z(&[Some(-3.5), None, None, None, Some(9.0)]);
    assert!(group_is_outlier(&scores, None, workload, d(3.5)));
    assert!(!group_is_outlier(&scores, None, workload, d(3.6)));
    assert!(group_is_outlier(&scores, Some(d(3.6)), workload, d(3.6)));
    assert!(group_is_outlier(&scores, None, FeatureGroup::Network, d(3.6)));
    assert!(!group_is_outlier(&scores, Some(d(f64::NAN)), workload, d(3.6)));
    let infinite = z(&[None, Some(f64::NEG_INFINITY)]);
    assert!(group_is_outlier(&infinite, None, workload, d(f64::MAX)));
}

#[test]
fn thresholds_are_finite_and_positive() {
    assert!(is_valid_threshold(d(3.5)));
    assert!(is_valid_threshold(d(f64::MIN_POSITIVE)));
    for value in [0.0, -0.0, -1.0, f64::INFINITY, f64::NEG_INFINITY, f64::NAN] {
        assert!(!is_valid_threshold(d(value)));
    }
}

#[test]
fn the_most_typical_connection_represents_the_others() {
    let list = vec![
        scored("a", None, Some(0.0)),
        scored("b", Some(2.0), Some(1.0)),
        scored("d", Some(1.0), Some(3.0)),
        scored("c", Some(1.0), Some(3.0)),
        scored("e", Some(1.0), Some(4.0)),
        scored("f", Some(f64::INFINITY), None),
    ];
    assert_eq!(representative_index(&list), Some(3));
    assert_eq!(representative_index(&vec![scored("a", None, None)]), None);
    assert_eq!(representative_index(&vec![]), None);
    let same = vec![scored("a", Some(1.0), None), scored("a", Some(1.0), None)];
    assert_eq!(representative_index(&same), Some(0));
}

#[test]
fn connections_are_sorted_by_path() {
    let paths = ["b", "a/b", "a", "\u{e9}", "Z", "a"];
    let connections = paths
        .iter()
        .enumerate()
        .map(|(index, path)| connection(path, index as u64, 1.0))
        .collect::<Vec<_>>();
    let sorted = sort_connections(connections);
    let order = sorted
        .iter()
        .map(|metrics| (metrics.path.as_str(), metrics.bytes_sent))
        .collect::<Vec<_>>();
    assert_eq!(
        order,
        vec![("Z", 4), ("a", 2), ("a", 5), ("a/b", 1), ("b", 0), ("\u{e9}", 3)]
    );
}

#[test]
fn kinds_are_named() {
    assert_eq!(OutlierKind::Workload.as_str(), "workload");
    assert_eq!(OutlierKind::Network.as_str(), "network");
    assert_eq!(OutlierKind::Both.as_str(), "both");
}

#[test]
fn an_analysis_does_not_depend_on_the_order_of_its_input() {
    let list = |reverse: bool| {
        let mut connections = (0..7u64)
            .map(|index| connection(&format!("c{index}"), index * 100, 10.0 + index as f64))
            .collect::<Vec<_>>();
        if reverse {
            connections.reverse();
        }
        connections
    };
    let forward = analyzed(list(false), 1.0);
    let backward = analyzed(list(true), 1.0);
    assert_eq!(forward.distributions, backward.distributions);
    assert_eq!(forward.representative, backward.representative);
    for (a, b) in forward.connections.iter().zip(&backward.connections) {
        assert_eq!(a.metrics.path, b.metrics.path);
        assert_eq!(a.feature_z_scores, b.feature_z_scores);
        assert_eq!(a.typicality_score, b.typicality_score);
        assert_eq!(a.outlier_kind, b.outlier_kind);
    }
    assert!(forward.connections.iter().any(|c| c.outlier_kind.is_some()));
}

#[test]
fn all_scores_count_where_no_group_is_given() {
    let scores = z(&[Some(3.0); 12]);
    assert!(scores.len() > FEATURE_COUNT);
    assert_eq!(group_values(&scores, None), doubles(&[3.0; 12]));
    assert_eq!(group_score(&scores, None, &evaluate), Some(d(3.0)));
}

#[test]
fn some_connection_represents_the_others() {
    assert_eq!(analyzed(vec![], 3.5).representative, None);
    let mut largest = connection("/largest.sqlog", u64::MAX, 20.0);
    largest.start_time_ms = None;
    largest.end_time_ms = None;
    assert_eq!(analyzed(vec![largest], 3.5).representative, Some(0));
    let empty = connection("/empty.sqlog", 0, f64::NAN);
    assert_eq!(analyzed(vec![empty], 3.5).representative, Some(0));
}

#[test]
fn summaries_of_large_values_stay_finite() {
    let summary = summarize(&doubles(&[1e300, -1e300, 0.0, -1e300]), &evaluate).unwrap();
    assert_eq!(summary.count, 4);
    assert_eq!(summary.min, d(-1e300));
    assert_eq!(summary.max, d(1e300));
    assert_eq!(summary.median, d(-5e299));
    assert_eq!(summary.mad, d(5e299));
    let permuted = summarize(&doubles(&[0.0, -1e300, -1e300, 1e300]), &evaluate);
    assert_eq!(permuted, Some(summary));
}

#[test]
fn sums_are_at_most_twice_as_large() {
    let one_exponent_up: u64 = 1 << 52;
    for limit in [1e300f64, 3.0, f64::MIN_POSITIVE, f64::MAX / 4.0] {
        let twice = limit.to_bits() + one_exponent_up;
        assert_eq!(f64::from_bits(twice), 2.0 * limit);
        let sum = evaluate(Operation::Plus(d(limit), d(limit)));
        let difference = evaluate(Operation::Minus(d(limit), d(-limit)));
        assert_eq!(sum.to_bits(), twice);
        assert_eq!(difference.to_bits(), twice);
    }
    let logarithm = evaluate(Operation::LogOnePlus(evaluate(Operation::Convert(u64::MAX))));
    assert!(f(logarithm).is_finite());
}
