use qlog_analyzer::analysis::{Analysis, AnalyzedConnection, OutlierKind};
use qlog_analyzer::arithmetic::Operation;
use qlog_analyzer::double::Double;
use qlog_analyzer::feature::Feature;
use qlog_analyzer::metrics::ConnectionMetrics;
use qlog_analyzer::notation::{
    fmt as write_number, fmt_opt, fmt_opt_u64, markdown, opt_text,
};
use qlog_analyzer::output::{
    base_connection_header, base_connection_record, connection_header, connection_record,
    distribution_header, distribution_record, failure_header, failure_record, outlier_header,
    outlier_record, sorted_outliers, ParseFailure,
};
use qlog_analyzer::report::report;
use qlog_analyzer::stats::{Distribution, Summary};

fn d(value: f64) -> Double {
    Double::from_bits(value.to_bits())
}

fn f(value: Double) -> f64 {
    f64::from_bits(value.to_bits())
}

fn evaluate(operation: Operation) -> Double {
    d(match operation {
        Operation::Convert(integer) => integer as f64,
        Operation::Plus(a, b) => f(a) + f(b),
        Operation::Minus(a, b) => f(a) - f(b),
        Operation::Times(a, b) => f(a) * f(b),
        Operation::Over(a, b) => f(a) / f(b),
        Operation::LogOnePlus(a) => f(a).ln_1p(),
        Operation::Root(a) => f(a).sqrt(),
    })
}

fn notation(value: Double) -> String {
    format!("{:.6}", f(value))
}

fn fmt(value: f64) -> String {
    write_number(d(value), &notation)
}

fn metrics(path: &str) -> ConnectionMetrics {
    ConnectionMetrics {
        path: path.into(),
        title: Some("title".into()),
        vantage_point: "server".into(),
        file_size_bytes: 1,
        event_count: 2,
        start_time_ms: Some(d(0.5)),
        end_time_ms: Some(d(100.0)),
        packets_sent: 40,
        packets_received: 20,
        packet_lost_events: 5,
        cf_lost_packets: None,
        bytes_sent: 1000,
        bytes_received: 234,
        packet_size_missing_sent: 6,
        packet_size_missing_received: 7,
        unique_streams: 9,
        client_bidi_streams: 8,
        smoothed_rtt_sample_count: 3,
        smoothed_rtt_median_ms: Some(d(12.25)),
        smoothed_rtt_p95_ms: Some(d(20.0)),
        smoothed_rtt_final_ms: Some(d(1.0 / 3.0)),
        rtt_variance_final_ms: None,
        min_rtt_final_ms: Some(d(0.0000001)),
        congestion_window_final_bytes: Some(12_000),
        congestion_window_max_bytes: Some(24_000),
        bytes_in_flight_max: None,
        pto_inferred_count: 4,
        pto_timer_expirations: 0,
        pto_max_consecutive: 2,
        blocked_events: 10,
        migration_events: 11,
        migrations_completed: 12,
        handshake_completed: true,
        handshake_confirmed: false,
        close_initiator: None,
        close_trigger: Some("clean".into()),
        close_reason: Some("done".into()),
        close_error: None,
    }
}

fn connection(path: &str, max_abs_z: Option<f64>, kind: Option<OutlierKind>) -> AnalyzedConnection {
    AnalyzedConnection {
        metrics: metrics(path),
        feature_z_scores: vec![
            Some(d(0.5)),
            None,
            Some(d(f64::NEG_INFINITY)),
            None,
            None,
            None,
            None,
            None,
            Some(d(-1.5)),
        ],
        workload_score: Some(d(1.25)),
        network_score: None,
        typicality_score: Some(d(2.0)),
        max_abs_z: max_abs_z.map(d),
        strongest_feature: max_abs_z.map(|_| Feature::TotalPackets),
        outlier_kind: kind,
    }
}

fn summary() -> Summary {
    Summary {
        count: 3,
        min: d(1.0),
        p05: d(1.1),
        p25: d(1.5),
        median: d(2.0),
        mean: d(2.5),
        p75: d(3.5),
        p95: d(4.7),
        max: d(5.0),
        mad: d(0.25),
    }
}

fn analysis(connections: Vec<AnalyzedConnection>, representative: Option<usize>) -> Analysis {
    Analysis {
        connections,
        distributions: vec![
            Distribution {
                feature: Feature::LossRate,
                raw: Some(summary()),
                model: Some(summary()),
                model_scale: Some(d(0.37065)),
            },
            Distribution {
                feature: Feature::Duration,
                raw: None,
                model: None,
                model_scale: None,
            },
        ],
        representative,
        threshold: d(3.5),
    }
}

#[test]
fn numbers_are_compact_and_infinity_is_explicit() {
    assert_eq!(fmt(12.5), "12.5");
    assert_eq!(fmt(12.0), "12");
    assert_eq!(fmt(f64::INFINITY), "inf");
}

#[test]
fn numbers_keep_six_digits_and_their_sign() {
    assert_eq!(fmt(f64::NEG_INFINITY), "-inf");
    assert_eq!(fmt(f64::NAN), "NaN");
    assert_eq!(fmt(0.0), "0");
    assert_eq!(fmt(-0.0), "-0");
    assert_eq!(fmt(100.0), "100");
    assert_eq!(fmt(-1200.5), "-1200.5");
    assert_eq!(fmt(0.0000001), "0");
    assert_eq!(fmt(1.0 / 3.0), "0.333333");
    assert_eq!(fmt(10.000010), "10.00001");
    assert_eq!(write_number(d(1.0), &|_: Double| "100".to_string()), "100");
}

#[test]
fn missing_numbers_are_empty() {
    assert_eq!(fmt_opt(None, &notation), "");
    assert_eq!(fmt_opt(Some(d(7.0)), &notation), "7");
    assert_eq!(opt_text(&None), "");
    assert_eq!(opt_text(&Some("a".to_string())), "a");
    assert_eq!(fmt_opt_u64(None), "");
    assert_eq!(fmt_opt_u64(Some(0)), "0");
    assert_eq!(fmt_opt_u64(Some(u64::MAX)), "18446744073709551615");
}

#[test]
fn markdown_table_cells_are_escaped() {
    assert_eq!(markdown("a|b\nc"), "a\\|b c");
}

#[test]
fn markdown_keeps_everything_else() {
    assert_eq!(markdown(""), "");
    assert_eq!(markdown("||"), "\\|\\|");
    assert_eq!(markdown("a\r\nb"), "a  b");
    assert_eq!(markdown("plain *text* \u{e9} \\"), "plain *text* \u{e9} \\");
}

#[test]
fn connections_fill_their_columns() {
    let header = base_connection_header();
    let record = base_connection_record(
        &connection("p", Some(f64::INFINITY), None),
        &evaluate,
        &notation,
    );
    assert_eq!(header.len(), 45);
    assert_eq!(record.len(), 45);
    let pairs = header
        .iter()
        .map(|name| name.as_str())
        .zip(record.iter().map(|cell| cell.as_str()))
        .collect::<Vec<_>>();
    assert_eq!(
        pairs,
        vec![
            ("path", "p"),
            ("title", "title"),
            ("vantage_point", "server"),
            ("file_size_bytes", "1"),
            ("event_count", "2"),
            ("start_time_ms", "0.5"),
            ("end_time_ms", "100"),
            ("duration_ms", "99.5"),
            ("packets_sent", "40"),
            ("packets_received", "20"),
            ("packets_lost", "5"),
            ("loss_rate_pct", "12.5"),
            ("bytes_sent", "1000"),
            ("bytes_received", "234"),
            ("packet_size_missing_sent", "6"),
            ("packet_size_missing_received", "7"),
            ("unique_streams", "9"),
            ("client_bidi_streams", "8"),
            ("smoothed_rtt_sample_count", "3"),
            ("smoothed_rtt_median_ms", "12.25"),
            ("smoothed_rtt_p95_ms", "20"),
            ("smoothed_rtt_final_ms", "0.333333"),
            ("rtt_variance_final_ms", ""),
            ("min_rtt_final_ms", "0"),
            ("congestion_window_final_bytes", "12000"),
            ("congestion_window_max_bytes", "24000"),
            ("bytes_in_flight_max", ""),
            ("pto_count", "4"),
            ("pto_max_consecutive", "2"),
            ("pto_per_1000_packets", "100"),
            ("blocked_events", "10"),
            ("migration_events", "11"),
            ("migrations_completed", "12"),
            ("handshake_completed", "true"),
            ("handshake_confirmed", "false"),
            ("close_initiator", ""),
            ("close_trigger", "clean"),
            ("close_reason", "done"),
            ("close_error", ""),
            ("workload_score", "1.25"),
            ("network_score", ""),
            ("typicality_score", "2"),
            ("max_abs_z", "inf"),
            ("strongest_feature", "total_packets"),
            ("outlier_kind", ""),
        ]
    );
}

#[test]
fn connections_end_with_their_scores() {
    let header = connection_header();
    let record = connection_record(&connection("p", None, None), &evaluate, &notation);
    assert_eq!(header.len(), 54);
    assert_eq!(record.len(), 54);
    assert_eq!(header[45], "z_duration_ms");
    assert_eq!(header[53], "z_migrations_completed");
    assert_eq!(record[45..], ["0.5", "", "-inf", "", "", "", "", "", "-1.5"]);
}

#[test]
fn distributions_fill_their_columns() {
    let analysis = analysis(vec![], None);
    let rows = analysis
        .distributions
        .iter()
        .map(|distribution| distribution_record(distribution, &notation))
        .collect::<Vec<_>>();
    assert_eq!(distribution_header().join(","),
        "feature,group,transform,count,min,p05,p25,median,mean,p75,p95,max,mad,model_median,\
         model_mad,model_scale");
    assert_eq!(
        rows[0].join(","),
        "loss_rate_pct,network,identity,3,1,1.1,1.5,2,2.5,3.5,4.7,5,0.25,2,0.25,0.37065"
    );
    assert_eq!(rows[1].join(","), "duration_ms,workload,log1p,,,,,,,,,,,,,");
}

#[test]
fn outliers_fill_their_columns() {
    let outlier = connection("p", Some(4.0), Some(OutlierKind::Both));
    assert_eq!(
        outlier_header().join(","),
        "path,outlier_kind,workload_score,network_score,typicality_score,max_abs_z,\
         strongest_feature,duration_ms,total_bytes,total_packets,client_bidi_streams,\
         smoothed_rtt_median_ms,loss_rate_pct,pto_per_1000_packets,blocked_events,\
         migrations_completed"
    );
    assert_eq!(
        outlier_record(&outlier, &evaluate, &notation).join(","),
        "p,both,1.25,,2,4,total_packets,99.5,1234,60,8,12.25,12.5,100,10,12"
    );
}

#[test]
fn failures_fill_their_columns() {
    let failure = ParseFailure {
        path: "a".into(),
        error: "b".into(),
    };
    assert_eq!(failure_header(), vec!["path", "error"]);
    assert_eq!(failure_record(&failure), vec!["a", "b"]);
}

#[test]
fn the_strongest_outliers_come_first() {
    let workload = Some(OutlierKind::Workload);
    let analysis = analysis(
        vec![
            connection("c", Some(4.0), workload),
            connection("b", Some(4.0), workload),
            connection("x", Some(9.0), None),
            connection("a", None, workload),
            connection("d", Some(f64::INFINITY), workload),
        ],
        None,
    );
    let paths = sorted_outliers(&analysis)
        .iter()
        .map(|outlier| outlier.connection.metrics.path.clone())
        .collect::<Vec<_>>();
    assert_eq!(paths, vec!["d", "b", "c", "a"]);
}

#[test]
fn an_empty_report_says_so() {
    let analysis = analysis(vec![connection("p", Some(1.0), None)], None);
    let text = report(&analysis, &vec![], &evaluate, &notation);
    assert_eq!(
        text,
        "# qlog analysis

- Connections parsed: 1
- Files that failed: 0
- Outliers: 0
- Outlier threshold: 3.5

## Representative connection

No connection had enough workload data.

## Distributions

Values below are in their original units; scoring uses the listed transform.

| Feature | Group | Transform | Count | Median | P95 | MAD |
|---|---|---|---:|---:|---:|---:|
| loss_rate_pct | network | identity | 3 | 2 | 4.7 | 0.25 |
| duration_ms | workload | log1p |  |  |  |  |

## Strongest outliers

No connection crossed the configured threshold.

## Interpretation notes

- An outlier is unusual, not necessarily unhealthy. Workload and network outliers are classified separately.
- Scores use median/MAD robust z-scores. Duration, volume, packet count, stream count, PTO rate, and event counts use `log1p`.
- A non-median value in a population with zero MAD has an infinite robust z-score and is therefore an outlier.
- Empty cells mean the required qlog event or field was not present.
"
    );
}

#[test]
fn a_report_shows_what_was_found() {
    let analysis = analysis(
        vec![
            connection("a|b", Some(4.0), Some(OutlierKind::Network)),
            connection("c", Some(1.0), None),
        ],
        Some(0),
    );
    let failures = vec![ParseFailure {
        path: "bad".into(),
        error: "no\nheader".into(),
    }];
    let text = report(&analysis, &failures, &evaluate, &notation);
    assert!(text.contains("- Connections parsed: 2\n- Files that failed: 1\n- Outliers: 1\n"));
    assert!(text.contains(
        "## Representative connection

The existing connection closest to the robust workload center is **a\\|b**.

| Metric | Value |
|---|---:|
| Duration (ms) | 99.5 |
| Total bytes | 1234 |
| Total packets | 60 |
| Client bidi streams | 8 |
| Median smoothed RTT (ms) | 12.25 |
| Loss rate (%) | 12.5 |
| Workload score | 1.25 |
| Network score |  |

## Distributions
"
    ));
    assert!(text.contains(
        "## Strongest outliers

| Connection | Kind | Strongest feature | |z| | Typicality |
|---|---|---|---:|---:|
| a\\|b | network | total_packets | 4 | 2 |

## Parse failures

| File | Error |
|---|---|
| bad | no header |

## Interpretation notes
"
    ));
}

#[test]
fn a_report_lists_the_first_of_many() {
    let connections = (0..30)
        .map(|index| connection(&format!("c{index:02}"), Some(4.0), Some(OutlierKind::Both)))
        .collect::<Vec<_>>();
    let failures = (0..30)
        .map(|index| ParseFailure {
            path: format!("f{index:02}"),
            error: "x".into(),
        })
        .collect::<Vec<_>>();
    let analysis = analysis(connections, None);
    let text = report(&analysis, &failures, &evaluate, &notation);
    assert!(text.contains("- Outliers: 30\n"));
    assert_eq!(text.matches("| c").count(), 25);
    assert!(text.contains("| c24 |") && !text.contains("| c25 |"));
    assert_eq!(text.matches("| f").count(), 25);
    assert!(text.contains("| f24 |") && !text.contains("| f25 |"));
}
