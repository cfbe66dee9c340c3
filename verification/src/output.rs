//! The tables that an analysis is written to.

use crate::analysis::{Analysis, AnalyzedConnection, AnalyzedView, OutlierKind};
use crate::arithmetic::{follows, is_total, Arithmetic, Operation};
use crate::double::Double;
use crate::feature::{feature_list, features, Feature};
use crate::notation::{
    bool_name, bool_text, fmt_opt, fmt_opt_u64, opt_integer_text, opt_number_text, opt_text,
    text_or_empty, writes, writes_all, Notation,
};
use crate::order::{
    arranged, is_stable_order, is_stable_sort, stable_sort, stands_before, Ranked,
};
use crate::stats::{Distribution, Summary};
use crate::text::{decimal, decimal_text, law_text_order, precedes, text_le, views};
use vstd::prelude::*;
use vstd::string::*;

verus! {

/// A file that could not be read as a trace.
#[derive(Debug)]
pub struct ParseFailure {
    /// The file, as it is shown.
    pub path: String,
    /// What went wrong.
    pub error: String,
}

/// The name of a feature, nothing where there is none.
pub open spec fn feature_label(feature: Option<Feature>) -> Seq<char> {
    match feature {
        Some(feature) => feature.label(),
        None => ""@,
    }
}

/// The name of a feature, nothing where there is none.
pub fn feature_name(feature: Option<Feature>) -> (name: &'static str)
    ensures
        name@ == feature_label(feature),
{
    match feature {
        Some(feature) => feature.name(),
        None => "",
    }
}

/// The name of an outlier's kind, nothing where it is none.
pub open spec fn kind_label(kind: Option<OutlierKind>) -> Seq<char> {
    match kind {
        Some(kind) => kind.label(),
        None => ""@,
    }
}

/// The name of an outlier's kind, nothing where it is none.
pub fn kind_name(kind: Option<OutlierKind>) -> (name: &'static str)
    ensures
        name@ == kind_label(kind),
{
    match kind {
        Some(kind) => kind.as_str(),
        None => "",
    }
}

/// The columns of the table of connections, but for the scores by each feature.
pub open spec fn connection_columns() -> Seq<Seq<char>> {
    seq![
        "path"@,
        "title"@,
        "vantage_point"@,
        "file_size_bytes"@,
        "event_count"@,
        "start_time_ms"@,
        "end_time_ms"@,
        "duration_ms"@,
        "packets_sent"@,
        "packets_received"@,
        "packets_lost"@,
        "loss_rate_pct"@,
        "bytes_sent"@,
        "bytes_received"@,
        "packet_size_missing_sent"@,
        "packet_size_missing_received"@,
        "unique_streams"@,
        "client_bidi_streams"@,
        "smoothed_rtt_sample_count"@,
        "smoothed_rtt_median_ms"@,
        "smoothed_rtt_p95_ms"@,
        "smoothed_rtt_final_ms"@,
        "rtt_variance_final_ms"@,
        "min_rtt_final_ms"@,
        "congestion_window_final_bytes"@,
        "congestion_window_max_bytes"@,
        "bytes_in_flight_max"@,
        "pto_count"@,
        "pto_max_consecutive"@,
        "pto_per_1000_packets"@,
        "blocked_events"@,
        "migration_events"@,
        "migrations_completed"@,
        "handshake_completed"@,
        "handshake_confirmed"@,
        "close_initiator"@,
        "close_trigger"@,
        "close_reason"@,
        "close_error"@,
        "workload_score"@,
        "network_score"@,
        "typicality_score"@,
        "max_abs_z"@,
        "strongest_feature"@,
        "outlier_kind"@,
    ]
}

/// The columns of the table of connections, but for the scores by each feature.
pub fn base_connection_header() -> (header: Vec<String>)
    ensures
        views(header@) == connection_columns(),
{
    let header = vec![
        "path".to_owned(),
        "title".to_owned(),
        "vantage_point".to_owned(),
        "file_size_bytes".to_owned(),
        "event_count".to_owned(),
        "start_time_ms".to_owned(),
        "end_time_ms".to_owned(),
        "duration_ms".to_owned(),
        "packets_sent".to_owned(),
        "packets_received".to_owned(),
        "packets_lost".to_owned(),
        "loss_rate_pct".to_owned(),
        "bytes_sent".to_owned(),
        "bytes_received".to_owned(),
        "packet_size_missing_sent".to_owned(),
        "packet_size_missing_received".to_owned(),
        "unique_streams".to_owned(),
        "client_bidi_streams".to_owned(),
        "smoothed_rtt_sample_count".to_owned(),
        "smoothed_rtt_median_ms".to_owned(),
        "smoothed_rtt_p95_ms".to_owned(),
        "smoothed_rtt_final_ms".to_owned(),
        "rtt_variance_final_ms".to_owned(),
        "min_rtt_final_ms".to_owned(),
        "congestion_window_final_bytes".to_owned(),
        "congestion_window_max_bytes".to_owned(),
        "bytes_in_flight_max".to_owned(),
        "pto_count".to_owned(),
        "pto_max_consecutive".to_owned(),
        "pto_per_1000_packets".to_owned(),
        "blocked_events".to_owned(),
        "migration_events".to_owned(),
        "migrations_completed".to_owned(),
        "handshake_completed".to_owned(),
        "handshake_confirmed".to_owned(),
        "close_initiator".to_owned(),
        "close_trigger".to_owned(),
        "close_reason".to_owned(),
        "close_error".to_owned(),
        "workload_score".to_owned(),
        "network_score".to_owned(),
        "typicality_score".to_owned(),
        "max_abs_z".to_owned(),
        "strongest_feature".to_owned(),
        "outlier_kind".to_owned(),
    ];
    assert(views(header@) =~= connection_columns());
    header
}

/// The row of a connection, but for the scores by each feature.
pub open spec fn connection_row(c: AnalyzedView, a: Arithmetic, w: Notation) -> Seq<Seq<char>> {
    let m = c.metrics;
    seq![
        m.path,
        text_or_empty(m.title),
        m.vantage_point,
        decimal(m.file_size_bytes as nat),
        decimal(m.event_count),
        opt_number_text(m.start_time_ms, w),
        opt_number_text(m.end_time_ms, w),
        opt_number_text(m.duration(a), w),
        decimal(m.packets_sent),
        decimal(m.packets_received),
        decimal(m.packets_lost()),
        opt_number_text(m.loss_rate(a), w),
        decimal(m.bytes_sent),
        decimal(m.bytes_received),
        decimal(m.packet_size_missing_sent),
        decimal(m.packet_size_missing_received),
        decimal(m.unique_streams),
        decimal(m.client_bidi_streams),
        decimal(m.smoothed_rtt_sample_count),
        opt_number_text(m.smoothed_rtt_median_ms, w),
        opt_number_text(m.smoothed_rtt_p95_ms, w),
        opt_number_text(m.smoothed_rtt_final_ms, w),
        opt_number_text(m.rtt_variance_final_ms, w),
        opt_number_text(m.min_rtt_final_ms, w),
        opt_integer_text(m.congestion_window_final_bytes),
        opt_integer_text(m.congestion_window_max_bytes),
        opt_integer_text(m.bytes_in_flight_max),
        decimal(m.pto_count()),
        decimal(m.pto_max_consecutive),
        opt_number_text(m.pto_rate(a), w),
        decimal(m.blocked_events),
        decimal(m.migration_events),
        decimal(m.migrations_completed),
        bool_name(m.handshake_completed),
        bool_name(m.handshake_confirmed),
        text_or_empty(m.close_initiator),
        text_or_empty(m.close_trigger),
        text_or_empty(m.close_reason),
        text_or_empty(m.close_error),
        opt_number_text(c.workload_score, w),
        opt_number_text(c.network_score, w),
        opt_number_text(c.typicality_score, w),
        opt_number_text(c.max_abs_z, w),
        feature_label(c.strongest_feature),
        kind_label(c.outlier_kind),
    ]
}

/// The row of a connection, but for the scores by each feature.
pub fn base_connection_record<E: Fn(Operation) -> Double, N: Fn(Double) -> String>(
    connection: &AnalyzedConnection,
    evaluate: &E,
    notation: &N,
) -> (record: Vec<String>)
    requires
        is_total(*evaluate),
        writes_all(*notation),
    ensures
        record@.len() == connection_columns().len(),
        forall|a: Arithmetic, w: Notation|
            #![trigger follows(*evaluate, a), writes(*notation, w)]
            follows(*evaluate, a) && writes(*notation, w) ==> views(record@) == connection_row(
                connection@,
                a,
                w,
            ),
{
    let metrics = &connection.metrics;
    let record = vec![
        metrics.path.clone(),
        opt_text(&metrics.title),
        metrics.vantage_point.clone(),
        decimal_text(metrics.file_size_bytes),
        decimal_text(metrics.event_count),
        fmt_opt(metrics.start_time_ms, notation),
        fmt_opt(metrics.end_time_ms, notation),
        fmt_opt(metrics.duration_ms(evaluate), notation),
        decimal_text(metrics.packets_sent),
        decimal_text(metrics.packets_received),
        decimal_text(metrics.packets_lost()),
        fmt_opt(metrics.loss_rate_pct(evaluate), notation),
        decimal_text(metrics.bytes_sent),
        decimal_text(metrics.bytes_received),
        decimal_text(metrics.packet_size_missing_sent),
        decimal_text(metrics.packet_size_missing_received),
        decimal_text(metrics.unique_streams() as u64),
        decimal_text(metrics.client_bidi_streams() as u64),
        decimal_text(metrics.smoothed_rtt_sample_count as u64),
        fmt_opt(metrics.smoothed_rtt_median_ms(), notation),
        fmt_opt(metrics.smoothed_rtt_p95_ms(), notation),
        fmt_opt(metrics.smoothed_rtt_final_ms, notation),
        fmt_opt(metrics.rtt_variance_final_ms, notation),
        fmt_opt(metrics.min_rtt_final_ms, notation),
        fmt_opt_u64(metrics.congestion_window_final_bytes),
        fmt_opt_u64(metrics.congestion_window_max_bytes),
        fmt_opt_u64(metrics.bytes_in_flight_max),
        decimal_text(metrics.pto_count()),
        decimal_text(metrics.pto_max_consecutive),
        fmt_opt(metrics.pto_per_1000_packets(evaluate), notation),
        decimal_text(metrics.blocked_events),
        decimal_text(metrics.migration_events),
        decimal_text(metrics.migrations_completed),
        bool_text(metrics.handshake_completed),
        bool_text(metrics.handshake_confirmed),
        opt_text(&metrics.close_initiator),
        opt_text(&metrics.close_trigger),
        opt_text(&metrics.close_reason),
        opt_text(&metrics.close_error),
        fmt_opt(connection.workload_score, notation),
        fmt_opt(connection.network_score, notation),
        fmt_opt(connection.typicality_score, notation),
        fmt_opt(connection.max_abs_z, notation),
        feature_name(connection.strongest_feature).to_owned(),
        kind_name(connection.outlier_kind).to_owned(),
    ];
    assert forall|a: Arithmetic, w: Notation|
        #![trigger follows(*evaluate, a), writes(*notation, w)]
        follows(*evaluate, a) && writes(*notation, w) implies views(record@) == connection_row(
        connection@,
        a,
        w,
    ) by {
        assert(views(record@) =~= connection_row(connection@, a, w));
    }
    record
}

/// The columns of the table of connections.
pub open spec fn all_connection_columns() -> Seq<Seq<char>> {
    connection_columns() + feature_list().map_values(|feature: Feature| "z_"@ + feature.label())
}

/// The columns of the table of connections.
pub fn connection_header() -> (header: Vec<String>)
    ensures
        views(header@) == all_connection_columns(),
{
    let mut header = base_connection_header();
    let list = features();
    let ghost scores = feature_list().map_values(|feature: Feature| "z_"@ + feature.label());
    let mut i: usize = 0;
    assert(views(header@) =~= connection_columns() + scores.take(0));
    while i < list.len()
        invariant
            list@ == feature_list(),
            scores == feature_list().map_values(|feature: Feature| "z_"@ + feature.label()),
            i <= list@.len(),
            views(header@) == connection_columns() + scores.take(i as int),
        decreases list@.len() - i,
    {
        let mut name = "z_".to_owned();
        name.append(list[i].name());
        let ghost before = header@;
        header.push(name);
        assert(views(header@) =~= views(before).push(name@));
        assert(views(header@) =~= connection_columns() + scores.take(i + 1));
        i += 1;
    }
    assert(scores.take(scores.len() as int) =~= scores);
    header
}

/// The scores by each feature, as they are written.
pub open spec fn score_texts(z_scores: Seq<Option<Double>>, w: Notation) -> Seq<Seq<char>> {
    z_scores.map_values(|score: Option<Double>| opt_number_text(score, w))
}

/// The row of a connection.
pub open spec fn whole_connection_row(c: AnalyzedView, a: Arithmetic, w: Notation) -> Seq<
    Seq<char>,
> {
    connection_row(c, a, w) + score_texts(c.feature_z_scores, w)
}

/// The row of a connection.
pub fn connection_record<E: Fn(Operation) -> Double, N: Fn(Double) -> String>(
    connection: &AnalyzedConnection,
    evaluate: &E,
    notation: &N,
) -> (record: Vec<String>)
    requires
        is_total(*evaluate),
        writes_all(*notation),
    ensures
        forall|a: Arithmetic, w: Notation|
            #![trigger follows(*evaluate, a), writes(*notation, w)]
            follows(*evaluate, a) && writes(*notation, w) ==> views(record@)
                == whole_connection_row(connection@, a, w),
{
    let mut record = base_connection_record(connection, evaluate, notation);
    let ghost base = record@;
    let z_scores = &connection.feature_z_scores;
    let mut i: usize = 0;
    while i < z_scores.len()
        invariant
            writes_all(*notation),
            i <= z_scores@.len(),
            record@.len() == base.len() + i,
            record@.take(base.len() as int) == base,
            forall|w: Notation, k: int|
                #![trigger writes(*notation, w), record@[base.len() + k]]
                writes(*notation, w) && 0 <= k < i ==> record@[base.len() + k]@
                    == opt_number_text(z_scores@[k], w),
        decreases z_scores@.len() - i,
    {
        let ghost before = record@;
        record.push(fmt_opt(z_scores[i], notation));
        assert(record@.take(base.len() as int) =~= before.take(base.len() as int));
        assert forall|k: int| 0 <= k < i implies #[trigger] record@[base.len() + k]
            == before[base.len() + k] by {}
        i += 1;
    }
    assert forall|a: Arithmetic, w: Notation|
        #![trigger follows(*evaluate, a), writes(*notation, w)]
        follows(*evaluate, a) && writes(*notation, w) implies views(record@)
        == whole_connection_row(connection@, a, w) by {
        let expected = whole_connection_row(connection@, a, w);
        assert(views(base) == connection_row(connection@, a, w));
        assert forall|k: int| 0 <= k < expected.len() implies #[trigger] views(record@)[k]
            == expected[k] by {
            if k < base.len() {
                assert(record@.take(base.len() as int)[k] == record@[k]);
                assert(views(base)[k] == base[k]@);
            } else {
                let l = k - base.len();
                assert(record@[base.len() + l]@ == opt_number_text(z_scores@[l], w));
            }
        }
        assert(views(record@) =~= expected);
    }
    record
}

/// Law: the row of a connection with a score by each feature has a cell for each
/// column.
pub proof fn law_connection_row_fits_its_columns(c: AnalyzedView, a: Arithmetic, w: Notation)
    requires
        c.feature_z_scores.len() == feature_list().len(),
    ensures
        whole_connection_row(c, a, w).len() == all_connection_columns().len(),
        connection_row(c, a, w).len() == connection_columns().len(),
{
}

/// How many values a summary is of, nothing where there is none.
pub open spec fn count_text(summary: Option<Summary>) -> Seq<char> {
    match summary {
        Some(summary) => decimal(summary.count as nat),
        None => ""@,
    }
}

/// How many values a summary is of, nothing where there is none.
pub fn summary_count(summary: Option<Summary>) -> (text: String)
    ensures
        text@ == count_text(summary),
{
    match summary {
        Some(summary) => decimal_text(summary.count as u64),
        None => "".to_owned(),
    }
}

/// A figure of a summary as it is written, nothing where there is none.
pub open spec fn figure_text(
    summary: Option<Summary>,
    figure: spec_fn(Summary) -> Double,
    w: Notation,
) -> Seq<char> {
    match summary {
        Some(summary) => opt_number_text(Some(figure(summary)), w),
        None => opt_number_text(None, w),
    }
}

/// The columns of the table of distributions.
pub open spec fn distribution_columns() -> Seq<Seq<char>> {
    seq![
        "feature"@,
        "group"@,
        "transform"@,
        "count"@,
        "min"@,
        "p05"@,
        "p25"@,
        "median"@,
        "mean"@,
        "p75"@,
        "p95"@,
        "max"@,
        "mad"@,
        "model_median"@,
        "model_mad"@,
        "model_scale"@,
    ]
}

/// The columns of the table of distributions.
pub fn distribution_header() -> (header: Vec<String>)
    ensures
        views(header@) == distribution_columns(),
{
    let header = vec![
        "feature".to_owned(),
        "group".to_owned(),
        "transform".to_owned(),
        "count".to_owned(),
        "min".to_owned(),
        "p05".to_owned(),
        "p25".to_owned(),
        "median".to_owned(),
        "mean".to_owned(),
        "p75".to_owned(),
        "p95".to_owned(),
        "max".to_owned(),
        "mad".to_owned(),
        "model_median".to_owned(),
        "model_mad".to_owned(),
        "model_scale".to_owned(),
    ];
    assert(views(header@) =~= distribution_columns());
    header
}

/// The row of a distribution.
pub open spec fn distribution_row(distribution: Distribution, w: Notation) -> Seq<Seq<char>> {
    let raw = distribution.raw;
    let model = distribution.model;
    seq![
        distribution.feature.label(),
        distribution.feature.tells_about().label(),
        distribution.feature.treatment().label(),
        count_text(raw),
        figure_text(raw, |s: Summary| s.min, w),
        figure_text(raw, |s: Summary| s.p05, w),
        figure_text(raw, |s: Summary| s.p25, w),
        figure_text(raw, |s: Summary| s.median, w),
        figure_text(raw, |s: Summary| s.mean, w),
        figure_text(raw, |s: Summary| s.p75, w),
        figure_text(raw, |s: Summary| s.p95, w),
        figure_text(raw, |s: Summary| s.max, w),
        figure_text(raw, |s: Summary| s.mad, w),
        figure_text(model, |s: Summary| s.median, w),
        figure_text(model, |s: Summary| s.mad, w),
        opt_number_text(distribution.model_scale, w),
    ]
}

/// The row of a distribution.
pub fn distribution_record<N: Fn(Double) -> String>(distribution: &Distribution, notation: &N) -> (
    record: Vec<String>)
    requires
        writes_all(*notation),
    ensures
        forall|w: Notation| #[trigger]
            writes(*notation, w) ==> views(record@) == distribution_row(*distribution, w),
{
    let raw = distribution.raw;
    let model = distribution.model;
    let record = vec![
        distribution.feature.name().to_owned(),
        distribution.feature.group().as_str().to_owned(),
        distribution.feature.transform().as_str().to_owned(),
        summary_count(raw),
        fmt_opt(match raw { Some(s) => Some(s.min), None => None }, notation),
        fmt_opt(match raw { Some(s) => Some(s.p05), None => None }, notation),
        fmt_opt(match raw { Some(s) => Some(s.p25), None => None }, notation),
        fmt_opt(match raw { Some(s) => Some(s.median), None => None }, notation),
        fmt_opt(match raw { Some(s) => Some(s.mean), None => None }, notation),
        fmt_opt(match raw { Some(s) => Some(s.p75), None => None }, notation),
        fmt_opt(match raw { Some(s) => Some(s.p95), None => None }, notation),
        fmt_opt(match raw { Some(s) => Some(s.max), None => None }, notation),
        fmt_opt(match raw { Some(s) => Some(s.mad), None => None }, notation),
        fmt_opt(match model { Some(s) => Some(s.median), None => None }, notation),
        fmt_opt(match model { Some(s) => Some(s.mad), None => None }, notation),
        fmt_opt(distribution.model_scale, notation),
    ];
    assert forall|w: Notation| #[trigger] writes(*notation, w) implies views(record@)
        == distribution_row(*distribution, w) by {
        assert(views(record@) =~= distribution_row(*distribution, w));
    }
    record
}

/// The columns of the table of outliers.
pub open spec fn outlier_columns() -> Seq<Seq<char>> {
    seq![
        "path"@,
        "outlier_kind"@,
        "workload_score"@,
        "network_score"@,
        "typicality_score"@,
        "max_abs_z"@,
        "strongest_feature"@,
        "duration_ms"@,
        "total_bytes"@,
        "total_packets"@,
        "client_bidi_streams"@,
        "smoothed_rtt_median_ms"@,
        "loss_rate_pct"@,
        "pto_per_1000_packets"@,
        "blocked_events"@,
        "migrations_completed"@,
    ]
}

/// The columns of the table of outliers.
pub fn outlier_header() -> (header: Vec<String>)
    ensures
        views(header@) == outlier_columns(),
{
    let header = vec![
        "path".to_owned(),
        "outlier_kind".to_owned(),
        "workload_score".to_owned(),
        "network_score".to_owned(),
        "typicality_score".to_owned(),
        "max_abs_z".to_owned(),
        "strongest_feature".to_owned(),
        "duration_ms".to_owned(),
        "total_bytes".to_owned(),
        "total_packets".to_owned(),
        "client_bidi_streams".to_owned(),
        "smoothed_rtt_median_ms".to_owned(),
        "loss_rate_pct".to_owned(),
        "pto_per_1000_packets".to_owned(),
        "blocked_events".to_owned(),
        "migrations_completed".to_owned(),
    ];
    assert(views(header@) =~= outlier_columns());
    header
}

/// The row of an outlier.
pub open spec fn outlier_row(c: AnalyzedView, a: Arithmetic, w: Notation) -> Seq<Seq<char>> {
    let m = c.metrics;
    seq![
        m.path,
        kind_label(c.outlier_kind),
        opt_number_text(c.workload_score, w),
        opt_number_text(c.network_score, w),
        opt_number_text(c.typicality_score, w),
        opt_number_text(c.max_abs_z, w),
        feature_label(c.strongest_feature),
        opt_number_text(m.duration(a), w),
        decimal(m.total_bytes()),
        decimal(m.total_packets()),
        decimal(m.client_bidi_streams),
        opt_number_text(m.smoothed_rtt_median_ms, w),
        opt_number_text(m.loss_rate(a), w),
        opt_number_text(m.pto_rate(a), w),
        decimal(m.blocked_events),
        decimal(m.migrations_completed),
    ]
}

/// The row of an outlier.
pub fn outlier_record<E: Fn(Operation) -> Double, N: Fn(Double) -> String>(
    connection: &AnalyzedConnection,
    evaluate: &E,
    notation: &N,
) -> (record: Vec<String>)
    requires
        is_total(*evaluate),
        writes_all(*notation),
    ensures
        record@.len() == outlier_columns().len(),
        forall|a: Arithmetic, w: Notation|
            #![trigger follows(*evaluate, a), writes(*notation, w)]
            follows(*evaluate, a) && writes(*notation, w) ==> views(record@) == outlier_row(
                connection@,
                a,
                w,
            ),
{
    let metrics = &connection.metrics;
    let record = vec![
        metrics.path.clone(),
        kind_name(connection.outlier_kind).to_owned(),
        fmt_opt(connection.workload_score, notation),
        fmt_opt(connection.network_score, notation),
        fmt_opt(connection.typicality_score, notation),
        fmt_opt(connection.max_abs_z, notation),
        feature_name(connection.strongest_feature).to_owned(),
        fmt_opt(metrics.duration_ms(evaluate), notation),
        decimal_text(metrics.total_bytes()),
        decimal_text(metrics.total_packets()),
        decimal_text(metrics.client_bidi_streams() as u64),
        fmt_opt(metrics.smoothed_rtt_median_ms(), notation),
        fmt_opt(metrics.loss_rate_pct(evaluate), notation),
        fmt_opt(metrics.pto_per_1000_packets(evaluate), notation),
        decimal_text(metrics.blocked_events),
        decimal_text(metrics.migrations_completed),
    ];
    assert forall|a: Arithmetic, w: Notation|
        #![trigger follows(*evaluate, a), writes(*notation, w)]
        follows(*evaluate, a) && writes(*notation, w) implies views(record@) == outlier_row(
        connection@,
        a,
        w,
    ) by {
        assert(views(record@) =~= outlier_row(connection@, a, w));
    }
    record
}

/// The columns of the table of failures.
pub open spec fn failure_columns() -> Seq<Seq<char>> {
    seq![
        "path"@,
        "error"@,
    ]
}

/// The columns of the table of failures.
pub fn failure_header() -> (header: Vec<String>)
    ensures
        views(header@) == failure_columns(),
{
    let header = vec![
        "path".to_owned(),
        "error".to_owned(),
    ];
    assert(views(header@) =~= failure_columns());
    header
}

/// The row of a failure.
pub fn failure_record(failure: &ParseFailure) -> (record: Vec<String>)
    ensures
        views(record@) == seq![failure.path@, failure.error@],
{
    let record = vec![failure.path.clone(), failure.error.clone()];
    assert(views(record@) =~= seq![failure.path@, failure.error@]);
    record
}

/// Law: the rows of distributions and outliers have a cell for each column.
pub proof fn law_rows_fit_their_columns(
    distribution: Distribution,
    c: AnalyzedView,
    a: Arithmetic,
    w: Notation,
)
    ensures
        distribution_row(distribution, w).len() == distribution_columns().len(),
        outlier_row(c, a, w).len() == outlier_columns().len(),
{
}

/// A connection among the outliers.
#[derive(Debug)]
pub struct Outlier<'a> {
    /// The connection.
    pub connection: &'a AnalyzedConnection,
}

/// How far an outlier is from the center, by its strongest score.
pub open spec fn strength(connection: AnalyzedConnection) -> Double {
    match connection.max_abs_z {
        Some(score) => score,
        None => Double { bits: 0 },
    }
}

/// How far an outlier is from the center, by its strongest score.
fn strength_of(connection: &AnalyzedConnection) -> (score: Double)
    ensures
        score == strength(*connection),
{
    match connection.max_abs_z {
        Some(score) => score,
        None => Double::zero(),
    }
}

/// Outliers are sorted by their strongest score, the strongest first, and then by
/// their paths.
impl<'a> Ranked for Outlier<'a> {
    open spec fn le(&self, other: &Self) -> bool {
        let a = strength(*self.connection).rank();
        let b = strength(*other.connection).rank();
        a > b || (a == b && text_le(
            self.connection.metrics.path@,
            other.connection.metrics.path@,
        ))
    }

    proof fn total(&self, other: &Self) {
        law_text_order(
            self.connection.metrics.path@,
            other.connection.metrics.path@,
            other.connection.metrics.path@,
        );
    }

    proof fn transitive(&self, middle: &Self, other: &Self) {
        law_text_order(
            self.connection.metrics.path@,
            middle.connection.metrics.path@,
            other.connection.metrics.path@,
        );
    }

    fn is_le(&self, other: &Self) -> (r: bool) {
        let a = strength_of(self.connection);
        let b = strength_of(other.connection);
        if !b.total_le(a) {
            return false;
        }
        if !a.total_le(b) {
            return true;
        }
        precedes(self.connection.metrics.path.as_str(), other.connection.metrics.path.as_str())
    }
}

/// The outliers among some connections, in their order.
pub open spec fn outliers_among<'a>(connections: Seq<AnalyzedConnection>) -> Seq<Outlier<'a>>
    decreases connections.len(),
{
    if connections.len() == 0 {
        Seq::empty()
    } else {
        let before = outliers_among(connections.drop_last());
        if connections.last().outlier_kind is Some {
            before.push(Outlier { connection: &connections.last() })
        } else {
            before
        }
    }
}

/// The outliers, the strongest first.
pub fn sorted_outliers<'a>(analysis: &'a Analysis) -> (outliers: Vec<Outlier<'a>>)
    ensures
        is_stable_sort(outliers_among(analysis.connections@), outliers@),
{
    let connections = &analysis.connections;
    let mut outliers: Vec<Outlier<'a>> = Vec::new();
    let mut i: usize = 0;
    while i < connections.len()
        invariant
            i <= connections@.len(),
            outliers@ == outliers_among(connections@.take(i as int)),
        decreases connections@.len() - i,
    {
        assert(connections@.take(i + 1).drop_last() =~= connections@.take(i as int));
        if connections[i].outlier_kind.is_some() {
            outliers.push(Outlier { connection: &connections[i] });
        }
        i += 1;
    }
    assert(connections@.take(connections@.len() as int) =~= connections@);
    stable_sort(outliers)
}

/// Law: the outliers are exactly the connections that crossed the threshold in one
/// of the groups of features.
pub proof fn law_outliers_are_the_labelled(
    connections: Seq<AnalyzedConnection>,
    connection: AnalyzedConnection,
)
    ensures
        (exists|k: int|
            0 <= k < outliers_among(connections).len() && *(#[trigger] outliers_among(
                connections,
            )[k]).connection == connection) <==> (connection.outlier_kind is Some
            && connections.contains(connection)),
    decreases connections.len(),
{
    let all = outliers_among(connections);
    if connections.len() > 0 {
        let shorter = connections.drop_last();
        let before = outliers_among(shorter);
        law_outliers_are_the_labelled(shorter, connection);
        let n = connections.len() - 1;
        assert(connections[n] == connections.last());
        assert forall|k: int| 0 <= k < before.len() implies #[trigger] before[k] == all[k] by {}
        assert forall|k: int| 0 <= k < before.len() implies before[k] == #[trigger] all[k] by {}
        if shorter.contains(connection) {
            let i = choose|i: int| 0 <= i < shorter.len() && shorter[i] == connection;
            assert(connections[i] == connection);
        }
        if connections.contains(connection) && connections.last() != connection {
            let i = choose|i: int| 0 <= i < connections.len() && connections[i] == connection;
            assert(shorter[i] == connection);
        }
        if connections.last().outlier_kind is Some {
            assert(*all[before.len() as int].connection == connections.last());
        }
    }
}

/// Law: the outliers are listed by their strongest deviation, the strongest first.
pub proof fn law_outliers_descend(
    connections: Seq<AnalyzedConnection>,
    outliers: Seq<Outlier>,
    k: int,
    l: int,
)
    requires
        is_stable_sort(outliers_among(connections), outliers),
        0 <= k < l < outliers.len(),
    ensures
        strength(*outliers[k].connection).rank() >= strength(*outliers[l].connection).rank(),
        strength(*outliers[k].connection).rank() == strength(*outliers[l].connection).rank()
            ==> text_le(
            outliers[k].connection.metrics.path@,
            outliers[l].connection.metrics.path@,
        ),
{
    let all = outliers_among(connections);
    let order = choose|order: Seq<usize>|
        #[trigger] is_stable_order(all, order) && outliers == arranged(all, order);
    assert(stands_before(all, order[k] as int, order[l] as int));
}

} // verus!
