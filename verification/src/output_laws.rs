//! What the tables and the report say of an analysis.

use crate::analysis::{analyzed_views, Analysis, AnalyzedConnection, AnalyzedView, OutlierKind};
use crate::arithmetic::Arithmetic;
use crate::double::Double;
use crate::feature::Feature;
use crate::notation::{
    bool_name, concatenated, law_texts_follow_each_other, markdown_text, number_text,
    opt_integer_text, opt_number_text, text_or_empty, Notation,
};
use crate::order::{is_stable_sort, law_stable_sort};
use crate::output::{
    all_connection_columns, connection_columns, connection_row, distribution_columns,
    distribution_row, failure_columns, law_outliers_descend, outlier_columns, outlier_row,
    outliers_among, whole_connection_row, Outlier, ParseFailure,
};
use crate::report::{
    distribution_lines, distribution_section, failure_lines, failure_section, is_report,
    lemma_outliers_fit, listed, notes_section, outlier_lines, outlier_section, report_parts,
    representative_section, summary_section,
};
use crate::score_laws::{
    capped, law_features_are_named, law_features_read_the_metrics, lost_count, nth_feature,
    reading, time_span, timeout_count,
};
use crate::stats::{Distribution, Summary};
use crate::text::{decimal, text_le};
use vstd::prelude::*;
use vstd::string::*;

verus! {

/// The column with the given index has the given name, and the row the given text in it.
pub open spec fn has_cell(
    columns: Seq<Seq<char>>,
    row: Seq<Seq<char>>,
    k: int,
    name: Seq<char>,
    text: Seq<char>,
) -> bool {
    columns[k] == name && row[k] == text
}

/// The name of a feature, nothing where there is none.
pub open spec fn name_of_feature(feature: Option<Feature>) -> Seq<char> {
    match feature {
        Some(feature) => feature.label(),
        None => ""@,
    }
}

/// The name of an outlier's kind, nothing where it is none.
pub open spec fn name_of_kind(kind: Option<OutlierKind>) -> Seq<char> {
    match kind {
        Some(OutlierKind::Workload) => "workload"@,
        Some(OutlierKind::Network) => "network"@,
        Some(OutlierKind::Both) => "both"@,
        None => ""@,
    }
}

/// Law: the row of a connection holds under each name what that name says.
pub proof fn law_connection_cells(c: AnalyzedView, a: Arithmetic, w: Notation)
    ensures
        ({
            let m = c.metrics;
            let columns = connection_columns();
            let row = connection_row(c, a, w);
            &&& row.len() == 45 && columns.len() == 45
            &&& has_cell(columns, row, 0, "path"@, m.path)
            &&& has_cell(columns, row, 1, "title"@, text_or_empty(m.title))
            &&& has_cell(columns, row, 2, "vantage_point"@, m.vantage_point)
            &&& has_cell(columns, row, 3, "file_size_bytes"@, decimal(m.file_size_bytes as nat))
            &&& has_cell(columns, row, 4, "event_count"@, decimal(m.event_count))
            &&& has_cell(columns, row, 5, "start_time_ms"@, opt_number_text(m.start_time_ms, w))
            &&& has_cell(columns, row, 6, "end_time_ms"@, opt_number_text(m.end_time_ms, w))
            &&& has_cell(columns, row, 7, "duration_ms"@, opt_number_text(time_span(m, a), w))
            &&& has_cell(columns, row, 8, "packets_sent"@, decimal(m.packets_sent))
            &&& has_cell(columns, row, 9, "packets_received"@, decimal(m.packets_received))
            &&& has_cell(columns, row, 10, "packets_lost"@, decimal(lost_count(m)))
            &&& has_cell(
                columns,
                row,
                11,
                "loss_rate_pct"@,
                opt_number_text(reading(Feature::LossRate, m, a), w),
            )
            &&& has_cell(columns, row, 12, "bytes_sent"@, decimal(m.bytes_sent))
            &&& has_cell(columns, row, 13, "bytes_received"@, decimal(m.bytes_received))
            &&& has_cell(
                columns,
                row,
                14,
                "packet_size_missing_sent"@,
                decimal(m.packet_size_missing_sent),
            )
            &&& has_cell(
                columns,
                row,
                15,
                "packet_size_missing_received"@,
                decimal(m.packet_size_missing_received),
            )
            &&& has_cell(columns, row, 16, "unique_streams"@, decimal(m.unique_streams))
            &&& has_cell(columns, row, 17, "client_bidi_streams"@, decimal(m.client_bidi_streams))
            &&& has_cell(
                columns,
                row,
                18,
                "smoothed_rtt_sample_count"@,
                decimal(m.smoothed_rtt_sample_count),
            )
            &&& has_cell(
                columns,
                row,
                19,
                "smoothed_rtt_median_ms"@,
                opt_number_text(m.smoothed_rtt_median_ms, w),
            )
            &&& has_cell(
                columns,
                row,
                20,
                "smoothed_rtt_p95_ms"@,
                opt_number_text(m.smoothed_rtt_p95_ms, w),
            )
            &&& has_cell(
                columns,
                row,
                21,
                "smoothed_rtt_final_ms"@,
                opt_number_text(m.smoothed_rtt_final_ms, w),
            )
            &&& has_cell(
                columns,
                row,
                22,
                "rtt_variance_final_ms"@,
                opt_number_text(m.rtt_variance_final_ms, w),
            )
            &&& has_cell(
                columns,
                row,
                23,
                "min_rtt_final_ms"@,
                opt_number_text(m.min_rtt_final_ms, w),
            )
            &&& has_cell(
                columns,
                row,
                24,
                "congestion_window_final_bytes"@,
                opt_integer_text(m.congestion_window_final_bytes),
            )
            &&& has_cell(
                columns,
                row,
                25,
                "congestion_window_max_bytes"@,
                opt_integer_text(m.congestion_window_max_bytes),
            )
            &&& has_cell(
                columns,
                row,
                26,
                "bytes_in_flight_max"@,
                opt_integer_text(m.bytes_in_flight_max),
            )
            &&& has_cell(columns, row, 27, "pto_count"@, decimal(timeout_count(m)))
            &&& has_cell(columns, row, 28, "pto_max_consecutive"@, decimal(m.pto_max_consecutive))
            &&& has_cell(
                columns,
                row,
                29,
                "pto_per_1000_packets"@,
                opt_number_text(reading(Feature::PtoRate, m, a), w),
            )
            &&& has_cell(columns, row, 30, "blocked_events"@, decimal(m.blocked_events))
            &&& has_cell(columns, row, 31, "migration_events"@, decimal(m.migration_events))
            &&& has_cell(columns, row, 32, "migrations_completed"@, decimal(m.migrations_completed))
            &&& has_cell(columns, row, 33, "handshake_completed"@, bool_name(m.handshake_completed))
            &&& has_cell(columns, row, 34, "handshake_confirmed"@, bool_name(m.handshake_confirmed))
            &&& has_cell(columns, row, 35, "close_initiator"@, text_or_empty(m.close_initiator))
            &&& has_cell(columns, row, 36, "close_trigger"@, text_or_empty(m.close_trigger))
            &&& has_cell(columns, row, 37, "close_reason"@, text_or_empty(m.close_reason))
            &&& has_cell(columns, row, 38, "close_error"@, text_or_empty(m.close_error))
            &&& has_cell(columns, row, 39, "workload_score"@, opt_number_text(c.workload_score, w))
            &&& has_cell(columns, row, 40, "network_score"@, opt_number_text(c.network_score, w))
            &&& has_cell(
                columns,
                row,
                41,
                "typicality_score"@,
                opt_number_text(c.typicality_score, w),
            )
            &&& has_cell(columns, row, 42, "max_abs_z"@, opt_number_text(c.max_abs_z, w))
            &&& has_cell(
                columns,
                row,
                43,
                "strongest_feature"@,
                name_of_feature(c.strongest_feature),
            )
            &&& has_cell(columns, row, 44, "outlier_kind"@, name_of_kind(c.outlier_kind))
        }),
{
    law_features_read_the_metrics(Feature::LossRate, c.metrics, a);
}

/// Law: the columns and the row of a connection end with its scores, each under the name of
/// its feature.
pub proof fn law_connection_rows_end_with_scores(
    c: AnalyzedView,
    a: Arithmetic,
    w: Notation,
    k: int,
)
    requires
        c.feature_z_scores.len() == 9,
        0 <= k < 9,
    ensures
        ({
            let n = connection_columns().len() as int;
            let columns = all_connection_columns();
            let row = whole_connection_row(c, a, w);
            &&& columns.len() == n + 9
            &&& row.len() == n + 9
            &&& columns.take(n) == connection_columns()
            &&& row.take(n) == connection_row(c, a, w)
            &&& columns[n + k] == "z_"@ + nth_feature(k).label()
            &&& row[n + k] == opt_number_text(c.feature_z_scores[k], w)
        }),
{
    let n = connection_columns().len() as int;
    law_features_are_named(k);
    assert(all_connection_columns().take(n) =~= connection_columns());
    assert(whole_connection_row(c, a, w).take(n) =~= connection_row(c, a, w));
}

/// Law: the row of an outlier holds under each name what that name says.
pub proof fn law_outlier_cells(c: AnalyzedView, a: Arithmetic, w: Notation)
    ensures
        ({
            let m = c.metrics;
            let columns = outlier_columns();
            let row = outlier_row(c, a, w);
            &&& row.len() == 16 && columns.len() == 16
            &&& has_cell(columns, row, 0, "path"@, m.path)
            &&& has_cell(columns, row, 1, "outlier_kind"@, name_of_kind(c.outlier_kind))
            &&& has_cell(columns, row, 2, "workload_score"@, opt_number_text(c.workload_score, w))
            &&& has_cell(columns, row, 3, "network_score"@, opt_number_text(c.network_score, w))
            &&& has_cell(
                columns,
                row,
                4,
                "typicality_score"@,
                opt_number_text(c.typicality_score, w),
            )
            &&& has_cell(columns, row, 5, "max_abs_z"@, opt_number_text(c.max_abs_z, w))
            &&& has_cell(
                columns,
                row,
                6,
                "strongest_feature"@,
                name_of_feature(c.strongest_feature),
            )
            &&& has_cell(columns, row, 7, "duration_ms"@, opt_number_text(time_span(m, a), w))
            &&& has_cell(
                columns,
                row,
                8,
                "total_bytes"@,
                decimal(capped(m.bytes_sent, m.bytes_received) as nat),
            )
            &&& has_cell(
                columns,
                row,
                9,
                "total_packets"@,
                decimal(capped(m.packets_sent, m.packets_received) as nat),
            )
            &&& has_cell(columns, row, 10, "client_bidi_streams"@, decimal(m.client_bidi_streams))
            &&& has_cell(
                columns,
                row,
                11,
                "smoothed_rtt_median_ms"@,
                opt_number_text(m.smoothed_rtt_median_ms, w),
            )
            &&& has_cell(
                columns,
                row,
                12,
                "loss_rate_pct"@,
                opt_number_text(reading(Feature::LossRate, m, a), w),
            )
            &&& has_cell(
                columns,
                row,
                13,
                "pto_per_1000_packets"@,
                opt_number_text(reading(Feature::PtoRate, m, a), w),
            )
            &&& has_cell(columns, row, 14, "blocked_events"@, decimal(m.blocked_events))
            &&& has_cell(columns, row, 15, "migrations_completed"@, decimal(m.migrations_completed))
        }),
{
    law_features_read_the_metrics(Feature::LossRate, c.metrics, a);
}

/// Law: the row of a distribution names its feature, and holds under each name that figure
/// of its values, or of its values as they are compared; figures that are missing are empty.
pub proof fn law_distribution_cells(d: Distribution, raw: Summary, model: Summary, w: Notation)
    ensures
        ({
            let columns = distribution_columns();
            let row = distribution_row(d, w);
            &&& row.len() == 16 && columns.len() == 16
            &&& has_cell(columns, row, 0, "feature"@, d.feature.label())
            &&& has_cell(columns, row, 1, "group"@, d.feature.tells_about().label())
            &&& has_cell(columns, row, 2, "transform"@, d.feature.treatment().label())
            &&& has_cell(columns, row, 15, "model_scale"@, opt_number_text(d.model_scale, w))
            &&& d.raw == Some(raw) ==> {
                &&& has_cell(columns, row, 3, "count"@, decimal(raw.count as nat))
                &&& has_cell(columns, row, 4, "min"@, number_text(raw.min, w))
                &&& has_cell(columns, row, 5, "p05"@, number_text(raw.p05, w))
                &&& has_cell(columns, row, 6, "p25"@, number_text(raw.p25, w))
                &&& has_cell(columns, row, 7, "median"@, number_text(raw.median, w))
                &&& has_cell(columns, row, 8, "mean"@, number_text(raw.mean, w))
                &&& has_cell(columns, row, 9, "p75"@, number_text(raw.p75, w))
                &&& has_cell(columns, row, 10, "p95"@, number_text(raw.p95, w))
                &&& has_cell(columns, row, 11, "max"@, number_text(raw.max, w))
                &&& has_cell(columns, row, 12, "mad"@, number_text(raw.mad, w))
            }
            &&& d.raw is None ==> {
                &&& has_cell(columns, row, 3, "count"@, ""@)
                &&& has_cell(columns, row, 4, "min"@, ""@)
                &&& has_cell(columns, row, 5, "p05"@, ""@)
                &&& has_cell(columns, row, 6, "p25"@, ""@)
                &&& has_cell(columns, row, 7, "median"@, ""@)
                &&& has_cell(columns, row, 8, "mean"@, ""@)
                &&& has_cell(columns, row, 9, "p75"@, ""@)
                &&& has_cell(columns, row, 10, "p95"@, ""@)
                &&& has_cell(columns, row, 11, "max"@, ""@)
                &&& has_cell(columns, row, 12, "mad"@, ""@)
            }
            &&& d.model == Some(model) ==> {
                &&& has_cell(columns, row, 13, "model_median"@, number_text(model.median, w))
                &&& has_cell(columns, row, 14, "model_mad"@, number_text(model.mad, w))
            }
            &&& d.model is None ==> {
                &&& has_cell(columns, row, 13, "model_median"@, ""@)
                &&& has_cell(columns, row, 14, "model_mad"@, ""@)
            }
        }),
{
}

/// Law: the columns of the table of failures are the path and the error.
pub proof fn law_failure_columns()
    ensures
        failure_columns() == seq!["path"@, "error"@],
{
}

/// Law: a connection more is one outlier more, the last, if it has a label, and none if it
/// has not.
pub proof fn law_labelled_connections_are_outliers(
    connections: Seq<AnalyzedConnection>,
    connection: AnalyzedConnection,
)
    ensures
        outliers_among(Seq::<AnalyzedConnection>::empty()).len() == 0,
        connection.outlier_kind is Some ==> outliers_among(connections.push(connection))
            == outliers_among(connections).push(Outlier { connection: &connection }),
        connection.outlier_kind is None ==> outliers_among(connections.push(connection))
            == outliers_among(connections),
{
    assert(connections.push(connection).drop_last() =~= connections);
}

/// How far an outlier is from the center by its strongest score, zero where it has none.
pub open spec fn distance_of(connection: AnalyzedConnection) -> int {
    match connection.max_abs_z {
        Some(score) => score.rank(),
        None => 0,
    }
}

/// Law: the outliers are listed by their strongest scores, the strongest first, and those
/// that share them by their paths; none is left out.
pub proof fn law_the_strongest_come_first(
    connections: Seq<AnalyzedConnection>,
    outliers: Seq<Outlier>,
    k: int,
    l: int,
)
    requires
        is_stable_sort(outliers_among(connections), outliers),
        connections.len() <= usize::MAX,
        0 <= k < l < outliers.len(),
    ensures
        outliers.to_multiset() == outliers_among(connections).to_multiset(),
        distance_of(*outliers[k].connection) >= distance_of(*outliers[l].connection),
        distance_of(*outliers[k].connection) == distance_of(*outliers[l].connection) ==> text_le(
            outliers[k].connection.metrics.path@,
            outliers[l].connection.metrics.path@,
        ),
{
    lemma_outliers_fit(connections);
    law_stable_sort(outliers_among(connections), outliers, outliers);
    law_outliers_descend(connections, outliers, k, l);
}

/// The text holds another, somewhere.
pub open spec fn holds(text: Seq<char>, piece: Seq<char>) -> bool {
    exists|i: int|
        0 <= i <= text.len() - piece.len() && #[trigger] text.subrange(i, i + piece.len()) == piece
}

/// A text that is put between others is held by the whole.
proof fn lemma_holds(x: Seq<Seq<char>>, y: Seq<Seq<char>>, z: Seq<Seq<char>>)
    ensures
        holds(concatenated(x + y + z), concatenated(y)),
{
    law_texts_follow_each_other(x, y);
    law_texts_follow_each_other(x + y, z);
    let text = concatenated(x + y + z);
    let i = concatenated(x).len() as int;
    assert(text.subrange(i, i + concatenated(y).len()) =~= concatenated(y));
}

/// Law: at most twenty-five items are listed, and all where there are no more.
pub proof fn law_few_items_are_listed(count: nat)
    ensures
        listed(count) == (if count <= 25 {
            count as int
        } else {
            25
        }),
{
}

/// The line of an outlier.
pub open spec fn line_of_outlier(c: AnalyzedView, w: Notation) -> Seq<Seq<char>> {
    seq![
        "| "@,
        markdown_text(c.metrics.path),
        " | "@,
        name_of_kind(c.outlier_kind),
        " | "@,
        name_of_feature(c.strongest_feature),
        " | "@,
        opt_number_text(c.max_abs_z, w),
        " | "@,
        opt_number_text(c.typicality_score, w),
        " |\n"@,
    ]
}

/// The lines of outliers stand one after another.
proof fn lemma_outlier_lines(outliers: Seq<Outlier>, w: Notation, k: int)
    requires
        0 <= k < outliers.len(),
    ensures
        outlier_lines(outliers, w).len() == 11 * outliers.len(),
        outlier_lines(outliers, w).subrange(11 * k, 11 * k + 11) == line_of_outlier(
            outliers[k].connection@,
            w,
        ),
    decreases outliers.len(),
{
    let shorter = outliers.drop_last();
    let n = outliers.len() - 1;
    if n > 0 {
        lemma_outlier_lines(shorter, w, if k < n { k } else { 0 });
    }
    assert(outlier_lines(shorter, w).len() == 11 * n);
    let all = outlier_lines(outliers, w);
    if k < n {
        assert(all.subrange(11 * k, 11 * k + 11) =~= outlier_lines(shorter, w).subrange(
            11 * k,
            11 * k + 11,
        ));
    } else {
        assert(all.subrange(11 * k, 11 * k + 11) =~= line_of_outlier(outliers[k].connection@, w));
    }
}

/// The line of a failure.
pub open spec fn line_of_failure(failure: ParseFailure) -> Seq<Seq<char>> {
    seq!["| "@, markdown_text(failure.path@), " | "@, markdown_text(failure.error@), " |\n"@]
}

/// The lines of failures stand one after another.
proof fn lemma_failure_lines(failures: Seq<ParseFailure>, k: int)
    requires
        0 <= k < failures.len(),
    ensures
        failure_lines(failures).len() == 5 * failures.len(),
        failure_lines(failures).subrange(5 * k, 5 * k + 5) == line_of_failure(failures[k]),
    decreases failures.len(),
{
    let shorter = failures.drop_last();
    let n = failures.len() - 1;
    if n > 0 {
        lemma_failure_lines(shorter, if k < n { k } else { 0 });
    }
    assert(failure_lines(shorter).len() == 5 * n);
    let all = failure_lines(failures);
    if k < n {
        assert(all.subrange(5 * k, 5 * k + 5) =~= failure_lines(shorter).subrange(
            5 * k,
            5 * k + 5,
        ));
    } else {
        assert(all.subrange(5 * k, 5 * k + 5) =~= line_of_failure(failures[k]));
    }
}

/// The line of a distribution.
pub open spec fn line_of_distribution(d: Distribution, w: Notation) -> Seq<Seq<char>> {
    let (count, median, p95, mad) = match d.raw {
        Some(s) => (
            decimal(s.count as nat),
            number_text(s.median, w),
            number_text(s.p95, w),
            number_text(s.mad, w),
        ),
        None => (""@, ""@, ""@, ""@),
    };
    seq![
        "| "@,
        d.feature.label(),
        " | "@,
        d.feature.tells_about().label(),
        " | "@,
        d.feature.treatment().label(),
        " | "@,
        count,
        " | "@,
        median,
        " | "@,
        p95,
        " | "@,
        mad,
        " |\n"@,
    ]
}

/// The lines of distributions stand one after another.
proof fn lemma_distribution_lines(distributions: Seq<Distribution>, w: Notation, k: int)
    requires
        0 <= k < distributions.len(),
    ensures
        distribution_lines(distributions, w).len() == 15 * distributions.len(),
        distribution_lines(distributions, w).subrange(15 * k, 15 * k + 15)
            == line_of_distribution(distributions[k], w),
    decreases distributions.len(),
{
    let shorter = distributions.drop_last();
    let n = distributions.len() - 1;
    if n > 0 {
        lemma_distribution_lines(shorter, w, if k < n { k } else { 0 });
    }
    assert(distribution_lines(shorter, w).len() == 15 * n);
    let all = distribution_lines(distributions, w);
    if k < n {
        assert(all.subrange(15 * k, 15 * k + 15) =~= distribution_lines(shorter, w).subrange(
            15 * k,
            15 * k + 15,
        ));
    } else {
        assert(all.subrange(15 * k, 15 * k + 15) =~= line_of_distribution(distributions[k], w));
    }
}

/// A piece of the parts of a report is held by the report.
proof fn lemma_piece(parts: Seq<Seq<char>>, from: int, piece: Seq<Seq<char>>)
    requires
        0 <= from,
        from + piece.len() <= parts.len(),
        parts.subrange(from, from + piece.len()) == piece,
    ensures
        holds(concatenated(parts), concatenated(piece)),
{
    let to = from + piece.len();
    assert(parts =~= parts.take(from) + piece + parts.skip(to));
    lemma_holds(parts.take(from), piece, parts.skip(to));
}

/// The numbers at the beginning of a report.
pub open spec fn numbers_of_report(
    connections: nat,
    failures: nat,
    outliers: nat,
    threshold: Double,
    w: Notation,
) -> Seq<Seq<char>> {
    seq![
        "# qlog analysis\n\n- Connections parsed: "@,
        decimal(connections),
        "\n- Files that failed: "@,
        decimal(failures),
        "\n- Outliers: "@,
        decimal(outliers),
        "\n- Outlier threshold: "@,
        number_text(threshold, w),
        "\n"@,
    ]
}

/// The table of the connection that represents the others.
pub open spec fn table_of_representative(c: AnalyzedView, a: Arithmetic, w: Notation) -> Seq<
    Seq<char>,
> {
    let m = c.metrics;
    seq![
        "The existing connection closest to the robust workload center is **"@,
        markdown_text(m.path),
        "**.\n\n| Metric | Value |\n|---|---:|\n| Duration (ms) | "@,
        opt_number_text(time_span(m, a), w),
        " |\n| Total bytes | "@,
        decimal(capped(m.bytes_sent, m.bytes_received) as nat),
        " |\n| Total packets | "@,
        decimal(capped(m.packets_sent, m.packets_received) as nat),
        " |\n| Client bidi streams | "@,
        decimal(m.client_bidi_streams),
        " |\n| Median smoothed RTT (ms) | "@,
        opt_number_text(m.smoothed_rtt_median_ms, w),
        " |\n| Loss rate (%) | "@,
        opt_number_text(reading(Feature::LossRate, m, a), w),
        " |\n| Workload score | "@,
        opt_number_text(c.workload_score, w),
        " |\n| Network score | "@,
        opt_number_text(c.network_score, w),
        " |\n"@,
    ]
}

/// The parts of a report, from the sections that it has.
pub open spec fn sections(
    analysis: Analysis,
    failures: Seq<ParseFailure>,
    outliers: Seq<Outlier>,
    a: Arithmetic,
    w: Notation,
) -> Seq<Seq<Seq<char>>> {
    seq![
        summary_section(
            analysis.connections@.len(),
            failures.len(),
            outliers.len(),
            analysis.threshold,
            w,
        ),
        representative_section(
            analyzed_views(analysis.connections@),
            analysis.representative,
            a,
            w,
        ),
        distribution_section(analysis.distributions@, w),
        outlier_section(outliers, w),
        failure_section(failures),
        notes_section(),
    ]
}

/// A piece of a section is held by the whole of six of them.
proof fn lemma_in_section(s: Seq<Seq<Seq<char>>>, i: int, from: int, piece: Seq<Seq<char>>)
    requires
        s.len() == 6,
        0 <= i < 6,
        0 <= from,
        from + piece.len() <= s[i].len(),
        s[i].subrange(from, from + piece.len()) == piece,
    ensures
        holds(
            concatenated(s[0] + s[1] + s[2] + s[3] + s[4] + s[5]),
            concatenated(piece),
        ),
{
    let none = Seq::<Seq<char>>::empty();
    let before = if i == 0 {
        none
    } else if i == 1 {
        s[0]
    } else if i == 2 {
        s[0] + s[1]
    } else if i == 3 {
        s[0] + s[1] + s[2]
    } else if i == 4 {
        s[0] + s[1] + s[2] + s[3]
    } else {
        s[0] + s[1] + s[2] + s[3] + s[4]
    };
    let after = if i == 0 {
        s[1] + s[2] + s[3] + s[4] + s[5]
    } else if i == 1 {
        s[2] + s[3] + s[4] + s[5]
    } else if i == 2 {
        s[3] + s[4] + s[5]
    } else if i == 3 {
        s[4] + s[5]
    } else if i == 4 {
        s[5]
    } else {
        none
    };
    let whole = s[0] + s[1] + s[2] + s[3] + s[4] + s[5];
    assert(whole =~= before + s[i] + after);
    let start = before.len() + from;
    assert(whole.subrange(start, start + piece.len()) =~= s[i].subrange(
        from,
        from + piece.len(),
    ));
    lemma_piece(whole, start, piece);
}

/// A report is made of its sections, with the sorted outliers.
proof fn lemma_report(
    analysis: Analysis,
    failures: Seq<ParseFailure>,
    a: Arithmetic,
    w: Notation,
    text: Seq<char>,
    outliers: Seq<Outlier>,
)
    requires
        is_report(analysis, failures, a, w, text),
        is_stable_sort(outliers_among(analysis.connections@), outliers),
        analysis.connections@.len() <= usize::MAX,
    ensures
        outliers.len() == outliers_among(analysis.connections@).len(),
        ({
            let s = sections(analysis, failures, outliers, a, w);
            text == concatenated(s[0] + s[1] + s[2] + s[3] + s[4] + s[5])
        }),
{
    let all = outliers_among(analysis.connections@);
    let sorted = choose|sorted: Seq<Outlier>|
        #[trigger] is_stable_sort(all, sorted) && text == concatenated(
            report_parts(analysis, failures, sorted, a, w),
        );
    lemma_outliers_fit(analysis.connections@);
    law_stable_sort(all, sorted, outliers);
    law_stable_sort(all, outliers, sorted);
    assert(sorted == outliers);
}

/// Law: a report says how many connections, failures and outliers there are, and what the
/// threshold is.
pub proof fn law_report_states_numbers(
    analysis: Analysis,
    failures: Seq<ParseFailure>,
    a: Arithmetic,
    w: Notation,
    text: Seq<char>,
    outliers: Seq<Outlier>,
)
    requires
        is_report(analysis, failures, a, w, text),
        is_stable_sort(outliers_among(analysis.connections@), outliers),
        analysis.connections@.len() <= usize::MAX,
    ensures
        holds(
            text,
            concatenated(
                numbers_of_report(
                    analysis.connections@.len(),
                    failures.len(),
                    outliers_among(analysis.connections@).len(),
                    analysis.threshold,
                    w,
                ),
            ),
        ),
{
    lemma_report(analysis, failures, a, w, text, outliers);
    let s = sections(analysis, failures, outliers, a, w);
    let first = numbers_of_report(
        analysis.connections@.len(),
        failures.len(),
        outliers.len(),
        analysis.threshold,
        w,
    );
    assert(s[0].subrange(0, first.len() as int) =~= first);
    lemma_in_section(s, 0, 0, first);
}

/// Law: a report shows the connection that represents the others, or says that there is
/// none.
pub proof fn law_report_shows_the_representative(
    analysis: Analysis,
    failures: Seq<ParseFailure>,
    a: Arithmetic,
    w: Notation,
    text: Seq<char>,
    outliers: Seq<Outlier>,
)
    requires
        is_report(analysis, failures, a, w, text),
        is_stable_sort(outliers_among(analysis.connections@), outliers),
        analysis.connections@.len() <= usize::MAX,
        analysis.representative matches Some(index) ==> index < analysis.connections@.len(),
    ensures
        analysis.representative matches Some(index) ==> holds(
            text,
            concatenated(
                table_of_representative(analysis.connections@[index as int]@, a, w),
            ),
        ),
        analysis.representative is None ==> holds(
            text,
            concatenated(seq!["No connection had enough workload data.\n"@]),
        ),
{
    lemma_report(analysis, failures, a, w, text, outliers);
    let s = sections(analysis, failures, outliers, a, w);
    match analysis.representative {
        Some(index) => {
            let c = analysis.connections@[index as int]@;
            assert(analyzed_views(analysis.connections@)[index as int] == c);
            let table = table_of_representative(c, a, w);
            law_features_read_the_metrics(Feature::LossRate, c.metrics, a);
            assert(s[1].subrange(1, table.len() + 1int) =~= table);
            lemma_in_section(s, 1, 1, table);
        },
        None => {
            let line = seq!["No connection had enough workload data.\n"@];
            assert(s[1].subrange(1, line.len() + 1int) =~= line);
            lemma_in_section(s, 1, 1, line);
        },
    }
}

/// Law: a report has a line for each distribution.
pub proof fn law_report_lists_distributions(
    analysis: Analysis,
    failures: Seq<ParseFailure>,
    a: Arithmetic,
    w: Notation,
    text: Seq<char>,
    outliers: Seq<Outlier>,
    k: int,
)
    requires
        is_report(analysis, failures, a, w, text),
        is_stable_sort(outliers_among(analysis.connections@), outliers),
        analysis.connections@.len() <= usize::MAX,
        0 <= k < analysis.distributions@.len(),
    ensures
        holds(text, concatenated(line_of_distribution(analysis.distributions@[k], w))),
{
    lemma_report(analysis, failures, a, w, text, outliers);
    let s = sections(analysis, failures, outliers, a, w);
    let line = line_of_distribution(analysis.distributions@[k], w);
    let lines = distribution_lines(analysis.distributions@, w);
    lemma_distribution_lines(analysis.distributions@, w, k);
    assert(s[2].subrange(4 + 15 * k, 4 + 15 * k + 15) =~= lines.subrange(15 * k, 15 * k + 15));
    lemma_in_section(s, 2, 4 + 15 * k, line);
}

/// Law: a report has a line for each of the strongest outliers, up to twenty-five, or says
/// that there are none.
pub proof fn law_report_lists_outliers(
    analysis: Analysis,
    failures: Seq<ParseFailure>,
    a: Arithmetic,
    w: Notation,
    text: Seq<char>,
    outliers: Seq<Outlier>,
    k: int,
)
    requires
        is_report(analysis, failures, a, w, text),
        is_stable_sort(outliers_among(analysis.connections@), outliers),
        analysis.connections@.len() <= usize::MAX,
        0 <= k < 25,
    ensures
        outliers.len() > 0 ==> outlier_section(outliers, w).len() == 3 + 11 * listed(
            outliers.len(),
        ),
        k < outliers.len() ==> holds(
            text,
            concatenated(line_of_outlier(outliers[k].connection@, w)),
        ),
        outliers.len() == 0 ==> holds(
            text,
            concatenated(seq!["No connection crossed the configured threshold.\n"@]),
        ),
{
    lemma_report(analysis, failures, a, w, text, outliers);
    let s = sections(analysis, failures, outliers, a, w);
    if outliers.len() == 0 {
        let line = seq!["No connection crossed the configured threshold.\n"@];
        assert(s[3].subrange(1, line.len() + 1int) =~= line);
        lemma_in_section(s, 3, 1, line);
    } else {
        lemma_outlier_lines(outliers.take(listed(outliers.len())), w, 0);
    }
    if k < outliers.len() {
        let shown = outliers.take(listed(outliers.len()));
        let line = line_of_outlier(outliers[k].connection@, w);
        let lines = outlier_lines(shown, w);
        lemma_outlier_lines(shown, w, k);
        assert(s[3].subrange(3 + 11 * k, 3 + 11 * k + 11) =~= lines.subrange(
            11 * k,
            11 * k + 11,
        ));
        lemma_in_section(s, 3, 3 + 11 * k, line);
    }
}

/// Law: a report has a line for each failure, up to twenty-five.
pub proof fn law_report_lists_failures(
    analysis: Analysis,
    failures: Seq<ParseFailure>,
    a: Arithmetic,
    w: Notation,
    text: Seq<char>,
    outliers: Seq<Outlier>,
    k: int,
)
    requires
        is_report(analysis, failures, a, w, text),
        is_stable_sort(outliers_among(analysis.connections@), outliers),
        analysis.connections@.len() <= usize::MAX,
        0 <= k < 25,
        k < failures.len(),
    ensures
        failure_section(failures).len() == 1 + 5 * listed(failures.len()),
        holds(text, concatenated(line_of_failure(failures[k]))),
{
    lemma_report(analysis, failures, a, w, text, outliers);
    let s = sections(analysis, failures, outliers, a, w);
    let shown = failures.take(listed(failures.len()));
    let line = line_of_failure(failures[k]);
    let lines = failure_lines(shown);
    lemma_failure_lines(shown, k);
    assert(s[4].subrange(1 + 5 * k, 1 + 5 * k + 5) =~= lines.subrange(5 * k, 5 * k + 5));
    lemma_in_section(s, 4, 1 + 5 * k, line);
}

} // verus!
