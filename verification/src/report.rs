//! The report in words and tables, in Markdown.

use crate::analysis::{analyzed_views, Analysis, AnalyzedConnection, AnalyzedView};
use crate::arithmetic::{follows, is_total, Arithmetic, Operation};
use crate::double::Double;
use crate::notation::{
    concatenate, concatenated, fmt, fmt_opt, markdown, markdown_text, number_text,
    opt_number_text, writes, writes_all, Notation,
};
use crate::order::{is_stable_sort, law_stable_sort};
use crate::output::{
    count_text, feature_label, feature_name, figure_text, kind_label, kind_name, outliers_among,
    sorted_outliers, summary_count, Outlier, ParseFailure,
};
use crate::stats::{Distribution, Summary};
use crate::text::{decimal, decimal_text, views};
use vstd::prelude::*;
use vstd::string::*;

verus! {

/// How many outliers, and how many failures, a report lists at most.
pub const REPORT_LIMIT: usize = 25;

/// The number of items that a report lists out of so many.
pub open spec fn listed(count: nat) -> int {
    if count < REPORT_LIMIT {
        count as int
    } else {
        REPORT_LIMIT as int
    }
}

/// Puts texts at the end of others.
fn extend(parts: &mut Vec<String>, more: Vec<String>)
    ensures
        views(final(parts)@) == views(old(parts)@) + views(more@),
{
    let mut more = more;
    let ghost first = parts@;
    let ghost second = more@;
    parts.append(&mut more);
    assert(views(parts@) =~= views(first) + views(second));
}

/// The beginning of the report: how many connections, failures and outliers.
pub open spec fn summary_section(
    connections: nat,
    failures: nat,
    outliers: nat,
    threshold: Double,
    w: Notation,
) -> Seq<Seq<char>> {
    seq![
        "# qlog analysis\n\n- Connections parsed: "@,
        decimal(connections),
        "\n- Files that failed: "@,
        decimal(failures),
        "\n- Outliers: "@,
        decimal(outliers),
        "\n- Outlier threshold: "@,
        number_text(threshold, w),
        "\n"@,
    ]
}

/// Writes the beginning of the report.
fn write_summary<N: Fn(Double) -> String>(
    connections: usize,
    failures: usize,
    outliers: usize,
    threshold: Double,
    notation: &N,
) -> (parts: Vec<String>)
    requires
        writes_all(*notation),
    ensures
        forall|w: Notation| #[trigger]
            writes(*notation, w) ==> views(parts@) == summary_section(
                connections as nat,
                failures as nat,
                outliers as nat,
                threshold,
                w,
            ),
{
    let parts = vec![
        "# qlog analysis\n\n- Connections parsed: ".to_owned(),
        decimal_text(connections as u64),
        "\n- Files that failed: ".to_owned(),
        decimal_text(failures as u64),
        "\n- Outliers: ".to_owned(),
        decimal_text(outliers as u64),
        "\n- Outlier threshold: ".to_owned(),
        fmt(threshold, notation),
        "\n".to_owned(),
    ];
    assert forall|w: Notation| #[trigger] writes(*notation, w) implies views(parts@)
        == summary_section(
        connections as nat,
        failures as nat,
        outliers as nat,
        threshold,
        w,
    ) by {
        assert(views(parts@) =~= summary_section(
            connections as nat,
            failures as nat,
            outliers as nat,
            threshold,
            w,
        ));
    }
    parts
}

/// The table of the connection that represents the others best.
pub open spec fn representative_table(c: AnalyzedView, a: Arithmetic, w: Notation) -> Seq<
    Seq<char>,
> {
    let m = c.metrics;
    seq![
        "The existing connection closest to the robust workload center is **"@,
        markdown_text(m.path),
        "**.\n\n| Metric | Value |\n|---|---:|\n| Duration (ms) | "@,
        opt_number_text(m.duration(a), w),
        " |\n| Total bytes | "@,
        decimal(m.total_bytes()),
        " |\n| Total packets | "@,
        decimal(m.total_packets()),
        " |\n| Client bidi streams | "@,
        decimal(m.client_bidi_streams),
        " |\n| Median smoothed RTT (ms) | "@,
        opt_number_text(m.smoothed_rtt_median_ms, w),
        " |\n| Loss rate (%) | "@,
        opt_number_text(m.loss_rate(a), w),
        " |\n| Workload score | "@,
        opt_number_text(c.workload_score, w),
        " |\n| Network score | "@,
        opt_number_text(c.network_score, w),
        " |\n"@,
    ]
}

/// Writes the table of the connection that represents the others best.
fn write_representative_table<E: Fn(Operation) -> Double, N: Fn(Double) -> String>(
    connection: &AnalyzedConnection,
    evaluate: &E,
    notation: &N,
) -> (parts: Vec<String>)
    requires
        is_total(*evaluate),
        writes_all(*notation),
    ensures
        forall|a: Arithmetic, w: Notation|
            #![trigger follows(*evaluate, a), writes(*notation, w)]
            follows(*evaluate, a) && writes(*notation, w) ==> views(parts@)
                == representative_table(connection@, a, w),
{
    let metrics = &connection.metrics;
    let parts = vec![
        "The existing connection closest to the robust workload center is **".to_owned(),
        markdown(metrics.path.as_str()),
        "**.\n\n| Metric | Value |\n|---|---:|\n| Duration (ms) | ".to_owned(),
        fmt_opt(metrics.duration_ms(evaluate), notation),
        " |\n| Total bytes | ".to_owned(),
        decimal_text(metrics.total_bytes()),
        " |\n| Total packets | ".to_owned(),
        decimal_text(metrics.total_packets()),
        " |\n| Client bidi streams | ".to_owned(),
        decimal_text(metrics.client_bidi_streams() as u64),
        " |\n| Median smoothed RTT (ms) | ".to_owned(),
        fmt_opt(metrics.smoothed_rtt_median_ms(), notation),
        " |\n| Loss rate (%) | ".to_owned(),
        fmt_opt(metrics.loss_rate_pct(evaluate), notation),
        " |\n| Workload score | ".to_owned(),
        fmt_opt(connection.workload_score, notation),
        " |\n| Network score | ".to_owned(),
        fmt_opt(connection.network_score, notation),
        " |\n".to_owned(),
    ];
    assert forall|a: Arithmetic, w: Notation|
        #![trigger follows(*evaluate, a), writes(*notation, w)]
        follows(*evaluate, a) && writes(*notation, w) implies views(parts@)
        == representative_table(connection@, a, w) by {
        assert(views(parts@) =~= representative_table(connection@, a, w));
    }
    parts
}

/// The section on the connection that represents the others best.
pub open spec fn representative_section(
    connections: Seq<AnalyzedView>,
    representative: Option<usize>,
    a: Arithmetic,
    w: Notation,
) -> Seq<Seq<char>> {
    seq!["\n## Representative connection\n\n"@] + match representative {
        Some(index) => representative_table(connections[index as int], a, w),
        None => seq!["No connection had enough workload data.\n"@],
    }
}

/// Writes the section on the connection that represents the others best.
fn write_representative<E: Fn(Operation) -> Double, N: Fn(Double) -> String>(
    connections: &Vec<AnalyzedConnection>,
    representative: Option<usize>,
    evaluate: &E,
    notation: &N,
) -> (parts: Vec<String>)
    requires
        representative matches Some(index) ==> index < connections@.len(),
        is_total(*evaluate),
        writes_all(*notation),
    ensures
        forall|a: Arithmetic, w: Notation|
            #![trigger follows(*evaluate, a), writes(*notation, w)]
            follows(*evaluate, a) && writes(*notation, w) ==> views(parts@)
                == representative_section(analyzed_views(connections@), representative, a, w),
{
    let mut parts = vec!["\n## Representative connection\n\n".to_owned()];
    let more = match representative {
        Some(index) => {
            assert(analyzed_views(connections@)[index as int] == connections@[index as int]@);
            write_representative_table(&connections[index], evaluate, notation)
        },
        None => vec!["No connection had enough workload data.\n".to_owned()],
    };
    extend(&mut parts, more);
    assert forall|a: Arithmetic, w: Notation|
        #![trigger follows(*evaluate, a), writes(*notation, w)]
        follows(*evaluate, a) && writes(*notation, w) implies views(parts@)
        == representative_section(analyzed_views(connections@), representative, a, w) by {
        assert(views(parts@) =~= representative_section(
            analyzed_views(connections@),
            representative,
            a,
            w,
        ));
    }
    parts
}

/// A line of the table of distributions.
pub open spec fn distribution_line(distribution: Distribution, w: Notation) -> Seq<Seq<char>> {
    let raw = distribution.raw;
    seq![
        "| "@,
        distribution.feature.label(),
        " | "@,
        distribution.feature.tells_about().label(),
        " | "@,
        distribution.feature.treatment().label(),
        " | "@,
        count_text(raw),
        " | "@,
        figure_text(raw, |s: Summary| s.median, w),
        " | "@,
        figure_text(raw, |s: Summary| s.p95, w),
        " | "@,
        figure_text(raw, |s: Summary| s.mad, w),
        " |\n"@,
    ]
}

/// Writes a line of the table of distributions.
fn write_distribution_line<N: Fn(Double) -> String>(distribution: &Distribution, notation: &N) -> (
    parts: Vec<String>)
    requires
        writes_all(*notation),
    ensures
        forall|w: Notation| #[trigger]
            writes(*notation, w) ==> views(parts@) == distribution_line(*distribution, w),
{
    let raw = distribution.raw;
    let (median, p95, mad) = match raw {
        Some(summary) => (Some(summary.median), Some(summary.p95), Some(summary.mad)),
        None => (None, None, None),
    };
    let parts = vec![
        "| ".to_owned(),
        distribution.feature.name().to_owned(),
        " | ".to_owned(),
        distribution.feature.group().as_str().to_owned(),
        " | ".to_owned(),
        distribution.feature.transform().as_str().to_owned(),
        " | ".to_owned(),
        summary_count(raw),
        " | ".to_owned(),
        fmt_opt(median, notation),
        " | ".to_owned(),
        fmt_opt(p95, notation),
        " | ".to_owned(),
        fmt_opt(mad, notation),
        " |\n".to_owned(),
    ];
    assert forall|w: Notation| #[trigger] writes(*notation, w) implies views(parts@)
        == distribution_line(*distribution, w) by {
        assert(views(parts@) =~= distribution_line(*distribution, w));
    }
    parts
}

/// The lines of the table of distributions.
pub open spec fn distribution_lines(distributions: Seq<Distribution>, w: Notation) -> Seq<
    Seq<char>,
>
    decreases distributions.len(),
{
    if distributions.len() == 0 {
        Seq::empty()
    } else {
        distribution_lines(distributions.drop_last(), w) + distribution_line(
            distributions.last(),
            w,
        )
    }
}

/// The section on the distributions.
pub open spec fn distribution_section(distributions: Seq<Distribution>, w: Notation) -> Seq<
    Seq<char>,
> {
    seq![
        "\n## Distributions\n\n"@,
        "Values below are in their original units; scoring uses the listed transform.\n\n"@,
        "| Feature | Group | Transform | Count | Median | P95 | MAD |\n"@,
        "|---|---|---|---:|---:|---:|---:|\n"@,
    ] + distribution_lines(distributions, w)
}

/// Writes the section on the distributions.
fn write_distributions<N: Fn(Double) -> String>(distributions: &Vec<Distribution>, notation: &N) -> (
    parts: Vec<String>)
    requires
        writes_all(*notation),
    ensures
        forall|w: Notation| #[trigger]
            writes(*notation, w) ==> views(parts@) == distribution_section(distributions@, w),
{
    let mut parts = vec![
        "\n## Distributions\n\n".to_owned(),
        "Values below are in their original units; scoring uses the listed transform.\n\n".to_owned(),
        "| Feature | Group | Transform | Count | Median | P95 | MAD |\n".to_owned(),
        "|---|---|---|---:|---:|---:|---:|\n".to_owned(),
    ];
    assert(distributions@.take(0) =~= Seq::<Distribution>::empty());
    assert forall|w: Notation| #[trigger] writes(*notation, w) implies views(parts@)
        == distribution_section(distributions@.take(0), w) by {
        assert(views(parts@) =~= distribution_section(distributions@.take(0), w));
    }
    let mut i: usize = 0;
    while i < distributions.len()
        invariant
            writes_all(*notation),
            i <= distributions@.len(),
            forall|w: Notation| #[trigger]
                writes(*notation, w) ==> views(parts@) == distribution_section(
                    distributions@.take(i as int),
                    w,
                ),
        decreases distributions@.len() - i,
    {
        let ghost longer = distributions@.take(i + 1);
        assert(longer.drop_last() =~= distributions@.take(i as int));
        extend(&mut parts, write_distribution_line(&distributions[i], notation));
        assert forall|w: Notation| #[trigger] writes(*notation, w) implies views(parts@)
            == distribution_section(longer, w) by {
            assert(views(parts@) =~= distribution_section(longer, w));
        }
        i += 1;
    }
    assert(distributions@.take(distributions@.len() as int) =~= distributions@);
    parts
}

/// A line of the table of outliers.
pub open spec fn outlier_line(c: AnalyzedView, w: Notation) -> Seq<Seq<char>> {
    seq![
        "| "@,
        markdown_text(c.metrics.path),
        " | "@,
        kind_label(c.outlier_kind),
        " | "@,
        feature_label(c.strongest_feature),
        " | "@,
        opt_number_text(c.max_abs_z, w),
        " | "@,
        opt_number_text(c.typicality_score, w),
        " |\n"@,
    ]
}

/// Writes a line of the table of outliers.
fn write_outlier_line<N: Fn(Double) -> String>(connection: &AnalyzedConnection, notation: &N) -> (
    parts: Vec<String>)
    requires
        writes_all(*notation),
    ensures
        forall|w: Notation| #[trigger]
            writes(*notation, w) ==> views(parts@) == outlier_line(connection@, w),
{
    let parts = vec![
        "| ".to_owned(),
        markdown(connection.metrics.path.as_str()),
        " | ".to_owned(),
        kind_name(connection.outlier_kind).to_owned(),
        " | ".to_owned(),
        feature_name(connection.strongest_feature).to_owned(),
        " | ".to_owned(),
        fmt_opt(connection.max_abs_z, notation),
        " | ".to_owned(),
        fmt_opt(connection.typicality_score, notation),
        " |\n".to_owned(),
    ];
    assert forall|w: Notation| #[trigger] writes(*notation, w) implies views(parts@)
        == outlier_line(connection@, w) by {
        assert(views(parts@) =~= outlier_line(connection@, w));
    }
    parts
}

/// The lines of the table of outliers.
pub open spec fn outlier_lines(outliers: Seq<Outlier>, w: Notation) -> Seq<Seq<char>>
    decreases outliers.len(),
{
    if outliers.len() == 0 {
        Seq::empty()
    } else {
        outlier_lines(outliers.drop_last(), w) + outlier_line(outliers.last().connection@, w)
    }
}

/// The beginning of the section on the outliers.
pub open spec fn outlier_heading() -> Seq<Seq<char>> {
    seq![
        "\n## Strongest outliers\n\n"@,
        "| Connection | Kind | Strongest feature | |z| | Typicality |\n"@,
        "|---|---|---|---:|---:|\n"@,
    ]
}

/// The section on the outliers, of which only the first are listed.
pub open spec fn outlier_section(outliers: Seq<Outlier>, w: Notation) -> Seq<Seq<char>> {
    if outliers.len() == 0 {
        seq![
            "\n## Strongest outliers\n\n"@,
            "No connection crossed the configured threshold.\n"@,
        ]
    } else {
        outlier_heading() + outlier_lines(outliers.take(listed(outliers.len())), w)
    }
}

/// Writes the section on the outliers.
fn write_outliers<N: Fn(Double) -> String>(outliers: &Vec<Outlier>, notation: &N) -> (parts: Vec<
    String,
>)
    requires
        writes_all(*notation),
    ensures
        forall|w: Notation| #[trigger]
            writes(*notation, w) ==> views(parts@) == outlier_section(outliers@, w),
{
    if outliers.len() == 0 {
        let parts = vec![
            "\n## Strongest outliers\n\n".to_owned(),
            "No connection crossed the configured threshold.\n".to_owned(),
        ];
        assert forall|w: Notation| #[trigger] writes(*notation, w) implies views(parts@)
            == outlier_section(outliers@, w) by {
            assert(views(parts@) =~= outlier_section(outliers@, w));
        }
        return parts;
    }
    let mut parts = vec![
        "\n## Strongest outliers\n\n".to_owned(),
        "| Connection | Kind | Strongest feature | |z| | Typicality |\n".to_owned(),
        "|---|---|---|---:|---:|\n".to_owned(),
    ];
    assert(outliers@.take(0) =~= Seq::<Outlier>::empty());
    assert forall|w: Notation| #[trigger] writes(*notation, w) implies views(parts@)
        == outlier_heading() + outlier_lines(outliers@.take(0), w) by {
        assert(views(parts@) =~= outlier_heading() + outlier_lines(outliers@.take(0), w));
    }
    let mut i: usize = 0;
    while i < outliers.len() && i < REPORT_LIMIT
        invariant
            writes_all(*notation),
            i <= listed(outliers@.len()),
            forall|w: Notation| #[trigger]
                writes(*notation, w) ==> views(parts@) == outlier_heading() + outlier_lines(
                    outliers@.take(i as int),
                    w,
                ),
        decreases outliers@.len() - i,
    {
        let ghost longer = outliers@.take(i + 1);
        assert(longer.drop_last() =~= outliers@.take(i as int));
        extend(&mut parts, write_outlier_line(outliers[i].connection, notation));
        assert forall|w: Notation| #[trigger] writes(*notation, w) implies views(parts@)
            == outlier_heading() + outlier_lines(longer, w) by {
            assert(views(parts@) =~= outlier_heading() + outlier_lines(longer, w));
        }
        i += 1;
    }
    parts
}

/// A line of the table of failures.
pub open spec fn failure_line(failure: ParseFailure) -> Seq<Seq<char>> {
    seq!["| "@, markdown_text(failure.path@), " | "@, markdown_text(failure.error@), " |\n"@]
}

/// The lines of the table of failures.
pub open spec fn failure_lines(failures: Seq<ParseFailure>) -> Seq<Seq<char>>
    decreases failures.len(),
{
    if failures.len() == 0 {
        Seq::empty()
    } else {
        failure_lines(failures.drop_last()) + failure_line(failures.last())
    }
}

/// The beginning of the section on the failures.
pub open spec fn failure_heading() -> Seq<Seq<char>> {
    seq!["\n## Parse failures\n\n| File | Error |\n|---|---|\n"@]
}

/// The section on the failures, of which only the first are listed. It is left out
/// where there are none.
pub open spec fn failure_section(failures: Seq<ParseFailure>) -> Seq<Seq<char>> {
    if failures.len() == 0 {
        Seq::empty()
    } else {
        failure_heading() + failure_lines(failures.take(listed(failures.len())))
    }
}

/// Writes the section on the failures.
fn write_failures(failures: &Vec<ParseFailure>) -> (parts: Vec<String>)
    ensures
        views(parts@) == failure_section(failures@),
{
    if failures.len() == 0 {
        let parts: Vec<String> = Vec::new();
        assert(views(parts@) =~= failure_section(failures@));
        return parts;
    }
    let mut parts = vec!["\n## Parse failures\n\n| File | Error |\n|---|---|\n".to_owned()];
    assert(failures@.take(0) =~= Seq::<ParseFailure>::empty());
    assert(views(parts@) =~= failure_heading() + failure_lines(failures@.take(0)));
    let mut i: usize = 0;
    while i < failures.len() && i < REPORT_LIMIT
        invariant
            i <= listed(failures@.len()),
            views(parts@) == failure_heading() + failure_lines(failures@.take(i as int)),
        decreases failures@.len() - i,
    {
        let ghost longer = failures@.take(i + 1);
        assert(longer.drop_last() =~= failures@.take(i as int));
        let line = vec![
            "| ".to_owned(),
            markdown(failures[i].path.as_str()),
            " | ".to_owned(),
            markdown(failures[i].error.as_str()),
            " |\n".to_owned(),
        ];
        assert(views(line@) =~= failure_line(failures@[i as int]));
        extend(&mut parts, line);
        assert(views(parts@) =~= failure_heading() + failure_lines(longer));
        i += 1;
    }
    parts
}

/// The end of the report: how to read it.
pub open spec fn notes_section() -> Seq<Seq<char>> {
    seq![
        "\n## Interpretation notes\n\n"@,
        "- An outlier is unusual, not necessarily unhealthy. Workload and network outliers are classified separately.\n"@,
        "- Scores use median/MAD robust z-scores. Duration, volume, packet count, stream count, PTO rate, and event counts use `log1p`.\n"@,
        "- A non-median value in a population with zero MAD has an infinite robust z-score and is therefore an outlier.\n"@,
        "- Empty cells mean the required qlog event or field was not present.\n"@,
    ]
}

/// Writes the end of the report.
fn write_notes() -> (parts: Vec<String>)
    ensures
        views(parts@) == notes_section(),
{
    let parts = vec![
        "\n## Interpretation notes\n\n".to_owned(),
        "- An outlier is unusual, not necessarily unhealthy. Workload and network outliers are classified separately.\n".to_owned(),
        "- Scores use median/MAD robust z-scores. Duration, volume, packet count, stream count, PTO rate, and event counts use `log1p`.\n".to_owned(),
        "- A non-median value in a population with zero MAD has an infinite robust z-score and is therefore an outlier.\n".to_owned(),
        "- Empty cells mean the required qlog event or field was not present.\n".to_owned(),
    ];
    assert(views(parts@) =~= notes_section());
    parts
}

/// The parts of the report on an analysis with the given outliers.
pub open spec fn report_parts(
    analysis: Analysis,
    failures: Seq<ParseFailure>,
    outliers: Seq<Outlier>,
    a: Arithmetic,
    w: Notation,
) -> Seq<Seq<char>> {
    summary_section(
        analysis.connections@.len(),
        failures.len(),
        outliers.len(),
        analysis.threshold,
        w,
    ) + representative_section(
        analyzed_views(analysis.connections@),
        analysis.representative,
        a,
        w,
    ) + distribution_section(analysis.distributions@, w) + outlier_section(outliers, w)
        + failure_section(failures) + notes_section()
}

/// The report on an analysis, its outliers sorted.
pub open spec fn is_report(
    analysis: Analysis,
    failures: Seq<ParseFailure>,
    a: Arithmetic,
    w: Notation,
    text: Seq<char>,
) -> bool {
    exists|outliers: Seq<Outlier>|
        #[trigger] is_stable_sort(outliers_among(analysis.connections@), outliers) && text
            == concatenated(report_parts(analysis, failures, outliers, a, w))
}

/// Writes the report on an analysis.
pub fn report<E: Fn(Operation) -> Double, N: Fn(Double) -> String>(
    analysis: &Analysis,
    failures: &Vec<ParseFailure>,
    evaluate: &E,
    notation: &N,
) -> (text: String)
    requires
        analysis.representative matches Some(index) ==> index < analysis.connections@.len(),
        is_total(*evaluate),
        writes_all(*notation),
    ensures
        forall|a: Arithmetic, w: Notation|
            #![trigger follows(*evaluate, a), writes(*notation, w)]
            follows(*evaluate, a) && writes(*notation, w) ==> is_report(
                *analysis,
                failures@,
                a,
                w,
                text@,
            ),
{
    let outliers = sorted_outliers(analysis);
    let mut parts = write_summary(
        analysis.connections.len(),
        failures.len(),
        outliers.len(),
        analysis.threshold,
        notation,
    );
    extend(
        &mut parts,
        write_representative(&analysis.connections, analysis.representative, evaluate, notation),
    );
    extend(&mut parts, write_distributions(&analysis.distributions, notation));
    extend(&mut parts, write_outliers(&outliers, notation));
    extend(&mut parts, write_failures(failures));
    extend(&mut parts, write_notes());
    assert forall|a: Arithmetic, w: Notation|
        #![trigger follows(*evaluate, a), writes(*notation, w)]
        follows(*evaluate, a) && writes(*notation, w) implies views(parts@) == report_parts(
        *analysis,
        failures@,
        outliers@,
        a,
        w,
    ) by {}
    concatenate(&parts)
}

/// The outliers are some of the connections.
pub proof fn lemma_outliers_fit(connections: Seq<AnalyzedConnection>)
    ensures
        outliers_among(connections).len() <= connections.len(),
    decreases connections.len(),
{
    if connections.len() > 0 {
        lemma_outliers_fit(connections.drop_last());
    }
}

/// Law: an analysis has just one report.
pub proof fn law_report_is_determined(
    analysis: Analysis,
    failures: Seq<ParseFailure>,
    a: Arithmetic,
    w: Notation,
    first: Seq<char>,
    second: Seq<char>,
)
    requires
        is_report(analysis, failures, a, w, first),
        is_report(analysis, failures, a, w, second),
        analysis.connections@.len() <= usize::MAX,
    ensures
        first == second,
{
    let all = outliers_among(analysis.connections@);
    let x = choose|x: Seq<Outlier>|
        #[trigger] is_stable_sort(all, x) && first == concatenated(
            report_parts(analysis, failures, x, a, w),
        );
    let y = choose|y: Seq<Outlier>|
        #[trigger] is_stable_sort(all, y) && second == concatenated(
            report_parts(analysis, failures, y, a, w),
        );
    lemma_outliers_fit(analysis.connections@);
    law_stable_sort(all, x, y);
}

} // verus!
