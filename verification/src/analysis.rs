//! The scores of connections: outliers, and the most typical connection.

use crate::arithmetic::{
    follows, is_total, root_mean_square, root_mean_square_of, rounds_to_nearest, Arithmetic,
    Operation, EXACT_INTEGERS,
};
use crate::double::{Double, INFINITY_BITS};
use crate::feature::{
    feature_list, features, metrics_views, Feature, FeatureGroup, FEATURE_COUNT,
};
use crate::metrics::{ConnectionMetrics, MetricsView};
use crate::order::{
    arranged, is_stable_order, is_stable_sort, law_stable_order_is_unique,
    lemma_arranged_multiset, stable_sort, stands_before, Ranked,
};
use crate::permutation::lemma_mapped_permuted;
use crate::stats::{
    distribution, distribution_of, feature_score, law_bytes_are_scored,
    law_distribution_ignores_order, score, Distribution,
};
use crate::text::{law_text_order, precedes, text_le};
use vstd::prelude::*;

verus! {

/// By which group of features a connection is an outlier.
#[derive(Clone, Copy, Debug, PartialEq, Eq, Structural)]
pub enum OutlierKind {
    /// By what it was used for.
    Workload,
    /// By how the network treated it.
    Network,
    /// By both.
    Both,
}

impl OutlierKind {
    /// The kind's name.
    pub open spec fn label(self) -> Seq<char> {
        match self {
            OutlierKind::Workload => "workload"@,
            OutlierKind::Network => "network"@,
            OutlierKind::Both => "both"@,
        }
    }

    /// The kind's name.
    pub fn as_str(self) -> (name: &'static str)
        ensures
            name@ == self.label(),
    {
        match self {
            OutlierKind::Workload => "workload",
            OutlierKind::Network => "network",
            OutlierKind::Both => "both",
        }
    }
}

/// The feature with the given index belongs to the group; all of them do where no
/// group is given.
pub open spec fn in_group(index: int, group: Option<FeatureGroup>) -> bool {
    match group {
        Some(group) => feature_list()[index].tells_about() == group,
        None => true,
    }
}

/// The scores by the features of a group, as far as there are any.
pub open spec fn group_part(z_scores: Seq<Option<Double>>, group: Option<FeatureGroup>) -> Seq<
    Double,
>
    decreases z_scores.len(),
{
    if z_scores.len() == 0 {
        Seq::empty()
    } else {
        let before = group_part(z_scores.drop_last(), group);
        match z_scores.last() {
            Some(value) => if in_group(z_scores.len() - 1, group) {
                before.push(value)
            } else {
                before
            },
            None => before,
        }
    }
}

/// The scores by the features of a group, as far as there are any.
pub fn group_values(z_scores: &Vec<Option<Double>>, group: Option<FeatureGroup>) -> (values: Vec<
    Double,
>)
    requires
        group is Some ==> z_scores@.len() <= FEATURE_COUNT,
    ensures
        values@ == group_part(z_scores@, group),
{
    let list = features();
    let mut values: Vec<Double> = Vec::new();
    let mut i: usize = 0;
    while i < z_scores.len()
        invariant
            list@ == feature_list(),
            list@.len() == FEATURE_COUNT,
            group is Some ==> z_scores@.len() <= FEATURE_COUNT,
            i <= z_scores@.len(),
            values@ == group_part(z_scores@.take(i as int), group),
        decreases z_scores@.len() - i,
    {
        assert(z_scores@.take(i + 1).drop_last() =~= z_scores@.take(i as int));
        let belongs = match group {
            Some(group) => list[i].group() == group,
            None => true,
        };
        if let Some(value) = z_scores[i] {
            if belongs {
                values.push(value);
            }
        }
        i += 1;
    }
    assert(z_scores@.take(z_scores@.len() as int) =~= z_scores@);
    values
}

/// The score by a group of features: none where there is no score by any of them,
/// infinity where one of them is infinite, and else their root mean square.
pub open spec fn group_score_of(
    z_scores: Seq<Option<Double>>,
    group: Option<FeatureGroup>,
    a: Arithmetic,
) -> Option<Double> {
    let values = group_part(z_scores, group);
    if values.len() == 0 {
        None
    } else if exists|i: int| 0 <= i < values.len() && (#[trigger] values[i]).infinite() {
        Some(Double { bits: INFINITY_BITS })
    } else {
        Some(root_mean_square(values, a))
    }
}

/// What holds of the score by a group of features in any arithmetic: there is one
/// exactly where there is a score by one of them, and it is infinite where one of
/// them is.
pub open spec fn fits_group(
    z_scores: Seq<Option<Double>>,
    group: Option<FeatureGroup>,
    score: Option<Double>,
) -> bool {
    let values = group_part(z_scores, group);
    &&& score is None <==> values.len() == 0
    &&& (exists|i: int| 0 <= i < values.len() && (#[trigger] values[i]).infinite()) ==> score
        == Some(Double { bits: INFINITY_BITS })
}

/// The score by a group of features.
pub fn group_score<E: Fn(Operation) -> Double>(
    z_scores: &Vec<Option<Double>>,
    group: Option<FeatureGroup>,
    evaluate: &E,
) -> (score: Option<Double>)
    requires
        group is Some ==> z_scores@.len() <= FEATURE_COUNT,
        is_total(*evaluate),
    ensures
        fits_group(z_scores@, group, score),
        forall|a: Arithmetic| #[trigger]
            follows(*evaluate, a) ==> score == group_score_of(z_scores@, group, a),
{
    let values = group_values(z_scores, group);
    if values.len() == 0 {
        return None;
    }
    let mut i: usize = 0;
    while i < values.len()
        invariant
            values@ == group_part(z_scores@, group),
            values@.len() > 0,
            i <= values@.len(),
            forall|k: int| 0 <= k < i ==> !(#[trigger] values@[k]).infinite(),
        decreases values@.len() - i,
    {
        if values[i].is_infinite() {
            assert(values@[i as int].infinite());
            return Some(Double::infinity());
        }
        i += 1;
    }
    Some(root_mean_square_of(&values, evaluate))
}

/// The index of the score that is farthest from zero, the last of them where there
/// are several.
pub open spec fn strongest_index(z_scores: Seq<Option<Double>>) -> Option<int>
    decreases z_scores.len(),
{
    if z_scores.len() == 0 {
        None
    } else {
        let before = strongest_index(z_scores.drop_last());
        match (z_scores.last(), before) {
            (None, _) => before,
            (Some(value), None) => Some(z_scores.len() - 1),
            (Some(value), Some(index)) => if z_scores[index]->0.absolute().rank()
                > value.absolute().rank() {
                before
            } else {
                Some(z_scores.len() - 1)
            },
        }
    }
}

/// Law: no score is farther from zero than the strongest, those after it are
/// nearer, and there is none only where there are no scores.
pub proof fn law_strongest_is_the_farthest(z_scores: Seq<Option<Double>>, i: int)
    requires
        0 <= i < z_scores.len(),
        z_scores[i] is Some,
    ensures
        strongest_index(z_scores) matches Some(index) && 0 <= index < z_scores.len()
            && z_scores[index] is Some && z_scores[i]->0.absolute().rank()
            <= z_scores[index]->0.absolute().rank() && (i > index
            ==> z_scores[i]->0.absolute().rank() < z_scores[index]->0.absolute().rank()),
    decreases z_scores.len(),
{
    let shorter = z_scores.drop_last();
    lemma_strongest_in_range(shorter);
    if i < shorter.len() {
        assert(shorter[i] == z_scores[i]);
        law_strongest_is_the_farthest(shorter, i);
    }
    if let Some(index) = strongest_index(shorter) {
        assert(shorter[index] == z_scores[index]);
    }
}

/// The strongest score is one of the scores.
proof fn lemma_strongest_in_range(z_scores: Seq<Option<Double>>)
    ensures
        strongest_index(z_scores) matches Some(index) ==> 0 <= index < z_scores.len()
            && z_scores[index] is Some,
    decreases z_scores.len(),
{
    if z_scores.len() > 0 {
        lemma_strongest_in_range(z_scores.drop_last());
        if let Some(index) = strongest_index(z_scores.drop_last()) {
            assert(z_scores.drop_last()[index] == z_scores[index]);
        }
    }
}

/// The feature with the strongest score.
pub open spec fn strongest_feature_of(z_scores: Seq<Option<Double>>) -> Option<Feature> {
    match strongest_index(z_scores) {
        Some(index) => Some(feature_list()[index]),
        None => None,
    }
}

/// The strongest score, without its sign.
pub open spec fn strongest_score_of(z_scores: Seq<Option<Double>>) -> Option<Double> {
    match strongest_index(z_scores) {
        Some(index) => Some(z_scores[index]->0.absolute()),
        None => None,
    }
}

/// The feature with the strongest score, and that score without its sign.
pub fn strongest(z_scores: &Vec<Option<Double>>) -> (r: (Option<Feature>, Option<Double>))
    requires
        z_scores@.len() <= FEATURE_COUNT,
    ensures
        r.0 == strongest_feature_of(z_scores@),
        r.1 == strongest_score_of(z_scores@),
{
    let list = features();
    let mut best: Option<(usize, Double)> = None;
    let mut i: usize = 0;
    while i < z_scores.len()
        invariant
            z_scores@.len() <= FEATURE_COUNT,
            i <= z_scores@.len(),
            match (best, strongest_index(z_scores@.take(i as int))) {
                (None, None) => true,
                (Some((index, value)), Some(expected)) => index == expected && index < i
                    && z_scores@[index as int] is Some && value
                    == z_scores@[index as int]->0.absolute(),
                _ => false,
            },
        decreases z_scores@.len() - i,
    {
        let ghost longer = z_scores@.take(i + 1);
        assert(longer.drop_last() =~= z_scores@.take(i as int));
        if let Some(score) = z_scores[i] {
            let value = score.abs();
            match best {
                Some((_, most)) => {
                    if most.total_le(value) {
                        best = Some((i, value));
                    }
                },
                None => {
                    best = Some((i, value));
                },
            }
        }
        i += 1;
    }
    assert(z_scores@.take(z_scores@.len() as int) =~= z_scores@);
    match best {
        Some((index, value)) => (Some(list[index]), Some(value)),
        None => (None, None),
    }
}

/// A score by one of the features of a group reaches the threshold, on either side.
pub open spec fn feature_reaches(
    z_scores: Seq<Option<Double>>,
    group: FeatureGroup,
    threshold: Double,
) -> bool {
    exists|i: int|
        0 <= i < z_scores.len() && in_group(i, Some(group)) && (#[trigger] z_scores[i]) is Some
            && z_scores[i]->0.absolute().at_least(threshold)
}

/// A connection is an outlier by a group of features if the score by the group or
/// the score by one of its features reaches the threshold.
pub open spec fn is_group_outlier(
    z_scores: Seq<Option<Double>>,
    score: Option<Double>,
    group: FeatureGroup,
    threshold: Double,
) -> bool {
    ||| (match score {
        Some(score) => score.at_least(threshold),
        None => false,
    })
    ||| feature_reaches(z_scores, group, threshold)
}

/// Whether a connection is an outlier by a group of features.
pub fn group_is_outlier(
    z_scores: &Vec<Option<Double>>,
    score: Option<Double>,
    group: FeatureGroup,
    threshold: Double,
) -> (r: bool)
    requires
        z_scores@.len() <= FEATURE_COUNT,
    ensures
        r == is_group_outlier(z_scores@, score, group, threshold),
{
    if let Some(score) = score {
        if score.ge(threshold) {
            return true;
        }
    }
    let list = features();
    let mut i: usize = 0;
    while i < z_scores.len()
        invariant
            list@ == feature_list(),
            list@.len() == FEATURE_COUNT,
            z_scores@.len() <= FEATURE_COUNT,
            i <= z_scores@.len(),
            forall|k: int|
                0 <= k < i && in_group(k, Some(group)) && (#[trigger] z_scores@[k]) is Some
                    ==> !z_scores@[k]->0.absolute().at_least(threshold),
        decreases z_scores@.len() - i,
    {
        if list[i].group() == group {
            if let Some(value) = z_scores[i] {
                if value.abs().ge(threshold) {
                    assert(in_group(i as int, Some(group)));
                    assert(z_scores@[i as int] is Some);
                    return true;
                }
            }
        }
        i += 1;
    }
    false
}

/// The kind of an outlier by one group or both, if it is one.
pub open spec fn kind_of(workload: bool, network: bool) -> Option<OutlierKind> {
    if workload && network {
        Some(OutlierKind::Both)
    } else if workload {
        Some(OutlierKind::Workload)
    } else if network {
        Some(OutlierKind::Network)
    } else {
        None
    }
}

/// A connection with its scores.
#[derive(Debug)]
pub struct AnalyzedConnection {
    /// The connection's metrics.
    pub metrics: ConnectionMetrics,
    /// The scores by each feature, as far as there are any.
    pub feature_z_scores: Vec<Option<Double>>,
    /// The score by the features of the workload.
    pub workload_score: Option<Double>,
    /// The score by the features of the network.
    pub network_score: Option<Double>,
    /// The score by all features.
    pub typicality_score: Option<Double>,
    /// The strongest score by a feature, without its sign.
    pub max_abs_z: Option<Double>,
    /// The feature with the strongest score.
    pub strongest_feature: Option<Feature>,
    /// By which group of features the connection is an outlier, if it is one.
    pub outlier_kind: Option<OutlierKind>,
}

/// A connection with its scores, as mathematical values.
#[verifier::ext_equal]
pub struct AnalyzedView {
    pub metrics: MetricsView,
    pub feature_z_scores: Seq<Option<Double>>,
    pub workload_score: Option<Double>,
    pub network_score: Option<Double>,
    pub typicality_score: Option<Double>,
    pub max_abs_z: Option<Double>,
    pub strongest_feature: Option<Feature>,
    pub outlier_kind: Option<OutlierKind>,
}

impl View for AnalyzedConnection {
    type V = AnalyzedView;

    open spec fn view(&self) -> AnalyzedView {
        AnalyzedView {
            metrics: self.metrics@,
            feature_z_scores: self.feature_z_scores@,
            workload_score: self.workload_score,
            network_score: self.network_score,
            typicality_score: self.typicality_score,
            max_abs_z: self.max_abs_z,
            strongest_feature: self.strongest_feature,
            outlier_kind: self.outlier_kind,
        }
    }
}

/// The scores of a connection by each feature.
pub open spec fn feature_scores(
    metrics: MetricsView,
    distributions: Seq<Distribution>,
    a: Arithmetic,
) -> Seq<Option<Double>> {
    distributions.map_values(
        |distribution: Distribution| feature_score(metrics, distribution, a),
    )
}

/// The scores of a connection by each feature.
fn score_by_features<E: Fn(Operation) -> Double>(
    metrics: &ConnectionMetrics,
    distributions: &Vec<Distribution>,
    evaluate: &E,
) -> (z_scores: Vec<Option<Double>>)
    requires
        is_total(*evaluate),
    ensures
        z_scores@.len() == distributions@.len(),
        forall|a: Arithmetic| #[trigger]
            follows(*evaluate, a) ==> z_scores@ == feature_scores(metrics@, distributions@, a),
{
    let mut z_scores: Vec<Option<Double>> = Vec::new();
    let mut i: usize = 0;
    while i < distributions.len()
        invariant
            is_total(*evaluate),
            i <= distributions@.len(),
            z_scores@.len() == i,
            forall|a: Arithmetic, k: int|
                #![trigger follows(*evaluate, a), z_scores@[k]]
                follows(*evaluate, a) && 0 <= k < i ==> z_scores@[k] == feature_score(
                    metrics@,
                    distributions@[k],
                    a,
                ),
        decreases distributions@.len() - i,
    {
        z_scores.push(score(metrics, &distributions[i], evaluate));
        i += 1;
    }
    assert forall|a: Arithmetic| #[trigger] follows(*evaluate, a) implies z_scores@
        == feature_scores(metrics@, distributions@, a) by {
        assert(z_scores@ =~= feature_scores(metrics@, distributions@, a));
    }
    z_scores
}

/// A connection with its scores, classified by the threshold.
pub open spec fn classified(
    metrics: MetricsView,
    z_scores: Seq<Option<Double>>,
    threshold: Double,
    a: Arithmetic,
) -> AnalyzedView {
    let workload_score = group_score_of(z_scores, Some(FeatureGroup::Workload), a);
    let network_score = group_score_of(z_scores, Some(FeatureGroup::Network), a);
    AnalyzedView {
        metrics,
        feature_z_scores: z_scores,
        workload_score,
        network_score,
        typicality_score: group_score_of(z_scores, None, a),
        max_abs_z: strongest_score_of(z_scores),
        strongest_feature: strongest_feature_of(z_scores),
        outlier_kind: kind_of(
            is_group_outlier(z_scores, workload_score, FeatureGroup::Workload, threshold),
            is_group_outlier(z_scores, network_score, FeatureGroup::Network, threshold),
        ),
    }
}

/// What holds of a connection with its scores in any arithmetic: the groups fit the
/// features, the strongest feature is the strongest, and the label follows from the
/// scores and the threshold.
pub open spec fn holds_together(c: AnalyzedView, threshold: Double) -> bool {
    let z = c.feature_z_scores;
    &&& fits_group(z, Some(FeatureGroup::Workload), c.workload_score)
    &&& fits_group(z, Some(FeatureGroup::Network), c.network_score)
    &&& fits_group(z, None, c.typicality_score)
    &&& c.max_abs_z == strongest_score_of(z)
    &&& c.strongest_feature == strongest_feature_of(z)
    &&& c.outlier_kind == kind_of(
        is_group_outlier(z, c.workload_score, FeatureGroup::Workload, threshold),
        is_group_outlier(z, c.network_score, FeatureGroup::Network, threshold),
    )
}

/// Classifies a connection by its scores and the threshold.
pub fn classify<E: Fn(Operation) -> Double>(
    metrics: ConnectionMetrics,
    z_scores: Vec<Option<Double>>,
    threshold: Double,
    evaluate: &E,
) -> (connection: AnalyzedConnection)
    requires
        z_scores@.len() <= FEATURE_COUNT,
        is_total(*evaluate),
    ensures
        connection.metrics == metrics,
        connection.feature_z_scores == z_scores,
        holds_together(connection@, threshold),
        forall|a: Arithmetic| #[trigger]
            follows(*evaluate, a) ==> connection@ == classified(
                metrics@,
                z_scores@,
                threshold,
                a,
            ),
{
    let workload_score = group_score(&z_scores, Some(FeatureGroup::Workload), evaluate);
    let network_score = group_score(&z_scores, Some(FeatureGroup::Network), evaluate);
    let typicality_score = group_score(&z_scores, None, evaluate);
    let (strongest_feature, max_abs_z) = strongest(&z_scores);
    let workload_outlier = group_is_outlier(
        &z_scores,
        workload_score,
        FeatureGroup::Workload,
        threshold,
    );
    let network_outlier = group_is_outlier(
        &z_scores,
        network_score,
        FeatureGroup::Network,
        threshold,
    );
    let outlier_kind = match (workload_outlier, network_outlier) {
        (true, true) => Some(OutlierKind::Both),
        (true, false) => Some(OutlierKind::Workload),
        (false, true) => Some(OutlierKind::Network),
        (false, false) => None,
    };
    AnalyzedConnection {
        metrics,
        feature_z_scores: z_scores,
        workload_score,
        network_score,
        typicality_score,
        max_abs_z,
        strongest_feature,
        outlier_kind,
    }
}

/// Connections are sorted by their paths.
impl Ranked for ConnectionMetrics {
    open spec fn le(&self, other: &Self) -> bool {
        text_le(self.path@, other.path@)
    }

    proof fn total(&self, other: &Self) {
        law_text_order(self.path@, other.path@, other.path@);
    }

    proof fn transitive(&self, middle: &Self, other: &Self) {
        law_text_order(self.path@, middle.path@, other.path@);
    }

    fn is_le(&self, other: &Self) -> (r: bool) {
        precedes(self.path.as_str(), other.path.as_str())
    }
}

/// Connections are sorted by their paths.
impl Ranked for AnalyzedConnection {
    open spec fn le(&self, other: &Self) -> bool {
        text_le(self.metrics.path@, other.metrics.path@)
    }

    proof fn total(&self, other: &Self) {
        law_text_order(self.metrics.path@, other.metrics.path@, other.metrics.path@);
    }

    proof fn transitive(&self, middle: &Self, other: &Self) {
        law_text_order(self.metrics.path@, middle.metrics.path@, other.metrics.path@);
    }

    fn is_le(&self, other: &Self) -> (r: bool) {
        precedes(self.metrics.path.as_str(), other.metrics.path.as_str())
    }
}

/// Sorts connections by their paths.
pub fn sort_connections(connections: Vec<ConnectionMetrics>) -> (sorted: Vec<ConnectionMetrics>)
    ensures
        is_stable_sort(connections@, sorted@),
{
    stable_sort(connections)
}

/// A score for comparison, infinity where there is none.
pub open spec fn score_or_infinity(score: Option<Double>) -> Double {
    match score {
        Some(score) => score,
        None => Double { bits: INFINITY_BITS },
    }
}

/// A score for comparison, infinity where there is none.
fn or_infinity(score: Option<Double>) -> (r: Double)
    ensures
        r == score_or_infinity(score),
{
    match score {
        Some(score) => score,
        None => Double::infinity(),
    }
}

/// A connection represents the others at least as well as another: by its score by
/// the workload, then by its score by all features, then by its path.
pub open spec fn represents(a: AnalyzedConnection, b: AnalyzedConnection) -> bool {
    let workload_a = score_or_infinity(a.workload_score).rank();
    let workload_b = score_or_infinity(b.workload_score).rank();
    let typicality_a = score_or_infinity(a.typicality_score).rank();
    let typicality_b = score_or_infinity(b.typicality_score).rank();
    if workload_a != workload_b {
        workload_a < workload_b
    } else if typicality_a != typicality_b {
        typicality_a < typicality_b
    } else {
        text_le(a.metrics.path@, b.metrics.path@)
    }
}

/// Whether a connection represents the others at least as well as another.
fn represents_better(a: &AnalyzedConnection, b: &AnalyzedConnection) -> (r: bool)
    ensures
        r == represents(*a, *b),
{
    let workload_a = or_infinity(a.workload_score);
    let workload_b = or_infinity(b.workload_score);
    if !workload_a.total_le(workload_b) {
        return false;
    }
    if !workload_b.total_le(workload_a) {
        return true;
    }
    let typicality_a = or_infinity(a.typicality_score);
    let typicality_b = or_infinity(b.typicality_score);
    if !typicality_a.total_le(typicality_b) {
        return false;
    }
    if !typicality_b.total_le(typicality_a) {
        return true;
    }
    precedes(a.metrics.path.as_str(), b.metrics.path.as_str())
}

/// Law: of two connections one represents the others at least as well, and this
/// relation is transitive.
pub proof fn law_represents_is_an_order(
    a: AnalyzedConnection,
    b: AnalyzedConnection,
    c: AnalyzedConnection,
)
    ensures
        represents(a, b) || represents(b, a),
        represents(a, b) && represents(b, c) ==> represents(a, c),
{
    law_text_order(a.metrics.path@, b.metrics.path@, c.metrics.path@);
}

/// The connection with the given index represents the others best, among those
/// with a score by the workload; where several do so equally well, it is the first.
pub open spec fn is_representative(connections: Seq<AnalyzedConnection>, index: int) -> bool {
    &&& 0 <= index < connections.len()
    &&& connections[index].workload_score is Some
    &&& forall|i: int|
        0 <= i < connections.len() && (#[trigger] connections[i]).workload_score is Some
            ==> represents(connections[index], connections[i]) && (i < index ==> !represents(
            connections[i],
            connections[index],
        ))
}

/// The connection that represents the others best.
pub open spec fn represented_by(
    connections: Seq<AnalyzedConnection>,
    representative: Option<usize>,
) -> bool {
    match representative {
        Some(index) => is_representative(connections, index as int),
        None => forall|i: int|
            0 <= i < connections.len() ==> (#[trigger] connections[i]).workload_score is None,
    }
}

/// The index of the connection that represents the others best, if one has a score
/// by the workload.
pub fn representative_index(connections: &Vec<AnalyzedConnection>) -> (index: Option<usize>)
    ensures
        represented_by(connections@, index),
{
    let mut best: Option<usize> = None;
    let mut i: usize = 0;
    while i < connections.len()
        invariant
            i <= connections@.len(),
            best matches Some(index) ==> index < i,
            represented_by(connections@.take(i as int), best),
        decreases connections@.len() - i,
    {
        let ghost shorter = connections@.take(i as int);
        let ghost longer = connections@.take(i + 1);
        assert(forall|k: int| 0 <= k < i ==> longer[k] == #[trigger] shorter[k]);
        assert(forall|k: int| 0 <= k < i ==> #[trigger] longer[k] == shorter[k]);
        assert(longer[i as int] == connections@[i as int]);
        if connections[i].workload_score.is_some() {
            match best {
                Some(index) => {
                    proof {
                        assert(shorter[index as int] == connections@[index as int]);
                    }
                    if !represents_better(&connections[index], &connections[i]) {
                        best = Some(i);
                    }
                    proof {
                        let old_best = connections@[index as int];
                        let new = connections@[i as int];
                        law_represents_is_an_order(old_best, new, new);
                        law_represents_is_an_order(new, new, new);
                        assert forall|k: int|
                            0 <= k < i && (#[trigger] longer[k]).workload_score is Some && best
                                == Some(i) implies represents(new, longer[k]) && !represents(
                            longer[k],
                            new,
                        ) by {
                            law_represents_is_an_order(new, old_best, longer[k]);
                            law_represents_is_an_order(old_best, longer[k], new);
                        }
                    }
                },
                None => {
                    best = Some(i);
                    proof {
                        law_represents_is_an_order(longer[i as int], longer[i as int], longer[i as int]);
                    }
                },
            }
        }
        i += 1;
    }
    assert(connections@.take(connections@.len() as int) =~= connections@);
    best
}

/// Law: the representative has the smallest score by the workload, and among those
/// that share it the smallest score by all features.
pub proof fn law_representative_is_most_typical(
    connections: Seq<AnalyzedConnection>,
    index: int,
    i: int,
)
    requires
        is_representative(connections, index),
        0 <= i < connections.len(),
        connections[i].workload_score is Some,
    ensures
        ({
            let best = connections[index];
            let other = connections[i];
            let workload = best.workload_score->0.rank();
            let typicality = score_or_infinity(best.typicality_score).rank();
            &&& workload <= other.workload_score->0.rank()
            &&& workload == other.workload_score->0.rank() ==> typicality <= score_or_infinity(
                other.typicality_score,
            ).rank()
        }),
{
    assert(represents(connections[index], connections[i]));
}

/// Law: there is only one representative.
pub proof fn law_representative_is_unique(
    connections: Seq<AnalyzedConnection>,
    a: Option<usize>,
    b: Option<usize>,
)
    requires
        represented_by(connections, a),
        represented_by(connections, b),
    ensures
        a == b,
{
    if let (Some(x), Some(y)) = (a, b) {
        assert(represents(connections[x as int], connections[y as int]));
        assert(represents(connections[y as int], connections[x as int]));
    }
}

/// The result of an analysis.
#[derive(Debug)]
pub struct Analysis {
    /// The connections, sorted by their paths.
    pub connections: Vec<AnalyzedConnection>,
    /// How each feature is distributed.
    pub distributions: Vec<Distribution>,
    /// The index of the connection that represents the others best.
    pub representative: Option<usize>,
    /// The score from which on a connection is an outlier.
    pub threshold: Double,
}

/// How each feature is distributed over some connections.
pub open spec fn all_distributions(connections: Seq<MetricsView>, a: Arithmetic) -> Seq<
    Distribution,
> {
    feature_list().map_values(|feature: Feature| distribution_of(feature, connections, a))
}

/// How each feature is distributed over some connections.
pub fn distributions<E: Fn(Operation) -> Double>(
    connections: &Vec<ConnectionMetrics>,
    evaluate: &E,
) -> (result: Vec<Distribution>)
    requires
        is_total(*evaluate),
    ensures
        result@.len() == FEATURE_COUNT,
        forall|a: Arithmetic| #[trigger]
            follows(*evaluate, a) ==> result@ == all_distributions(
                metrics_views(connections@),
                a,
            ),
{
    let list = features();
    let mut result: Vec<Distribution> = Vec::new();
    let mut i: usize = 0;
    while i < list.len()
        invariant
            is_total(*evaluate),
            list@ == feature_list(),
            i <= list@.len(),
            result@.len() == i,
            forall|a: Arithmetic, k: int|
                #![trigger follows(*evaluate, a), result@[k]]
                follows(*evaluate, a) && 0 <= k < i ==> result@[k] == distribution_of(
                    list@[k],
                    metrics_views(connections@),
                    a,
                ),
        decreases list@.len() - i,
    {
        result.push(distribution(list[i], connections, evaluate));
        i += 1;
    }
    assert forall|a: Arithmetic| #[trigger] follows(*evaluate, a) implies result@
        == all_distributions(metrics_views(connections@), a) by {
        assert(result@ =~= all_distributions(metrics_views(connections@), a));
    }
    result
}

/// Each connection scored against all of them, and classified by the threshold.
pub open spec fn all_classified(
    connections: Seq<MetricsView>,
    threshold: Double,
    a: Arithmetic,
) -> Seq<AnalyzedView> {
    let spread = all_distributions(connections, a);
    connections.map_values(
        |metrics: MetricsView|
            classified(metrics, feature_scores(metrics, spread, a), threshold, a),
    )
}

/// The views of some connections with their scores.
pub open spec fn analyzed_views(connections: Seq<AnalyzedConnection>) -> Seq<AnalyzedView> {
    connections.map_values(|connection: AnalyzedConnection| connection@)
}

/// The analysis of some connections: each of them scored and classified, all of
/// them sorted by their paths, with the one that represents the others best.
pub open spec fn is_analysis(
    connections: Seq<MetricsView>,
    threshold: Double,
    a: Arithmetic,
    analysis: Analysis,
) -> bool {
    &&& exists|scored: Seq<AnalyzedConnection>|
        #[trigger] is_stable_sort(scored, analysis.connections@) && analyzed_views(scored)
            == all_classified(connections, threshold, a)
    &&& represented_by(analysis.connections@, analysis.representative)
    &&& analysis.distributions@ == all_distributions(connections, a)
    &&& analysis.threshold == threshold
}

/// Analyzes connections.
pub fn analyze<E: Fn(Operation) -> Double>(
    connections: Vec<ConnectionMetrics>,
    threshold: Double,
    evaluate: &E,
) -> (analysis: Analysis)
    requires
        is_total(*evaluate),
    ensures
        forall|a: Arithmetic| #[trigger]
            follows(*evaluate, a) ==> is_analysis(
                metrics_views(connections@),
                threshold,
                a,
                analysis,
            ),
        exists|scored: Seq<AnalyzedConnection>|
            #[trigger] is_stable_sort(scored, analysis.connections@) && scored.len()
                == connections@.len() && forall|i: int|
                0 <= i < scored.len() ==> (#[trigger] scored[i]).metrics == connections@[i]
                    && holds_together(scored[i]@, threshold),
        represented_by(analysis.connections@, analysis.representative),
        analysis.distributions@.len() == FEATURE_COUNT,
        analysis.threshold == threshold,
{
    let ghost inputs = connections@;
    let ghost given = metrics_views(connections@);
    let spread = distributions(&connections, evaluate);
    let mut connections = connections;
    let mut reversed: Vec<AnalyzedConnection> = Vec::new();
    while connections.len() > 0
        invariant
            is_total(*evaluate),
            spread@.len() == FEATURE_COUNT,
            inputs.len() == given.len(),
            connections@ == inputs.take(connections@.len() as int),
            metrics_views(connections@) == given.take(connections@.len() as int),
            connections@.len() + reversed@.len() == given.len(),
            forall|k: int|
                0 <= k < reversed@.len() ==> (#[trigger] reversed@[k]).metrics
                    == inputs[inputs.len() - 1 - k] && holds_together(
                    reversed@[k]@,
                    threshold,
                ),
            forall|a: Arithmetic, k: int|
                #![trigger follows(*evaluate, a), reversed@[k]]
                follows(*evaluate, a) && 0 <= k < reversed@.len() ==> reversed@[k]@
                    == classified(
                    given[given.len() - 1 - k],
                    feature_scores(given[given.len() - 1 - k], spread@, a),
                    threshold,
                    a,
                ),
        decreases connections@.len(),
    {
        let ghost n = connections@.len();
        let ghost before = connections@;
        if let Some(metrics) = connections.pop() {
            assert(metrics_views(before)[n - 1] == metrics@);
            assert(given[n - 1] == metrics@);
            let z_scores = score_by_features(&metrics, &spread, evaluate);
            reversed.push(classify(metrics, z_scores, threshold, evaluate));
        }
        assert(connections@ =~= inputs.take(connections@.len() as int));
        assert(metrics_views(connections@) =~= metrics_views(before).take(n - 1));
        assert(metrics_views(connections@) =~= given.take(connections@.len() as int));
    }
    let mut scored: Vec<AnalyzedConnection> = Vec::new();
    let ghost all = reversed@;
    while reversed.len() > 0
        invariant
            scored@.len() + reversed@.len() == all.len(),
            reversed@ == all.take(reversed@.len() as int),
            forall|k: int|
                0 <= k < scored@.len() ==> #[trigger] scored@[k] == all[all.len() - 1 - k],
        decreases reversed@.len(),
    {
        let ghost n = reversed@.len();
        if let Some(connection) = reversed.pop() {
            assert(connection == all[n - 1]);
            scored.push(connection);
        }
        assert(reversed@ =~= all.take(reversed@.len() as int));
    }
    let ghost in_order = scored@;
    assert forall|k: int| 0 <= k < in_order.len() implies (#[trigger] in_order[k]).metrics
        == inputs[k] && holds_together(in_order[k]@, threshold) by {
        assert(in_order[k] == all[all.len() - 1 - k]);
    }
    assert forall|a: Arithmetic| #[trigger] follows(*evaluate, a) implies analyzed_views(scored@)
        == all_classified(given, threshold, a) by {
        assert forall|k: int| 0 <= k < given.len() implies #[trigger] analyzed_views(scored@)[k]
            == all_classified(given, threshold, a)[k] by {
            assert(scored@[k] == all[all.len() - 1 - k]);
            assert(all[all.len() - 1 - k]@ == classified(
                given[k],
                feature_scores(given[k], spread@, a),
                threshold,
                a,
            ));
        }
        assert(analyzed_views(scored@) =~= all_classified(given, threshold, a));
    }
    let connections = stable_sort(scored);
    let representative = representative_index(&connections);
    let analysis = Analysis { connections, distributions: spread, representative, threshold };
    assert(is_stable_sort(in_order, analysis.connections@));
    analysis
}

/// Connections that look the same have the same sorted orders.
proof fn lemma_same_order(
    x: Seq<AnalyzedConnection>,
    y: Seq<AnalyzedConnection>,
    order: Seq<usize>,
)
    requires
        analyzed_views(x) == analyzed_views(y),
        is_stable_order(x, order),
    ensures
        is_stable_order(y, order),
{
    assert(x.len() == analyzed_views(x).len());
    assert(y.len() == analyzed_views(y).len());
    assert forall|k: int, l: int|
        #![trigger order[k], order[l]]
        0 <= k < l < order.len() implies stands_before(y, order[k] as int, order[l] as int) by {
        assert(stands_before(x, order[k] as int, order[l] as int));
        assert(analyzed_views(x)[order[k] as int] == analyzed_views(y)[order[k] as int]);
        assert(analyzed_views(x)[order[l] as int] == analyzed_views(y)[order[l] as int]);
    }
}

/// Connections that look the same are represented by the same one.
proof fn lemma_same_representative(
    x: Seq<AnalyzedConnection>,
    y: Seq<AnalyzedConnection>,
    representative: Option<usize>,
)
    requires
        analyzed_views(x) == analyzed_views(y),
        represented_by(x, representative),
    ensures
        represented_by(y, representative),
{
    assert(x.len() == analyzed_views(x).len());
    assert(y.len() == analyzed_views(y).len());
    assert forall|i: int| 0 <= i < x.len() implies (#[trigger] y[i])@ == x[i]@ by {
        assert(analyzed_views(x)[i] == analyzed_views(y)[i]);
    }
    match representative {
        Some(index) => {
            assert(y[index as int]@ == x[index as int]@);
            assert forall|i: int|
                0 <= i < y.len() && (#[trigger] y[i]).workload_score is Some implies represents(
                y[index as int],
                y[i],
            ) && (i < index ==> !represents(y[i], y[index as int])) by {
                assert(y[i]@ == x[i]@);
                assert(x[i].workload_score is Some);
            }
        },
        None => {
            assert forall|i: int| 0 <= i < y.len() implies (#[trigger] y[i]).workload_score
                is None by {
                assert(y[i]@ == x[i]@);
                assert(x[i].workload_score is None);
            }
        },
    }
}

/// Law: the same connections have just one analysis.
pub proof fn law_analysis_is_determined(
    connections: Seq<MetricsView>,
    threshold: Double,
    a: Arithmetic,
    x: Analysis,
    y: Analysis,
)
    requires
        is_analysis(connections, threshold, a, x),
        is_analysis(connections, threshold, a, y),
    ensures
        analyzed_views(x.connections@) == analyzed_views(y.connections@),
        x.distributions@ == y.distributions@,
        x.representative == y.representative,
        x.threshold == y.threshold,
{
    let p = choose|p: Seq<AnalyzedConnection>|
        #[trigger] is_stable_sort(p, x.connections@) && analyzed_views(p) == all_classified(
            connections,
            threshold,
            a,
        );
    let q = choose|q: Seq<AnalyzedConnection>|
        #[trigger] is_stable_sort(q, y.connections@) && analyzed_views(q) == all_classified(
            connections,
            threshold,
            a,
        );
    let order = choose|order: Seq<usize>|
        #[trigger] is_stable_order(p, order) && x.connections@ == arranged(p, order);
    let other = choose|other: Seq<usize>|
        #[trigger] is_stable_order(q, other) && y.connections@ == arranged(q, other);
    lemma_same_order(p, q, order);
    law_stable_order_is_unique(q, order, other);
    assert forall|k: int| 0 <= k < order.len() implies #[trigger] analyzed_views(x.connections@)[k]
        == analyzed_views(y.connections@)[k] by {
        assert(analyzed_views(p)[order[k] as int] == analyzed_views(q)[order[k] as int]);
        assert(p.len() == analyzed_views(p).len());
        assert(q.len() == analyzed_views(q).len());
    }
    assert(analyzed_views(x.connections@) =~= analyzed_views(y.connections@));
    lemma_same_representative(x.connections@, y.connections@, x.representative);
    law_representative_is_unique(y.connections@, x.representative, y.representative);
}

/// Law: an analysis holds each connection once, scored and classified, and they are
/// sorted by their paths.
pub proof fn law_analysis_keeps_connections(
    connections: Seq<MetricsView>,
    threshold: Double,
    a: Arithmetic,
    analysis: Analysis,
)
    requires
        is_analysis(connections, threshold, a, analysis),
        connections.len() <= usize::MAX,
    ensures
        analysis.connections@.len() == connections.len(),
        analyzed_views(analysis.connections@).to_multiset() == all_classified(
            connections,
            threshold,
            a,
        ).to_multiset(),
        forall|k: int, l: int|
            #![trigger analysis.connections@[k], analysis.connections@[l]]
            0 <= k < l < connections.len() ==> text_le(
                analysis.connections@[k].metrics.path@,
                analysis.connections@[l].metrics.path@,
            ),
{
    let scored = choose|scored: Seq<AnalyzedConnection>|
        #[trigger] is_stable_sort(scored, analysis.connections@) && analyzed_views(scored)
            == all_classified(connections, threshold, a);
    let order = choose|order: Seq<usize>|
        #[trigger] is_stable_order(scored, order) && analysis.connections@ == arranged(
            scored,
            order,
        );
    let all = all_classified(connections, threshold, a);
    assert(scored.len() == analyzed_views(scored).len());
    assert(analyzed_views(analysis.connections@) =~= arranged(all, order));
    lemma_arranged_multiset(all, order);
    assert forall|k: int, l: int|
        #![trigger analysis.connections@[k], analysis.connections@[l]]
        0 <= k < l < connections.len() implies text_le(
        analysis.connections@[k].metrics.path@,
        analysis.connections@[l].metrics.path@,
    ) by {
        assert(stands_before(scored, order[k] as int, order[l] as int));
    }
}

/// Where a feature of a group gives a score, the group has one.
proof fn lemma_group_part_holds(z_scores: Seq<Option<Double>>, group: Option<FeatureGroup>, i: int)
    requires
        0 <= i < z_scores.len(),
        z_scores[i] is Some,
        in_group(i, group),
    ensures
        group_part(z_scores, group).len() > 0,
    decreases z_scores.len(),
{
    if i < z_scores.len() - 1 {
        lemma_group_part_holds(z_scores.drop_last(), group, i);
    }
}

/// Law: in an arithmetic that rounds to the nearest number, one of the connections
/// represents the others exactly where there are connections.
pub proof fn law_connections_have_a_representative(
    connections: Seq<MetricsView>,
    threshold: Double,
    a: Arithmetic,
    analysis: Analysis,
)
    requires
        rounds_to_nearest(a),
        is_analysis(connections, threshold, a, analysis),
        connections.len() <= EXACT_INTEGERS,
    ensures
        analysis.representative is None <==> connections.len() == 0,
{
    let scored = choose|scored: Seq<AnalyzedConnection>|
        #[trigger] is_stable_sort(scored, analysis.connections@) && analyzed_views(scored)
            == all_classified(connections, threshold, a);
    let order = choose|order: Seq<usize>|
        #[trigger] is_stable_order(scored, order) && analysis.connections@ == arranged(
            scored,
            order,
        );
    assert(scored.len() == analyzed_views(scored).len());
    assert(analysis.connections@.len() == connections.len());
    if connections.len() > 0 {
        let first = order[0] as int;
        let metrics = connections[first];
        let spread = all_distributions(connections, a);
        let z_scores = feature_scores(metrics, spread, a);
        let bytes: int = 1;
        assert(feature_list()[bytes] == Feature::TotalBytes);
        law_bytes_are_scored(connections, metrics, a);
        assert(z_scores[bytes] is Some);
        lemma_group_part_holds(z_scores, Some(FeatureGroup::Workload), bytes);
        assert(analyzed_views(scored)[first] == scored[first]@);
        assert(scored[first]@ == classified(metrics, z_scores, threshold, a));
        assert(analysis.connections@[0] == scored[first]);
        assert(analysis.connections@[0].workload_score is Some);
    }
}

/// No two connections share a path.
pub open spec fn paths_differ(connections: Seq<MetricsView>) -> bool {
    forall|i: int, j: int|
        #![trigger connections[i], connections[j]]
        0 <= i < connections.len() && 0 <= j < connections.len() && i != j ==> connections[i].path
            != connections[j].path
}

/// Connections with their scores are sorted by paths that differ.
spec fn strictly_by_path(list: Seq<AnalyzedView>) -> bool {
    forall|k: int, l: int|
        #![trigger list[k], list[l]]
        0 <= k < l < list.len() ==> text_le(list[k].metrics.path, list[l].metrics.path)
            && list[k].metrics.path != list[l].metrics.path
}

/// An analysis of connections with different paths is sorted by them.
proof fn lemma_analysis_by_path(
    connections: Seq<MetricsView>,
    threshold: Double,
    a: Arithmetic,
    analysis: Analysis,
)
    requires
        is_analysis(connections, threshold, a, analysis),
        paths_differ(connections),
    ensures
        strictly_by_path(analyzed_views(analysis.connections@)),
{
    let scored = choose|scored: Seq<AnalyzedConnection>|
        #[trigger] is_stable_sort(scored, analysis.connections@) && analyzed_views(scored)
            == all_classified(connections, threshold, a);
    let order = choose|order: Seq<usize>|
        #[trigger] is_stable_order(scored, order) && analysis.connections@ == arranged(
            scored,
            order,
        );
    let list = analyzed_views(analysis.connections@);
    let all = all_classified(connections, threshold, a);
    assert(scored.len() == analyzed_views(scored).len());
    assert forall|k: int, l: int|
        #![trigger list[k], list[l]]
        0 <= k < l < list.len() implies text_le(list[k].metrics.path, list[l].metrics.path)
        && list[k].metrics.path != list[l].metrics.path by {
        assert(stands_before(scored, order[k] as int, order[l] as int));
        assert(analyzed_views(scored)[order[k] as int] == all[order[k] as int]);
        assert(analyzed_views(scored)[order[l] as int] == all[order[l] as int]);
        assert(connections[order[k] as int].path != connections[order[l] as int].path);
    }
}

/// There is just one way to sort connections by paths that differ.
proof fn lemma_by_path_is_unique(x: Seq<AnalyzedView>, y: Seq<AnalyzedView>)
    requires
        strictly_by_path(x),
        strictly_by_path(y),
        x.to_multiset() == y.to_multiset(),
    ensures
        x == y,
    decreases x.len(),
{
    broadcast use vstd::seq_lib::group_to_multiset_ensures;

    vstd::seq_lib::to_multiset_len(x);
    vstd::seq_lib::to_multiset_len(y);
    if x.len() > 0 {
        assert(x.contains(x[0]) && y.contains(y[0]));
        assert(y.to_multiset().contains(x[0]));
        assert(x.to_multiset().contains(y[0]));
        assert(y.contains(x[0]) && x.contains(y[0]));
        let i = choose|i: int| 0 <= i < x.len() && x[i] == y[0];
        let j = choose|j: int| 0 <= j < y.len() && y[j] == x[0];
        if i > 0 && j > 0 {
            assert(text_le(x[0].metrics.path, x[i].metrics.path));
            assert(text_le(y[0].metrics.path, y[j].metrics.path));
            law_text_order(x[0].metrics.path, y[0].metrics.path, x[0].metrics.path);
        }
        assert(x[0] == y[0]);
        assert(x.remove(0) =~= x.drop_first());
        assert(y.remove(0) =~= y.drop_first());
        assert(x.drop_first().to_multiset() =~= y.drop_first().to_multiset());
        let xs = x.drop_first();
        let ys = y.drop_first();
        assert forall|k: int, l: int|
            #![trigger xs[k], xs[l]]
            0 <= k < l < xs.len() implies text_le(xs[k].metrics.path, xs[l].metrics.path)
            && xs[k].metrics.path != xs[l].metrics.path by {
            assert(xs[k] == x[k + 1] && xs[l] == x[l + 1]);
        }
        assert forall|k: int, l: int|
            #![trigger ys[k], ys[l]]
            0 <= k < l < ys.len() implies text_le(ys[k].metrics.path, ys[l].metrics.path)
            && ys[k].metrics.path != ys[l].metrics.path by {
            assert(ys[k] == y[k + 1] && ys[l] == y[l + 1]);
        }
        lemma_by_path_is_unique(xs, ys);
        assert(x =~= seq![x[0]] + xs);
        assert(y =~= seq![y[0]] + ys);
    } else {
        assert(x =~= y);
    }
}

/// Law: how the features are distributed does not depend on the order of the
/// connections.
pub proof fn law_distributions_ignore_order(
    x: Seq<MetricsView>,
    y: Seq<MetricsView>,
    a: Arithmetic,
)
    requires
        x.to_multiset() == y.to_multiset(),
    ensures
        all_distributions(x, a) == all_distributions(y, a),
{
    assert forall|i: int| 0 <= i < feature_list().len() implies #[trigger] all_distributions(
        x,
        a,
    )[i] == all_distributions(y, a)[i] by {
        law_distribution_ignores_order(feature_list()[i], x, y, a);
    }
    assert(all_distributions(x, a) =~= all_distributions(y, a));
}

/// Law: connections with different paths have the same analysis in whatever order
/// they are given.
pub proof fn law_analysis_ignores_order(
    x: Seq<MetricsView>,
    y: Seq<MetricsView>,
    threshold: Double,
    a: Arithmetic,
    first: Analysis,
    second: Analysis,
)
    requires
        x.to_multiset() == y.to_multiset(),
        paths_differ(x),
        x.len() <= usize::MAX,
        is_analysis(x, threshold, a, first),
        is_analysis(y, threshold, a, second),
    ensures
        analyzed_views(first.connections@) == analyzed_views(second.connections@),
        first.distributions@ == second.distributions@,
        first.representative == second.representative,
        first.threshold == second.threshold,
{
    broadcast use vstd::seq_lib::group_to_multiset_ensures;

    vstd::seq_lib::to_multiset_len(x);
    vstd::seq_lib::to_multiset_len(y);
    law_distributions_ignore_order(x, y, a);
    let spread = all_distributions(x, a);
    let classify = |metrics: MetricsView|
        classified(metrics, feature_scores(metrics, spread, a), threshold, a);
    lemma_mapped_permuted(x, y, classify);
    assert(all_classified(x, threshold, a) =~= x.map_values(classify));
    assert(all_classified(y, threshold, a) =~= y.map_values(classify));
    law_analysis_keeps_connections(x, threshold, a, first);
    law_analysis_keeps_connections(y, threshold, a, second);
    lemma_paths_differ_permuted(x, y);
    lemma_analysis_by_path(x, threshold, a, first);
    lemma_analysis_by_path(y, threshold, a, second);
    lemma_by_path_is_unique(
        analyzed_views(first.connections@),
        analyzed_views(second.connections@),
    );
    lemma_same_representative(first.connections@, second.connections@, first.representative);
    law_representative_is_unique(
        second.connections@,
        first.representative,
        second.representative,
    );
}

/// Paths that differ do so in whatever order they are given.
proof fn lemma_paths_differ_permuted(x: Seq<MetricsView>, y: Seq<MetricsView>)
    requires
        x.to_multiset() == y.to_multiset(),
        paths_differ(x),
    ensures
        paths_differ(y),
{
    broadcast use vstd::seq_lib::group_to_multiset_ensures;

    vstd::seq_lib::to_multiset_len(x);
    vstd::seq_lib::to_multiset_len(y);
    assert forall|i: int, j: int|
        #![trigger y[i], y[j]]
        0 <= i < y.len() && 0 <= j < y.len() && i != j implies y[i].path != y[j].path by {
        if y[i].path == y[j].path {
            assert(y.contains(y[i]) && y.contains(y[j]));
            assert(x.to_multiset().contains(y[i]) && x.to_multiset().contains(y[j]));
            assert(x.contains(y[i]) && x.contains(y[j]));
            let k = choose|k: int| 0 <= k < x.len() && x[k] == y[i];
            let l = choose|l: int| 0 <= l < x.len() && x[l] == y[j];
            assert(k == l);
            let item = x[k];
            let others = x.remove(k);
            let rest = y.remove(i);
            assert(others.to_multiset() =~= rest.to_multiset());
            assert(rest[if j < i { j } else { j - 1 }] == item);
            assert(rest.contains(item));
            assert(others.to_multiset().contains(item));
            assert(others.contains(item));
            let m = choose|m: int| 0 <= m < others.len() && others[m] == item;
            assert(x[if m < k { m } else { m + 1 }] == item);
        }
    }
}

/// The threshold is a finite number above zero.
pub open spec fn valid_threshold(threshold: Double) -> bool {
    threshold.finite() && threshold.above(Double { bits: 0 })
}

/// Whether a threshold is a finite number above zero.
pub fn is_valid_threshold(threshold: Double) -> (r: bool)
    ensures
        r == valid_threshold(threshold),
{
    threshold.is_finite() && threshold.gt(Double::zero())
}

/// Law: an infinite score by a feature makes the connection an outlier by the
/// feature's group, whatever the threshold.
pub proof fn law_infinite_score_is_an_outlier(
    metrics: MetricsView,
    z_scores: Seq<Option<Double>>,
    threshold: Double,
    a: Arithmetic,
    i: int,
)
    requires
        valid_threshold(threshold),
        z_scores.len() <= FEATURE_COUNT,
        0 <= i < z_scores.len(),
        z_scores[i] matches Some(score) && score.infinite(),
    ensures
        match (
            feature_list()[i].tells_about(),
            classified(metrics, z_scores, threshold, a).outlier_kind,
        ) {
            (FeatureGroup::Workload, Some(kind)) => kind != OutlierKind::Network,
            (FeatureGroup::Network, Some(kind)) => kind != OutlierKind::Workload,
            (_, None) => false,
        },
{
    let group = feature_list()[i].tells_about();
    assert(in_group(i, Some(group)));
    assert(z_scores[i] is Some);
    assert(feature_reaches(z_scores, group, threshold));
}

/// The scores by the features of a group are the same.
pub open spec fn agree_on(
    a: Seq<Option<Double>>,
    b: Seq<Option<Double>>,
    group: FeatureGroup,
) -> bool {
    a.len() == b.len() && forall|i: int|
        0 <= i < a.len() && in_group(i, Some(group)) ==> #[trigger] a[i] == b[i]
}

/// Law: whether a connection is an outlier by one group of features does not depend
/// on its scores by the other.
pub proof fn law_groups_are_labelled_independently(
    x: Seq<Option<Double>>,
    y: Seq<Option<Double>>,
    group: FeatureGroup,
    threshold: Double,
    a: Arithmetic,
)
    requires
        agree_on(x, y, group),
    ensures
        group_score_of(x, Some(group), a) == group_score_of(y, Some(group), a),
        is_group_outlier(x, group_score_of(x, Some(group), a), group, threshold)
            == is_group_outlier(y, group_score_of(y, Some(group), a), group, threshold),
{
    lemma_group_parts_agree(x, y, group);
    assert(forall|i: int|
        0 <= i < x.len() && in_group(i, Some(group)) ==> x[i] == #[trigger] y[i]);
}

/// Scores that agree on a group have the same part in it.
proof fn lemma_group_parts_agree(
    a: Seq<Option<Double>>,
    b: Seq<Option<Double>>,
    group: FeatureGroup,
)
    requires
        agree_on(a, b, group),
    ensures
        group_part(a, Some(group)) == group_part(b, Some(group)),
    decreases a.len(),
{
    if a.len() > 0 {
        let x = a.drop_last();
        let y = b.drop_last();
        assert forall|i: int| 0 <= i < x.len() && in_group(i, Some(group)) implies #[trigger] x[i]
            == y[i] by {
            assert(a[i] == b[i]);
        }
        lemma_group_parts_agree(x, y, group);
        if in_group(a.len() - 1, Some(group)) {
            assert(a[a.len() - 1] == b[b.len() - 1]);
        }
    }
}

/// Law: a connection that is an outlier by a threshold is one by each lower
/// threshold too.
pub proof fn law_lower_threshold_keeps_outliers(
    z_scores: Seq<Option<Double>>,
    score: Option<Double>,
    group: FeatureGroup,
    low: Double,
    high: Double,
)
    requires
        high.at_least(low),
        is_group_outlier(z_scores, score, group, high),
    ensures
        is_group_outlier(z_scores, score, group, low),
{
    if feature_reaches(z_scores, group, high) {
        let i = choose|i: int|
            0 <= i < z_scores.len() && in_group(i, Some(group)) && (#[trigger] z_scores[i])
                is Some && z_scores[i]->0.absolute().at_least(high);
        assert(z_scores[i]->0.absolute().at_least(low));
        assert(feature_reaches(z_scores, group, low));
    }
}

/// Law: the label of a connection names exactly the groups of features by which it
/// is an outlier.
pub proof fn law_label_names_the_groups(workload: bool, network: bool)
    ensures
        workload == (kind_of(workload, network) == Some(OutlierKind::Workload) || kind_of(
            workload,
            network,
        ) == Some(OutlierKind::Both)),
        network == (kind_of(workload, network) == Some(OutlierKind::Network) || kind_of(
            workload,
            network,
        ) == Some(OutlierKind::Both)),
{
}

} // verus!
