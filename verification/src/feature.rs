//! The features by which connections are compared.

use crate::arithmetic::{carry_out, follows, is_total, Arithmetic, Operation};
use crate::double::Double;
use crate::metrics::{ConnectionMetrics, MetricsView};
use crate::permutation::{kept, lemma_kept_permuted};
use vstd::prelude::*;

verus! {

/// What a feature tells about.
#[derive(Clone, Copy, Debug, PartialEq, Eq, Structural)]
pub enum FeatureGroup {
    /// What the connection was used for.
    Workload,
    /// How the network treated it.
    Network,
}

impl FeatureGroup {
    /// The group's name.
    pub open spec fn label(self) -> Seq<char> {
        match self {
            FeatureGroup::Workload => "workload"@,
            FeatureGroup::Network => "network"@,
        }
    }

    /// The group's name.
    pub fn as_str(self) -> (name: &'static str)
        ensures
            name@ == self.label(),
    {
        match self {
            FeatureGroup::Workload => "workload",
            FeatureGroup::Network => "network",
        }
    }
}

/// What is done to a feature's values before they are compared.
#[derive(Clone, Copy, Debug, PartialEq, Eq, Structural)]
pub enum Transform {
    /// Nothing.
    Identity,
    /// The logarithm of one more than the value, for values of a heavy tail.
    Log1p,
}

impl Transform {
    /// The transform's name.
    pub open spec fn label(self) -> Seq<char> {
        match self {
            Transform::Identity => "identity"@,
            Transform::Log1p => "log1p"@,
        }
    }

    /// The transform's name.
    pub fn as_str(self) -> (name: &'static str)
        ensures
            name@ == self.label(),
    {
        match self {
            Transform::Identity => "identity",
            Transform::Log1p => "log1p",
        }
    }
}

/// A feature by which connections are compared.
#[derive(Clone, Copy, Debug, PartialEq, Eq, Structural)]
pub enum Feature {
    /// The connection's duration.
    Duration,
    /// The bytes in both directions.
    TotalBytes,
    /// The packets in both directions.
    TotalPackets,
    /// The bidirectional streams that the client opened.
    ClientBidiStreams,
    /// The median of the smoothed round trip times.
    SmoothedRttMedian,
    /// The lost packets among a hundred that were sent.
    LossRate,
    /// The probe timeouts among a thousand packets that were sent.
    PtoRate,
    /// How often flow control began to hold a sender back.
    BlockedEvents,
    /// The migrations that completed.
    MigrationsCompleted,
}

/// The number of features.
pub const FEATURE_COUNT: usize = 9;

/// The features, in the order in which they are reported.
pub open spec fn feature_list() -> Seq<Feature> {
    seq![
        Feature::Duration,
        Feature::TotalBytes,
        Feature::TotalPackets,
        Feature::ClientBidiStreams,
        Feature::SmoothedRttMedian,
        Feature::LossRate,
        Feature::PtoRate,
        Feature::BlockedEvents,
        Feature::MigrationsCompleted,
    ]
}

/// The features, in the order in which they are reported.
pub fn features() -> (list: Vec<Feature>)
    ensures
        list@ == feature_list(),
        list@.len() == FEATURE_COUNT,
{
    let list = vec![
        Feature::Duration,
        Feature::TotalBytes,
        Feature::TotalPackets,
        Feature::ClientBidiStreams,
        Feature::SmoothedRttMedian,
        Feature::LossRate,
        Feature::PtoRate,
        Feature::BlockedEvents,
        Feature::MigrationsCompleted,
    ];
    assert(list@ =~= feature_list());
    list
}

impl Feature {
    /// The feature's name.
    pub open spec fn label(self) -> Seq<char> {
        match self {
            Feature::Duration => "duration_ms"@,
            Feature::TotalBytes => "total_bytes"@,
            Feature::TotalPackets => "total_packets"@,
            Feature::ClientBidiStreams => "client_bidi_streams"@,
            Feature::SmoothedRttMedian => "smoothed_rtt_median_ms"@,
            Feature::LossRate => "loss_rate_pct"@,
            Feature::PtoRate => "pto_per_1000_packets"@,
            Feature::BlockedEvents => "blocked_events"@,
            Feature::MigrationsCompleted => "migrations_completed"@,
        }
    }

    /// What the feature tells about.
    pub open spec fn tells_about(self) -> FeatureGroup {
        match self {
            Feature::Duration => FeatureGroup::Workload,
            Feature::TotalBytes => FeatureGroup::Workload,
            Feature::TotalPackets => FeatureGroup::Workload,
            Feature::ClientBidiStreams => FeatureGroup::Workload,
            _ => FeatureGroup::Network,
        }
    }

    /// What is done to the feature's values before they are compared.
    pub open spec fn treatment(self) -> Transform {
        match self {
            Feature::SmoothedRttMedian => Transform::Identity,
            Feature::LossRate => Transform::Identity,
            _ => Transform::Log1p,
        }
    }

    /// The feature's value for a connection, if it has one.
    pub open spec fn measured(self, metrics: MetricsView, a: Arithmetic) -> Option<Double> {
        match self {
            Feature::Duration => metrics.duration(a),
            Feature::TotalBytes => Some(a(Operation::Convert(metrics.total_bytes() as u64))),
            Feature::TotalPackets => Some(a(Operation::Convert(metrics.total_packets() as u64))),
            Feature::ClientBidiStreams => Some(
                a(Operation::Convert(metrics.client_bidi_streams as u64)),
            ),
            Feature::SmoothedRttMedian => metrics.smoothed_rtt_median_ms,
            Feature::LossRate => metrics.loss_rate(a),
            Feature::PtoRate => metrics.pto_rate(a),
            Feature::BlockedEvents => Some(a(Operation::Convert(metrics.blocked_events as u64))),
            Feature::MigrationsCompleted => Some(
                a(Operation::Convert(metrics.migrations_completed as u64)),
            ),
        }
    }

    /// The feature's name.
    pub fn name(self) -> (name: &'static str)
        ensures
            name@ == self.label(),
    {
        match self {
            Feature::Duration => "duration_ms",
            Feature::TotalBytes => "total_bytes",
            Feature::TotalPackets => "total_packets",
            Feature::ClientBidiStreams => "client_bidi_streams",
            Feature::SmoothedRttMedian => "smoothed_rtt_median_ms",
            Feature::LossRate => "loss_rate_pct",
            Feature::PtoRate => "pto_per_1000_packets",
            Feature::BlockedEvents => "blocked_events",
            Feature::MigrationsCompleted => "migrations_completed",
        }
    }

    /// What the feature tells about.
    pub fn group(self) -> (group: FeatureGroup)
        ensures
            group == self.tells_about(),
    {
        match self {
            Feature::Duration => FeatureGroup::Workload,
            Feature::TotalBytes => FeatureGroup::Workload,
            Feature::TotalPackets => FeatureGroup::Workload,
            Feature::ClientBidiStreams => FeatureGroup::Workload,
            _ => FeatureGroup::Network,
        }
    }

    /// What is done to the feature's values before they are compared.
    pub fn transform(self) -> (transform: Transform)
        ensures
            transform == self.treatment(),
    {
        match self {
            Feature::SmoothedRttMedian => Transform::Identity,
            Feature::LossRate => Transform::Identity,
            _ => Transform::Log1p,
        }
    }

    /// The feature's value for a connection, if it has one.
    pub fn value<E: Fn(Operation) -> Double>(
        self,
        metrics: &ConnectionMetrics,
        evaluate: &E,
    ) -> (value: Option<Double>)
        requires
            is_total(*evaluate),
        ensures
            forall|a: Arithmetic| #[trigger]
                follows(*evaluate, a) ==> value == self.measured(metrics@, a),
    {
        let count = match self {
            Feature::Duration => {
                return metrics.duration_ms(evaluate);
            },
            Feature::SmoothedRttMedian => {
                return metrics.smoothed_rtt_median_ms();
            },
            Feature::LossRate => {
                return metrics.loss_rate_pct(evaluate);
            },
            Feature::PtoRate => {
                return metrics.pto_per_1000_packets(evaluate);
            },
            Feature::TotalBytes => metrics.total_bytes(),
            Feature::TotalPackets => metrics.total_packets(),
            Feature::ClientBidiStreams => metrics.client_bidi_streams() as u64,
            Feature::BlockedEvents => metrics.blocked_events,
            Feature::MigrationsCompleted => metrics.migrations_completed,
        };
        Some(carry_out(evaluate, Operation::Convert(count)))
    }
}

/// The values of a feature for the connections that have one, in their order.
pub open spec fn measured_values(
    feature: Feature,
    metrics: Seq<MetricsView>,
    a: Arithmetic,
) -> Seq<Double>
    decreases metrics.len(),
{
    if metrics.len() == 0 {
        Seq::empty()
    } else {
        let before = measured_values(feature, metrics.drop_last(), a);
        match feature.measured(metrics.last(), a) {
            Some(value) => before.push(value),
            None => before,
        }
    }
}

/// The views of a list of metrics.
pub open spec fn metrics_views(connections: Seq<ConnectionMetrics>) -> Seq<MetricsView> {
    connections.map_values(|c: ConnectionMetrics| c@)
}

/// The values of a feature for the connections that have one, in their order.
pub fn feature_values<E: Fn(Operation) -> Double>(
    feature: Feature,
    connections: &Vec<ConnectionMetrics>,
    evaluate: &E,
) -> (values: Vec<Double>)
    requires
        is_total(*evaluate),
    ensures
        forall|a: Arithmetic| #[trigger]
            follows(*evaluate, a) ==> values@ == measured_values(
                feature,
                metrics_views(connections@),
                a,
            ),
{
    let mut values: Vec<Double> = Vec::new();
    let mut i: usize = 0;
    let ghost all = metrics_views(connections@);
    while i < connections.len()
        invariant
            is_total(*evaluate),
            i <= connections@.len(),
            all == metrics_views(connections@),
            forall|a: Arithmetic| #[trigger]
                follows(*evaluate, a) ==> values@ == measured_values(
                    feature,
                    all.take(i as int),
                    a,
                ),
        decreases connections@.len() - i,
    {
        let ghost longer = all.take(i + 1);
        assert(longer.drop_last() =~= all.take(i as int));
        assert(longer.last() == connections@[i as int]@);
        if let Some(value) = feature.value(&connections[i], evaluate) {
            values.push(value);
        }
        i += 1;
    }
    assert(all.take(all.len() as int) =~= all);
    values
}

/// Law: the values of a feature do not depend on the order of the connections.
pub proof fn law_measuring_ignores_order(
    feature: Feature,
    x: Seq<MetricsView>,
    y: Seq<MetricsView>,
    a: Arithmetic,
)
    requires
        x.to_multiset() == y.to_multiset(),
    ensures
        measured_values(feature, x, a).to_multiset() == measured_values(
            feature,
            y,
            a,
        ).to_multiset(),
{
    let measure = |metrics: MetricsView| feature.measured(metrics, a);
    lemma_measured_is_kept(feature, x, a, measure);
    lemma_measured_is_kept(feature, y, a, measure);
    lemma_kept_permuted(x, y, measure);
}

/// To measure a feature is to keep the values that connections have.
proof fn lemma_measured_is_kept(
    feature: Feature,
    metrics: Seq<MetricsView>,
    a: Arithmetic,
    measure: spec_fn(MetricsView) -> Option<Double>,
)
    requires
        forall|m: MetricsView| #[trigger] measure(m) == feature.measured(m, a),
    ensures
        measured_values(feature, metrics, a) == kept(metrics, measure),
    decreases metrics.len(),
{
    if metrics.len() > 0 {
        lemma_measured_is_kept(feature, metrics.drop_last(), a, measure);
    }
}

} // verus!
