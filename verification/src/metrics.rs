//! The metrics of one connection.

use crate::arithmetic::{carry_out, follows, is_total, Arithmetic, Operation};
use crate::double::{Double, HUNDRED_BITS, THOUSAND_BITS};
use vstd::prelude::*;

verus! {

/// The metrics of one connection.
#[derive(Debug)]
pub struct ConnectionMetrics {
    /// The trace's file, as it is shown.
    pub path: String,
    /// The trace's title.
    pub title: Option<String>,
    /// Where the trace was recorded.
    pub vantage_point: String,
    /// The size of the trace's file.
    pub file_size_bytes: u64,
    /// The number of events.
    pub event_count: u64,
    /// The time of the earliest event.
    pub start_time_ms: Option<Double>,
    /// The time of the latest event.
    pub end_time_ms: Option<Double>,
    /// The number of packets that were sent.
    pub packets_sent: u64,
    /// The number of packets that were received.
    pub packets_received: u64,
    /// The number of events that report the loss of a packet.
    pub packet_lost_events: u64,
    /// The last count of lost packets that recovery reported.
    pub cf_lost_packets: Option<u64>,
    /// The bytes of the packets that were sent.
    pub bytes_sent: u64,
    /// The bytes of the packets that were received.
    pub bytes_received: u64,
    /// The number of packets that were sent and whose size was not recorded.
    pub packet_size_missing_sent: u64,
    /// The number of packets that were received and whose size was not recorded.
    pub packet_size_missing_received: u64,
    /// The number of streams.
    pub unique_streams: usize,
    /// The number of bidirectional streams that the client opened.
    pub client_bidi_streams: usize,
    /// The number of smoothed round trip times.
    pub smoothed_rtt_sample_count: usize,
    /// The median of the smoothed round trip times.
    pub smoothed_rtt_median_ms: Option<Double>,
    /// The 95th percentile of the smoothed round trip times.
    pub smoothed_rtt_p95_ms: Option<Double>,
    /// The last smoothed round trip time.
    pub smoothed_rtt_final_ms: Option<Double>,
    /// The last variance of the round trip time.
    pub rtt_variance_final_ms: Option<Double>,
    /// The last minimum of the round trip time.
    pub min_rtt_final_ms: Option<Double>,
    /// The last congestion window.
    pub congestion_window_final_bytes: Option<u64>,
    /// The largest congestion window.
    pub congestion_window_max_bytes: Option<u64>,
    /// The largest number of bytes in flight.
    pub bytes_in_flight_max: Option<u64>,
    /// The number of probe timeouts, as the levels tell.
    pub pto_inferred_count: u64,
    /// The number of probe timers that expired.
    pub pto_timer_expirations: u64,
    /// The largest number of probe timeouts in a row.
    pub pto_max_consecutive: u64,
    /// How often flow control began to hold a sender back.
    pub blocked_events: u64,
    /// The number of events about migrations.
    pub migration_events: u64,
    /// The number of migrations that completed.
    pub migrations_completed: u64,
    /// The handshake completed.
    pub handshake_completed: bool,
    /// The handshake was confirmed.
    pub handshake_confirmed: bool,
    /// The side that closed the connection.
    pub close_initiator: Option<String>,
    /// What made the connection close.
    pub close_trigger: Option<String>,
    /// The reason for closing, in words.
    pub close_reason: Option<String>,
    /// The errors with which the connection closed.
    pub close_error: Option<String>,
}

/// The view of a string that may be missing.
pub open spec fn opt_view(text: Option<String>) -> Option<Seq<char>> {
    match text {
        Some(text) => Some(text@),
        None => None,
    }
}

/// The metrics of one connection, as mathematical values.
#[verifier::ext_equal]
pub struct MetricsView {
    pub path: Seq<char>,
    pub title: Option<Seq<char>>,
    pub vantage_point: Seq<char>,
    pub file_size_bytes: u64,
    pub event_count: nat,
    pub start_time_ms: Option<Double>,
    pub end_time_ms: Option<Double>,
    pub packets_sent: nat,
    pub packets_received: nat,
    pub packet_lost_events: nat,
    pub cf_lost_packets: Option<u64>,
    pub bytes_sent: nat,
    pub bytes_received: nat,
    pub packet_size_missing_sent: nat,
    pub packet_size_missing_received: nat,
    pub unique_streams: nat,
    pub client_bidi_streams: nat,
    pub smoothed_rtt_sample_count: nat,
    pub smoothed_rtt_median_ms: Option<Double>,
    pub smoothed_rtt_p95_ms: Option<Double>,
    pub smoothed_rtt_final_ms: Option<Double>,
    pub rtt_variance_final_ms: Option<Double>,
    pub min_rtt_final_ms: Option<Double>,
    pub congestion_window_final_bytes: Option<u64>,
    pub congestion_window_max_bytes: Option<u64>,
    pub bytes_in_flight_max: Option<u64>,
    pub pto_inferred_count: nat,
    pub pto_timer_expirations: nat,
    pub pto_max_consecutive: nat,
    pub blocked_events: nat,
    pub migration_events: nat,
    pub migrations_completed: nat,
    pub handshake_completed: bool,
    pub handshake_confirmed: bool,
    pub close_initiator: Option<Seq<char>>,
    pub close_trigger: Option<Seq<char>>,
    pub close_reason: Option<Seq<char>>,
    pub close_error: Option<Seq<char>>,
}

impl View for ConnectionMetrics {
    type V = MetricsView;

    open spec fn view(&self) -> MetricsView {
        MetricsView {
            path: self.path@,
            title: opt_view(self.title),
            vantage_point: self.vantage_point@,
            file_size_bytes: self.file_size_bytes,
            event_count: self.event_count as nat,
            start_time_ms: self.start_time_ms,
            end_time_ms: self.end_time_ms,
            packets_sent: self.packets_sent as nat,
            packets_received: self.packets_received as nat,
            packet_lost_events: self.packet_lost_events as nat,
            cf_lost_packets: self.cf_lost_packets,
            bytes_sent: self.bytes_sent as nat,
            bytes_received: self.bytes_received as nat,
            packet_size_missing_sent: self.packet_size_missing_sent as nat,
            packet_size_missing_received: self.packet_size_missing_received as nat,
            unique_streams: self.unique_streams as nat,
            client_bidi_streams: self.client_bidi_streams as nat,
            smoothed_rtt_sample_count: self.smoothed_rtt_sample_count as nat,
            smoothed_rtt_median_ms: self.smoothed_rtt_median_ms,
            smoothed_rtt_p95_ms: self.smoothed_rtt_p95_ms,
            smoothed_rtt_final_ms: self.smoothed_rtt_final_ms,
            rtt_variance_final_ms: self.rtt_variance_final_ms,
            min_rtt_final_ms: self.min_rtt_final_ms,
            congestion_window_final_bytes: self.congestion_window_final_bytes,
            congestion_window_max_bytes: self.congestion_window_max_bytes,
            bytes_in_flight_max: self.bytes_in_flight_max,
            pto_inferred_count: self.pto_inferred_count as nat,
            pto_timer_expirations: self.pto_timer_expirations as nat,
            pto_max_consecutive: self.pto_max_consecutive as nat,
            blocked_events: self.blocked_events as nat,
            migration_events: self.migration_events as nat,
            migrations_completed: self.migrations_completed as nat,
            handshake_completed: self.handshake_completed,
            handshake_confirmed: self.handshake_confirmed,
            close_initiator: opt_view(self.close_initiator),
            close_trigger: opt_view(self.close_trigger),
            close_reason: opt_view(self.close_reason),
            close_error: opt_view(self.close_error),
        }
    }
}

/// A sum of 64 bit numbers that stops at the largest one.
pub open spec fn saturating_sum(a: nat, b: nat) -> nat {
    if a + b > u64::MAX {
        u64::MAX as nat
    } else {
        a + b
    }
}

impl MetricsView {
    /// The number of lost packets: the larger of the number of losses that were
    /// reported and the last count of them, since either may be missing from a trace.
    pub open spec fn packets_lost(self) -> nat {
        match self.cf_lost_packets {
            Some(count) => if count > self.packet_lost_events {
                count as nat
            } else {
                self.packet_lost_events
            },
            None => self.packet_lost_events,
        }
    }

    /// The number of probe timeouts: of the timers that expired, where such events
    /// were recorded, and else what the levels tell.
    pub open spec fn pto_count(self) -> nat {
        if self.pto_timer_expirations > 0 {
            self.pto_timer_expirations
        } else {
            self.pto_inferred_count
        }
    }

    /// How often something occurs for each so many packets that were sent, if there
    /// were any.
    pub open spec fn per_packets_sent(self, count: nat, scale: Double, a: Arithmetic) -> Option<
        Double,
    > {
        if self.packets_sent == 0 {
            None
        } else {
            Some(
                a(
                    Operation::Over(
                        a(Operation::Times(a(Operation::Convert(count as u64)), scale)),
                        a(Operation::Convert(self.packets_sent as u64)),
                    ),
                ),
            )
        }
    }

    /// The lost packets among a hundred that were sent.
    pub open spec fn loss_rate(self, a: Arithmetic) -> Option<Double> {
        self.per_packets_sent(self.packets_lost(), Double { bits: HUNDRED_BITS }, a)
    }

    /// The probe timeouts among a thousand packets that were sent.
    pub open spec fn pto_rate(self, a: Arithmetic) -> Option<Double> {
        self.per_packets_sent(self.pto_count(), Double { bits: THOUSAND_BITS }, a)
    }

    /// The connection's duration, if there was an event, which is never negative.
    pub open spec fn duration(self, a: Arithmetic) -> Option<Double> {
        match (self.start_time_ms, self.end_time_ms) {
            (Some(start), Some(end)) => Some(
                a(Operation::Minus(end, start)).larger(Double { bits: 0 }),
            ),
            _ => None,
        }
    }

    /// The number of packets in both directions.
    pub open spec fn total_packets(self) -> nat {
        saturating_sum(self.packets_sent, self.packets_received)
    }

    /// The number of bytes in both directions.
    pub open spec fn total_bytes(self) -> nat {
        saturating_sum(self.bytes_sent, self.bytes_received)
    }
}

/// How often something occurs for each so many cases.
fn rate<E: Fn(Operation) -> Double>(
    count: u64,
    scale: Double,
    cases: u64,
    evaluate: &E,
) -> (result: Double)
    requires
        is_total(*evaluate),
    ensures
        forall|a: Arithmetic| #[trigger]
            follows(*evaluate, a) ==> result == a(
                Operation::Over(
                    a(Operation::Times(a(Operation::Convert(count)), scale)),
                    a(Operation::Convert(cases)),
                ),
            ),
{
    let count = carry_out(evaluate, Operation::Convert(count));
    let scaled = carry_out(evaluate, Operation::Times(count, scale));
    let cases = carry_out(evaluate, Operation::Convert(cases));
    carry_out(evaluate, Operation::Over(scaled, cases))
}

impl ConnectionMetrics {
    /// The connection's duration, if there was an event.
    pub fn duration_ms<E: Fn(Operation) -> Double>(&self, evaluate: &E) -> (duration: Option<
        Double,
    >)
        requires
            is_total(*evaluate),
        ensures
            forall|a: Arithmetic| #[trigger]
                follows(*evaluate, a) ==> duration == self@.duration(a),
    {
        match (self.start_time_ms, self.end_time_ms) {
            (Some(start), Some(end)) => {
                let difference = carry_out(evaluate, Operation::Minus(end, start));
                Some(difference.max(Double::zero()))
            },
            _ => None,
        }
    }

    /// The number of lost packets.
    pub fn packets_lost(&self) -> (count: u64)
        ensures
            count == self@.packets_lost(),
    {
        match self.cf_lost_packets {
            Some(count) => if count > self.packet_lost_events {
                count
            } else {
                self.packet_lost_events
            },
            None => self.packet_lost_events,
        }
    }

    /// The lost packets among a hundred that were sent.
    pub fn loss_rate_pct<E: Fn(Operation) -> Double>(&self, evaluate: &E) -> (rate: Option<Double>)
        requires
            is_total(*evaluate),
        ensures
            forall|a: Arithmetic| #[trigger] follows(*evaluate, a) ==> rate == self@.loss_rate(a),
    {
        if self.packets_sent == 0 {
            return None;
        }
        let hundred = Double::from_bits(HUNDRED_BITS);
        Some(rate(self.packets_lost(), hundred, self.packets_sent, evaluate))
    }

    /// The number of packets in both directions.
    pub fn total_packets(&self) -> (count: u64)
        ensures
            count == self@.total_packets(),
    {
        self.packets_sent.saturating_add(self.packets_received)
    }

    /// The number of bytes in both directions.
    pub fn total_bytes(&self) -> (count: u64)
        ensures
            count == self@.total_bytes(),
    {
        self.bytes_sent.saturating_add(self.bytes_received)
    }

    /// The number of streams.
    pub fn unique_streams(&self) -> (count: usize)
        ensures
            count == self@.unique_streams,
    {
        self.unique_streams
    }

    /// The number of bidirectional streams that the client opened.
    pub fn client_bidi_streams(&self) -> (count: usize)
        ensures
            count == self@.client_bidi_streams,
    {
        self.client_bidi_streams
    }

    /// The median of the smoothed round trip times.
    pub fn smoothed_rtt_median_ms(&self) -> (rtt: Option<Double>)
        ensures
            rtt == self@.smoothed_rtt_median_ms,
    {
        self.smoothed_rtt_median_ms
    }

    /// The 95th percentile of the smoothed round trip times.
    pub fn smoothed_rtt_p95_ms(&self) -> (rtt: Option<Double>)
        ensures
            rtt == self@.smoothed_rtt_p95_ms,
    {
        self.smoothed_rtt_p95_ms
    }

    /// The number of probe timeouts.
    pub fn pto_count(&self) -> (count: u64)
        ensures
            count == self@.pto_count(),
    {
        if self.pto_timer_expirations > 0 {
            self.pto_timer_expirations
        } else {
            self.pto_inferred_count
        }
    }

    /// The probe timeouts among a thousand packets that were sent.
    pub fn pto_per_1000_packets<E: Fn(Operation) -> Double>(&self, evaluate: &E) -> (rate: Option<
        Double,
    >)
        requires
            is_total(*evaluate),
        ensures
            forall|a: Arithmetic| #[trigger] follows(*evaluate, a) ==> rate == self@.pto_rate(a),
    {
        if self.packets_sent == 0 {
            return None;
        }
        let thousand = Double::from_bits(THOUSAND_BITS);
        Some(rate(self.pto_count(), thousand, self.packets_sent, evaluate))
    }
}

} // verus!
