//! How the metrics of a connection accumulate from its events.

use crate::arithmetic::{carry_out, follows, is_total, Arithmetic, Operation};
use crate::double::Double;
use crate::event::{
    BlockedState, BlockedUpdate, ConnectionClosed, ConnectionState, EventData, Http3Frame,
    MigrationState, Packet, QuicFrame, RecoveryMetricsUpdated, TimeFormat, TimerEventType,
    TimerType, TimerUpdated,
};
use crate::json::{
    collect_json_stream_ids, contains_frame_type, counter_total, has_frame_type, json_f64,
    json_text, json_u64, lookup, lookup_field, member_unsigned, plain_text, singleton,
    stream_ids, total_counter, Json,
};
use crate::metrics::{opt_view, saturating_sum, ConnectionMetrics, MetricsView};
use crate::order::{sort_doubles, sorted_values};
use crate::stats::{percentile_of, percentile_sorted, MEDIAN_BITS, P95_BITS};
use crate::text::{chars_of, decimal, decimal_text, join, joined, same_text, views};
use std::collections::BTreeSet;
use vstd::prelude::*;
use vstd::string::*;

verus! {

/// What a report on loss recovery says.
pub struct RecoveryFact {
    /// The smoothed round trip time.
    pub smoothed_rtt: Option<Double>,
    /// The variance of the round trip time.
    pub rtt_variance: Option<Double>,
    /// The minimum of the round trip time.
    pub min_rtt: Option<Double>,
    /// The congestion window.
    pub congestion_window: Option<u64>,
    /// The bytes in flight.
    pub bytes_in_flight: Option<u64>,
    /// The number of probe timeouts in a row.
    pub pto_level: Option<u64>,
    /// The count of lost packets.
    pub lost_packets: Option<u64>,
}

/// What an event says about the connection.
pub enum Fact {
    /// Nothing that is counted.
    Nothing,
    /// A packet was sent, of the given size if it was recorded.
    Sent(Option<u64>),
    /// A packet was received, of the given size if it was recorded.
    Received(Option<u64>),
    /// A packet was lost.
    Lost,
    /// Flow control began to hold a sender back.
    NewlyBlocked,
    /// A migration changed its state.
    Migration {
        /// It completed.
        complete: bool,
    },
    /// A probe timer expired.
    PtoExpired,
    /// A report on loss recovery.
    Recovery(RecoveryFact),
    /// The connection was closed.
    Closed {
        /// The side that closed it.
        initiator: Option<Seq<char>>,
        /// What made it close.
        trigger: Option<Seq<char>>,
        /// The reason, in words.
        reason: Option<Seq<char>>,
        /// The errors.
        error: Option<Seq<char>>,
    },
}

/// All that is read from one event.
pub struct Observation {
    /// The streams that it names.
    pub streams: Set<u64>,
    /// It shows that the handshake completed.
    pub completed: bool,
    /// It shows that the handshake was confirmed.
    pub confirmed: bool,
    /// What it says about the connection.
    pub fact: Fact,
}

/// The state of an accumulator, as mathematical values.
#[verifier::ext_equal]
pub struct AccumulatorView {
    /// The metrics so far.
    pub connection: MetricsView,
    /// The time of the last event.
    pub previous_event_time_ms: Double,
    /// The last number of probe timeouts in a row.
    pub previous_pto_level: u64,
    /// The streams so far.
    pub stream_ids: Set<u64>,
    /// The smoothed round trip times so far.
    pub smoothed_rtt_samples_ms: Seq<Double>,
}

/// The larger of a number and a maximum that may be missing.
pub open spec fn raised(slot: Option<u64>, value: u64) -> Option<u64> {
    match slot {
        Some(current) => if current > value {
            Some(current)
        } else {
            Some(value)
        },
        None => Some(value),
    }
}

/// A maximum after a number that may be missing.
pub open spec fn raised_opt(slot: Option<u64>, value: Option<u64>) -> Option<u64> {
    match value {
        Some(value) => raised(slot, value),
        None => slot,
    }
}

/// The newer of two values, the second of which may be missing.
pub open spec fn newer<T>(slot: Option<T>, value: Option<T>) -> Option<T> {
    match value {
        Some(value) => Some(value),
        None => slot,
    }
}

/// A smoothed round trip time counts if it is finite and not negative.
pub open spec fn is_rtt_sample(value: Double) -> bool {
    value.finite() && value.at_least(Double { bits: 0 })
}

impl AccumulatorView {
    /// The state after a smoothed round trip time.
    pub open spec fn with_smoothed_rtt(self, value: Double) -> AccumulatorView {
        if is_rtt_sample(value) {
            AccumulatorView {
                connection: MetricsView {
                    smoothed_rtt_final_ms: Some(value),
                    ..self.connection
                },
                smoothed_rtt_samples_ms: self.smoothed_rtt_samples_ms.push(value),
                ..self
            }
        } else {
            self
        }
    }

    /// The state after a number of probe timeouts in a row: each rise of that
    /// number is taken for as many timeouts.
    pub open spec fn with_pto_level(self, value: u64) -> AccumulatorView {
        AccumulatorView {
            connection: MetricsView {
                pto_inferred_count: if value > self.previous_pto_level {
                    saturating_sum(
                        self.connection.pto_inferred_count,
                        (value - self.previous_pto_level) as nat,
                    )
                } else {
                    self.connection.pto_inferred_count
                },
                pto_max_consecutive: if value > self.connection.pto_max_consecutive {
                    value as nat
                } else {
                    self.connection.pto_max_consecutive
                },
                ..self.connection
            },
            previous_pto_level: value,
            ..self
        }
    }

    /// The state after a report on loss recovery.
    pub open spec fn with_recovery(self, fact: RecoveryFact) -> AccumulatorView {
        let sampled = match fact.smoothed_rtt {
            Some(value) => self.with_smoothed_rtt(value),
            None => self,
        };
        let updated = AccumulatorView {
            connection: MetricsView {
                rtt_variance_final_ms: newer(
                    sampled.connection.rtt_variance_final_ms,
                    fact.rtt_variance,
                ),
                min_rtt_final_ms: newer(sampled.connection.min_rtt_final_ms, fact.min_rtt),
                congestion_window_final_bytes: newer(
                    sampled.connection.congestion_window_final_bytes,
                    fact.congestion_window,
                ),
                congestion_window_max_bytes: raised_opt(
                    sampled.connection.congestion_window_max_bytes,
                    fact.congestion_window,
                ),
                bytes_in_flight_max: raised_opt(
                    sampled.connection.bytes_in_flight_max,
                    fact.bytes_in_flight,
                ),
                cf_lost_packets: newer(
                    sampled.connection.cf_lost_packets,
                    fact.lost_packets,
                ),
                ..sampled.connection
            },
            ..sampled
        };
        match fact.pto_level {
            Some(level) => updated.with_pto_level(level),
            None => updated,
        }
    }

    /// The state after what an event says about the connection.
    pub open spec fn with_fact(self, fact: Fact) -> AccumulatorView {
        let m = self.connection;
        match fact {
            Fact::Nothing => self,
            Fact::Sent(Some(length)) => AccumulatorView {
                connection: MetricsView {
                    packets_sent: m.packets_sent + 1,
                    bytes_sent: saturating_sum(m.bytes_sent, length as nat),
                    ..m
                },
                ..self
            },
            Fact::Sent(None) => AccumulatorView {
                connection: MetricsView {
                    packets_sent: m.packets_sent + 1,
                    packet_size_missing_sent: m.packet_size_missing_sent + 1,
                    ..m
                },
                ..self
            },
            Fact::Received(Some(length)) => AccumulatorView {
                connection: MetricsView {
                    packets_received: m.packets_received + 1,
                    bytes_received: saturating_sum(m.bytes_received, length as nat),
                    ..m
                },
                ..self
            },
            Fact::Received(None) => AccumulatorView {
                connection: MetricsView {
                    packets_received: m.packets_received + 1,
                    packet_size_missing_received: m.packet_size_missing_received + 1,
                    ..m
                },
                ..self
            },
            Fact::Lost => AccumulatorView {
                connection: MetricsView { packet_lost_events: m.packet_lost_events + 1, ..m },
                ..self
            },
            Fact::NewlyBlocked => AccumulatorView {
                connection: MetricsView { blocked_events: m.blocked_events + 1, ..m },
                ..self
            },
            Fact::Migration { complete } => AccumulatorView {
                connection: MetricsView {
                    migration_events: m.migration_events + 1,
                    migrations_completed: if complete {
                        m.migrations_completed + 1
                    } else {
                        m.migrations_completed
                    },
                    ..m
                },
                ..self
            },
            Fact::PtoExpired => AccumulatorView {
                connection: MetricsView {
                    pto_timer_expirations: m.pto_timer_expirations + 1,
                    ..m
                },
                ..self
            },
            Fact::Recovery(recovery) => self.with_recovery(recovery),
            Fact::Closed { initiator, trigger, reason, error } => AccumulatorView {
                connection: MetricsView {
                    close_initiator: initiator,
                    close_trigger: trigger,
                    close_reason: reason,
                    close_error: error,
                    ..m
                },
                ..self
            },
        }
    }

    /// The state after all that is read from one event, but for its time.
    pub open spec fn after(self, seen: Observation) -> AccumulatorView {
        let told = self.with_fact(seen.fact);
        AccumulatorView {
            connection: MetricsView {
                handshake_completed: told.connection.handshake_completed || seen.completed
                    || seen.confirmed,
                handshake_confirmed: told.connection.handshake_confirmed || seen.confirmed,
                ..told.connection
            },
            stream_ids: told.stream_ids.union(seen.streams),
            ..told
        }
    }

    /// The state after an event has begun at the given time.
    pub open spec fn begun(self, time_ms: Double) -> AccumulatorView {
        AccumulatorView {
            connection: MetricsView {
                event_count: self.connection.event_count + 1,
                start_time_ms: match self.connection.start_time_ms {
                    Some(start) => Some(start.smaller(time_ms)),
                    None => Some(time_ms),
                },
                end_time_ms: match self.connection.end_time_ms {
                    Some(end) => Some(end.larger(time_ms)),
                    None => Some(time_ms),
                },
                ..self.connection
            },
            previous_event_time_ms: time_ms,
            ..self
        }
    }

    /// Another event can be counted.
    pub open spec fn can_begin(self) -> bool {
        self.connection.event_count < u64::MAX
    }

    /// What an event says can be counted: none of the counters that it raises has
    /// reached its largest value.
    pub open spec fn has_room_for(self, fact: Fact) -> bool {
        let m = self.connection;
        match fact {
            Fact::Sent(length) => {
                &&& m.packets_sent < u64::MAX
                &&& length is None ==> m.packet_size_missing_sent < u64::MAX
            },
            Fact::Received(length) => {
                &&& m.packets_received < u64::MAX
                &&& length is None ==> m.packet_size_missing_received < u64::MAX
            },
            Fact::Lost => m.packet_lost_events < u64::MAX,
            Fact::NewlyBlocked => m.blocked_events < u64::MAX,
            Fact::Migration { complete } => {
                &&& m.migration_events < u64::MAX
                &&& complete ==> m.migrations_completed < u64::MAX
            },
            Fact::PtoExpired => m.pto_timer_expirations < u64::MAX,
            _ => true,
        }
    }

    /// None of the counters of what events say has reached its largest value.
    pub open spec fn has_room(self) -> bool {
        &&& self.connection.packets_sent < u64::MAX
        &&& self.connection.packets_received < u64::MAX
        &&& self.connection.packet_lost_events < u64::MAX
        &&& self.connection.packet_size_missing_sent < u64::MAX
        &&& self.connection.packet_size_missing_received < u64::MAX
        &&& self.connection.pto_timer_expirations < u64::MAX
        &&& self.connection.blocked_events < u64::MAX
        &&& self.connection.migration_events < u64::MAX
        &&& self.connection.migrations_completed < u64::MAX
    }
}

/// The time of an event since the start of the trace.
pub open spec fn absolute_time(
    previous_ms: Double,
    time_ms: Double,
    time_format: TimeFormat,
    a: Arithmetic,
) -> Double {
    match time_format {
        TimeFormat::RelativeToEpoch => time_ms,
        TimeFormat::RelativeToPreviousEvent => a(Operation::Plus(previous_ms, time_ms)),
    }
}

/// Collects the metrics of one connection from its events.
#[derive(Debug)]
pub struct Accumulator {
    /// The metrics so far.
    pub connection: ConnectionMetrics,
    /// The time of the last event.
    pub previous_event_time_ms: Double,
    /// The last number of probe timeouts in a row.
    pub previous_pto_level: u64,
    /// The streams so far.
    pub stream_ids: BTreeSet<u64>,
    /// The smoothed round trip times so far.
    pub smoothed_rtt_samples_ms: Vec<Double>,
}

impl View for Accumulator {
    type V = AccumulatorView;

    open spec fn view(&self) -> AccumulatorView {
        AccumulatorView {
            connection: self.connection@,
            previous_event_time_ms: self.previous_event_time_ms,
            previous_pto_level: self.previous_pto_level,
            stream_ids: self.stream_ids@,
            smoothed_rtt_samples_ms: self.smoothed_rtt_samples_ms@,
        }
    }
}

/// Raises a maximum to a number, if it is below.
pub fn update_max(slot: &mut Option<u64>, value: u64)
    ensures
        *final(slot) == raised(*old(slot), value),
{
    let current = *slot;
    *slot = match current {
        Some(current) => if current > value {
            Some(current)
        } else {
            Some(value)
        },
        None => Some(value),
    };
}

/// Flow control began to hold a sender back.
pub open spec fn newly_blocked(update: BlockedUpdate) -> bool {
    update.new == BlockedState::Blocked && update.old != Some(BlockedState::Blocked)
}

/// Whether flow control began to hold a sender back.
pub fn is_newly_blocked(update: &BlockedUpdate) -> (r: bool)
    ensures
        r == newly_blocked(*update),
{
    let was = match update.old {
        Some(BlockedState::Blocked) => true,
        _ => false,
    };
    let is = match update.new {
        BlockedState::Blocked => true,
        _ => false,
    };
    is && !was
}

/// The state of a connection of which nothing is known but its trace.
pub open spec fn fresh(
    path: Seq<char>,
    title: Option<Seq<char>>,
    vantage_point: Seq<char>,
    file_size_bytes: u64,
) -> AccumulatorView {
    AccumulatorView {
        connection: MetricsView {
            path,
            title,
            vantage_point,
            file_size_bytes,
            event_count: 0,
            start_time_ms: None,
            end_time_ms: None,
            packets_sent: 0,
            packets_received: 0,
            packet_lost_events: 0,
            cf_lost_packets: None,
            bytes_sent: 0,
            bytes_received: 0,
            packet_size_missing_sent: 0,
            packet_size_missing_received: 0,
            unique_streams: 0,
            client_bidi_streams: 0,
            smoothed_rtt_sample_count: 0,
            smoothed_rtt_median_ms: None,
            smoothed_rtt_p95_ms: None,
            smoothed_rtt_final_ms: None,
            rtt_variance_final_ms: None,
            min_rtt_final_ms: None,
            congestion_window_final_bytes: None,
            congestion_window_max_bytes: None,
            bytes_in_flight_max: None,
            pto_inferred_count: 0,
            pto_timer_expirations: 0,
            pto_max_consecutive: 0,
            blocked_events: 0,
            migration_events: 0,
            migrations_completed: 0,
            handshake_completed: false,
            handshake_confirmed: false,
            close_initiator: None,
            close_trigger: None,
            close_reason: None,
            close_error: None,
        },
        previous_event_time_ms: Double { bits: 0 },
        previous_pto_level: 0,
        stream_ids: Set::empty(),
        smoothed_rtt_samples_ms: Seq::empty(),
    }
}

/// The stream that a frame names, if it names one.
pub open spec fn frame_stream(frame: QuicFrame) -> Option<u64> {
    match frame {
        QuicFrame::ResetStream { stream_id } => Some(stream_id),
        QuicFrame::StopSending { stream_id } => Some(stream_id),
        QuicFrame::Stream { stream_id } => Some(stream_id),
        QuicFrame::MaxStreamData { stream_id } => Some(stream_id),
        QuicFrame::StreamDataBlocked { stream_id } => Some(stream_id),
        QuicFrame::HandshakeDone => None,
        QuicFrame::Other => None,
    }
}

/// One of the frames names the stream.
pub open spec fn frames_name(frames: Seq<QuicFrame>, id: u64) -> bool {
    exists|i: int| 0 <= i < frames.len() && #[trigger] frame_stream(frames[i]) == Some(id)
}

/// The streams that frames name.
pub open spec fn frame_streams(frames: Seq<QuicFrame>) -> Set<u64> {
    Set::new(|id: u64| frames_name(frames, id))
}

/// The frames of an event that may have none.
pub open spec fn opt_frames(frames: Option<Vec<QuicFrame>>) -> Seq<QuicFrame> {
    match frames {
        Some(frames) => frames@,
        None => Seq::empty(),
    }
}

/// What is read from frames, along with what their event says.
pub open spec fn frames_observation(frames: Seq<QuicFrame>, fact: Fact) -> Observation {
    Observation {
        streams: frame_streams(frames),
        completed: false,
        confirmed: frames.contains(QuicFrame::HandshakeDone),
        fact,
    }
}

/// What is read from an event that names some streams and shows nothing of the
/// handshake.
pub open spec fn plain_observation(streams: Set<u64>, fact: Fact) -> Observation {
    Observation { streams, completed: false, confirmed: false, fact }
}

/// The size of a packet, if it was recorded.
pub open spec fn packet_length(packet: Packet) -> Option<u64> {
    match packet.raw {
        Some(raw) => raw.length,
        None => None,
    }
}

/// What a change in flow control says.
pub open spec fn blocked_fact(update: BlockedUpdate) -> Fact {
    if newly_blocked(update) {
        Fact::NewlyBlocked
    } else {
        Fact::Nothing
    }
}

/// What something that happened to a timer says.
pub open spec fn timer_fact(event: TimerUpdated) -> Fact {
    if event.timer_type == Some(TimerType::Pto) && event.event_type == TimerEventType::Expired {
        Fact::PtoExpired
    } else {
        Fact::Nothing
    }
}

/// The stream with four times the given number, if there is one.
pub open spec fn quarter_stream(quarter: u64) -> Option<u64> {
    if quarter * 4 <= u64::MAX {
        Some((quarter * 4) as u64)
    } else {
        None
    }
}

/// The stream whose priority a frame changes, if it is one.
pub open spec fn h3_frame_stream(frame: Http3Frame) -> Option<u64> {
    match frame {
        Http3Frame::PriorityUpdate { stream_id } => stream_id,
        Http3Frame::Other => None,
    }
}

/// The plain text of a document that may be missing.
pub open spec fn opt_text(value: Option<Json>) -> Option<Seq<char>> {
    match value {
        Some(value) => plain_text(value),
        None => None,
    }
}

/// A list of the one text that there is, if there is one.
pub open spec fn opt_list(text: Option<Seq<char>>) -> Seq<Seq<char>> {
    match text {
        Some(text) => seq![text],
        None => Seq::empty(),
    }
}

/// A code with its name before it.
pub open spec fn labelled(label: Seq<char>, code: Option<Seq<char>>) -> Option<Seq<char>> {
    match code {
        Some(code) => Some(label + code),
        None => None,
    }
}

/// A number that may be missing, in decimal notation.
pub open spec fn opt_decimal(number: Option<u64>) -> Option<Seq<char>> {
    match number {
        Some(number) => Some(decimal(number as nat)),
        None => None,
    }
}

/// The errors with which a connection closed, in one text.
pub open spec fn close_error(
    connection_error: Option<Seq<char>>,
    application_error: Option<Seq<char>>,
    error_code: Option<Seq<char>>,
    internal_code: Option<Seq<char>>,
) -> Option<Seq<char>> {
    let errors = opt_list(connection_error) + opt_list(application_error) + opt_list(
        labelled("error_code="@, error_code),
    ) + opt_list(labelled("internal_code="@, internal_code));
    if errors.len() == 0 {
        None
    } else {
        Some(joined(errors, "; "@))
    }
}

/// What the end of a connection says.
pub open spec fn closed_fact(event: ConnectionClosed) -> Fact {
    Fact::Closed {
        initiator: opt_text(event.initiator),
        trigger: opt_text(event.trigger),
        reason: opt_view(event.reason),
        error: close_error(
            opt_text(event.connection_error),
            opt_text(event.application_error),
            opt_decimal(event.error_code),
            opt_decimal(event.internal_code),
        ),
    }
}

/// What a report on loss recovery says.
pub open spec fn recovery_fact(event: RecoveryMetricsUpdated) -> RecoveryFact {
    RecoveryFact {
        smoothed_rtt: event.smoothed_rtt,
        rtt_variance: event.rtt_variance,
        min_rtt: event.min_rtt,
        congestion_window: event.congestion_window,
        bytes_in_flight: event.bytes_in_flight,
        pto_level: match event.pto_count {
            Some(count) => Some(count as u64),
            None => None,
        },
        lost_packets: match lookup(event.ex_data@, "cf_lost_packets"@) {
            Some(counter) => counter_total(counter),
            None => None,
        },
    }
}

/// What is read from an event.
pub open spec fn event_observation(data: EventData) -> Observation {
    match data {
        EventData::QuicPacketSent(packet) => frames_observation(
            opt_frames(packet.frames),
            Fact::Sent(packet_length(packet)),
        ),
        EventData::QuicPacketReceived(packet) => frames_observation(
            opt_frames(packet.frames),
            Fact::Received(packet_length(packet)),
        ),
        EventData::QuicPacketLost { frames } => frames_observation(opt_frames(frames), Fact::Lost),
        EventData::QuicMarkedForRetransmit { frames } => frames_observation(
            frames@,
            Fact::Nothing,
        ),
        EventData::QuicFramesProcessed { frames } => frames_observation(frames@, Fact::Nothing),
        EventData::QuicStreamStateUpdated { stream_id } => plain_observation(
            singleton(Some(stream_id)),
            Fact::Nothing,
        ),
        EventData::QuicStreamDataMoved { stream_id } => plain_observation(
            singleton(stream_id),
            Fact::Nothing,
        ),
        EventData::QuicStreamDataBlockedUpdated { stream_id, update } => plain_observation(
            singleton(Some(stream_id)),
            blocked_fact(update),
        ),
        EventData::QuicConnectionDataBlockedUpdated(update) => plain_observation(
            Set::empty(),
            blocked_fact(update),
        ),
        EventData::QuicDatagramDataBlockedUpdated(update) => plain_observation(
            Set::empty(),
            blocked_fact(update),
        ),
        EventData::QuicMigrationStateUpdated { new } => plain_observation(
            Set::empty(),
            Fact::Migration { complete: new == MigrationState::MigrationComplete },
        ),
        EventData::QuicConnectionStateUpdated { new } => Observation {
            streams: Set::empty(),
            completed: new == ConnectionState::HandshakeCompleted,
            confirmed: new == ConnectionState::HandshakeConfirmed,
            fact: Fact::Nothing,
        },
        EventData::QuicConnectionClosed(event) => plain_observation(
            Set::empty(),
            closed_fact(event),
        ),
        EventData::QuicMetricsUpdated(event) => plain_observation(
            Set::empty(),
            Fact::Recovery(recovery_fact(event)),
        ),
        EventData::QuicTimerUpdated(event) => plain_observation(
            Set::empty(),
            timer_fact(event),
        ),
        EventData::Http3StreamTypeSet { stream_id } => plain_observation(
            singleton(Some(stream_id)),
            Fact::Nothing,
        ),
        EventData::Http3PriorityUpdated { stream_id } => plain_observation(
            singleton(stream_id),
            Fact::Nothing,
        ),
        EventData::Http3FrameCreated { stream_id, frame } => plain_observation(
            singleton(Some(stream_id)).union(singleton(h3_frame_stream(frame))),
            Fact::Nothing,
        ),
        EventData::Http3FrameParsed { stream_id, frame } => plain_observation(
            singleton(Some(stream_id)).union(singleton(h3_frame_stream(frame))),
            Fact::Nothing,
        ),
        EventData::Http3DatagramCreated { quarter_stream_id } => plain_observation(
            singleton(quarter_stream(quarter_stream_id)),
            Fact::Nothing,
        ),
        EventData::Http3DatagramParsed { quarter_stream_id } => plain_observation(
            singleton(quarter_stream(quarter_stream_id)),
            Fact::Nothing,
        ),
        EventData::Http3PushResolved { stream_id } => plain_observation(
            singleton(stream_id),
            Fact::Nothing,
        ),
        EventData::Other => plain_observation(Set::empty(), Fact::Nothing),
    }
}

/// The plain text of a document that may be missing.
fn opt_json_text(value: Option<&Json>) -> (text: Option<String>)
    ensures
        opt_view(text) == (match value {
            Some(value) => plain_text(*value),
            None => None,
        }),
{
    match value {
        Some(value) => json_text(value),
        None => None,
    }
}

/// Puts a text at the end of a list, if there is one.
fn push_opt(list: &mut Vec<String>, text: Option<String>)
    ensures
        views(final(list)@) == views(old(list)@) + opt_list(opt_view(text)),
{
    match text {
        Some(text) => {
            list.push(text);
            assert(views(list@) =~= views(old(list)@) + seq![text@]);
        },
        None => {
            assert(views(list@) =~= views(old(list)@) + Seq::<Seq<char>>::empty());
        },
    }
}

/// A code with its name before it.
fn label_text(label: &str, code: Option<String>) -> (text: Option<String>)
    ensures
        opt_view(text) == labelled(label@, opt_view(code)),
{
    match code {
        Some(code) => {
            let mut text = label.to_owned();
            text.append(code.as_str());
            Some(text)
        },
        None => None,
    }
}

/// A number that may be missing, in decimal notation.
fn opt_decimal_text(number: Option<u64>) -> (text: Option<String>)
    ensures
        opt_view(text) == opt_decimal(number),
{
    match number {
        Some(number) => Some(decimal_text(number)),
        None => None,
    }
}

/// The errors with which a connection closed, in one text.
fn close_error_text(
    connection_error: Option<String>,
    application_error: Option<String>,
    error_code: Option<String>,
    internal_code: Option<String>,
) -> (text: Option<String>)
    ensures
        opt_view(text) == close_error(
            opt_view(connection_error),
            opt_view(application_error),
            opt_view(error_code),
            opt_view(internal_code),
        ),
{
    let mut errors: Vec<String> = Vec::new();
    assert(views(errors@) =~= Seq::<Seq<char>>::empty());
    push_opt(&mut errors, connection_error);
    assert(views(errors@) =~= opt_list(opt_view(connection_error)));
    push_opt(&mut errors, application_error);
    let error_code = label_text("error_code=", error_code);
    push_opt(&mut errors, error_code);
    let internal_code = label_text("internal_code=", internal_code);
    push_opt(&mut errors, internal_code);
    assert(views(errors@).len() == errors@.len());
    if errors.is_empty() {
        None
    } else {
        Some(join(&errors, "; "))
    }
}

impl Accumulator {
    /// An accumulator for a trace.
    pub fn new(
        path: String,
        title: Option<String>,
        vantage_point: String,
        file_size_bytes: u64,
    ) -> (accumulator: Self)
        ensures
            accumulator@ == fresh(path@, opt_view(title), vantage_point@, file_size_bytes),
    {
        Self {
            connection: ConnectionMetrics {
                path,
                title,
                vantage_point,
                file_size_bytes,
                event_count: 0,
                start_time_ms: None,
                end_time_ms: None,
                packets_sent: 0,
                packets_received: 0,
                packet_lost_events: 0,
                cf_lost_packets: None,
                bytes_sent: 0,
                bytes_received: 0,
                packet_size_missing_sent: 0,
                packet_size_missing_received: 0,
                unique_streams: 0,
                client_bidi_streams: 0,
                smoothed_rtt_sample_count: 0,
                smoothed_rtt_median_ms: None,
                smoothed_rtt_p95_ms: None,
                smoothed_rtt_final_ms: None,
                rtt_variance_final_ms: None,
                min_rtt_final_ms: None,
                congestion_window_final_bytes: None,
                congestion_window_max_bytes: None,
                bytes_in_flight_max: None,
                pto_inferred_count: 0,
                pto_timer_expirations: 0,
                pto_max_consecutive: 0,
                blocked_events: 0,
                migration_events: 0,
                migrations_completed: 0,
                handshake_completed: false,
                handshake_confirmed: false,
                close_initiator: None,
                close_trigger: None,
                close_reason: None,
                close_error: None,
            },
            previous_event_time_ms: Double::zero(),
            previous_pto_level: 0,
            stream_ids: BTreeSet::new(),
            smoothed_rtt_samples_ms: Vec::new(),
        }
    }

    /// Whether another event can be counted, whatever it says.
    pub fn has_room(&self) -> (r: bool)
        ensures
            r == (self@.can_begin() && self@.has_room()),
    {
        self.connection.event_count < u64::MAX && self.connection.packets_sent < u64::MAX
            && self.connection.packets_received < u64::MAX && self.connection.packet_lost_events
            < u64::MAX && self.connection.packet_size_missing_sent < u64::MAX
            && self.connection.packet_size_missing_received < u64::MAX
            && self.connection.pto_timer_expirations < u64::MAX && self.connection.blocked_events
            < u64::MAX && self.connection.migration_events < u64::MAX
            && self.connection.migrations_completed < u64::MAX
    }

    /// An event begins, at the given time.
    pub fn begin_event<E: Fn(Operation) -> Double>(
        &mut self,
        time_ms: Double,
        time_format: TimeFormat,
        evaluate: &E,
    )
        requires
            old(self)@.can_begin(),
            is_total(*evaluate),
        ensures
            final(self)@ == old(self)@.begun(final(self)@.previous_event_time_ms),
            forall|a: Arithmetic| #[trigger]
                follows(*evaluate, a) ==> final(self)@.previous_event_time_ms == absolute_time(
                    old(self)@.previous_event_time_ms,
                    time_ms,
                    time_format,
                    a,
                ),
    {
        let absolute_time_ms = match time_format {
            TimeFormat::RelativeToEpoch => time_ms,
            TimeFormat::RelativeToPreviousEvent => carry_out(
                evaluate,
                Operation::Plus(self.previous_event_time_ms, time_ms),
            ),
        };
        self.previous_event_time_ms = absolute_time_ms;
        self.connection.event_count += 1;
        self.connection.start_time_ms = match self.connection.start_time_ms {
            Some(start) => Some(start.min(absolute_time_ms)),
            None => Some(absolute_time_ms),
        };
        self.connection.end_time_ms = match self.connection.end_time_ms {
            Some(end) => Some(end.max(absolute_time_ms)),
            None => Some(absolute_time_ms),
        };
        assert(self@ =~= old(self)@.begun(absolute_time_ms));
    }

    /// Notes a smoothed round trip time.
    pub fn observe_smoothed_rtt(&mut self, value: Double)
        ensures
            final(self)@ == old(self)@.with_smoothed_rtt(value),
    {
        if value.is_finite() && value.ge(Double::zero()) {
            self.smoothed_rtt_samples_ms.push(value);
            self.connection.smoothed_rtt_final_ms = Some(value);
        }
    }

    /// Notes a number of probe timeouts in a row.
    pub fn observe_pto_level(&mut self, value: u64)
        ensures
            final(self)@ == old(self)@.with_pto_level(value),
    {
        if value > self.previous_pto_level {
            self.connection.pto_inferred_count =
            self.connection.pto_inferred_count.saturating_add(value - self.previous_pto_level);
        }
        self.previous_pto_level = value;
        if value > self.connection.pto_max_consecutive {
            self.connection.pto_max_consecutive = value;
        }
    }

    /// Notes a stream, if there is one.
    fn observe_stream(&mut self, stream: Option<u64>)
        ensures
            final(self)@ == (AccumulatorView {
                stream_ids: old(self)@.stream_ids.union(singleton(stream)),
                ..old(self)@
            }),
    {
        broadcast use vstd::std_specs::btree::group_btree_axioms;

        if let Some(id) = stream {
            self.stream_ids.insert(id);
        }
        assert(self@.stream_ids =~= old(self)@.stream_ids.union(singleton(stream)));
    }

    /// Notes what frames show.
    pub fn observe_quic_frames(&mut self, frames: Option<&Vec<QuicFrame>>)
        ensures
            final(self)@ == old(self)@.after(
                frames_observation(
                    match frames {
                        Some(frames) => frames@,
                        None => Seq::empty(),
                    },
                    Fact::Nothing,
                ),
            ),
    {
        let frames = match frames {
            Some(frames) => frames,
            None => {
                assert(frame_streams(Seq::empty()) =~= Set::empty());
                assert(self@ =~= old(self)@.after(
                    frames_observation(Seq::empty(), Fact::Nothing),
                ));
                return;
            },
        };
        let mut i: usize = 0;
        assert(frame_streams(frames@.take(0)) =~= Set::empty());
        assert(self@ =~= old(self)@.after(frames_observation(frames@.take(0), Fact::Nothing)));
        while i < frames.len()
            invariant
                i <= frames@.len(),
                self@ == old(self)@.after(
                    frames_observation(frames@.take(i as int), Fact::Nothing),
                ),
            decreases frames@.len() - i,
        {
            let frame = frames[i];
            let ghost shorter = frames@.take(i as int);
            let ghost longer = frames@.take(i + 1);
            match frame {
                QuicFrame::ResetStream { stream_id }
                | QuicFrame::StopSending { stream_id }
                | QuicFrame::Stream { stream_id }
                | QuicFrame::MaxStreamData { stream_id }
                | QuicFrame::StreamDataBlocked { stream_id } => {
                    self.observe_stream(Some(stream_id));
                },
                QuicFrame::HandshakeDone => {
                    self.connection.handshake_completed = true;
                    self.connection.handshake_confirmed = true;
                },
                QuicFrame::Other => {},
            }
            proof {
                lemma_frames_push(shorter, frame);
                assert(longer =~= shorter.push(frame));
                assert(self@ =~= old(self)@.after(frames_observation(longer, Fact::Nothing)));
            }
            i += 1;
        }
        assert(frames@.take(frames@.len() as int) =~= frames@);
    }

    /// Notes the stream whose priority a frame changes.
    pub fn observe_h3_frame(&mut self, frame: &Http3Frame)
        ensures
            final(self)@ == old(self)@.after(
                plain_observation(singleton(h3_frame_stream(*frame)), Fact::Nothing),
            ),
    {
        if let Http3Frame::PriorityUpdate { stream_id } = frame {
            self.observe_stream(*stream_id);
        }
        assert(self@ =~= old(self)@.after(
            plain_observation(singleton(h3_frame_stream(*frame)), Fact::Nothing),
        ));
    }

    /// Notes the stream with four times the given number, if there is one.
    pub fn observe_quarter_stream_id(&mut self, quarter_stream_id: u64)
        ensures
            final(self)@ == old(self)@.after(
                plain_observation(singleton(quarter_stream(quarter_stream_id)), Fact::Nothing),
            ),
    {
        self.observe_stream(quarter_stream_id.checked_mul(4));
        assert(self@ =~= old(self)@.after(
            plain_observation(singleton(quarter_stream(quarter_stream_id)), Fact::Nothing),
        ));
    }
}

impl Accumulator {
    /// Notes what the end of the connection says.
    fn observe_closed(&mut self, event: &ConnectionClosed)
        ensures
            final(self)@ == old(self)@.after(plain_observation(Set::empty(), closed_fact(*event))),
    {
        self.connection.close_initiator = opt_json_text(event.initiator.as_ref());
        self.connection.close_trigger = opt_json_text(event.trigger.as_ref());
        self.connection.close_reason = match &event.reason {
            Some(reason) => Some(reason.clone()),
            None => None,
        };
        let connection_error = opt_json_text(event.connection_error.as_ref());
        let application_error = opt_json_text(event.application_error.as_ref());
        let error_code = opt_decimal_text(event.error_code);
        let internal_code = opt_decimal_text(event.internal_code);
        self.connection.close_error =
        close_error_text(connection_error, application_error, error_code, internal_code);
        assert(self@ =~= old(self)@.after(
            plain_observation(Set::empty(), closed_fact(*event)),
        ));
    }

    /// Notes what a report on loss recovery says.
    fn observe_recovery(
        &mut self,
        smoothed_rtt: Option<Double>,
        rtt_variance: Option<Double>,
        min_rtt: Option<Double>,
        congestion_window: Option<u64>,
        bytes_in_flight: Option<u64>,
        pto_level: Option<u64>,
        lost_packets: Option<u64>,
    )
        ensures
            final(self)@ == old(self)@.with_recovery(
                RecoveryFact {
                    smoothed_rtt,
                    rtt_variance,
                    min_rtt,
                    congestion_window,
                    bytes_in_flight,
                    pto_level,
                    lost_packets,
                },
            ),
    {
        if let Some(value) = smoothed_rtt {
            self.observe_smoothed_rtt(value);
        }
        if let Some(value) = rtt_variance {
            self.connection.rtt_variance_final_ms = Some(value);
        }
        if let Some(value) = min_rtt {
            self.connection.min_rtt_final_ms = Some(value);
        }
        if let Some(value) = congestion_window {
            self.connection.congestion_window_final_bytes = Some(value);
            update_max(&mut self.connection.congestion_window_max_bytes, value);
        }
        if let Some(value) = bytes_in_flight {
            update_max(&mut self.connection.bytes_in_flight_max, value);
        }
        if let Some(value) = lost_packets {
            self.connection.cf_lost_packets = Some(value);
        }
        if let Some(value) = pto_level {
            self.observe_pto_level(value);
        }
    }

    /// Counts a packet that was sent.
    fn count_sent(&mut self, length: Option<u64>)
        requires
            old(self)@.has_room_for(Fact::Sent(length)),
        ensures
            final(self)@ == old(self)@.with_fact(Fact::Sent(length)),
    {
        self.connection.packets_sent += 1;
        if let Some(length) = length {
            self.connection.bytes_sent = self.connection.bytes_sent.saturating_add(length);
        } else {
            self.connection.packet_size_missing_sent += 1;
        }
    }

    /// Counts a packet that was received.
    fn count_received(&mut self, length: Option<u64>)
        requires
            old(self)@.has_room_for(Fact::Received(length)),
        ensures
            final(self)@ == old(self)@.with_fact(Fact::Received(length)),
    {
        self.connection.packets_received += 1;
        if let Some(length) = length {
            self.connection.bytes_received = self.connection.bytes_received.saturating_add(length);
        } else {
            self.connection.packet_size_missing_received += 1;
        }
    }

    /// Notes a packet that was sent, and its frames.
    fn observe_sent(&mut self, packet: &Packet)
        requires
            old(self)@.has_room_for(Fact::Sent(packet_length(*packet))),
        ensures
            final(self)@ == old(self)@.after(
                frames_observation(
                    opt_frames(packet.frames),
                    Fact::Sent(packet_length(*packet)),
                ),
            ),
    {
        self.count_sent(
            match packet.raw {
                Some(raw) => raw.length,
                None => None,
            },
        );
        self.observe_quic_frames(packet.frames.as_ref());
    }

    /// Notes a packet that was received, and its frames.
    fn observe_received(&mut self, packet: &Packet)
        requires
            old(self)@.has_room_for(Fact::Received(packet_length(*packet))),
        ensures
            final(self)@ == old(self)@.after(
                frames_observation(
                    opt_frames(packet.frames),
                    Fact::Received(packet_length(*packet)),
                ),
            ),
    {
        self.count_received(
            match packet.raw {
                Some(raw) => raw.length,
                None => None,
            },
        );
        self.observe_quic_frames(packet.frames.as_ref());
    }

    /// Notes a packet that was lost, and its frames.
    fn observe_lost(&mut self, frames: Option<&Vec<QuicFrame>>)
        requires
            old(self)@.has_room_for(Fact::Lost),
        ensures
            final(self)@ == old(self)@.after(
                frames_observation(
                    match frames {
                        Some(frames) => frames@,
                        None => Seq::empty(),
                    },
                    Fact::Lost,
                ),
            ),
    {
        self.connection.packet_lost_events += 1;
        self.observe_quic_frames(frames);
    }

    /// Notes an event that names a stream, if it does, and says nothing else.
    fn observe_named_stream(&mut self, stream: Option<u64>)
        ensures
            final(self)@ == old(self)@.after(plain_observation(singleton(stream), Fact::Nothing)),
    {
        self.observe_stream(stream);
        assert(self@ =~= old(self)@.after(plain_observation(singleton(stream), Fact::Nothing)));
    }

    /// Notes a change in flow control, of a stream if one is given, and counts it if
    /// it begins to hold a sender back.
    fn observe_blocked(&mut self, stream: Option<u64>, update: &BlockedUpdate)
        requires
            old(self)@.has_room_for(blocked_fact(*update)),
        ensures
            final(self)@ == old(self)@.after(
                plain_observation(singleton(stream), blocked_fact(*update)),
            ),
    {
        self.observe_stream(stream);
        if is_newly_blocked(update) {
            self.connection.blocked_events += 1;
        }
        assert(self@ =~= old(self)@.after(
            plain_observation(singleton(stream), blocked_fact(*update)),
        ));
    }

    /// Counts a migration that changed its state.
    fn observe_migration(&mut self, new: &MigrationState)
        requires
            old(self)@.has_room_for(
                Fact::Migration { complete: *new == MigrationState::MigrationComplete },
            ),
        ensures
            final(self)@ == old(self)@.after(
                plain_observation(
                    Set::empty(),
                    Fact::Migration { complete: *new == MigrationState::MigrationComplete },
                ),
            ),
    {
        self.connection.migration_events += 1;
        if let MigrationState::MigrationComplete = new {
            self.connection.migrations_completed += 1;
        }
        assert(self@.stream_ids =~= old(self)@.stream_ids.union(Set::empty()));
    }

    /// Notes what a change of the connection's state shows of the handshake.
    fn observe_state(&mut self, new: &ConnectionState)
        ensures
            final(self)@ == old(self)@.after(
                Observation {
                    streams: Set::empty(),
                    completed: *new == ConnectionState::HandshakeCompleted,
                    confirmed: *new == ConnectionState::HandshakeConfirmed,
                    fact: Fact::Nothing,
                },
            ),
    {
        match new {
            ConnectionState::HandshakeCompleted => {
                self.connection.handshake_completed = true;
            },
            ConnectionState::HandshakeConfirmed => {
                self.connection.handshake_completed = true;
                self.connection.handshake_confirmed = true;
            },
            _ => {},
        }
        assert(self@.stream_ids =~= old(self)@.stream_ids.union(Set::empty()));
    }

    /// Notes a report on loss recovery.
    fn observe_metrics(&mut self, event: &RecoveryMetricsUpdated)
        ensures
            final(self)@ == old(self)@.after(
                plain_observation(Set::empty(), Fact::Recovery(recovery_fact(*event))),
            ),
    {
        let lost_packets = match lookup_field(&event.ex_data, "cf_lost_packets") {
            Some(counter) => total_counter(counter),
            None => None,
        };
        self.observe_recovery(
            event.smoothed_rtt,
            event.rtt_variance,
            event.min_rtt,
            event.congestion_window,
            event.bytes_in_flight,
            match event.pto_count {
                Some(count) => Some(count as u64),
                None => None,
            },
            lost_packets,
        );
        assert(self@.stream_ids =~= self@.stream_ids.union(Set::empty()));
    }

    /// Counts a probe timer that expired.
    fn observe_timer(&mut self, event: &TimerUpdated)
        requires
            old(self)@.has_room_for(timer_fact(*event)),
        ensures
            final(self)@ == old(self)@.after(plain_observation(Set::empty(), timer_fact(*event))),
    {
        let pto = match event.timer_type {
            Some(TimerType::Pto) => true,
            _ => false,
        };
        let expired = match event.event_type {
            TimerEventType::Expired => true,
            _ => false,
        };
        if pto && expired {
            self.connection.pto_timer_expirations += 1;
        }
        assert(self@.stream_ids =~= old(self)@.stream_ids.union(Set::empty()));
    }

    /// Notes the streams of a frame that was made or read.
    fn observe_framed(&mut self, stream_id: u64, frame: &Http3Frame)
        ensures
            final(self)@ == old(self)@.after(
                plain_observation(
                    singleton(Some(stream_id)).union(singleton(h3_frame_stream(*frame))),
                    Fact::Nothing,
                ),
            ),
    {
        self.observe_stream(Some(stream_id));
        self.observe_h3_frame(frame);
        assert(self@.stream_ids =~= old(self)@.stream_ids.union(
            singleton(Some(stream_id)).union(singleton(h3_frame_stream(*frame))),
        ));
    }

    /// Notes what an event says.
    pub fn observe_event_data(&mut self, data: &EventData)
        requires
            old(self)@.has_room_for(event_observation(*data).fact),
        ensures
            final(self)@ == old(self)@.after(event_observation(*data)),
    {
        match data {
            EventData::QuicPacketSent(packet) => {
                self.observe_sent(packet);
            },
            EventData::QuicPacketReceived(packet) => {
                self.observe_received(packet);
            },
            EventData::QuicPacketLost { frames } => {
                self.observe_lost(frames.as_ref());
            },
            EventData::QuicMarkedForRetransmit { frames } => {
                self.observe_quic_frames(Some(frames));
            },
            EventData::QuicFramesProcessed { frames } => {
                self.observe_quic_frames(Some(frames));
            },
            EventData::QuicStreamStateUpdated { stream_id } => {
                self.observe_named_stream(Some(*stream_id));
            },
            EventData::QuicStreamDataMoved { stream_id } => {
                self.observe_named_stream(*stream_id);
            },
            EventData::QuicStreamDataBlockedUpdated { stream_id, update } => {
                self.observe_blocked(Some(*stream_id), update);
            },
            EventData::QuicConnectionDataBlockedUpdated(update) => {
                self.observe_blocked(None, update);
            },
            EventData::QuicDatagramDataBlockedUpdated(update) => {
                self.observe_blocked(None, update);
            },
            EventData::QuicMigrationStateUpdated { new } => {
                self.observe_migration(new);
            },
            EventData::QuicConnectionStateUpdated { new } => {
                self.observe_state(new);
            },
            EventData::QuicConnectionClosed(event) => {
                self.observe_closed(event);
            },
            EventData::QuicMetricsUpdated(event) => {
                self.observe_metrics(event);
            },
            EventData::QuicTimerUpdated(event) => {
                self.observe_timer(event);
            },
            EventData::Http3StreamTypeSet { stream_id } => {
                self.observe_named_stream(Some(*stream_id));
            },
            EventData::Http3PriorityUpdated { stream_id } => {
                self.observe_named_stream(*stream_id);
            },
            EventData::Http3FrameCreated { stream_id, frame } => {
                self.observe_framed(*stream_id, frame);
            },
            EventData::Http3FrameParsed { stream_id, frame } => {
                self.observe_framed(*stream_id, frame);
            },
            EventData::Http3DatagramCreated { quarter_stream_id } => {
                self.observe_quarter_stream_id(*quarter_stream_id);
            },
            EventData::Http3DatagramParsed { quarter_stream_id } => {
                self.observe_quarter_stream_id(*quarter_stream_id);
            },
            EventData::Http3PushResolved { stream_id } => {
                self.observe_named_stream(*stream_id);
            },
            EventData::Other => {
                self.observe_named_stream(None);
            },
        }
    }
}

/// What follows the last colon of an event's name.
pub open spec fn name_suffix(name: Seq<char>) -> Seq<char>
    decreases name.len(),
{
    if name.len() == 0 || name.last() == ':' {
        Seq::empty()
    } else {
        name_suffix(name.drop_last()).push(name.last())
    }
}

/// The events that are read from JSON documents.
#[derive(Clone, Copy, Debug, PartialEq, Eq, Structural)]
pub enum JsonEventKind {
    /// A packet was sent.
    PacketSent,
    /// A packet was received.
    PacketReceived,
    /// A packet was lost.
    PacketLost,
    /// Loss recovery or congestion control changed.
    MetricsUpdated,
    /// Something happened to a timer.
    TimerUpdated,
    /// Flow control changed.
    BlockedUpdated,
    /// A migration changed its state.
    MigrationStateUpdated,
    /// The connection changed its state.
    ConnectionStateUpdated,
    /// The connection was closed.
    ConnectionClosed,
    /// Any other event.
    Other,
}

/// The kind of an event, which the end of its name tells.
pub open spec fn json_event_kind(name: Seq<char>) -> JsonEventKind {
    let suffix = name_suffix(name);
    if suffix == "packet_sent"@ {
        JsonEventKind::PacketSent
    } else if suffix == "packet_received"@ {
        JsonEventKind::PacketReceived
    } else if suffix == "packet_lost"@ {
        JsonEventKind::PacketLost
    } else if suffix == "metrics_updated"@ || suffix == "recovery_metrics_updated"@ {
        JsonEventKind::MetricsUpdated
    } else if suffix == "timer_updated"@ {
        JsonEventKind::TimerUpdated
    } else if suffix == "connection_data_blocked_updated"@ || suffix
        == "stream_data_blocked_updated"@ || suffix == "datagram_data_blocked_updated"@ {
        JsonEventKind::BlockedUpdated
    } else if suffix == "migration_state_updated"@ {
        JsonEventKind::MigrationStateUpdated
    } else if suffix == "connection_state_updated"@ {
        JsonEventKind::ConnectionStateUpdated
    } else if suffix == "connection_closed"@ {
        JsonEventKind::ConnectionClosed
    } else {
        JsonEventKind::Other
    }
}

/// A member of an object is the given string.
pub open spec fn member_is(data: Json, key: Seq<char>, text: Seq<char>) -> bool {
    match data.member(key) {
        Some(value) => value.string() == Some(text),
        None => false,
    }
}

/// The finite number that a member of an object denotes.
pub open spec fn member_double(data: Json, key: Seq<char>) -> Option<Double> {
    match data.member(key) {
        Some(value) => value.double(),
        None => None,
    }
}

/// The size of a packet, if it was recorded.
pub open spec fn json_packet_length(data: Json) -> Option<u64> {
    match data.member("raw"@) {
        Some(raw) => member_unsigned(raw, "length"@),
        None => None,
    }
}

/// What a report on loss recovery says.
pub open spec fn json_recovery_fact(data: Json) -> RecoveryFact {
    RecoveryFact {
        smoothed_rtt: member_double(data, "smoothed_rtt"@),
        rtt_variance: member_double(data, "rtt_variance"@),
        min_rtt: member_double(data, "min_rtt"@),
        congestion_window: member_unsigned(data, "congestion_window"@),
        bytes_in_flight: member_unsigned(data, "bytes_in_flight"@),
        pto_level: member_unsigned(data, "pto_count"@),
        lost_packets: match data.member("cf_lost_packets"@) {
            Some(counter) => counter_total(counter),
            None => None,
        },
    }
}

/// What the end of a connection says.
pub open spec fn json_closed_fact(data: Json) -> Fact {
    Fact::Closed {
        initiator: opt_text(data.member("initiator"@)),
        trigger: opt_text(data.member("trigger"@)),
        reason: opt_text(data.member("reason"@)),
        error: close_error(
            opt_text(data.member("connection_error"@)),
            opt_text(data.member("application_error"@)),
            opt_text(data.member("error_code"@)),
            opt_text(data.member("internal_code"@)),
        ),
    }
}

/// What an event that was recorded as a JSON document says.
pub open spec fn json_fact(kind: JsonEventKind, data: Json) -> Fact {
    match kind {
        JsonEventKind::PacketSent => Fact::Sent(json_packet_length(data)),
        JsonEventKind::PacketReceived => Fact::Received(json_packet_length(data)),
        JsonEventKind::PacketLost => Fact::Lost,
        JsonEventKind::MetricsUpdated => Fact::Recovery(json_recovery_fact(data)),
        JsonEventKind::TimerUpdated => if member_is(data, "timer_type"@, "pto"@) && member_is(
            data,
            "event_type"@,
            "expired"@,
        ) {
            Fact::PtoExpired
        } else {
            Fact::Nothing
        },
        JsonEventKind::BlockedUpdated => if member_is(data, "new"@, "blocked"@) && !member_is(
            data,
            "old"@,
            "blocked"@,
        ) {
            Fact::NewlyBlocked
        } else {
            Fact::Nothing
        },
        JsonEventKind::MigrationStateUpdated => Fact::Migration {
            complete: member_is(data, "new"@, "migration_complete"@),
        },
        JsonEventKind::ConnectionStateUpdated => Fact::Nothing,
        JsonEventKind::ConnectionClosed => json_closed_fact(data),
        JsonEventKind::Other => Fact::Nothing,
    }
}

/// What is read from an event that was recorded as a JSON document. Streams and
/// confirming frames count wherever they stand in it.
pub open spec fn json_observation(name: Seq<char>, data: Json) -> Observation {
    let kind = json_event_kind(name);
    let state = kind == JsonEventKind::ConnectionStateUpdated;
    Observation {
        streams: stream_ids(data),
        completed: state && member_is(data, "new"@, "handshake_completed"@),
        confirmed: has_frame_type(data, "handshake_done"@) || (state && member_is(
            data,
            "new"@,
            "handshake_confirmed"@,
        )),
        fact: json_fact(kind, data),
    }
}

/// What follows the last colon of an event's name.
fn name_suffix_text(name: &str) -> (suffix: String)
    ensures
        suffix@ == name_suffix(name@),
{
    let chars = chars_of(name);
    let mut start: usize = chars.len();
    proof {
        lemma_name_suffix(name@, start as int);
    }
    while start > 0 && chars[start - 1] != ':'
        invariant
            chars@ == name@,
            start <= chars@.len(),
            name_suffix(name@) == name_suffix(name@.take(start as int)) + name@.skip(start as int),
        decreases start,
    {
        start -= 1;
        proof {
            let longer = name@.take(start + 1);
            assert(longer.drop_last() =~= name@.take(start as int));
            assert(name_suffix(longer) =~= name_suffix(name@.take(start as int)).push(
                name@[start as int],
            ));
            assert(name_suffix(name@.take(start as int)).push(name@[start as int]) + name@.skip(
                start + 1,
            ) =~= name_suffix(name@.take(start as int)) + name@.skip(start as int));
        }
    }
    proof {
        if start > 0 {
            assert(name@.take(start as int).last() == ':');
        }
        assert(name_suffix(name@) =~= name@.skip(start as int));
    }
    name.substring_char(start, chars.len()).to_owned()
}

/// The suffix of a whole name is that of the name and nothing more.
proof fn lemma_name_suffix(name: Seq<char>, len: int)
    requires
        len == name.len(),
    ensures
        name_suffix(name) == name_suffix(name.take(len)) + name.skip(len),
{
    assert(name.take(len) =~= name);
    assert(name_suffix(name) + name.skip(len) =~= name_suffix(name));
}

/// The kind of an event.
pub fn json_kind(name: &str) -> (kind: JsonEventKind)
    ensures
        kind == json_event_kind(name@),
{
    let owned = name_suffix_text(name);
    let suffix = owned.as_str();
    if same_text(suffix, "packet_sent") {
        JsonEventKind::PacketSent
    } else if same_text(suffix, "packet_received") {
        JsonEventKind::PacketReceived
    } else if same_text(suffix, "packet_lost") {
        JsonEventKind::PacketLost
    } else if same_text(suffix, "metrics_updated") || same_text(
        suffix,
        "recovery_metrics_updated",
    ) {
        JsonEventKind::MetricsUpdated
    } else if same_text(suffix, "timer_updated") {
        JsonEventKind::TimerUpdated
    } else if same_text(suffix, "connection_data_blocked_updated") || same_text(
        suffix,
        "stream_data_blocked_updated",
    ) || same_text(suffix, "datagram_data_blocked_updated") {
        JsonEventKind::BlockedUpdated
    } else if same_text(suffix, "migration_state_updated") {
        JsonEventKind::MigrationStateUpdated
    } else if same_text(suffix, "connection_state_updated") {
        JsonEventKind::ConnectionStateUpdated
    } else if same_text(suffix, "connection_closed") {
        JsonEventKind::ConnectionClosed
    } else {
        JsonEventKind::Other
    }
}

/// Whether a member of an object is the given string.
fn member_is_text(data: &Json, key: &str, text: &str) -> (r: bool)
    ensures
        r == member_is(*data, key@, text@),
{
    match data.get(key) {
        Some(value) => value.is_text(text),
        None => false,
    }
}

impl Accumulator {
    /// Notes what the end of the connection says.
    fn observe_json_closed(&mut self, data: &Json)
        ensures
            final(self)@ == old(self)@.with_fact(json_closed_fact(*data)),
    {
        self.connection.close_initiator = opt_json_text(data.get("initiator"));
        self.connection.close_trigger = opt_json_text(data.get("trigger"));
        self.connection.close_reason = opt_json_text(data.get("reason"));
        let connection_error = opt_json_text(data.get("connection_error"));
        let application_error = opt_json_text(data.get("application_error"));
        let error_code = opt_json_text(data.get("error_code"));
        let internal_code = opt_json_text(data.get("internal_code"));
        self.connection.close_error =
        close_error_text(connection_error, application_error, error_code, internal_code);
        assert(self@ =~= old(self)@.with_fact(json_closed_fact(*data)));
    }

    /// Notes what a report on loss recovery says.
    fn observe_json_recovery(&mut self, data: &Json)
        ensures
            final(self)@ == old(self)@.with_recovery(json_recovery_fact(*data)),
    {
        let lost_packets = match data.get("cf_lost_packets") {
            Some(counter) => total_counter(counter),
            None => None,
        };
        self.observe_recovery(
            json_f64(data.get("smoothed_rtt")),
            json_f64(data.get("rtt_variance")),
            json_f64(data.get("min_rtt")),
            json_u64(Some(data), "congestion_window"),
            json_u64(Some(data), "bytes_in_flight"),
            json_u64(Some(data), "pto_count"),
            lost_packets,
        );
    }

    /// Notes what a change of the connection's state shows of the handshake.
    fn observe_json_state(&mut self, data: &Json)
        ensures
            final(self)@ == (AccumulatorView {
                connection: MetricsView {
                    handshake_completed: old(self)@.connection.handshake_completed || member_is(
                        *data,
                        "new"@,
                        "handshake_completed"@,
                    ) || member_is(*data, "new"@, "handshake_confirmed"@),
                    handshake_confirmed: old(self)@.connection.handshake_confirmed || member_is(
                        *data,
                        "new"@,
                        "handshake_confirmed"@,
                    ),
                    ..old(self)@.connection
                },
                ..old(self)@
            }),
    {
        if member_is_text(data, "new", "handshake_completed") {
            self.connection.handshake_completed = true;
        }
        if member_is_text(data, "new", "handshake_confirmed") {
            self.connection.handshake_completed = true;
            self.connection.handshake_confirmed = true;
        }
    }

    /// Notes what an event of the given kind says of the connection.
    fn observe_json_fact(&mut self, kind: JsonEventKind, data: &Json)
        requires
            old(self)@.has_room_for(json_fact(kind, *data)),
        ensures
            final(self)@ == old(self)@.with_fact(json_fact(kind, *data)),
    {
        match kind {
            JsonEventKind::PacketSent => {
                self.count_sent(json_u64(data.get("raw"), "length"));
            },
            JsonEventKind::PacketReceived => {
                self.count_received(json_u64(data.get("raw"), "length"));
            },
            JsonEventKind::PacketLost => {
                self.connection.packet_lost_events += 1;
            },
            JsonEventKind::MetricsUpdated => {
                self.observe_json_recovery(data);
            },
            JsonEventKind::TimerUpdated => {
                if member_is_text(data, "timer_type", "pto") && member_is_text(
                    data,
                    "event_type",
                    "expired",
                ) {
                    self.connection.pto_timer_expirations += 1;
                }
            },
            JsonEventKind::BlockedUpdated => {
                if member_is_text(data, "new", "blocked") && !member_is_text(
                    data,
                    "old",
                    "blocked",
                ) {
                    self.connection.blocked_events += 1;
                }
            },
            JsonEventKind::MigrationStateUpdated => {
                self.connection.migration_events += 1;
                if member_is_text(data, "new", "migration_complete") {
                    self.connection.migrations_completed += 1;
                }
            },
            JsonEventKind::ConnectionStateUpdated => {},
            JsonEventKind::ConnectionClosed => {
                self.observe_json_closed(data);
            },
            JsonEventKind::Other => {},
        }
    }

    /// Notes what an event says that was recorded as a JSON document.
    pub fn observe_json_event(&mut self, name: &str, data: &Json)
        requires
            old(self)@.has_room_for(json_observation(name@, *data).fact),
        ensures
            final(self)@ == old(self)@.after(json_observation(name@, *data)),
    {
        let kind = json_kind(name);
        self.observe_json_fact(kind, data);
        if let JsonEventKind::ConnectionStateUpdated = kind {
            self.observe_json_state(data);
        }
        if contains_frame_type(data, "handshake_done") {
            self.connection.handshake_completed = true;
            self.connection.handshake_confirmed = true;
        }
        collect_json_stream_ids(data, &mut self.stream_ids);
    }
}

/// A bidirectional stream that the client opened: such streams have numbers that
/// are multiples of four.
pub open spec fn is_client_bidi(id: u64) -> bool {
    id % 4 == 0
}

/// The bidirectional streams that the client opened.
pub open spec fn client_bidi(ids: Set<u64>) -> Set<u64> {
    ids.filter(|id: u64| is_client_bidi(id))
}

/// The number of bidirectional streams that the client opened.
fn count_client_bidi(ids: &BTreeSet<u64>) -> (count: usize)
    ensures
        count == client_bidi(ids@).len(),
        count <= ids@.len(),
        ids@.finite(),
{
    broadcast use vstd::std_specs::btree::group_btree_axioms;

    let total = ids.len();
    let mut count: usize = 0;
    let ghost mut visited: Set<u64> = Set::empty();
    assert(client_bidi(visited) =~= Set::empty());
    for id in it: ids.iter()
        invariant
            it.seq().unref().to_set() == ids@,
            it.seq().no_duplicates(),
            it.seq().len() == ids@.len(),
            total == ids@.len(),
            count <= it.index(),
            visited.finite(),
            visited.len() == it.index(),
            visited.subset_of(ids@),
            forall|x: u64| #[trigger]
                visited.contains(x) ==> exists|k: int|
                    0 <= k < it.index() && *#[trigger] it.seq()[k] == x,
            client_bidi(visited).finite(),
            client_bidi(visited).len() == count,
    {
        proof {
            let n = it.index() as int;
            assert(it.seq().unref()[n] == *id);
            assert(ids@.contains(*id));
            if visited.contains(*id) {
                let k = choose|k: int| 0 <= k < n && *#[trigger] it.seq()[k] == *id;
                assert(it.seq()[k] == it.seq()[n]);
            }
            assert(!client_bidi(visited).contains(*id));
            assert(*it.seq()[n] == *id);
            assert(client_bidi(visited.insert(*id)) =~= if is_client_bidi(*id) {
                client_bidi(visited).insert(*id)
            } else {
                client_bidi(visited)
            });
            visited = visited.insert(*id);
        }
        if *id % 4 == 0 {
            count += 1;
        }
    }
    proof {
        lemma_ids_finite(ids);
        vstd::set_lib::lemma_subset_equality(visited, ids@);
    }
    count
}

/// A set of streams is finite.
proof fn lemma_ids_finite(ids: &BTreeSet<u64>)
    ensures
        ids@.finite(),
{
    broadcast use vstd::std_specs::btree::group_btree_axioms;

    let keys = vstd::std_specs::btree::spec_btree_keys_iter(ids);
    vstd::seq_lib::seq_to_set_is_finite(
        vstd::std_specs::iter::IteratorSpec::remaining(&keys).unref(),
    );
}

impl AccumulatorView {
    /// The metrics of the connection once there are no more events.
    pub open spec fn finished(self, a: Arithmetic) -> MetricsView {
        let samples = sorted_values(self.smoothed_rtt_samples_ms);
        MetricsView {
            unique_streams: self.stream_ids.len(),
            client_bidi_streams: client_bidi(self.stream_ids).len(),
            smoothed_rtt_sample_count: self.smoothed_rtt_samples_ms.len(),
            smoothed_rtt_median_ms: percentile_of(samples, Double { bits: MEDIAN_BITS }, a),
            smoothed_rtt_p95_ms: percentile_of(samples, Double { bits: P95_BITS }, a),
            ..self.connection
        }
    }
}

impl Accumulator {
    /// The metrics of the connection once there are no more events.
    pub fn finish<E: Fn(Operation) -> Double>(self, evaluate: &E) -> (metrics: ConnectionMetrics)
        requires
            is_total(*evaluate),
        ensures
            metrics@ == (MetricsView {
                unique_streams: self@.stream_ids.len(),
                client_bidi_streams: client_bidi(self@.stream_ids).len(),
                smoothed_rtt_sample_count: self@.smoothed_rtt_samples_ms.len(),
                smoothed_rtt_median_ms: metrics@.smoothed_rtt_median_ms,
                smoothed_rtt_p95_ms: metrics@.smoothed_rtt_p95_ms,
                ..self@.connection
            }),
            forall|a: Arithmetic| #[trigger]
                follows(*evaluate, a) ==> metrics@ == self@.finished(a),
    {
        broadcast use vstd::std_specs::btree::group_btree_axioms;

        let mut metrics = self.connection;
        metrics.unique_streams = self.stream_ids.len();
        metrics.client_bidi_streams = count_client_bidi(&self.stream_ids);
        let samples = sort_doubles(&self.smoothed_rtt_samples_ms);
        metrics.smoothed_rtt_sample_count = samples.len();
        metrics.smoothed_rtt_median_ms =
        percentile_sorted(&samples, Double::from_bits(MEDIAN_BITS), evaluate);
        metrics.smoothed_rtt_p95_ms =
        percentile_sorted(&samples, Double::from_bits(P95_BITS), evaluate);
        metrics
    }
}

/// One more frame names one more stream, or confirms the handshake.
proof fn lemma_frames_push(frames: Seq<QuicFrame>, frame: QuicFrame)
    ensures
        frame_streams(frames.push(frame)) == frame_streams(frames).union(
            singleton(frame_stream(frame)),
        ),
        frames.push(frame).contains(QuicFrame::HandshakeDone) == (frames.contains(
            QuicFrame::HandshakeDone,
        ) || frame == QuicFrame::HandshakeDone),
{
    let longer = frames.push(frame);
    assert forall|id: u64| #[trigger] frame_streams(longer).contains(id) == frame_streams(
        frames,
    ).union(singleton(frame_stream(frame))).contains(id) by {
        if frames_name(longer, id) {
            let i = choose|i: int|
                0 <= i < longer.len() && #[trigger] frame_stream(longer[i]) == Some(id);
            if i < frames.len() {
                assert(frame_stream(frames[i]) == Some(id));
            }
        }
        if frames_name(frames, id) {
            let i = choose|i: int|
                0 <= i < frames.len() && #[trigger] frame_stream(frames[i]) == Some(id);
            assert(frame_stream(longer[i]) == Some(id));
        }
        assert(longer[frames.len() as int] == frame);
        assert(frame_stream(longer[frames.len() as int]) == frame_stream(frame));
    }
    assert(frame_streams(longer) =~= frame_streams(frames).union(
        singleton(frame_stream(frame)),
    ));
    if frames.contains(QuicFrame::HandshakeDone) {
        let i = choose|i: int| 0 <= i < frames.len() && frames[i] == QuicFrame::HandshakeDone;
        assert(longer[i] == QuicFrame::HandshakeDone);
    }
    assert(longer[frames.len() as int] == frame);
    if longer.contains(QuicFrame::HandshakeDone) {
        let i = choose|i: int| 0 <= i < longer.len() && longer[i] == QuicFrame::HandshakeDone;
        assert(i < frames.len() ==> frames[i] == QuicFrame::HandshakeDone);
    }
}

} // verus!
