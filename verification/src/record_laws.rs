//! What the metrics of a trace say of its records, whatever they are and in whatever
//! order they come.

use crate::accumulator::{
    close_error, event_observation, frame_stream, frame_streams, frames_name, json_event_kind,
    json_packet_length, labelled, member_double, member_is, name_suffix, opt_list, opt_text,
    AccumulatorView, Fact, JsonEventKind, RecoveryFact,
};
use crate::double::Double;
use crate::event::{
    BlockedState, BlockedUpdate, ConnectionState, EventData, Http3Frame, MigrationState, Packet,
    QuicFrame, TimerEventType, TimerType,
};
use crate::json::{
    compact, counter_total, has_frame_type, member_unsigned, stream_ids, Json, JsonNumber,
};
use crate::text::{decimal, joined, parsed};
use crate::trace::Record;
use crate::trace_laws::{law_pto_levels_are_inferred, levelled, replayed, rises};
use vstd::prelude::*;
use vstd::string::*;

verus! {

/// An event's name is the given word, or ends with a colon and that word.
#[verifier::opaque]
pub open spec fn is_called(name: Seq<char>, word: Seq<char>) -> bool {
    let start = name.len() - word.len();
    start >= 0 && name.skip(start) == word && (start == 0 || name[start - 1] == ':')
}

/// What follows the last colon is what a name is called.
proof fn lemma_is_called(name: Seq<char>, word: Seq<char>)
    requires
        !word.contains(':'),
    ensures
        is_called(name, word) <==> name_suffix(name) == word,
    decreases name.len(),
{
    reveal(is_called);
    if name.len() == 0 || name.last() == ':' {
        if word.len() > 0 && is_called(name, word) {
            assert(name.skip(name.len() - word.len()).last() == name.last());
            assert(word.contains(word.last()));
        }
        if word.len() == 0 {
            assert(word =~= Seq::<char>::empty());
            assert(name.skip(name.len() as int) =~= word);
        }
    } else if word.len() == 0 {
        assert(name_suffix(name).len() > 0);
    } else {
        let shorter = name.drop_last();
        let stem = word.drop_last();
        assert forall|i: int| 0 <= i < stem.len() implies stem[i] != ':' by {
            assert(word.contains(word[i]));
        }
        lemma_is_called(shorter, stem);
        if is_called(name, word) {
            let start = name.len() - word.len();
            assert(name.skip(start).last() == name.last());
            assert(shorter.skip(start) =~= stem);
            assert(name_suffix(name) =~= word);
        }
        if name_suffix(name) == word {
            assert(name_suffix(shorter) =~= stem);
            let start = name.len() - word.len();
            assert(name.skip(start) =~= shorter.skip(start).push(name.last()));
            assert(name.skip(start) =~= word);
        }
    }
}

/// The integer that a document denotes, as a number or as text.
pub open spec fn integer_in(value: Option<Json>) -> Option<u64> {
    match value {
        Some(Json::Number(JsonNumber::Unsigned { value, .. })) => Some(value),
        Some(Json::Text(text)) => parsed(text.text@),
        _ => None,
    }
}

/// The finite number that a document denotes, as a number or as text.
pub open spec fn number_in(value: Option<Json>) -> Option<Double> {
    let number = match value {
        Some(Json::Number(JsonNumber::Unsigned { number, .. })) => Some(number),
        Some(Json::Number(JsonNumber::Other { number, .. })) => number,
        Some(Json::Text(text)) => text.number,
        _ => None,
    };
    match number {
        Some(number) if number.finite() => Some(number),
        _ => None,
    }
}

/// What a document says in words.
pub open spec fn words_in(value: Option<Json>) -> Option<Seq<char>> {
    match value {
        None => None,
        Some(Json::Null) => None,
        Some(Json::Text(text)) => Some(text.text@),
        Some(other) => Some(compact(other)),
    }
}

/// A member of a document is the given string.
pub open spec fn says(data: Json, key: Seq<char>, word: Seq<char>) -> bool {
    data.member(key) matches Some(Json::Text(text)) && text.text@ == word
}

/// A member of a member of a document.
pub open spec fn inner(data: Json, outer: Seq<char>, key: Seq<char>) -> Option<Json> {
    match data.member(outer) {
        Some(value) => value.member(key),
        None => None,
    }
}

/// The recorded size of a packet.
pub open spec fn size_of_packet(packet: Packet) -> Option<u64> {
    match packet.raw {
        Some(raw) => raw.length,
        None => None,
    }
}

/// The size of the packet that a record says was sent; the size may be missing.
pub open spec fn sent_size(record: Record) -> Option<Option<u64>> {
    match record {
        Record::Qlog { data: EventData::QuicPacketSent(packet), .. } => Some(
            size_of_packet(packet),
        ),
        Record::Json { name, data } => if is_called(name@, "packet_sent"@) {
            Some(integer_in(inner(data, "raw"@, "length"@)))
        } else {
            None
        },
        _ => None,
    }
}

/// The size of the packet that a record says was received; the size may be missing.
pub open spec fn received_size(record: Record) -> Option<Option<u64>> {
    match record {
        Record::Qlog { data: EventData::QuicPacketReceived(packet), .. } => Some(
            size_of_packet(packet),
        ),
        Record::Json { name, data } => if is_called(name@, "packet_received"@) {
            Some(integer_in(inner(data, "raw"@, "length"@)))
        } else {
            None
        },
        _ => None,
    }
}

/// The record says that a packet was lost.
pub open spec fn is_loss(record: Record) -> bool {
    match record {
        Record::Qlog { data, .. } => data is QuicPacketLost,
        Record::Json { name, .. } => is_called(name@, "packet_lost"@),
    }
}

/// Flow control holds the sender back, and is not known to have done so before.
pub open spec fn starts_to_block(update: BlockedUpdate) -> bool {
    match (update.old, update.new) {
        (Some(BlockedState::Blocked), _) => false,
        (_, BlockedState::Blocked) => true,
        _ => false,
    }
}

/// The record says that flow control began to hold a sender back.
pub open spec fn is_block(record: Record) -> bool {
    match record {
        Record::Qlog {
            data: EventData::QuicStreamDataBlockedUpdated { update, .. },
            ..
        } => starts_to_block(update),
        Record::Qlog {
            data: EventData::QuicConnectionDataBlockedUpdated(update),
            ..
        } => starts_to_block(update),
        Record::Qlog {
            data: EventData::QuicDatagramDataBlockedUpdated(update),
            ..
        } => starts_to_block(update),
        Record::Json { name, data } => {
            &&& is_called(name@, "stream_data_blocked_updated"@) || is_called(
                name@,
                "connection_data_blocked_updated"@,
            ) || is_called(name@, "datagram_data_blocked_updated"@)
            &&& says(data, "new"@, "blocked"@)
            &&& !says(data, "old"@, "blocked"@)
        },
        _ => false,
    }
}

/// The record is about a migration.
pub open spec fn is_migration(record: Record) -> bool {
    match record {
        Record::Qlog { data, .. } => data is QuicMigrationStateUpdated,
        Record::Json { name, .. } => is_called(name@, "migration_state_updated"@),
    }
}

/// The record says that a migration completed.
pub open spec fn is_migrated(record: Record) -> bool {
    match record {
        Record::Qlog {
            data: EventData::QuicMigrationStateUpdated { new: MigrationState::MigrationComplete },
            ..
        } => true,
        Record::Json { name, data } => is_called(name@, "migration_state_updated"@) && says(
            data,
            "new"@,
            "migration_complete"@,
        ),
        _ => false,
    }
}

/// The record says that a probe timer expired.
pub open spec fn is_expiry(record: Record) -> bool {
    match record {
        Record::Qlog { data: EventData::QuicTimerUpdated(timer), .. } => match (
            timer.timer_type,
            timer.event_type,
        ) {
            (Some(TimerType::Pto), TimerEventType::Expired) => true,
            _ => false,
        },
        Record::Json { name, data } => is_called(name@, "timer_updated"@) && says(
            data,
            "timer_type"@,
            "pto"@,
        ) && says(data, "event_type"@, "expired"@),
        _ => false,
    }
}

/// A count that is a document of its own or its member `total`.
pub open spec fn total_in(counter: Option<Json>) -> Option<u64> {
    match counter {
        Some(counter) => match integer_in(counter.member("total"@)) {
            Some(total) => Some(total),
            None => integer_in(Some(counter)),
        },
        None => None,
    }
}

/// The report on loss recovery that a record is, if it is one.
pub open spec fn recovery_report(record: Record) -> Option<RecoveryFact> {
    match record {
        Record::Qlog { data: EventData::QuicMetricsUpdated(event), .. } => Some(
            RecoveryFact {
                smoothed_rtt: event.smoothed_rtt,
                rtt_variance: event.rtt_variance,
                min_rtt: event.min_rtt,
                congestion_window: event.congestion_window,
                bytes_in_flight: event.bytes_in_flight,
                pto_level: match event.pto_count {
                    Some(level) => Some(level as u64),
                    None => None,
                },
                lost_packets: total_in(Json::Object(event.ex_data).member("cf_lost_packets"@)),
            },
        ),
        Record::Json { name, data } => if is_called(name@, "recovery_metrics_updated"@)
            || is_called(name@, "metrics_updated"@) {
            Some(
                RecoveryFact {
                    smoothed_rtt: number_in(data.member("smoothed_rtt"@)),
                    rtt_variance: number_in(data.member("rtt_variance"@)),
                    min_rtt: number_in(data.member("min_rtt"@)),
                    congestion_window: integer_in(data.member("congestion_window"@)),
                    bytes_in_flight: integer_in(data.member("bytes_in_flight"@)),
                    pto_level: integer_in(data.member("pto_count"@)),
                    lost_packets: total_in(data.member("cf_lost_packets"@)),
                },
            )
        } else {
            None
        },
        _ => None,
    }
}

/// The smoothed round trip time that a record reports, if it is finite and not
/// negative.
pub open spec fn rtt_sample(record: Record) -> Option<Double> {
    match recovery_report(record) {
        Some(RecoveryFact { smoothed_rtt: Some(rtt), .. }) => if rtt.finite() && rtt.level() >= 0 {
            Some(rtt)
        } else {
            None
        },
        _ => None,
    }
}

/// The variance of the round trip time that a record reports.
pub open spec fn rtt_variance(record: Record) -> Option<Double> {
    match recovery_report(record) {
        Some(report) => report.rtt_variance,
        None => None,
    }
}

/// The minimum of the round trip time that a record reports.
pub open spec fn min_rtt(record: Record) -> Option<Double> {
    match recovery_report(record) {
        Some(report) => report.min_rtt,
        None => None,
    }
}

/// The congestion window that a record reports.
pub open spec fn congestion_window(record: Record) -> Option<u64> {
    match recovery_report(record) {
        Some(report) => report.congestion_window,
        None => None,
    }
}

/// The bytes in flight that a record reports.
pub open spec fn bytes_in_flight(record: Record) -> Option<u64> {
    match recovery_report(record) {
        Some(report) => report.bytes_in_flight,
        None => None,
    }
}

/// The number of probe timeouts in a row that a record reports.
pub open spec fn pto_level(record: Record) -> Option<u64> {
    match recovery_report(record) {
        Some(report) => report.pto_level,
        None => None,
    }
}

/// The count of lost packets that a record reports.
pub open spec fn lost_packets(record: Record) -> Option<u64> {
    match recovery_report(record) {
        Some(report) => report.lost_packets,
        None => None,
    }
}

/// What is known of the end of a connection.
pub struct Ending {
    pub initiator: Option<Seq<char>>,
    pub trigger: Option<Seq<char>>,
    pub reason: Option<Seq<char>>,
    pub error: Option<Seq<char>>,
}

/// The texts that there are, out of four, in their order and separated.
pub open spec fn listed_errors(
    first: Option<Seq<char>>,
    second: Option<Seq<char>>,
    third: Option<Seq<char>>,
    fourth: Option<Seq<char>>,
) -> Option<Seq<char>> {
    let one = match first {
        Some(text) => seq![text],
        None => Seq::<Seq<char>>::empty(),
    };
    let two = match second {
        Some(text) => one.push(text),
        None => one,
    };
    let three = match third {
        Some(text) => two.push("error_code="@ + text),
        None => two,
    };
    let four = match fourth {
        Some(text) => three.push("internal_code="@ + text),
        None => three,
    };
    if four.len() == 0 {
        None
    } else {
        Some(joined(four, "; "@))
    }
}

/// An integer that may be missing, in decimal notation.
pub open spec fn digits_of(number: Option<u64>) -> Option<Seq<char>> {
    match number {
        Some(number) => Some(decimal(number as nat)),
        None => None,
    }
}

/// The end of the connection that a record reports.
pub open spec fn ending(record: Record) -> Option<Ending> {
    match record {
        Record::Qlog { data: EventData::QuicConnectionClosed(event), .. } => Some(
            Ending {
                initiator: words_in(event.initiator),
                trigger: words_in(event.trigger),
                reason: match event.reason {
                    Some(reason) => Some(reason@),
                    None => None,
                },
                error: listed_errors(
                    words_in(event.connection_error),
                    words_in(event.application_error),
                    digits_of(event.error_code),
                    digits_of(event.internal_code),
                ),
            },
        ),
        Record::Json { name, data } => if is_called(name@, "connection_closed"@) {
            Some(
                Ending {
                    initiator: words_in(data.member("initiator"@)),
                    trigger: words_in(data.member("trigger"@)),
                    reason: words_in(data.member("reason"@)),
                    error: listed_errors(
                        words_in(data.member("connection_error"@)),
                        words_in(data.member("application_error"@)),
                        words_in(data.member("error_code"@)),
                        words_in(data.member("internal_code"@)),
                    ),
                },
            )
        } else {
            None
        },
        _ => None,
    }
}

/// The frames that an event carries.
pub open spec fn carried(data: EventData) -> Seq<QuicFrame> {
    match data {
        EventData::QuicPacketSent(Packet { frames: Some(frames), .. }) => frames@,
        EventData::QuicPacketReceived(Packet { frames: Some(frames), .. }) => frames@,
        EventData::QuicPacketLost { frames: Some(frames) } => frames@,
        EventData::QuicMarkedForRetransmit { frames } => frames@,
        EventData::QuicFramesProcessed { frames } => frames@,
        _ => Seq::empty(),
    }
}

/// One of the frames is about the stream.
pub open spec fn frames_are_about(frames: Seq<QuicFrame>, id: u64) -> bool {
    ||| frames.contains(QuicFrame::ResetStream { stream_id: id })
    ||| frames.contains(QuicFrame::StopSending { stream_id: id })
    ||| frames.contains(QuicFrame::Stream { stream_id: id })
    ||| frames.contains(QuicFrame::MaxStreamData { stream_id: id })
    ||| frames.contains(QuicFrame::StreamDataBlocked { stream_id: id })
}

/// The event names the stream, itself or by one of its frames.
pub open spec fn event_names(data: EventData, id: u64) -> bool {
    ||| frames_are_about(carried(data), id)
    ||| data == (EventData::QuicStreamStateUpdated { stream_id: id })
    ||| data == (EventData::QuicStreamDataMoved { stream_id: Some(id) })
    ||| (data matches EventData::QuicStreamDataBlockedUpdated { stream_id, .. } && stream_id == id)
    ||| data == (EventData::Http3StreamTypeSet { stream_id: id })
    ||| data == (EventData::Http3PriorityUpdated { stream_id: Some(id) })
    ||| data == (EventData::Http3PushResolved { stream_id: Some(id) })
    ||| (data matches EventData::Http3FrameCreated { stream_id, frame } && (stream_id == id
        || frame == Http3Frame::PriorityUpdate { stream_id: Some(id) }))
    ||| (data matches EventData::Http3FrameParsed { stream_id, frame } && (stream_id == id || frame
        == Http3Frame::PriorityUpdate { stream_id: Some(id) }))
    ||| (data matches EventData::Http3DatagramCreated { quarter_stream_id } && 4
        * quarter_stream_id == id)
    ||| (data matches EventData::Http3DatagramParsed { quarter_stream_id } && 4 * quarter_stream_id
        == id)
}

/// The record names the stream.
pub open spec fn names_stream(record: Record, id: u64) -> bool {
    match record {
        Record::Qlog { data, .. } => event_names(data, id),
        Record::Json { data, .. } => stream_ids(data).contains(id),
    }
}

/// The record shows that the handshake was confirmed.
pub open spec fn confirms(record: Record) -> bool {
    match record {
        Record::Qlog { data, .. } => {
            ||| carried(data).contains(QuicFrame::HandshakeDone)
            ||| data == (EventData::QuicConnectionStateUpdated {
                new: ConnectionState::HandshakeConfirmed,
            })
        },
        Record::Json { name, data } => {
            ||| has_frame_type(data, "handshake_done"@)
            ||| is_called(name@, "connection_state_updated"@) && says(
                data,
                "new"@,
                "handshake_confirmed"@,
            )
        },
    }
}

/// The record shows that the handshake completed.
pub open spec fn completes(record: Record) -> bool {
    ||| confirms(record)
    ||| match record {
        Record::Qlog { data, .. } => data == (EventData::QuicConnectionStateUpdated {
            new: ConnectionState::HandshakeCompleted,
        }),
        Record::Json { name, data } => is_called(name@, "connection_state_updated"@) && says(
            data,
            "new"@,
            "handshake_completed"@,
        ),
    }
}

/// Streams that frames name are those that they are about.
proof fn lemma_frames_are_about(frames: Seq<QuicFrame>, id: u64)
    ensures
        frame_streams(frames).contains(id) <==> frames_are_about(frames, id),
{
    if frames_name(frames, id) {
        let i = choose|i: int|
            0 <= i < frames.len() && #[trigger] frame_stream(frames[i]) == Some(id);
        assert(frames.contains(frames[i]));
    }
    if frames_are_about(frames, id) {
        let i = choose|i: int|
            0 <= i < frames.len() && (frames[i] == QuicFrame::ResetStream { stream_id: id }
                || frames[i] == QuicFrame::StopSending { stream_id: id } || frames[i]
                == QuicFrame::Stream { stream_id: id } || frames[i] == QuicFrame::MaxStreamData {
                stream_id: id,
            } || frames[i] == QuicFrame::StreamDataBlocked { stream_id: id });
        assert(frame_stream(frames[i]) == Some(id));
    }
}

/// The streams that are read from an event are those that it names.
proof fn lemma_event_names(data: EventData, id: u64)
    ensures
        event_observation(data).streams.contains(id) <==> event_names(data, id),
{
    lemma_frames_are_about(carried(data), id);
    lemma_frames_are_about(Seq::empty(), id);
}

/// What is read from an event of the handshake.
proof fn lemma_event_handshake(data: EventData)
    ensures
        event_observation(data).confirmed <==> (carried(data).contains(QuicFrame::HandshakeDone)
            || data == (EventData::QuicConnectionStateUpdated {
            new: ConnectionState::HandshakeConfirmed,
        })),
        event_observation(data).completed <==> data == (EventData::QuicConnectionStateUpdated {
            new: ConnectionState::HandshakeCompleted,
        }),
{
}

/// The names of the events that are read from JSON documents hold no colons, and are
/// all different.
proof fn lemma_names_differ()
    ensures
        !"packet_sent"@.contains(':'),
        !"packet_received"@.contains(':'),
        !"packet_lost"@.contains(':'),
        !"metrics_updated"@.contains(':'),
        !"recovery_metrics_updated"@.contains(':'),
        !"timer_updated"@.contains(':'),
        !"connection_data_blocked_updated"@.contains(':'),
        !"stream_data_blocked_updated"@.contains(':'),
        !"datagram_data_blocked_updated"@.contains(':'),
        !"migration_state_updated"@.contains(':'),
        !"connection_state_updated"@.contains(':'),
        !"connection_closed"@.contains(':'),
        "packet_sent"@.len() == 11 && "packet_sent"@[7] == 's',
        "packet_lost"@.len() == 11 && "packet_lost"@[7] == 'l',
        "packet_received"@.len() == 15 && "packet_received"@[0] == 'p',
        "metrics_updated"@.len() == 15 && "metrics_updated"@[0] == 'm',
        "recovery_metrics_updated"@.len() == 24 && "recovery_metrics_updated"@[0] == 'r',
        "connection_state_updated"@.len() == 24 && "connection_state_updated"@[0] == 'c',
        "timer_updated"@.len() == 13,
        "connection_data_blocked_updated"@.len() == 31,
        "stream_data_blocked_updated"@.len() == 27,
        "datagram_data_blocked_updated"@.len() == 29,
        "migration_state_updated"@.len() == 23,
        "connection_closed"@.len() == 17,
{
    reveal_strlit("packet_sent");
    reveal_strlit("packet_received");
    reveal_strlit("packet_lost");
    reveal_strlit("metrics_updated");
    reveal_strlit("recovery_metrics_updated");
    reveal_strlit("timer_updated");
    reveal_strlit("connection_data_blocked_updated");
    reveal_strlit("stream_data_blocked_updated");
    reveal_strlit("datagram_data_blocked_updated");
    reveal_strlit("migration_state_updated");
    reveal_strlit("connection_state_updated");
    reveal_strlit("connection_closed");
}

/// The kind of an event that was recorded as a JSON document is what it is called.
proof fn lemma_json_kind(name: Seq<char>)
    ensures
        is_called(name, "packet_sent"@) <==> json_event_kind(name) == JsonEventKind::PacketSent,
        is_called(name, "packet_received"@) <==> json_event_kind(name)
            == JsonEventKind::PacketReceived,
        is_called(name, "packet_lost"@) <==> json_event_kind(name) == JsonEventKind::PacketLost,
        is_called(name, "metrics_updated"@) || is_called(name, "recovery_metrics_updated"@)
            <==> json_event_kind(name) == JsonEventKind::MetricsUpdated,
        is_called(name, "timer_updated"@) <==> json_event_kind(name)
            == JsonEventKind::TimerUpdated,
        is_called(name, "connection_data_blocked_updated"@) || is_called(
            name,
            "stream_data_blocked_updated"@,
        ) || is_called(name, "datagram_data_blocked_updated"@) <==> json_event_kind(name)
            == JsonEventKind::BlockedUpdated,
        is_called(name, "migration_state_updated"@) <==> json_event_kind(name)
            == JsonEventKind::MigrationStateUpdated,
        is_called(name, "connection_state_updated"@) <==> json_event_kind(name)
            == JsonEventKind::ConnectionStateUpdated,
        is_called(name, "connection_closed"@) <==> json_event_kind(name)
            == JsonEventKind::ConnectionClosed,
{
    lemma_names_differ();
    lemma_is_called(name, "packet_sent"@);
    lemma_is_called(name, "packet_received"@);
    lemma_is_called(name, "packet_lost"@);
    lemma_is_called(name, "metrics_updated"@);
    lemma_is_called(name, "recovery_metrics_updated"@);
    lemma_is_called(name, "timer_updated"@);
    lemma_is_called(name, "connection_data_blocked_updated"@);
    lemma_is_called(name, "stream_data_blocked_updated"@);
    lemma_is_called(name, "datagram_data_blocked_updated"@);
    lemma_is_called(name, "migration_state_updated"@);
    lemma_is_called(name, "connection_state_updated"@);
    lemma_is_called(name, "connection_closed"@);
}

/// What a record says about the connection is what is read from it, and nothing else.
pub open spec fn tells(record: Record, fact: Fact) -> bool {
    &&& sent_size(record) == (match fact {
        Fact::Sent(size) => Some(size),
        _ => None,
    })
    &&& received_size(record) == (match fact {
        Fact::Received(size) => Some(size),
        _ => None,
    })
    &&& is_loss(record) == (fact is Lost)
    &&& is_block(record) == (fact is NewlyBlocked)
    &&& is_migration(record) == (fact is Migration)
    &&& is_migrated(record) == (fact == Fact::Migration { complete: true })
    &&& is_expiry(record) == (fact is PtoExpired)
    &&& recovery_report(record) == (match fact {
        Fact::Recovery(report) => Some(report),
        _ => None,
    })
    &&& ending(record) == (match fact {
        Fact::Closed { initiator, trigger, reason, error } => Some(
            Ending { initiator, trigger, reason, error },
        ),
        _ => None,
    })
}

/// What an event says is what is read from it.
proof fn lemma_event_fact(record: Record)
    requires
        record is Qlog,
    ensures
        tells(record, record.observation().fact),
{
    if let Record::Qlog { data, .. } = record {
        match data {
            EventData::QuicConnectionClosed(event) => {
                lemma_listed_errors(
                    words_in(event.connection_error),
                    words_in(event.application_error),
                    digits_of(event.error_code),
                    digits_of(event.internal_code),
                );
            },
            _ => {},
        }
    }
}

/// The sizes of packets are read from JSON documents.
proof fn lemma_json_sizes(record: Record)
    requires
        record is Json,
    ensures
        sent_size(record) == (match record.observation().fact {
            Fact::Sent(size) => Some(size),
            _ => None,
        }),
        received_size(record) == (match record.observation().fact {
            Fact::Received(size) => Some(size),
            _ => None,
        }),
        is_loss(record) == (record.observation().fact is Lost),
{
    if let Record::Json { name, data } = record {
        lemma_json_kind(name@);
        assert(json_packet_length(data) == integer_in(inner(data, "raw"@, "length"@)));
    }
}

/// A member is the given string.
proof fn lemma_says(data: Json, key: Seq<char>, word: Seq<char>)
    ensures
        says(data, key, word) == member_is(data, key, word),
{
}

/// What happened to flow control, migrations and timers is read from JSON documents.
proof fn lemma_json_changes(record: Record)
    requires
        record is Json,
    ensures
        is_block(record) == (record.observation().fact is NewlyBlocked),
        is_migration(record) == (record.observation().fact is Migration),
        is_migrated(record) == (record.observation().fact == Fact::Migration { complete: true }),
        is_expiry(record) == (record.observation().fact is PtoExpired),
{
    if let Record::Json { name, data } = record {
        lemma_json_kind(name@);
        lemma_says(data, "new"@, "blocked"@);
        lemma_says(data, "old"@, "blocked"@);
        lemma_says(data, "new"@, "migration_complete"@);
        lemma_says(data, "timer_type"@, "pto"@);
        lemma_says(data, "event_type"@, "expired"@);
    }
}

/// A number is read from a member.
proof fn lemma_member_numbers(data: Json, key: Seq<char>)
    ensures
        number_in(data.member(key)) == member_double(data, key),
        integer_in(data.member(key)) == member_unsigned(data, key),
{
}

/// A count is read from a counter.
proof fn lemma_total(counter: Json)
    ensures
        total_in(Some(counter)) == counter_total(counter),
{
    lemma_member_numbers(counter, "total"@);
}

/// Reports on loss recovery are read from JSON documents.
proof fn lemma_json_recovery(record: Record)
    requires
        record is Json,
    ensures
        recovery_report(record) == (match record.observation().fact {
            Fact::Recovery(report) => Some(report),
            _ => None,
        }),
{
    if let Record::Json { name, data } = record {
        lemma_json_kind(name@);
        lemma_member_numbers(data, "smoothed_rtt"@);
        lemma_member_numbers(data, "rtt_variance"@);
        lemma_member_numbers(data, "min_rtt"@);
        lemma_member_numbers(data, "congestion_window"@);
        lemma_member_numbers(data, "bytes_in_flight"@);
        lemma_member_numbers(data, "pto_count"@);
        if let Some(counter) = data.member("cf_lost_packets"@) {
            lemma_total(counter);
        }
    }
}

/// Documents are put in words.
proof fn lemma_words(value: Option<Json>)
    ensures
        words_in(value) == opt_text(value),
{
}

/// The end of a connection is read from JSON documents.
proof fn lemma_json_ending(record: Record)
    requires
        record is Json,
    ensures
        ending(record) == (match record.observation().fact {
            Fact::Closed { initiator, trigger, reason, error } => Some(
                Ending { initiator, trigger, reason, error },
            ),
            _ => None,
        }),
{
    if let Record::Json { name, data } = record {
        lemma_json_kind(name@);
        lemma_words(data.member("initiator"@));
        lemma_words(data.member("trigger"@));
        lemma_words(data.member("reason"@));
        lemma_words(data.member("connection_error"@));
        lemma_words(data.member("application_error"@));
        lemma_words(data.member("error_code"@));
        lemma_words(data.member("internal_code"@));
        lemma_listed_errors(
            words_in(data.member("connection_error"@)),
            words_in(data.member("application_error"@)),
            words_in(data.member("error_code"@)),
            words_in(data.member("internal_code"@)),
        );
    }
}

/// What a record says about the connection is what is read from it.
proof fn lemma_fact(record: Record)
    ensures
        tells(record, record.observation().fact),
{
    if record is Qlog {
        lemma_event_fact(record);
    } else {
        lemma_json_sizes(record);
        lemma_json_changes(record);
        lemma_json_recovery(record);
        lemma_json_ending(record);
    }
}

/// The errors are listed alike.
proof fn lemma_listed_errors(
    first: Option<Seq<char>>,
    second: Option<Seq<char>>,
    third: Option<Seq<char>>,
    fourth: Option<Seq<char>>,
)
    ensures
        listed_errors(first, second, third, fourth) == close_error(
            first,
            second,
            third,
            fourth,
        ),
{
    let errors = opt_list(first) + opt_list(second) + opt_list(
        labelled("error_code="@, third),
    ) + opt_list(labelled("internal_code="@, fourth));
    let one = match first {
        Some(text) => seq![text],
        None => Seq::<Seq<char>>::empty(),
    };
    let two = match second {
        Some(text) => one.push(text),
        None => one,
    };
    let three = match third {
        Some(text) => two.push("error_code="@ + text),
        None => two,
    };
    let four = match fourth {
        Some(text) => three.push("internal_code="@ + text),
        None => three,
    };
    assert(errors =~= four);
}

/// What is read from a record of the streams and the handshake.
proof fn lemma_record_shows(record: Record, id: u64)
    ensures
        record.observation().streams.contains(id) <==> names_stream(record, id),
        record.observation().confirmed <==> confirms(record),
        record.observation().completed || record.observation().confirmed <==> completes(record),
{
    match record {
        Record::Qlog { data, .. } => {
            lemma_event_names(data, id);
            lemma_event_handshake(data);
        },
        Record::Json { name, .. } => {
            lemma_json_kind(name@);
        },
    }
}

/// The records of a trace, each with its time.
pub type Records = Seq<(Double, Record)>;

/// What each record reports, if it reports what is looked for.
pub open spec fn reports<T>(records: Records, read: spec_fn(Record) -> Option<T>) -> Seq<
    Option<T>,
> {
    records.map_values(|record: (Double, Record)| read(record.1))
}

/// The largest number that was reported, if there was any.
pub open spec fn is_largest(reported: Seq<Option<u64>>, largest: Option<u64>) -> bool {
    match largest {
        Some(most) => reported.contains(Some(most)) && forall|i: int|
            0 <= i < reported.len() ==> ((#[trigger] reported[i]) matches Some(value)
                ==> value <= most),
        None => forall|i: int| 0 <= i < reported.len() ==> (#[trigger] reported[i]) is None,
    }
}

/// The last value that was reported, if there was any.
pub open spec fn is_latest<T>(reported: Seq<Option<T>>, latest: Option<T>) -> bool {
    match latest {
        Some(value) => exists|k: int|
            0 <= k < reported.len() && #[trigger] reported[k] == Some(value) && forall|i: int|
                k < i < reported.len() ==> (#[trigger] reported[i]) is None,
        None => forall|i: int| 0 <= i < reported.len() ==> (#[trigger] reported[i]) is None,
    }
}

/// The values that were reported, in their order.
pub open spec fn values_of<T>(reported: Seq<Option<T>>) -> Seq<T>
    decreases reported.len(),
{
    if reported.len() == 0 {
        Seq::empty()
    } else {
        match reported.last() {
            Some(value) => values_of(reported.drop_last()).push(value),
            None => values_of(reported.drop_last()),
        }
    }
}

/// The sum of the numbers that were reported.
pub open spec fn sum_of(reported: Seq<Option<u64>>) -> nat
    decreases reported.len(),
{
    if reported.len() == 0 {
        0
    } else {
        sum_of(reported.drop_last()) + match reported.last() {
            Some(value) => value as nat,
            None => 0,
        }
    }
}

/// The number of records of which something holds.
pub open spec fn count_of(records: Records, wanted: spec_fn(Record) -> bool) -> nat
    decreases records.len(),
{
    if records.len() == 0 {
        0
    } else {
        count_of(records.drop_last(), wanted) + if wanted(records.last().1) {
            1nat
        } else {
            0
        }
    }
}

/// What is reported without the last record.
proof fn lemma_reports_shorter<T>(records: Records, read: spec_fn(Record) -> Option<T>)
    requires
        records.len() > 0,
    ensures
        reports(records, read).drop_last() == reports(records.drop_last(), read),
        reports(records, read).last() == read(records.last().1),
        reports(records, read).len() == records.len(),
{
    assert(reports(records, read).drop_last() =~= reports(records.drop_last(), read));
}

/// The largest number after one more report.
proof fn lemma_largest(reported: Seq<Option<u64>>, before: Option<u64>, after: Option<u64>)
    requires
        reported.len() > 0,
        is_largest(reported.drop_last(), before),
        after == (match (before, reported.last()) {
            (Some(most), Some(value)) => Some(
                if value > most {
                    value
                } else {
                    most
                },
            ),
            (None, Some(value)) => Some(value),
            (_, None) => before,
        }),
    ensures
        is_largest(reported, after),
{
    let shorter = reported.drop_last();
    let n = reported.len() - 1;
    assert(reported[n] == reported.last());
    assert forall|i: int| 0 <= i < n implies #[trigger] reported[i] == shorter[i] by {}
    if let Some(most) = before {
        let k = choose|k: int| 0 <= k < shorter.len() && shorter[k] == Some(most);
        assert(reported[k] == Some(most));
    }
}

/// The last value after one more report.
proof fn lemma_latest<T>(reported: Seq<Option<T>>, before: Option<T>, after: Option<T>)
    requires
        reported.len() > 0,
        is_latest(reported.drop_last(), before),
        after == (match reported.last() {
            Some(value) => Some(value),
            None => before,
        }),
    ensures
        is_latest(reported, after),
{
    let shorter = reported.drop_last();
    let n = reported.len() - 1;
    assert(reported[n] == reported.last());
    assert forall|i: int| 0 <= i < n implies #[trigger] reported[i] == shorter[i] by {}
    if reported.last() is None {
        if let Some(value) = before {
            let k = choose|k: int|
                0 <= k < shorter.len() && #[trigger] shorter[k] == Some(value) && forall|i: int|
                    k < i < shorter.len() ==> (#[trigger] shorter[i]) is None;
            assert(reported[k] == Some(value));
        }
    }
}

/// Law: the largest number of bytes in flight is the largest that a record reports,
/// and there is none exactly where no record reports any.
pub proof fn law_bytes_in_flight_are_the_largest(start: AccumulatorView, records: Records)
    requires
        start.connection.bytes_in_flight_max is None,
    ensures
        is_largest(
            reports(records, |r: Record| bytes_in_flight(r)),
            replayed(start, records).connection.bytes_in_flight_max,
        ),
    decreases records.len(),
{
    if records.len() > 0 {
        law_bytes_in_flight_are_the_largest(start, records.drop_last());
        lemma_reports_shorter(records, |r: Record| bytes_in_flight(r));
        lemma_fact(records.last().1);
        lemma_largest(
            reports(records, |r: Record| bytes_in_flight(r)),
            replayed(start, records.drop_last()).connection.bytes_in_flight_max,
            replayed(start, records).connection.bytes_in_flight_max,
        );
    }
}

/// Law: the largest congestion window is the largest that a record reports, and the
/// final one the last.
pub proof fn law_congestion_windows_are_kept(start: AccumulatorView, records: Records)
    requires
        start.connection.congestion_window_max_bytes is None,
        start.connection.congestion_window_final_bytes is None,
    ensures
        is_largest(
            reports(records, |r: Record| congestion_window(r)),
            replayed(start, records).connection.congestion_window_max_bytes,
        ),
        is_latest(
            reports(records, |r: Record| congestion_window(r)),
            replayed(start, records).connection.congestion_window_final_bytes,
        ),
    decreases records.len(),
{
    if records.len() > 0 {
        let read = |r: Record| congestion_window(r);
        law_congestion_windows_are_kept(start, records.drop_last());
        lemma_reports_shorter(records, read);
        lemma_fact(records.last().1);
        let before = replayed(start, records.drop_last()).connection;
        let after = replayed(start, records).connection;
        lemma_largest(
            reports(records, read),
            before.congestion_window_max_bytes,
            after.congestion_window_max_bytes,
        );
        lemma_latest(
            reports(records, read),
            before.congestion_window_final_bytes,
            after.congestion_window_final_bytes,
        );
    }
}

/// Law: the final variance and the final minimum of the round trip time, and the count
/// of lost packets, are the last that a record reports.
pub proof fn law_final_figures_are_the_last(start: AccumulatorView, records: Records)
    requires
        start.connection.rtt_variance_final_ms is None,
        start.connection.min_rtt_final_ms is None,
        start.connection.cf_lost_packets is None,
    ensures
        is_latest(
            reports(records, |r: Record| rtt_variance(r)),
            replayed(start, records).connection.rtt_variance_final_ms,
        ),
        is_latest(
            reports(records, |r: Record| min_rtt(r)),
            replayed(start, records).connection.min_rtt_final_ms,
        ),
        is_latest(
            reports(records, |r: Record| lost_packets(r)),
            replayed(start, records).connection.cf_lost_packets,
        ),
    decreases records.len(),
{
    if records.len() > 0 {
        law_final_figures_are_the_last(start, records.drop_last());
        lemma_reports_shorter(records, |r: Record| rtt_variance(r));
        lemma_reports_shorter(records, |r: Record| min_rtt(r));
        lemma_reports_shorter(records, |r: Record| lost_packets(r));
        lemma_fact(records.last().1);
        let before = replayed(start, records.drop_last()).connection;
        let after = replayed(start, records).connection;
        lemma_latest(
            reports(records, |r: Record| rtt_variance(r)),
            before.rtt_variance_final_ms,
            after.rtt_variance_final_ms,
        );
        lemma_latest(
            reports(records, |r: Record| min_rtt(r)),
            before.min_rtt_final_ms,
            after.min_rtt_final_ms,
        );
        lemma_latest(
            reports(records, |r: Record| lost_packets(r)),
            before.cf_lost_packets,
            after.cf_lost_packets,
        );
    }
}

/// Law: the smoothed round trip times are those that the records report, in their
/// order, as far as they are finite and not negative; the final one is the last.
pub proof fn law_round_trip_times_are_collected(start: AccumulatorView, records: Records)
    requires
        start.connection.smoothed_rtt_final_ms is None,
    ensures
        replayed(start, records).smoothed_rtt_samples_ms == start.smoothed_rtt_samples_ms
            + values_of(reports(records, |r: Record| rtt_sample(r))),
        is_latest(
            reports(records, |r: Record| rtt_sample(r)),
            replayed(start, records).connection.smoothed_rtt_final_ms,
        ),
    decreases records.len(),
{
    let read = |r: Record| rtt_sample(r);
    if records.len() > 0 {
        law_round_trip_times_are_collected(start, records.drop_last());
        lemma_reports_shorter(records, read);
        lemma_fact(records.last().1);
        lemma_latest(
            reports(records, read),
            replayed(start, records.drop_last()).connection.smoothed_rtt_final_ms,
            replayed(start, records).connection.smoothed_rtt_final_ms,
        );
    }
    assert(replayed(start, records).smoothed_rtt_samples_ms =~= start.smoothed_rtt_samples_ms
        + values_of(reports(records, read)));
}

/// The probe timeouts after records are those after the levels that they report.
proof fn lemma_levels(start: AccumulatorView, records: Records)
    ensures
        ({
            let after = replayed(start, records);
            let levels = levelled(start, values_of(reports(records, |r: Record| pto_level(r))));
            &&& after.previous_pto_level == levels.previous_pto_level
            &&& after.connection.pto_inferred_count == levels.connection.pto_inferred_count
            &&& after.connection.pto_max_consecutive == levels.connection.pto_max_consecutive
        }),
    decreases records.len(),
{
    let read = |r: Record| pto_level(r);
    let levels = values_of(reports(records, read));
    if records.len() > 0 {
        lemma_levels(start, records.drop_last());
        lemma_reports_shorter(records, read);
        lemma_fact(records.last().1);
        if pto_level(records.last().1) is Some {
            assert(levels.drop_last() =~= values_of(reports(records.drop_last(), read)));
        }
    }
}

/// Law: the inferred number of probe timeouts is the sum of the rises of the levels
/// that the records report, as far as it fits in 64 bits, and the maximum is the largest
/// of the levels.
pub proof fn law_probe_timeouts_are_inferred(start: AccumulatorView, records: Records)
    requires
        start.connection.pto_inferred_count == 0,
        start.connection.pto_max_consecutive == 0,
        start.previous_pto_level == 0,
    ensures
        ({
            let levels = values_of(reports(records, |r: Record| pto_level(r)));
            let after = replayed(start, records).connection;
            let most = after.pto_max_consecutive;
            let sum = rises(0, levels);
            &&& after.pto_inferred_count == (if sum > u64::MAX {
                u64::MAX as nat
            } else {
                sum
            })
            &&& forall|i: int| 0 <= i < levels.len() ==> (#[trigger] levels[i]) <= most
            &&& most == 0 || exists|i: int| 0 <= i < levels.len() && (#[trigger] levels[i]) == most
        }),
{
    lemma_levels(start, records);
    law_pto_levels_are_inferred(start, values_of(reports(records, |r: Record| pto_level(r))));
}

/// Law: each counter grows by the number of records that report what it counts.
pub proof fn law_records_are_counted(start: AccumulatorView, records: Records)
    ensures
        ({
            let before = start.connection;
            let after = replayed(start, records).connection;
            &&& after.event_count == before.event_count + records.len()
            &&& after.packets_sent == before.packets_sent + count_of(
                records,
                |r: Record| sent_size(r) is Some,
            )
            &&& after.packet_size_missing_sent == before.packet_size_missing_sent + count_of(
                records,
                |r: Record| sent_size(r) == Some(None::<u64>),
            )
            &&& after.packets_received == before.packets_received + count_of(
                records,
                |r: Record| received_size(r) is Some,
            )
            &&& after.packet_size_missing_received == before.packet_size_missing_received
                + count_of(records, |r: Record| received_size(r) == Some(None::<u64>))
            &&& after.packet_lost_events == before.packet_lost_events + count_of(
                records,
                |r: Record| is_loss(r),
            )
            &&& after.blocked_events == before.blocked_events + count_of(
                records,
                |r: Record| is_block(r),
            )
            &&& after.migration_events == before.migration_events + count_of(
                records,
                |r: Record| is_migration(r),
            )
            &&& after.migrations_completed == before.migrations_completed + count_of(
                records,
                |r: Record| is_migrated(r),
            )
            &&& after.pto_timer_expirations == before.pto_timer_expirations + count_of(
                records,
                |r: Record| is_expiry(r),
            )
        }),
    decreases records.len(),
{
    if records.len() > 0 {
        law_records_are_counted(start, records.drop_last());
        lemma_fact(records.last().1);
    }
}

/// The size of a packet, where it was recorded.
pub open spec fn known_size(size: Option<Option<u64>>) -> Option<u64> {
    match size {
        Some(size) => size,
        None => None,
    }
}

/// Law: the bytes in each direction are the sum of the sizes that the records report,
/// as far as it fits in 64 bits.
pub proof fn law_sizes_are_summed(start: AccumulatorView, records: Records)
    requires
        start.connection.bytes_sent == 0,
        start.connection.bytes_received == 0,
    ensures
        ({
            let sent = sum_of(reports(records, |r: Record| known_size(sent_size(r))));
            let received = sum_of(reports(records, |r: Record| known_size(received_size(r))));
            let after = replayed(start, records).connection;
            &&& after.bytes_sent == (if sent > u64::MAX {
                u64::MAX as nat
            } else {
                sent
            })
            &&& after.bytes_received == (if received > u64::MAX {
                u64::MAX as nat
            } else {
                received
            })
        }),
    decreases records.len(),
{
    if records.len() > 0 {
        law_sizes_are_summed(start, records.drop_last());
        lemma_reports_shorter(records, |r: Record| known_size(sent_size(r)));
        lemma_reports_shorter(records, |r: Record| known_size(received_size(r)));
        lemma_fact(records.last().1);
    }
}

/// Law: a stream is known exactly if it was before or one of the records names it,
/// whichever event or frame it stands in.
pub proof fn law_named_streams_are_known(start: AccumulatorView, records: Records, id: u64)
    ensures
        replayed(start, records).stream_ids.contains(id) <==> (start.stream_ids.contains(id)
            || exists|i: int|
            0 <= i < records.len() && names_stream((#[trigger] records[i]).1, id)),
    decreases records.len(),
{
    if records.len() > 0 {
        let shorter = records.drop_last();
        let n = records.len() - 1;
        law_named_streams_are_known(start, shorter, id);
        lemma_record_shows(records.last().1, id);
        assert(records[n] == records.last());
        assert forall|i: int| 0 <= i < n implies #[trigger] records[i] == shorter[i] by {}
        assert forall|i: int| 0 <= i < n implies records[i] == #[trigger] shorter[i] by {}
    }
}

/// Law: the same frames make the same streams known, whichever of the events that carry
/// frames they stand in.
pub proof fn law_frames_count_in_every_event(
    v: AccumulatorView,
    one: EventData,
    other: EventData,
    id: u64,
)
    requires
        carried(one) == carried(other),
        frames_are_about(carried(one), id),
    ensures
        v.after(event_observation(one)).stream_ids.contains(id),
        v.after(event_observation(other)).stream_ids.contains(id),
{
    lemma_event_names(one, id);
    lemma_event_names(other, id);
}

/// Law: the handshake counts as confirmed exactly if it did before or a record confirms
/// it, and as completed exactly if it did before or a record completes or confirms it.
pub proof fn law_shown_handshakes_are_known(start: AccumulatorView, records: Records)
    ensures
        replayed(start, records).connection.handshake_confirmed <==> (
        start.connection.handshake_confirmed || exists|i: int|
            0 <= i < records.len() && confirms((#[trigger] records[i]).1)),
        replayed(start, records).connection.handshake_completed <==> (
        start.connection.handshake_completed || exists|i: int|
            0 <= i < records.len() && completes((#[trigger] records[i]).1)),
    decreases records.len(),
{
    if records.len() > 0 {
        let shorter = records.drop_last();
        let n = records.len() - 1;
        law_shown_handshakes_are_known(start, shorter);
        lemma_record_shows(records.last().1, 0);
        assert(records[n] == records.last());
        assert forall|i: int| 0 <= i < n implies #[trigger] records[i] == shorter[i] by {}
        assert forall|i: int| 0 <= i < n implies records[i] == #[trigger] shorter[i] by {}
    }
}

/// Law: what is known of the end of a connection is what the last record on it says.
pub proof fn law_the_last_ending_counts(start: AccumulatorView, records: Records, k: int)
    requires
        0 <= k < records.len(),
        ending(records[k].1) is Some,
        forall|i: int| k < i < records.len() ==> ending((#[trigger] records[i]).1) is None,
    ensures
        ({
            let after = replayed(start, records).connection;
            let end = ending(records[k].1)->0;
            &&& after.close_initiator == end.initiator
            &&& after.close_trigger == end.trigger
            &&& after.close_reason == end.reason
            &&& after.close_error == end.error
        }),
    decreases records.len(),
{
    lemma_fact(records.last().1);
    let n = records.len() - 1;
    assert(records[n] == records.last());
    if k < n {
        let shorter = records.drop_last();
        assert forall|i: int| k <= i < shorter.len() implies #[trigger] shorter[i]
            == records[i] by {}
        law_the_last_ending_counts(start, shorter, k);
    }
}

/// Law: nothing is known of the end of a connection that no record reports.
pub proof fn law_no_ending_is_made_up(start: AccumulatorView, records: Records)
    requires
        forall|i: int| 0 <= i < records.len() ==> ending((#[trigger] records[i]).1) is None,
    ensures
        ({
            let before = start.connection;
            let after = replayed(start, records).connection;
            &&& after.close_initiator == before.close_initiator
            &&& after.close_trigger == before.close_trigger
            &&& after.close_reason == before.close_reason
            &&& after.close_error == before.close_error
        }),
    decreases records.len(),
{
    if records.len() > 0 {
        let shorter = records.drop_last();
        let n = records.len() - 1;
        assert(records[n] == records.last());
        assert forall|i: int| 0 <= i < shorter.len() implies #[trigger] shorter[i]
            == records[i] by {}
        law_no_ending_is_made_up(start, shorter);
        lemma_fact(records.last().1);
    }
}

} // verus!
