//! What holds of the metrics of every trace.

use crate::accumulator::{
    absolute_time, client_bidi, event_observation, fresh, is_rtt_sample, json_event_kind,
    json_observation, json_packet_length, packet_length, AccumulatorView, Fact, JsonEventKind,
    Observation, RecoveryFact,
};
use crate::arithmetic::{Arithmetic, Operation};
use crate::double::Double;
use crate::event::{EventData, Packet, TimeFormat, VantagePointType};
use crate::json::Json;
use crate::metrics::saturating_sum;
use crate::order::law_sorted_values;
use crate::trace::{Record, TraceHeader};
use vstd::prelude::*;
use vstd::string::*;

verus! {

/// The state after a list of records, each with its time since the start of the
/// trace.
pub open spec fn replayed(
    start: AccumulatorView,
    records: Seq<(Double, Record)>,
) -> AccumulatorView
    decreases records.len(),
{
    if records.len() == 0 {
        start
    } else {
        replayed(start, records.drop_last()).recorded(records.last().0, records.last().1)
    }
}

/// What the metrics of a connection never contradict, whatever its events were.
pub open spec fn is_sound(v: AccumulatorView) -> bool {
    let m = v.connection;
    &&& m.handshake_confirmed ==> m.handshake_completed
    &&& m.packet_size_missing_sent <= m.packets_sent
    &&& m.packet_size_missing_received <= m.packets_received
    &&& m.migrations_completed <= m.migration_events
    &&& v.previous_pto_level <= m.pto_max_consecutive <= m.pto_inferred_count <= u64::MAX
    &&& m.bytes_sent <= u64::MAX
    &&& m.bytes_received <= u64::MAX
    &&& match (m.congestion_window_final_bytes, m.congestion_window_max_bytes) {
        (Some(last), Some(largest)) => last <= largest,
        (None, None) => true,
        _ => false,
    }
    &&& forall|i: int|
        0 <= i < v.smoothed_rtt_samples_ms.len() ==> is_rtt_sample(
            #[trigger] v.smoothed_rtt_samples_ms[i],
        )
    &&& m.smoothed_rtt_final_ms == (if v.smoothed_rtt_samples_ms.len() == 0 {
        None
    } else {
        Some(v.smoothed_rtt_samples_ms.last())
    })
    &&& match (m.start_time_ms, m.end_time_ms) {
        (Some(start), Some(end)) => {
            &&& m.event_count > 0
            &&& start.nan() == end.nan()
            &&& !start.nan() ==> start.level() <= end.level()
        },
        (None, None) => m.event_count == 0,
        _ => false,
    }
}

/// Law: the metrics of a connection without events are sound.
pub proof fn law_fresh_is_sound(
    path: Seq<char>,
    title: Option<Seq<char>>,
    vantage_point: Seq<char>,
    file_size_bytes: u64,
)
    ensures
        is_sound(fresh(path, title, vantage_point, file_size_bytes)),
{
}

/// A probe timeout level keeps the metrics sound.
proof fn lemma_pto_level_sound(v: AccumulatorView, value: u64)
    requires
        is_sound(v),
    ensures
        is_sound(v.with_pto_level(value)),
{
    assert(v.with_pto_level(value).smoothed_rtt_samples_ms == v.smoothed_rtt_samples_ms);
}

/// A smoothed round trip time keeps the metrics sound.
proof fn lemma_smoothed_rtt_sound(v: AccumulatorView, value: Double)
    requires
        is_sound(v),
    ensures
        is_sound(v.with_smoothed_rtt(value)),
{
}

/// A report on loss recovery keeps the metrics sound.
proof fn lemma_recovery_sound(v: AccumulatorView, fact: RecoveryFact)
    requires
        is_sound(v),
    ensures
        is_sound(v.with_recovery(fact)),
{
    let bare = RecoveryFact { pto_level: None, ..fact };
    let sampled = match fact.smoothed_rtt {
        Some(value) => v.with_smoothed_rtt(value),
        None => v,
    };
    assert(is_sound(sampled)) by {
        if let Some(value) = fact.smoothed_rtt {
            lemma_smoothed_rtt_sound(v, value);
        }
    }
    let updated = v.with_recovery(bare);
    assert(updated.smoothed_rtt_samples_ms == sampled.smoothed_rtt_samples_ms);
    assert(is_sound(updated));
    if let Some(level) = fact.pto_level {
        lemma_pto_level_sound(updated, level);
    }
}

/// Law: what an event says keeps the metrics sound.
pub proof fn law_observation_keeps_sound(v: AccumulatorView, seen: Observation)
    requires
        is_sound(v),
    ensures
        is_sound(v.after(seen)),
{
    let told = v.with_fact(seen.fact);
    match seen.fact {
        Fact::Recovery(fact) => {
            lemma_recovery_sound(v, fact);
        },
        _ => {
            assert(told.smoothed_rtt_samples_ms == v.smoothed_rtt_samples_ms);
        },
    }
    assert(is_sound(told));
    assert(v.after(seen).smoothed_rtt_samples_ms == told.smoothed_rtt_samples_ms);
}

/// Law: the beginning of an event keeps the metrics sound.
pub proof fn law_beginning_keeps_sound(v: AccumulatorView, time_ms: Double)
    requires
        is_sound(v),
    ensures
        is_sound(v.begun(time_ms)),
{
    assert(v.begun(time_ms).smoothed_rtt_samples_ms == v.smoothed_rtt_samples_ms);
}

/// Law: the metrics of every trace are sound.
pub proof fn law_replay_is_sound(start: AccumulatorView, records: Seq<(Double, Record)>)
    requires
        is_sound(start),
    ensures
        is_sound(replayed(start, records)),
    decreases records.len(),
{
    if records.len() > 0 {
        let before = replayed(start, records.drop_last());
        law_replay_is_sound(start, records.drop_last());
        law_beginning_keeps_sound(before, records.last().0);
        law_observation_keeps_sound(
            before.begun(records.last().0),
            records.last().1.observation(),
        );
    }
}

/// The number of records that say what is looked for.
pub open spec fn tally(records: Seq<(Double, Record)>, wanted: spec_fn(Fact) -> bool) -> nat
    decreases records.len(),
{
    if records.len() == 0 {
        0
    } else {
        tally(records.drop_last(), wanted) + if wanted(records.last().1.observation().fact) {
            1nat
        } else {
            0
        }
    }
}

/// The bytes of the packets that the records say were sent.
pub open spec fn sent_total(records: Seq<(Double, Record)>) -> nat
    decreases records.len(),
{
    if records.len() == 0 {
        0
    } else {
        sent_total(records.drop_last()) + match records.last().1.observation().fact {
            Fact::Sent(Some(length)) => length as nat,
            _ => 0,
        }
    }
}

/// The bytes of the packets that the records say were received.
pub open spec fn received_total(records: Seq<(Double, Record)>) -> nat
    decreases records.len(),
{
    if records.len() == 0 {
        0
    } else {
        received_total(records.drop_last()) + match records.last().1.observation().fact {
            Fact::Received(Some(length)) => length as nat,
            _ => 0,
        }
    }
}

/// Law: each counter grows by the number of records that say what it counts, in
/// whatever order they come, and none of them is lost.
pub proof fn law_counters_count_records(start: AccumulatorView, records: Seq<(Double, Record)>)
    ensures
        ({
            let before = start.connection;
            let after = replayed(start, records).connection;
            &&& after.event_count == before.event_count + records.len()
            &&& after.packets_sent == before.packets_sent + tally(records, |f: Fact| f is Sent)
            &&& after.packets_received == before.packets_received + tally(
                records,
                |f: Fact| f is Received,
            )
            &&& after.packet_size_missing_sent == before.packet_size_missing_sent + tally(
                records,
                |f: Fact| f == Fact::Sent(None),
            )
            &&& after.packet_size_missing_received == before.packet_size_missing_received
                + tally(records, |f: Fact| f == Fact::Received(None))
            &&& after.packet_lost_events == before.packet_lost_events + tally(
                records,
                |f: Fact| f is Lost,
            )
            &&& after.blocked_events == before.blocked_events + tally(
                records,
                |f: Fact| f is NewlyBlocked,
            )
            &&& after.migration_events == before.migration_events + tally(
                records,
                |f: Fact| f is Migration,
            )
            &&& after.migrations_completed == before.migrations_completed + tally(
                records,
                |f: Fact| f == (Fact::Migration { complete: true }),
            )
            &&& after.pto_timer_expirations == before.pto_timer_expirations + tally(
                records,
                |f: Fact| f is PtoExpired,
            )
        }),
    decreases records.len(),
{
    if records.len() > 0 {
        law_counters_count_records(start, records.drop_last());
    }
}

/// Law: the bytes in each direction are the sum of the recorded packet sizes, as
/// far as it fits in 64 bits.
pub proof fn law_bytes_are_summed(start: AccumulatorView, records: Seq<(Double, Record)>)
    requires
        start.connection.bytes_sent <= u64::MAX,
        start.connection.bytes_received <= u64::MAX,
    ensures
        replayed(start, records).connection.bytes_sent == saturating_sum(
            start.connection.bytes_sent,
            sent_total(records),
        ),
        replayed(start, records).connection.bytes_received == saturating_sum(
            start.connection.bytes_received,
            received_total(records),
        ),
    decreases records.len(),
{
    if records.len() > 0 {
        law_bytes_are_summed(start, records.drop_last());
    }
}

/// Law: the streams of a connection are those that its records name, each of them
/// once.
pub proof fn law_streams_are_collected(
    start: AccumulatorView,
    records: Seq<(Double, Record)>,
    id: u64,
)
    ensures
        replayed(start, records).stream_ids.contains(id) <==> (start.stream_ids.contains(id)
            || exists|i: int|
            0 <= i < records.len() && (#[trigger] records[i]).1.observation().streams.contains(
                id,
            )),
    decreases records.len(),
{
    if records.len() > 0 {
        let shorter = records.drop_last();
        law_streams_are_collected(start, shorter, id);
        let n = records.len() - 1;
        if exists|i: int|
            0 <= i < records.len() && (#[trigger] records[i]).1.observation().streams.contains(
                id,
            ) {
            let i = choose|i: int|
                0 <= i < records.len() && (
                #[trigger] records[i]).1.observation().streams.contains(id);
            if i < n {
                assert(shorter[i] == records[i]);
            }
        }
        if exists|i: int|
            0 <= i < shorter.len() && (#[trigger] shorter[i]).1.observation().streams.contains(
                id,
            ) {
            let i = choose|i: int|
                0 <= i < shorter.len() && (
                #[trigger] shorter[i]).1.observation().streams.contains(id);
            assert(records[i] == shorter[i]);
        }
        assert(records[n] == records.last());
    }
}

/// Law: the handshake counts as confirmed once a record confirms it, and as
/// completed once a record completes or confirms it.
pub proof fn law_handshake_is_remembered(start: AccumulatorView, records: Seq<(Double, Record)>)
    ensures
        replayed(start, records).connection.handshake_confirmed <==> (
        start.connection.handshake_confirmed || exists|i: int|
            0 <= i < records.len() && (#[trigger] records[i]).1.observation().confirmed),
        replayed(start, records).connection.handshake_completed <==> (
        start.connection.handshake_completed || exists|i: int|
            0 <= i < records.len() && {
                let seen = (#[trigger] records[i]).1.observation();
                seen.completed || seen.confirmed
            }),
    decreases records.len(),
{
    if records.len() > 0 {
        let shorter = records.drop_last();
        law_handshake_is_remembered(start, shorter);
        let n = records.len() - 1;
        assert(records[n] == records.last());
        assert forall|i: int| 0 <= i < n implies #[trigger] records[i] == shorter[i] by {}
        assert forall|i: int| 0 <= i < n implies records[i] == #[trigger] shorter[i] by {}
        assert forall|i: int| 0 <= i < records.len() implies i == n || #[trigger] records[i]
            == shorter[i] by {}
    }
}

/// Law: a record moves the start of the connection to its time if there was none or that is
/// earlier, and the end if there was none or that is later; a time that is no number gives
/// way to any other.
pub proof fn law_records_move_the_times(v: AccumulatorView, time_ms: Double, record: Record)
    ensures
        ({
            let before = v.connection;
            let after = v.recorded(time_ms, record).connection;
            &&& after.start_time_ms == Some(
                match before.start_time_ms {
                    Some(start) => if start.nan() || (!time_ms.nan() && time_ms.level()
                        < start.level()) {
                        time_ms
                    } else {
                        start
                    },
                    None => time_ms,
                },
            )
            &&& after.end_time_ms == Some(
                match before.end_time_ms {
                    Some(end) => if end.nan() || (!time_ms.nan() && time_ms.level()
                        > end.level()) {
                        time_ms
                    } else {
                        end
                    },
                    None => time_ms,
                },
            )
            &&& after.event_count == before.event_count + 1
        }),
{
    lemma_recorded_times(v, time_ms, record);
}

/// A record moves the start of the connection to its time if that is earlier, and the
/// end if it is later.
proof fn lemma_recorded_times(v: AccumulatorView, time_ms: Double, record: Record)
    ensures
        v.recorded(time_ms, record).connection.start_time_ms == Some(
            match v.connection.start_time_ms {
                Some(start) => start.smaller(time_ms),
                None => time_ms,
            },
        ),
        v.recorded(time_ms, record).connection.end_time_ms == Some(
            match v.connection.end_time_ms {
                Some(end) => end.larger(time_ms),
                None => time_ms,
            },
        ),
{
}

/// Law: a connection starts with the earliest of its records and ends with the
/// latest, in whatever order they come.
pub proof fn law_times_are_the_extremes(start: AccumulatorView, records: Seq<(Double, Record)>)
    requires
        start.connection.start_time_ms is None,
        start.connection.end_time_ms is None,
        records.len() > 0,
        forall|i: int| 0 <= i < records.len() ==> !(#[trigger] records[i]).0.nan(),
    ensures
        ({
            let after = replayed(start, records).connection;
            &&& after.start_time_ms matches Some(first) && after.end_time_ms matches Some(last)
                && !first.nan() && !last.nan() && (exists|i: int|
                0 <= i < records.len() && (#[trigger] records[i]).0 == first) && (exists|i: int|
                0 <= i < records.len() && (#[trigger] records[i]).0 == last) && (forall|i: int|
                0 <= i < records.len() ==> first.level() <= (
                #[trigger] records[i]).0.level() <= last.level())
        }),
    decreases records.len(),
{
    let shorter = records.drop_last();
    let n = records.len() - 1;
    assert(records[n] == records.last());
    lemma_recorded_times(replayed(start, shorter), records[n].0, records[n].1);
    if shorter.len() > 0 {
        assert forall|i: int| 0 <= i < shorter.len() implies !(#[trigger] shorter[i]).0.nan() by {
            assert(shorter[i] == records[i]);
        }
        law_times_are_the_extremes(start, shorter);
        let before = replayed(start, shorter).connection;
        let i = choose|i: int|
            0 <= i < shorter.len() && Some((#[trigger] shorter[i]).0) == before.start_time_ms;
        assert(records[i] == shorter[i]);
        let j = choose|j: int|
            0 <= j < shorter.len() && Some((#[trigger] shorter[j]).0) == before.end_time_ms;
        assert(records[j] == shorter[j]);
        assert forall|k: int| 0 <= k < n implies #[trigger] records[k] == shorter[k] by {}
    } else {
        assert(replayed(start, shorter) == start);
    }
}

/// The state after a list of probe timeout levels.
pub open spec fn levelled(start: AccumulatorView, levels: Seq<u64>) -> AccumulatorView
    decreases levels.len(),
{
    if levels.len() == 0 {
        start
    } else {
        levelled(start, levels.drop_last()).with_pto_level(levels.last())
    }
}

/// The sum of the rises in a list of levels, the first of which follows the given
/// level.
pub open spec fn rises(first: u64, levels: Seq<u64>) -> nat
    decreases levels.len(),
{
    if levels.len() == 0 {
        0
    } else {
        let before = if levels.len() == 1 {
            first
        } else {
            levels[levels.len() - 2]
        };
        rises(first, levels.drop_last()) + if levels.last() > before {
            (levels.last() - before) as nat
        } else {
            0
        }
    }
}

/// Law: the inferred number of probe timeouts is the sum of the positive changes
/// of their level, as far as it fits in 64 bits, and the maximum is the largest
/// level.
pub proof fn law_pto_levels_are_inferred(start: AccumulatorView, levels: Seq<u64>)
    requires
        start.connection.pto_inferred_count <= u64::MAX,
    ensures
        ({
            let after = levelled(start, levels);
            let most = after.connection.pto_max_consecutive;
            &&& after.connection.pto_inferred_count == saturating_sum(
                start.connection.pto_inferred_count,
                rises(start.previous_pto_level, levels),
            )
            &&& after.previous_pto_level == (if levels.len() == 0 {
                start.previous_pto_level
            } else {
                levels.last()
            })
            &&& start.connection.pto_max_consecutive <= most
            &&& forall|i: int| 0 <= i < levels.len() ==> (#[trigger] levels[i]) <= most
            &&& most == start.connection.pto_max_consecutive || exists|i: int|
                0 <= i < levels.len() && (#[trigger] levels[i]) == most
        }),
    decreases levels.len(),
{
    if levels.len() > 0 {
        let shorter = levels.drop_last();
        law_pto_levels_are_inferred(start, shorter);
        let n = levels.len() - 1;
        assert(levels[n] == levels.last());
        assert forall|i: int| 0 <= i < n implies #[trigger] levels[i] == shorter[i] by {}
        assert forall|i: int| 0 <= i < n implies levels[i] == #[trigger] shorter[i] by {}
        if shorter.len() > 0 {
            assert(shorter.last() == levels[levels.len() - 2]);
        }
    }
}

/// Law: what is known of a connection once it closes stays until it closes again.
pub proof fn law_only_closing_sets_the_close(v: AccumulatorView, time_ms: Double, record: Record)
    ensures
        ({
            let before = v.connection;
            let after = v.recorded(time_ms, record).connection;
            match record.observation().fact {
                Fact::Closed { initiator, trigger, reason, error } => {
                    &&& after.close_initiator == initiator
                    &&& after.close_trigger == trigger
                    &&& after.close_reason == reason
                    &&& after.close_error == error
                },
                _ => {
                    &&& after.close_initiator == before.close_initiator
                    &&& after.close_trigger == before.close_trigger
                    &&& after.close_reason == before.close_reason
                    &&& after.close_error == before.close_error
                },
            }
        }),
{
}

/// Law: no record changes what the trace's header said of the connection.
pub proof fn law_records_keep_the_header(start: AccumulatorView, records: Seq<(Double, Record)>)
    ensures
        ({
            let before = start.connection;
            let after = replayed(start, records).connection;
            &&& after.path == before.path
            &&& after.title == before.title
            &&& after.vantage_point == before.vantage_point
            &&& after.file_size_bytes == before.file_size_bytes
        }),
    decreases records.len(),
{
    if records.len() > 0 {
        law_records_keep_the_header(start, records.drop_last());
    }
}

/// Law: the bidirectional streams that the client opened are some of the streams.
pub proof fn law_client_streams_are_streams(ids: Set<u64>)
    requires
        ids.finite(),
    ensures
        client_bidi(ids).subset_of(ids),
        client_bidi(ids).len() <= ids.len(),
{
    vstd::set_lib::lemma_len_subset(client_bidi(ids), ids);
}

/// Law: a packet counts the same whether its event has a type or was recorded as a
/// JSON document.
pub proof fn law_packets_count_alike(packet: Packet, name: Seq<char>, data: Json)
    requires
        json_packet_length(data) == packet_length(packet),
    ensures
        json_event_kind(name) == JsonEventKind::PacketSent ==> json_observation(name, data).fact
            == event_observation(EventData::QuicPacketSent(packet)).fact,
        json_event_kind(name) == JsonEventKind::PacketReceived ==> json_observation(
            name,
            data,
        ).fact == event_observation(EventData::QuicPacketReceived(packet)).fact,
{
}

/// Law: the metrics of a finished connection are those that its records left, with
/// its streams and round trip times counted.
pub proof fn law_finished_metrics_keep_counters(v: AccumulatorView, a: Arithmetic)
    requires
        v.stream_ids.finite(),
    ensures
        ({
            let m = v.finished(a);
            &&& m.client_bidi_streams <= m.unique_streams
            &&& m.packets_sent == v.connection.packets_sent
            &&& m.packets_received == v.connection.packets_received
            &&& m.packets_lost() == v.connection.packets_lost()
            &&& m.pto_count() == v.connection.pto_count()
            &&& m.smoothed_rtt_sample_count == 0 ==> m.smoothed_rtt_median_ms is None
                && m.smoothed_rtt_p95_ms is None
        }),
{
    law_client_streams_are_streams(v.stream_ids);
    law_sorted_values(v.smoothed_rtt_samples_ms);
}

/// Law: where no counter has reached its largest value, any event can be noted.
pub proof fn law_room_is_for_any_fact(v: AccumulatorView, fact: Fact)
    requires
        v.has_room(),
    ensures
        v.has_room_for(fact),
{
}

/// Law: the count of lost packets is the last that was reported.
pub proof fn law_last_loss_count_stays(start: AccumulatorView, records: Seq<(Double, Record)>)
    requires
        records.len() > 0,
    ensures
        replayed(start, records).connection.cf_lost_packets == (
        match records.last().1.observation().fact {
            Fact::Recovery(RecoveryFact { lost_packets: Some(count), .. }) => Some(count),
            _ => replayed(start, records.drop_last()).connection.cf_lost_packets,
        }),
{
}

/// Law: the time of an event counts from the start of the trace as it stands, or from the
/// event before by addition; an event's own word on that goes before the trace's, and
/// documents have none of their own.
pub proof fn law_times_count_from_what_is_said(
    previous_ms: Double,
    time_ms: Double,
    record: Record,
    common: TimeFormat,
    a: Arithmetic,
)
    ensures
        ({
            let time = absolute_time(previous_ms, time_ms, record.format(common), a);
            let said = match record {
                Record::Qlog { time_format: Some(own), .. } => own,
                _ => common,
            };
            &&& said == TimeFormat::RelativeToEpoch ==> time == time_ms
            &&& said == TimeFormat::RelativeToPreviousEvent ==> time == a(
                Operation::Plus(previous_ms, time_ms),
            )
        }),
{
}

/// Law: the next event counts from the time of this one.
pub proof fn law_the_last_time_is_kept(v: AccumulatorView, time_ms: Double, record: Record)
    ensures
        v.recorded(time_ms, record).previous_event_time_ms == time_ms,
{
}

/// Law: the title is the trace's own, or else the log's; the vantage point goes by its name,
/// and is unknown where none is given; times count from the start of the trace where nothing
/// else is said.
pub proof fn law_headers_are_read(header: TraceHeader)
    ensures
        (header.trace_title matches Some(title) ==> header.title() == Some(title@)),
        header.trace_title is None ==> (header.log_title matches Some(title) ==> header.title()
            == Some(title@)),
        header.trace_title is None && header.log_title is None ==> header.title() is None,
        header.vantage_point == Some(VantagePointType::Client) <==> header.vantage() == "client"@,
        header.vantage_point == Some(VantagePointType::Server) <==> header.vantage() == "server"@,
        header.vantage_point == Some(VantagePointType::Network) <==> header.vantage()
            == "network"@,
        header.vantage_point is None || header.vantage_point == Some(VantagePointType::Unknown)
            <==> header.vantage() == "unknown"@,
        header.common_format() == TimeFormat::RelativeToPreviousEvent <==> (
        header.common_fields matches Some(fields) && fields.time_format == Some(
            TimeFormat::RelativeToPreviousEvent,
        )),
{
    reveal_strlit("client");
    reveal_strlit("server");
    reveal_strlit("network");
    reveal_strlit("unknown");
    assert("client"@[0] == 'c');
    assert("server"@[0] == 's');
    assert("network"@[0] == 'n');
    assert("unknown"@[0] == 'u');
}

/// Law: nothing is known of a connection without events but its trace.
pub proof fn law_fresh_knows_its_trace(
    path: Seq<char>,
    title: Option<Seq<char>>,
    vantage_point: Seq<char>,
    file_size_bytes: u64,
)
    ensures
        ({
            let v = fresh(path, title, vantage_point, file_size_bytes);
            let m = v.connection;
            &&& m.path == path
            &&& m.title == title
            &&& m.vantage_point == vantage_point
            &&& m.file_size_bytes == file_size_bytes
            &&& m.event_count == 0 && m.start_time_ms is None && m.end_time_ms is None
            &&& m.packets_sent == 0 && m.packets_received == 0 && m.packet_lost_events == 0
            &&& m.bytes_sent == 0 && m.bytes_received == 0
            &&& m.packet_size_missing_sent == 0 && m.packet_size_missing_received == 0
            &&& m.cf_lost_packets is None && m.bytes_in_flight_max is None
            &&& m.congestion_window_max_bytes is None && m.congestion_window_final_bytes is None
            &&& m.smoothed_rtt_final_ms is None && m.rtt_variance_final_ms is None
            &&& m.min_rtt_final_ms is None
            &&& m.pto_inferred_count == 0 && m.pto_timer_expirations == 0
            &&& m.pto_max_consecutive == 0 && v.previous_pto_level == 0
            &&& m.blocked_events == 0 && m.migration_events == 0 && m.migrations_completed == 0
            &&& !m.handshake_completed && !m.handshake_confirmed
            &&& m.close_initiator is None && m.close_trigger is None
            &&& m.close_reason is None && m.close_error is None
            &&& v.stream_ids == Set::<u64>::empty()
            &&& v.smoothed_rtt_samples_ms.len() == 0
            &&& v.previous_event_time_ms.bits == 0
        }),
{
}

} // verus!
