use qlog_analyzer::accumulator::{is_newly_blocked, json_kind, update_max, Accumulator, JsonEventKind};
use qlog_analyzer::arithmetic::Operation;
use qlog_analyzer::discovery::{
    entry_action, input_action, is_qlog_path, EntryAction, InputAction,
};
use qlog_analyzer::double::Double;
use qlog_analyzer::event::{
    BlockedState, BlockedUpdate, ConnectionClosed, ConnectionState, EventData, Http3Frame,
    MigrationState, Packet, QuicFrame, RawInfo, RecoveryMetricsUpdated, TimeFormat,
    TimerEventType, TimerType, TimerUpdated, VantagePointType,
};
use qlog_analyzer::json::{Json, JsonField, JsonNumber, JsonText};
use qlog_analyzer::metrics::ConnectionMetrics;
use qlog_analyzer::trace::{CommonFields, Record, TraceHeader};

fn d(value: f64) -> Double {
    Double::from_bits(value.to_bits())
}

fn f(value: Double) -> f64 {
    f64::from_bits(value.to_bits())
}

fn evaluate(operation: Operation) -> Double {
    d(match operation {
        Operation::Convert(integer) => integer as f64,
        Operation::Plus(a, b) => f(a) + f(b),
        Operation::Minus(a, b) => f(a) - f(b),
        Operation::Times(a, b) => f(a) * f(b),
        Operation::Over(a, b) => f(a) / f(b),
        Operation::LogOnePlus(a) => f(a).ln_1p(),
        Operation::Root(a) => f(a).sqrt(),
    })
}

fn blank() -> Accumulator {
    Accumulator::new("test".into(), None, "unknown".into(), 0)
}

fn begin_event(accumulator: &mut Accumulator, time_ms: f64, format: TimeFormat) {
    accumulator.begin_event(d(time_ms), format, &evaluate);
}

fn text(value: &str) -> Json {
    Json::Text(JsonText {
        text: value.into(),
        number: value.parse::<f64>().ok().map(d),
    })
}

fn number(value: u64) -> Json {
    Json::Number(JsonNumber::Unsigned {
        value,
        number: d(value as f64),
    })
}

fn fraction(value: f64) -> Json {
    Json::Number(JsonNumber::Other {
        number: Some(d(value)),
        text: value.to_string(),
    })
}

fn object(fields: Vec<(&str, Json)>) -> Json {
    Json::Object(
        fields
            .into_iter()
            .map(|(key, value)| JsonField {
                key: key.into(),
                value,
            })
            .collect(),
    )
}

fn seen(data: EventData) -> Accumulator {
    let mut accumulator = blank();
    accumulator.observe_event_data(&data);
    accumulator
}

fn seen_json(name: &str, data: Json) -> Accumulator {
    let mut accumulator = blank();
    accumulator.observe_json_event(name, &data);
    accumulator
}

fn finished(accumulator: Accumulator) -> ConnectionMetrics {
    accumulator.finish(&evaluate)
}

fn streams(accumulator: &Accumulator) -> Vec<u64> {
    accumulator.stream_ids.iter().copied().collect()
}

#[test]
fn qlog_compound_extensions_are_recognized() {
    assert!(is_qlog_path(Some("connection.sqlog")));
    assert!(is_qlog_path(Some("connection.sqlog.gz")));
    assert!(is_qlog_path(Some("connection.sqlog.zst")));
    assert!(!is_qlog_path(Some("connection.qlog")));
    assert!(!is_qlog_path(Some("connection.gz")));
}

#[test]
fn names_are_matched_at_their_end() {
    assert!(is_qlog_path(Some(".sqlog")));
    assert!(!is_qlog_path(Some("sqlog")));
    assert!(!is_qlog_path(Some("connection.sqlog.bak")));
    assert!(!is_qlog_path(Some("connection.SQLOG")));
    assert!(!is_qlog_path(None));
}

#[test]
fn inputs_are_told_apart() {
    assert_eq!(input_action(true, false, Some("a.sqlog")), InputAction::Analyze);
    assert_eq!(input_action(true, false, Some("a.txt")), InputAction::NotSupported);
    assert_eq!(input_action(true, false, None), InputAction::NotSupported);
    assert_eq!(input_action(false, true, Some("logs.sqlog")), InputAction::Scan);
    assert_eq!(input_action(false, false, Some("a.sqlog")), InputAction::NotFound);
}

#[test]
fn directory_entries_are_told_apart() {
    let name = Some("a.sqlog.gz");
    assert_eq!(entry_action(true, false, false, false, name), EntryAction::Descend);
    assert_eq!(entry_action(false, true, false, true, name), EntryAction::Take);
    assert_eq!(entry_action(false, false, true, true, name), EntryAction::Take);
    assert_eq!(entry_action(false, false, true, false, name), EntryAction::Ignore);
    assert_eq!(entry_action(false, false, false, true, name), EntryAction::Ignore);
    assert_eq!(entry_action(false, true, false, true, Some("a.gz")), EntryAction::Ignore);
}

#[test]
fn parses_connection_metrics_from_sqlog() {
    let header = TraceHeader {
        log_title: None,
        trace_title: Some("test connection".into()),
        vantage_point: Some(VantagePointType::Server),
        common_fields: None,
    };
    let common = header.common_time_format();
    let mut accumulator = header.into_accumulator("connection.sqlog".into(), 0);
    let records = [
        (
            10.0,
            EventData::QuicPacketSent(Packet {
                raw: Some(RawInfo { length: Some(1200) }),
                frames: Some(vec![
                    QuicFrame::Stream { stream_id: 0 },
                    QuicFrame::Stream { stream_id: 4 },
                ]),
            }),
        ),
        (
            20.0,
            EventData::QuicPacketReceived(Packet {
                raw: Some(RawInfo { length: Some(800) }),
                frames: Some(vec![QuicFrame::HandshakeDone]),
            }),
        ),
        (
            30.0,
            EventData::QuicMetricsUpdated(RecoveryMetricsUpdated {
                ex_data: vec![JsonField {
                    key: "cf_lost_packets".into(),
                    value: object(vec![("total", number(3)), ("delta", number(3))]),
                }],
                min_rtt: None,
                smoothed_rtt: Some(d(12.5)),
                rtt_variance: Some(d(2.5)),
                pto_count: Some(2),
                congestion_window: Some(24000),
                bytes_in_flight: Some(12000),
            }),
        ),
        (
            40.0,
            EventData::QuicConnectionClosed(ConnectionClosed {
                initiator: Some(text("remote")),
                connection_error: None,
                application_error: None,
                error_code: None,
                internal_code: None,
                reason: Some("done".into()),
                trigger: Some(text("clean")),
            }),
        ),
    ];
    for (time, data) in records {
        let record = Record::Qlog {
            time_format: None,
            data,
        };
        assert!(accumulator.has_room());
        accumulator.observe_record(d(time), &record, common, &evaluate);
    }
    let metrics = accumulator.finish(&evaluate);

    assert_eq!(metrics.title.as_deref(), Some("test connection"));
    assert_eq!(metrics.vantage_point, "server");
    assert_eq!(metrics.event_count, 4);
    assert_eq!(metrics.duration_ms(&evaluate).map(f), Some(30.0));
    assert_eq!(metrics.packets_sent, 1);
    assert_eq!(metrics.packets_received, 1);
    assert_eq!(metrics.bytes_sent, 1200);
    assert_eq!(metrics.bytes_received, 800);
    assert_eq!(metrics.client_bidi_streams(), 2);
    assert_eq!(metrics.packets_lost(), 3);
    assert_eq!(metrics.pto_count(), 2);
    assert_eq!(metrics.smoothed_rtt_final_ms, Some(d(12.5)));
    assert_eq!(metrics.congestion_window_max_bytes, Some(24000));
    assert!(metrics.handshake_confirmed);
    assert_eq!(metrics.close_trigger.as_deref(), Some("clean"));

    assert_eq!(metrics.close_initiator.as_deref(), Some("remote"));
    assert_eq!(metrics.close_reason.as_deref(), Some("done"));
    assert_eq!(metrics.close_error, None);
    assert_eq!(metrics.smoothed_rtt_sample_count, 1);
    assert_eq!(metrics.unique_streams(), 2);
}

#[test]
fn json_records_give_the_same_metrics() {
    let mut accumulator = blank();
    let records = [
        (
            10.0,
            "quic:packet_sent",
            object(vec![
                ("header", object(vec![("packet_type", text("1RTT"))])),
                ("raw", object(vec![("length", number(1200))])),
                (
                    "frames",
                    Json::Array(vec![
                        object(vec![("frame_type", text("stream")), ("stream_id", number(0))]),
                        object(vec![("frame_type", text("stream")), ("stream_id", text("4"))]),
                    ]),
                ),
            ]),
        ),
        (
            20.0,
            "packet_received",
            object(vec![
                ("raw", object(vec![("length", text("+800"))])),
                (
                    "frames",
                    Json::Array(vec![object(vec![("frame_type", text("handshake_done"))])]),
                ),
            ]),
        ),
        (
            30.0,
            "recovery:metrics_updated",
            object(vec![
                ("smoothed_rtt", fraction(12.5)),
                ("rtt_variance", text("2.5")),
                ("congestion_window", number(24000)),
                ("bytes_in_flight", number(12000)),
                ("pto_count", number(2)),
                ("cf_lost_packets", number(3)),
            ]),
        ),
        (
            40.0,
            "a:b:connection_closed",
            object(vec![
                ("initiator", text("remote")),
                ("trigger", text("clean")),
                ("reason", Json::Null),
                ("connection_error", text("internal_error")),
                ("application_error", object(vec![("code", number(7)), ("why", text("a\"\n"))])),
                ("error_code", number(1)),
                ("internal_code", Json::Bool(true)),
            ]),
        ),
    ];
    for (time, name, data) in records {
        let record = Record::Json {
            name: name.into(),
            data,
        };
        accumulator.observe_record(d(time), &record, TimeFormat::RelativeToEpoch, &evaluate);
    }
    assert_eq!(streams(&accumulator), vec![0, 4]);
    let metrics = finished(accumulator);
    assert_eq!(metrics.event_count, 4);
    assert_eq!(metrics.bytes_sent, 1200);
    assert_eq!(metrics.bytes_received, 800);
    assert_eq!(metrics.client_bidi_streams(), 2);
    assert_eq!(metrics.packets_lost(), 3);
    assert_eq!(metrics.pto_count(), 2);
    assert_eq!(metrics.smoothed_rtt_final_ms, Some(d(12.5)));
    assert_eq!(metrics.rtt_variance_final_ms, Some(d(2.5)));
    assert_eq!(metrics.congestion_window_final_bytes, Some(24000));
    assert_eq!(metrics.bytes_in_flight_max, Some(12000));
    assert!(metrics.handshake_completed && metrics.handshake_confirmed);
    assert_eq!(metrics.close_reason, None);
    assert_eq!(
        metrics.close_error.as_deref(),
        Some(
            "internal_error; {\"code\":7,\"why\":\"a\\\"\\n\"}; error_code=1; internal_code=true"
        )
    );
}

#[test]
fn relative_event_times_are_accumulated() {
    let mut accumulator = blank();
    begin_event(&mut accumulator, 5.0, TimeFormat::RelativeToPreviousEvent);
    begin_event(&mut accumulator, 7.0, TimeFormat::RelativeToPreviousEvent);

    assert_eq!(accumulator.connection.start_time_ms, Some(d(5.0)));
    assert_eq!(accumulator.connection.end_time_ms, Some(d(12.0)));
    assert_eq!(accumulator.connection.duration_ms(&evaluate).map(f), Some(7.0));
}

#[test]
fn records_follow_the_format_of_their_trace() {
    let mut accumulator = blank();
    let record = |time_format| Record::Qlog {
        time_format,
        data: EventData::Other,
    };
    let common = TimeFormat::RelativeToPreviousEvent;
    accumulator.observe_record(d(5.0), &record(None), common, &evaluate);
    accumulator.observe_record(d(7.0), &record(None), common, &evaluate);
    let absolute = record(Some(TimeFormat::RelativeToEpoch));
    accumulator.observe_record(d(3.0), &absolute, common, &evaluate);
    accumulator.observe_record(d(1.0), &record(None), common, &evaluate);
    assert_eq!(accumulator.previous_event_time_ms, d(4.0));
    assert_eq!(accumulator.connection.start_time_ms, Some(d(3.0)));
    assert_eq!(accumulator.connection.end_time_ms, Some(d(12.0)));
}

#[test]
fn times_may_come_in_any_order() {
    let mut accumulator = blank();
    for time in [30.0, 10.0, 20.0] {
        begin_event(&mut accumulator, time, TimeFormat::RelativeToEpoch);
    }
    assert_eq!(accumulator.connection.event_count, 3);
    assert_eq!(accumulator.connection.start_time_ms, Some(d(10.0)));
    assert_eq!(accumulator.connection.end_time_ms, Some(d(30.0)));
    assert_eq!(accumulator.previous_event_time_ms, d(20.0));
    assert_eq!(blank().connection.duration_ms(&evaluate), None);
}

#[test]
fn pto_inference_counts_positive_level_changes() {
    let mut accumulator = blank();

    for level in [0, 1, 2, 0, 1, 0] {
        accumulator.observe_pto_level(level);
    }

    assert_eq!(accumulator.connection.pto_inferred_count, 3);
    assert_eq!(accumulator.connection.pto_max_consecutive, 2);
}

#[test]
fn inferred_timeouts_stop_at_the_largest_number() {
    let mut accumulator = blank();
    for level in [u64::MAX, 0, 5] {
        accumulator.observe_pto_level(level);
    }
    assert_eq!(accumulator.connection.pto_inferred_count, u64::MAX);
    assert_eq!(accumulator.connection.pto_max_consecutive, u64::MAX);
    assert_eq!(accumulator.previous_pto_level, 5);
}

#[test]
fn expired_timers_count_before_inferred_timeouts() {
    let mut accumulator = blank();
    accumulator.observe_pto_level(4);
    assert_eq!(accumulator.connection.pto_count(), 4);
    let expired = TimerUpdated {
        timer_type: Some(TimerType::Pto),
        event_type: TimerEventType::Expired,
    };
    accumulator.observe_event_data(&EventData::QuicTimerUpdated(expired));
    assert_eq!(accumulator.connection.pto_count(), 1);
    let others = [
        TimerUpdated {
            timer_type: Some(TimerType::Pto),
            event_type: TimerEventType::Armed,
        },
        TimerUpdated {
            timer_type: Some(TimerType::Ack),
            event_type: TimerEventType::Expired,
        },
        TimerUpdated {
            timer_type: None,
            event_type: TimerEventType::Expired,
        },
    ];
    for other in others {
        accumulator.observe_event_data(&EventData::QuicTimerUpdated(other));
    }
    assert_eq!(accumulator.connection.pto_timer_expirations, 1);
    let json = seen_json(
        "quic:timer_updated",
        object(vec![("timer_type", text("pto")), ("event_type", text("expired"))]),
    );
    assert_eq!(json.connection.pto_timer_expirations, 1);
}

#[test]
fn only_finite_round_trip_times_count() {
    let mut accumulator = blank();
    for value in [20.0, f64::NAN, -1.0, f64::INFINITY, 10.0, 0.0] {
        accumulator.observe_smoothed_rtt(d(value));
    }
    assert_eq!(accumulator.connection.smoothed_rtt_final_ms, Some(d(0.0)));
    let metrics = finished(accumulator);
    assert_eq!(metrics.smoothed_rtt_sample_count, 3);
    assert_eq!(metrics.smoothed_rtt_median_ms(), Some(d(10.0)));
    assert_eq!(metrics.smoothed_rtt_p95_ms(), Some(d(19.0)));
    let nothing = finished(blank());
    assert_eq!(nothing.smoothed_rtt_median_ms(), None);
    assert_eq!(nothing.smoothed_rtt_p95_ms(), None);
}

#[test]
fn packets_without_a_size_are_counted_apart() {
    let mut accumulator = seen(EventData::QuicPacketSent(Packet {
        raw: None,
        frames: None,
    }));
    accumulator.observe_event_data(&EventData::QuicPacketSent(Packet {
        raw: Some(RawInfo { length: None }),
        frames: None,
    }));
    accumulator.observe_event_data(&EventData::QuicPacketSent(Packet {
        raw: Some(RawInfo {
            length: Some(u64::MAX),
        }),
        frames: None,
    }));
    accumulator.observe_event_data(&EventData::QuicPacketSent(Packet {
        raw: Some(RawInfo { length: Some(1) }),
        frames: None,
    }));
    assert_eq!(accumulator.connection.packets_sent, 4);
    assert_eq!(accumulator.connection.packet_size_missing_sent, 2);
    assert_eq!(accumulator.connection.bytes_sent, u64::MAX);
    let received = seen_json("quic:packet_received", object(vec![]));
    assert_eq!(received.connection.packets_received, 1);
    assert_eq!(received.connection.packet_size_missing_received, 1);
}

#[test]
fn losses_are_the_larger_of_the_events_and_the_final_count() {
    let mut accumulator = seen(EventData::QuicPacketLost { frames: None });
    accumulator.observe_json_event("quic:packet_lost", &Json::Null);
    assert_eq!(accumulator.connection.packets_lost(), 2);
    let counted = object(vec![("cf_lost_packets", object(vec![("total", text("5"))]))]);
    accumulator.observe_json_event("metrics_updated", &counted);
    assert_eq!(accumulator.connection.packets_lost(), 5);
    let fewer = object(vec![("cf_lost_packets", number(1))]);
    accumulator.observe_json_event("metrics_updated", &fewer);
    assert_eq!(accumulator.connection.cf_lost_packets, Some(1));
    assert_eq!(accumulator.connection.packets_lost(), 2);
    accumulator.observe_json_event("metrics_updated", &object(vec![]));
    assert_eq!(accumulator.connection.cf_lost_packets, Some(1));
}

#[test]
fn maxima_only_rise() {
    let mut slot = None;
    for (value, expected) in [(3, 3), (1, 3), (7, 7)] {
        update_max(&mut slot, value);
        assert_eq!(slot, Some(expected));
    }
}

#[test]
fn blocking_counts_where_it_begins() {
    let update = |old, new| BlockedUpdate { old, new };
    assert!(is_newly_blocked(&update(None, BlockedState::Blocked)));
    assert!(is_newly_blocked(&update(Some(BlockedState::Unblocked), BlockedState::Blocked)));
    assert!(!is_newly_blocked(&update(Some(BlockedState::Blocked), BlockedState::Blocked)));
    assert!(!is_newly_blocked(&update(Some(BlockedState::Blocked), BlockedState::Unblocked)));
    let begins = update(None, BlockedState::Blocked);
    let mut accumulator = seen(EventData::QuicStreamDataBlockedUpdated {
        stream_id: 8,
        update: begins,
    });
    accumulator.observe_event_data(&EventData::QuicConnectionDataBlockedUpdated(begins));
    accumulator.observe_event_data(&EventData::QuicDatagramDataBlockedUpdated(begins));
    let json = object(vec![("old", text("unblocked")), ("new", text("blocked"))]);
    accumulator.observe_json_event("quic:stream_data_blocked_updated", &json);
    let still = object(vec![("old", text("blocked")), ("new", text("blocked"))]);
    accumulator.observe_json_event("quic:stream_data_blocked_updated", &still);
    assert_eq!(accumulator.connection.blocked_events, 4);
    assert_eq!(streams(&accumulator), vec![8]);
}

#[test]
fn migrations_count_as_completed_once_they_are() {
    let mut accumulator = seen(EventData::QuicMigrationStateUpdated {
        new: MigrationState::MigrationStarted,
    });
    accumulator.observe_event_data(&EventData::QuicMigrationStateUpdated {
        new: MigrationState::MigrationComplete,
    });
    let json = object(vec![("new", text("migration_complete"))]);
    accumulator.observe_json_event("migration_state_updated", &json);
    assert_eq!(accumulator.connection.migration_events, 3);
    assert_eq!(accumulator.connection.migrations_completed, 2);
}

#[test]
fn a_confirmed_handshake_is_a_completed_one() {
    let mut accumulator = seen(EventData::QuicConnectionStateUpdated {
        new: ConnectionState::HandshakeCompleted,
    });
    assert!(accumulator.connection.handshake_completed);
    assert!(!accumulator.connection.handshake_confirmed);
    accumulator.observe_event_data(&EventData::QuicConnectionStateUpdated {
        new: ConnectionState::HandshakeConfirmed,
    });
    assert!(accumulator.connection.handshake_confirmed);
    let json = seen_json(
        "connection_state_updated",
        object(vec![("new", text("handshake_confirmed"))]),
    );
    assert!(json.connection.handshake_completed && json.connection.handshake_confirmed);
    let partial = seen_json(
        "connection_state_updated",
        object(vec![("new", text("handshake_completed"))]),
    );
    assert!(partial.connection.handshake_completed && !partial.connection.handshake_confirmed);
}

#[test]
fn streams_are_found_in_every_event_that_names_one() {
    let events = vec![
        EventData::QuicMarkedForRetransmit {
            frames: vec![QuicFrame::ResetStream { stream_id: 1 }],
        },
        EventData::QuicFramesProcessed {
            frames: vec![
                QuicFrame::StopSending { stream_id: 2 },
                QuicFrame::MaxStreamData { stream_id: 3 },
                QuicFrame::StreamDataBlocked { stream_id: 4 },
                QuicFrame::Other,
            ],
        },
        EventData::QuicStreamStateUpdated { stream_id: 5 },
        EventData::QuicStreamDataMoved { stream_id: Some(6) },
        EventData::QuicStreamDataMoved { stream_id: None },
        EventData::Http3StreamTypeSet { stream_id: 7 },
        EventData::Http3PriorityUpdated { stream_id: Some(8) },
        EventData::Http3FrameCreated {
            stream_id: 9,
            frame: Http3Frame::PriorityUpdate { stream_id: Some(10) },
        },
        EventData::Http3FrameParsed {
            stream_id: 11,
            frame: Http3Frame::Other,
        },
        EventData::Http3DatagramCreated { quarter_stream_id: 3 },
        EventData::Http3DatagramParsed {
            quarter_stream_id: u64::MAX,
        },
        EventData::Http3PushResolved { stream_id: Some(13) },
        EventData::Other,
    ];
    let mut accumulator = blank();
    for event in &events {
        accumulator.observe_event_data(event);
    }
    assert_eq!(streams(&accumulator), (1..=13).collect::<Vec<u64>>());
    let metrics = finished(accumulator);
    assert_eq!(metrics.unique_streams(), 13);
    assert_eq!(metrics.client_bidi_streams(), 3);
}

#[test]
fn streams_and_frames_are_found_at_any_depth() {
    let deep = object(vec![(
        "outer",
        Json::Array(vec![
            object(vec![("stream_id", number(12))]),
            object(vec![("quarter_stream_id", text("5"))]),
            object(vec![("quarter_stream_id", number(u64::MAX))]),
            object(vec![(
                "stream_id",
                object(vec![("frame_type", text("handshake_done")), ("stream_id", number(1))]),
            )]),
            object(vec![("stream_id", text("no number"))]),
        ]),
    )]);
    let accumulator = seen_json("unheard:of", deep);
    assert_eq!(streams(&accumulator), vec![1, 12, 20]);
    assert!(accumulator.connection.handshake_confirmed);
    assert_eq!(accumulator.connection.packets_sent, 0);
}

#[test]
fn event_names_are_read_from_their_last_part() {
    assert_eq!(json_kind("packet_sent"), JsonEventKind::PacketSent);
    assert_eq!(json_kind("quic:packet_sent"), JsonEventKind::PacketSent);
    assert_eq!(json_kind("a:b:packet_sent"), JsonEventKind::PacketSent);
    assert_eq!(json_kind("packet_sent:"), JsonEventKind::Other);
    assert_eq!(json_kind("packet_sent:x"), JsonEventKind::Other);
}

#[test]
fn closing_events_join_their_errors() {
    let closed = |connection_error: Option<Json>, error_code| {
        EventData::QuicConnectionClosed(ConnectionClosed {
            initiator: Some(text("local")),
            connection_error,
            application_error: None,
            error_code,
            internal_code: Some(12),
            reason: None,
            trigger: None,
        })
    };
    let both = seen(closed(Some(text("flow_control_error")), Some(3)));
    assert_eq!(
        both.connection.close_error.as_deref(),
        Some("flow_control_error; error_code=3; internal_code=12")
    );
    let one = seen(closed(None, None));
    assert_eq!(one.connection.close_error.as_deref(), Some("internal_code=12"));
    assert_eq!(one.connection.close_trigger, None);
}

#[test]
fn a_trace_is_named_by_its_header() {
    let header = |log_title: Option<&str>, trace_title: Option<&str>| TraceHeader {
        log_title: log_title.map(|title| title.to_string()),
        trace_title: trace_title.map(|title| title.to_string()),
        vantage_point: None,
        common_fields: Some(CommonFields {
            time_format: Some(TimeFormat::RelativeToPreviousEvent),
        }),
    };
    let common = header(None, None).common_time_format();
    assert_eq!(common, TimeFormat::RelativeToPreviousEvent);
    let own = Record::Qlog {
        time_format: Some(TimeFormat::RelativeToEpoch),
        data: EventData::Other,
    };
    assert_eq!(own.time_format(common), TimeFormat::RelativeToEpoch);
    let json = Record::Json {
        name: "x".into(),
        data: Json::Null,
    };
    assert_eq!(json.time_format(common), common);
    let titled = header(Some("log"), Some("trace")).into_accumulator("p".into(), 9);
    assert_eq!(titled.connection.title.as_deref(), Some("trace"));
    assert_eq!(titled.connection.file_size_bytes, 9);
    let untitled = header(Some("log"), None).into_accumulator("p".into(), 0);
    assert_eq!(untitled.connection.title.as_deref(), Some("log"));
    assert_eq!(untitled.connection.vantage_point, "unknown");
    for (vantage_point, name) in [
        (VantagePointType::Client, "client"),
        (VantagePointType::Server, "server"),
        (VantagePointType::Network, "network"),
        (VantagePointType::Unknown, "unknown"),
    ] {
        let header = TraceHeader {
            log_title: None,
            trace_title: None,
            vantage_point: Some(vantage_point),
            common_fields: None,
        };
        assert_eq!(header.common_time_format(), TimeFormat::RelativeToEpoch);
        let accumulator = header.into_accumulator("p".into(), 0);
        assert_eq!(accumulator.connection.vantage_point, name);
    }
}

#[test]
fn rates_are_given_for_the_packets_that_were_sent() {
    let mut metrics = finished(blank());
    assert_eq!(metrics.loss_rate_pct(&evaluate), None);
    assert_eq!(metrics.pto_per_1000_packets(&evaluate), None);
    metrics.packets_sent = 200;
    metrics.packets_received = u64::MAX;
    metrics.packet_lost_events = 3;
    metrics.pto_inferred_count = 1;
    metrics.bytes_sent = 5;
    metrics.bytes_received = 6;
    assert_eq!(metrics.loss_rate_pct(&evaluate).map(f), Some(1.5));
    assert_eq!(metrics.pto_per_1000_packets(&evaluate).map(f), Some(5.0));
    assert_eq!(metrics.total_packets(), u64::MAX);
    assert_eq!(metrics.total_bytes(), 11);
}

#[test]
fn events_need_room_only_in_the_counters_that_they_raise() {
    let mut accumulator = blank();
    accumulator.connection.packets_sent = u64::MAX;
    accumulator.connection.packet_size_missing_received = u64::MAX;
    assert!(!accumulator.has_room());
    accumulator.observe_event_data(&EventData::QuicPacketLost { frames: None });
    accumulator.observe_event_data(&EventData::QuicPacketReceived(Packet {
        raw: Some(RawInfo { length: Some(5) }),
        frames: None,
    }));
    assert_eq!(accumulator.connection.packet_lost_events, 1);
    assert_eq!(accumulator.connection.bytes_received, 5);
    assert_eq!(accumulator.connection.packets_sent, u64::MAX);
    assert!(blank().has_room());
}

#[test]
fn only_closing_events_change_how_a_connection_closed() {
    let mut accumulator = seen_json(
        "connection_closed",
        object(vec![("trigger", text("clean")), ("error_code", number(4))]),
    );
    accumulator.observe_event_data(&EventData::QuicPacketLost { frames: None });
    accumulator.observe_json_event("quic:connection_started", &object(vec![("trigger", text("x"))]));
    assert_eq!(accumulator.connection.close_trigger.as_deref(), Some("clean"));
    assert_eq!(accumulator.connection.close_error.as_deref(), Some("error_code=4"));
    accumulator.observe_json_event("connection_closed", &object(vec![]));
    assert_eq!(accumulator.connection.close_trigger, None);
    assert_eq!(accumulator.connection.close_error, None);
    assert_eq!(accumulator.connection.path, "test");
}
