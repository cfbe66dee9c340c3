//! The events of a trace, as far as the analysis reads them.

use crate::double::Double;
use crate::json::{Json, JsonField};
use vstd::prelude::*;

verus! {

/// What the time of an event counts from.
#[derive(Clone, Copy, Debug, PartialEq, Eq, Structural)]
pub enum TimeFormat {
    /// The start of the trace.
    RelativeToEpoch,
    /// The event before.
    RelativeToPreviousEvent,
}

/// Where a trace was recorded.
#[derive(Clone, Copy, Debug, PartialEq, Eq, Structural)]
pub enum VantagePointType {
    /// At the client.
    Client,
    /// At the server.
    Server,
    /// In between.
    Network,
    /// Not said.
    Unknown,
}

/// Whether flow control holds a sender back.
#[derive(Clone, Copy, Debug, PartialEq, Eq, Structural)]
pub enum BlockedState {
    /// It does.
    Blocked,
    /// It does not.
    Unblocked,
    /// Not said.
    Unknown,
}

/// How far a migration to another path has come.
#[derive(Clone, Copy, Debug, PartialEq, Eq, Structural)]
pub enum MigrationState {
    /// The new path is being probed.
    ProbingStarted,
    /// Probing was given up.
    ProbingAbandoned,
    /// The new path answered.
    ProbingSuccessful,
    /// The connection is moving over.
    MigrationStarted,
    /// Moving over was given up.
    MigrationAbandoned,
    /// The connection has moved over.
    MigrationComplete,
    /// Not said.
    Unknown,
}

/// How far a connection has come.
#[derive(Clone, Copy, Debug, PartialEq, Eq, Structural)]
pub enum ConnectionState {
    /// The first packet was sent or received.
    Attempted,
    /// The peer's address is validated.
    PeerValidated,
    /// The handshake has begun.
    HandshakeStarted,
    /// Data can be sent early.
    EarlyWrite,
    /// The handshake is complete.
    HandshakeCompleted,
    /// The handshake is confirmed.
    HandshakeConfirmed,
    /// The connection is closing.
    Closing,
    /// The connection is draining.
    Draining,
    /// The connection is closed.
    Closed,
}

/// What a timer is for.
#[derive(Clone, Copy, Debug, PartialEq, Eq, Structural)]
pub enum TimerType {
    /// Delayed acknowledgements.
    Ack,
    /// Probe timeouts.
    Pto,
    /// Loss detection by time.
    LossTimeout,
    /// Path validation.
    PathValidation,
    /// The handshake.
    HandshakeTimeout,
    /// Idleness.
    IdleTimeout,
    /// Not said.
    Unknown,
}

/// What happened to a timer.
#[derive(Clone, Copy, Debug, PartialEq, Eq, Structural)]
pub enum TimerEventType {
    /// It was set.
    Armed,
    /// It ran out.
    Expired,
    /// It was cancelled.
    Cancelled,
    /// Not said.
    Unknown,
}

/// A frame of a QUIC packet.
#[derive(Clone, Copy, Debug, PartialEq, Eq, Structural)]
pub enum QuicFrame {
    /// The sender abandons the stream.
    ResetStream {
        /// The stream.
        stream_id: u64,
    },
    /// The receiver wants no more of the stream.
    StopSending {
        /// The stream.
        stream_id: u64,
    },
    /// Data of the stream.
    Stream {
        /// The stream.
        stream_id: u64,
    },
    /// More of the stream may be sent.
    MaxStreamData {
        /// The stream.
        stream_id: u64,
    },
    /// More of the stream is to be sent than may be.
    StreamDataBlocked {
        /// The stream.
        stream_id: u64,
    },
    /// The server confirms the handshake.
    HandshakeDone,
    /// Any other frame.
    Other,
}

/// A frame of HTTP/3.
#[derive(Clone, Copy, Debug, PartialEq, Eq, Structural)]
pub enum Http3Frame {
    /// A stream or a push gets another priority.
    PriorityUpdate {
        /// The stream, if it is one.
        stream_id: Option<u64>,
    },
    /// Any other frame.
    Other,
}

/// The raw bytes of a packet.
#[derive(Clone, Copy, Debug, PartialEq, Eq, Structural)]
pub struct RawInfo {
    /// Their number, if it was recorded.
    pub length: Option<u64>,
}

/// A packet that was sent or received.
#[derive(Debug)]
pub struct Packet {
    /// Its raw bytes, if they were recorded.
    pub raw: Option<RawInfo>,
    /// Its frames, if they were recorded.
    pub frames: Option<Vec<QuicFrame>>,
}

/// A change in whether flow control holds a sender back.
#[derive(Clone, Copy, Debug, PartialEq, Eq, Structural)]
pub struct BlockedUpdate {
    /// The state before, if it was recorded.
    pub old: Option<BlockedState>,
    /// The state after.
    pub new: BlockedState,
}

/// The end of a connection. What is a JSON document here was recorded as one.
#[derive(Debug)]
pub struct ConnectionClosed {
    /// The side that closed the connection.
    pub initiator: Option<Json>,
    /// The error of the connection.
    pub connection_error: Option<Json>,
    /// The error of the application.
    pub application_error: Option<Json>,
    /// The error's number.
    pub error_code: Option<u64>,
    /// The implementation's number of the error.
    pub internal_code: Option<u64>,
    /// The reason in words.
    pub reason: Option<String>,
    /// What made the connection close.
    pub trigger: Option<Json>,
}

/// The state of loss recovery and congestion control.
#[derive(Debug)]
pub struct RecoveryMetricsUpdated {
    /// Members of the record that have no meaning of their own.
    pub ex_data: Vec<JsonField>,
    /// The smallest round trip time, in milliseconds.
    pub min_rtt: Option<Double>,
    /// The smoothed round trip time, in milliseconds.
    pub smoothed_rtt: Option<Double>,
    /// The variance of the round trip time, in milliseconds.
    pub rtt_variance: Option<Double>,
    /// The number of probe timeouts in a row.
    pub pto_count: Option<u16>,
    /// The congestion window, in bytes.
    pub congestion_window: Option<u64>,
    /// The bytes in flight.
    pub bytes_in_flight: Option<u64>,
}

/// Something that happened to a timer.
#[derive(Clone, Copy, Debug, PartialEq, Eq, Structural)]
pub struct TimerUpdated {
    /// What the timer is for, if it was recorded.
    pub timer_type: Option<TimerType>,
    /// What happened.
    pub event_type: TimerEventType,
}

/// What happened in an event.
#[derive(Debug)]
#[allow(inconsistent_fields)]
pub enum EventData {
    /// A packet was sent.
    QuicPacketSent(Packet),
    /// A packet was received.
    QuicPacketReceived(Packet),
    /// A packet was lost.
    QuicPacketLost {
        /// Its frames, if they were recorded.
        frames: Option<Vec<QuicFrame>>,
    },
    /// Frames are to be sent again.
    QuicMarkedForRetransmit {
        /// The frames.
        frames: Vec<QuicFrame>,
    },
    /// Frames were processed.
    QuicFramesProcessed {
        /// The frames.
        frames: Vec<QuicFrame>,
    },
    /// A stream changed its state.
    QuicStreamStateUpdated {
        /// The stream.
        stream_id: u64,
    },
    /// Data of a stream changed hands.
    QuicStreamDataMoved {
        /// The stream, if it was recorded.
        stream_id: Option<u64>,
    },
    /// Flow control of a stream changed.
    QuicStreamDataBlockedUpdated {
        /// The stream.
        stream_id: u64,
        /// The change.
        update: BlockedUpdate,
    },
    /// Flow control of the connection changed.
    QuicConnectionDataBlockedUpdated(BlockedUpdate),
    /// Flow control of datagrams changed.
    QuicDatagramDataBlockedUpdated(BlockedUpdate),
    /// A migration changed its state.
    QuicMigrationStateUpdated {
        /// The state after.
        new: MigrationState,
    },
    /// The connection changed its state.
    QuicConnectionStateUpdated {
        /// The state after.
        new: ConnectionState,
    },
    /// The connection was closed.
    QuicConnectionClosed(ConnectionClosed),
    /// Loss recovery or congestion control changed.
    QuicMetricsUpdated(RecoveryMetricsUpdated),
    /// Something happened to a timer.
    QuicTimerUpdated(TimerUpdated),
    /// A stream got its type.
    Http3StreamTypeSet {
        /// The stream.
        stream_id: u64,
    },
    /// A stream or a push got another priority.
    Http3PriorityUpdated {
        /// The stream, if it is one.
        stream_id: Option<u64>,
    },
    /// A frame was made.
    Http3FrameCreated {
        /// The frame's stream.
        stream_id: u64,
        /// The frame.
        frame: Http3Frame,
    },
    /// A frame was read.
    Http3FrameParsed {
        /// The frame's stream.
        stream_id: u64,
        /// The frame.
        frame: Http3Frame,
    },
    /// A datagram was made.
    Http3DatagramCreated {
        /// A fourth of the number of the datagram's stream.
        quarter_stream_id: u64,
    },
    /// A datagram was read.
    Http3DatagramParsed {
        /// A fourth of the number of the datagram's stream.
        quarter_stream_id: u64,
    },
    /// A push was accepted or not.
    Http3PushResolved {
        /// The push's stream, if it was recorded.
        stream_id: Option<u64>,
    },
    /// Any other event.
    Other,
}

} // verus!
