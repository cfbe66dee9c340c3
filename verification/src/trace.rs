//! A trace: its header, and the records that follow.

use crate::accumulator::{
    absolute_time, event_observation, fresh, json_observation, Accumulator, AccumulatorView,
    Observation,
};
use crate::arithmetic::{follows, is_total, Arithmetic, Operation};
use crate::double::Double;
use crate::event::{EventData, TimeFormat, VantagePointType};
use crate::json::Json;
use crate::metrics::opt_view;
use vstd::prelude::*;
use vstd::string::*;

verus! {

/// What all events of a trace have in common.
#[derive(Clone, Copy, Debug, PartialEq, Eq, Structural)]
pub struct CommonFields {
    /// What their times count from.
    pub time_format: Option<TimeFormat>,
}

/// The header of a trace.
#[derive(Debug)]
pub struct TraceHeader {
    /// The title of the log.
    pub log_title: Option<String>,
    /// The title of the trace in the log.
    pub trace_title: Option<String>,
    /// Where the trace was recorded.
    pub vantage_point: Option<VantagePointType>,
    /// What its events have in common.
    pub common_fields: Option<CommonFields>,
}

/// A record of a trace.
#[derive(Debug)]
#[allow(inconsistent_fields)]
pub enum Record {
    /// An event that the log format knows.
    Qlog {
        /// What its time counts from, where it says so itself.
        time_format: Option<TimeFormat>,
        /// What happened.
        data: EventData,
    },
    /// Any other event.
    Json {
        /// Its name.
        name: String,
        /// What happened.
        data: Json,
    },
}

/// The name of a vantage point.
pub open spec fn vantage_text(vantage_point: VantagePointType) -> Seq<char> {
    match vantage_point {
        VantagePointType::Client => "client"@,
        VantagePointType::Server => "server"@,
        VantagePointType::Network => "network"@,
        VantagePointType::Unknown => "unknown"@,
    }
}

/// The name of a vantage point.
pub fn vantage_name(vantage_point: VantagePointType) -> (name: String)
    ensures
        name@ == vantage_text(vantage_point),
{
    match vantage_point {
        VantagePointType::Client => "client".to_owned(),
        VantagePointType::Server => "server".to_owned(),
        VantagePointType::Network => "network".to_owned(),
        VantagePointType::Unknown => "unknown".to_owned(),
    }
}

impl TraceHeader {
    /// The title: that of the trace, or else that of the log.
    pub open spec fn title(self) -> Option<Seq<char>> {
        match self.trace_title {
            Some(title) => Some(title@),
            None => opt_view(self.log_title),
        }
    }

    /// The name of the vantage point, which is unknown where none is given.
    pub open spec fn vantage(self) -> Seq<char> {
        match self.vantage_point {
            Some(vantage_point) => vantage_text(vantage_point),
            None => "unknown"@,
        }
    }

    /// What times count from where an event does not say so itself.
    pub open spec fn common_format(self) -> TimeFormat {
        match self.common_fields {
            Some(CommonFields { time_format: Some(time_format) }) => time_format,
            _ => TimeFormat::RelativeToEpoch,
        }
    }

    /// What times count from where an event does not say so itself.
    pub fn common_time_format(&self) -> (format: TimeFormat)
        ensures
            format == self.common_format(),
    {
        match self.common_fields {
            Some(CommonFields { time_format: Some(time_format) }) => time_format,
            _ => TimeFormat::RelativeToEpoch,
        }
    }

    /// An accumulator for the trace, shown under the given path.
    pub fn into_accumulator(
        self,
        display_path: String,
        file_size_bytes: u64,
    ) -> (accumulator: Accumulator)
        ensures
            accumulator@ == fresh(display_path@, self.title(), self.vantage(), file_size_bytes),
    {
        let vantage_point = match self.vantage_point {
            Some(vantage_point) => vantage_name(vantage_point),
            None => "unknown".to_owned(),
        };
        let title = match self.trace_title {
            Some(title) => Some(title),
            None => self.log_title,
        };
        Accumulator::new(display_path, title, vantage_point, file_size_bytes)
    }
}

impl Record {
    /// What the record's time counts from.
    pub open spec fn format(self, common: TimeFormat) -> TimeFormat {
        match self {
            Record::Qlog { time_format: Some(time_format), .. } => time_format,
            _ => common,
        }
    }

    /// All that is read from the record.
    pub open spec fn observation(self) -> Observation {
        match self {
            Record::Qlog { data, .. } => event_observation(data),
            Record::Json { name, data } => json_observation(name@, data),
        }
    }

    /// What the record's time counts from, in a trace with the given common format.
    pub fn time_format(&self, common: TimeFormat) -> (format: TimeFormat)
        ensures
            format == self.format(common),
    {
        match self {
            Record::Qlog { time_format: Some(time_format), .. } => *time_format,
            _ => common,
        }
    }
}

impl AccumulatorView {
    /// The state after a record, at the given time since the start of the trace.
    pub open spec fn recorded(self, time_ms: Double, record: Record) -> AccumulatorView {
        self.begun(time_ms).after(record.observation())
    }
}

impl Accumulator {
    /// Notes a record, at the given time, in a trace with the given common format.
    pub fn observe_record<E: Fn(Operation) -> Double>(
        &mut self,
        time_ms: Double,
        record: &Record,
        common: TimeFormat,
        evaluate: &E,
    )
        requires
            old(self)@.can_begin(),
            old(self)@.has_room_for(record.observation().fact),
            is_total(*evaluate),
        ensures
            final(self)@ == old(self)@.recorded(final(self)@.previous_event_time_ms, *record),
            forall|a: Arithmetic| #[trigger]
                follows(*evaluate, a) ==> final(self)@.previous_event_time_ms == absolute_time(
                    old(self)@.previous_event_time_ms,
                    time_ms,
                    record.format(common),
                    a,
                ),
    {
        self.begin_event(time_ms, record.time_format(common), evaluate);
        match record {
            Record::Qlog { data, .. } => {
                self.observe_event_data(data);
            },
            Record::Json { name, data } => {
                self.observe_json_event(name.as_str(), data);
            },
        }
    }
}

} // verus!
