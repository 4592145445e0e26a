//! Data types for the append-only event-stream capability.

use std::collections::HashMap;

use vstd::prelude::*;

use crate::Sample;

verus! {

/// An immutable event within a stream.
#[derive(Clone, Debug, PartialEq)]
pub struct Event {
    /// The unique ID of the event.
    pub event_id: String,
    /// The stream in which the event occurs.
    pub stream: String,
    /// The event's key-value payload.
    pub values: HashMap<String, String>,
}

/// The response from the provider after writing an event to a stream.
#[derive(Clone, Debug, PartialEq)]
pub struct WriteResponse {
    /// Unique ID of the event written.
    pub event_id: String,
}

/// A query against a given stream.
#[derive(Clone, Debug, PartialEq)]
pub struct StreamQuery {
    /// ID of the stream to query.
    pub stream_id: String,
    /// An optional time-range limiter on the results.
    pub range: Option<TimeRange>,
    /// A maximum count of results; zero asks for the maximum available.
    pub count: u64,
}

impl Sample for StreamQuery {
    /// A query for up to 42 events of `stream1` within the first thousand
    /// seconds of the epoch.
    fn sample() -> (r: Self)
        ensures
            r.stream_id@ == "stream1"@,
            r.range == Some(TimeRange { min_time: 0, max_time: 1000 }),
            r.count == 42,
    {
        StreamQuery {
            stream_id: "stream1".to_owned(),
            range: Some(TimeRange { min_time: 0, max_time: 1000 }),
            count: 42,
        }
    }
}

/// Results of a stream query.
#[derive(Clone, Debug, PartialEq)]
pub struct StreamResults {
    /// The events returned by the query.
    pub events: Vec<Event>,
}

/// A time-slice range for a stream, in seconds since the epoch.
#[derive(Clone, Copy, Debug, PartialEq, Eq, Structural)]
pub struct TimeRange {
    /// Events must have occurred after this time to be in the results.
    pub min_time: u64,
    /// Events must have occurred before this time to be in the results.
    pub max_time: u64,
}

} // verus!
