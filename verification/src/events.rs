//! The session data model: header, events, the cut specification, and
//! the load-time error taxonomy.
//!
//! Event timestamps are whole microseconds (`i64`), the fixed-point form
//! of the decimal second values written in the session file.
use vstd::prelude::*;

verus! {

/// Terminal grid dimensions in character cells, from the first line of
/// the session file.
#[derive(Clone, Copy, PartialEq, Eq, Structural, Debug)]
pub struct Header {
    pub width: usize,
    pub height: usize,
}

/// One line of the session log.
///
/// `Output` carries raw terminal bytes to replay, `Marker` a named cut
/// point, and `Unknown` any other event type, kept only for
/// forward-compatibility and never affecting rendering. Times are in
/// microseconds.
#[derive(Clone, PartialEq, Eq, Debug)]
pub enum Event {
    Output { time: i64, data: Vec<char> },
    Marker { time: i64, label: Vec<char> },
    Unknown { time: i64, tag: Vec<char> },
}

impl Event {
    /// True exactly for marker events.
    pub fn is_marker(&self) -> (r: bool)
        ensures
            r == (self is Marker),
    {
        match self {
            Self::Marker { .. } => true,
            _ => false,
        }
    }

    /// The event's timestamp in microseconds.
    pub open spec fn time(self) -> i64 {
        match self {
            Event::Output { time, .. } => time,
            Event::Marker { time, .. } => time,
            Event::Unknown { time, .. } => time,
        }
    }
}

/// The mathematical view of an event: the same variants with the
/// payload text as a character sequence.
pub enum EventV {
    Output { time: i64, data: Seq<char> },
    Marker { time: i64, label: Seq<char> },
    Unknown { time: i64, tag: Seq<char> },
}

impl EventV {
    /// The event's timestamp in microseconds.
    pub open spec fn time(self) -> i64 {
        match self {
            EventV::Output { time, .. } => time,
            EventV::Marker { time, .. } => time,
            EventV::Unknown { time, .. } => time,
        }
    }
}

impl View for Event {
    type V = EventV;

    open spec fn view(&self) -> EventV {
        match self {
            Event::Output { time, data } => EventV::Output { time: *time, data: data@ },
            Event::Marker { time, label } => EventV::Marker { time: *time, label: label@ },
            Event::Unknown { time, tag } => EventV::Unknown { time: *time, tag: tag@ },
        }
    }
}

/// An optional trim/time-shift window over marker-delimited segments.
///
/// An absent `first_marker` means "start of timeline", an absent
/// `last_marker` means "end of timeline". `start_immediately` removes
/// the idle gap between the window's marker and its first visual change.
#[derive(Clone, Copy, PartialEq, Eq, Structural, Debug)]
pub struct Cut {
    pub first_marker: Option<usize>,
    pub last_marker: Option<usize>,
    pub start_immediately: bool,
}

/// Why a load failed. A failed load aborts the whole file: there is no
/// partial recovery.
#[derive(Clone, Copy, PartialEq, Eq, Structural, Debug)]
pub enum Error {
    /// The file could not be read. Produced by the host, never by the
    /// parser itself.
    Io,
    /// A line fails structural JSON parsing, or the header line lacks
    /// usable dimensions.
    MalformedJson,
    /// The file has no header line.
    EmptyFile,
    /// An event line's first element is missing or not a number.
    InvalidEventTime,
    /// An output or marker event lacks its required string payload.
    InvalidEvent,
    /// A cut configuration string fails to parse.
    MalformedCut,
}

/// A parsed session file: the header and the ordered event sequence.
pub struct Screencast {
    pub header: Header,
    pub events: Vec<Event>,
}

} // verus!
