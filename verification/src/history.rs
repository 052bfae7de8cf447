//! Raw event history records. The summary keeps aggregated counters instead;
//! these types describe single observed events.
use vstd::prelude::*;

verus! {

/// The kinds of file events the monitor distinguishes.
#[derive(Clone, Copy, Debug, PartialEq, Eq, Structural)]
pub enum EventType {
    Add,
    Edit,
    Delete,
    Gen,
}

/// One observed change to one file, at a moment given in seconds since the
/// Unix epoch.
pub struct Event {
    pub relative_full_file_name: String,
    pub time: i64,
    pub file_size: usize,
    pub type_: EventType,
}

/// All events one scan pass observed.
pub struct Scan {
    pub time: i64,
    pub events: Vec<Event>,
}

/// An ordered record of scans.
pub struct History {
    pub scans: Vec<Scan>,
}

impl History {
    /// No event history is persisted yet, so reading always yields an empty
    /// record.
    pub fn read() -> (r: Self)
        ensures
            r.scans@.len() == 0,
    {
        History { scans: Vec::new() }
    }
}

} // verus!
