//! One record of the log.

use vstd::prelude::*;

verus! {

/// A record of the log: when it was taken, and what was logged. The payload
/// is carried as it is and never looked into.
#[derive(Debug, PartialEq, Eq)]
pub struct LogEntry {
    pub timestamp: u64,
    pub payload: String,
}

/// What an entry holds, as plain values.
pub struct EntryView {
    pub timestamp: u64,
    pub payload: Seq<char>,
}

impl View for LogEntry {
    type V = EntryView;

    open spec fn view(&self) -> EntryView {
        EntryView { timestamp: self.timestamp, payload: self.payload@ }
    }
}

impl Clone for LogEntry {
    fn clone(&self) -> (r: Self)
        ensures
            r@ == self@,
    {
        LogEntry { timestamp: self.timestamp, payload: self.payload.clone() }
    }
}

impl LogEntry {
    pub fn new(timestamp: u64, payload: &str) -> (r: Self)
        ensures
            r@ == (EntryView { timestamp, payload: payload@ }),
    {
        LogEntry { timestamp, payload: payload.to_owned() }
    }
}

/// What a run of entries holds, entry by entry.
pub open spec fn views(entries: Seq<LogEntry>) -> Seq<EntryView> {
    Seq::new(entries.len(), |i: int| entries[i]@)
}

} // verus!
