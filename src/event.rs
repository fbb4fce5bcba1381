//! The record of one executed command, and the order of records by end time.

use vstd::prelude::*;

verus! {

/// One executed shell command.
///
/// Times are integers: `timestamp` is the start of the command in
/// milliseconds since the Unix epoch (UTC) and `duration` its run time in
/// milliseconds, so both encodings keep them exactly.
#[derive(Clone, Debug, PartialEq, Eq)]
pub struct Event {
    /// start time, milliseconds since the epoch
    pub timestamp: i64,
    pub command: String,
    /// run time in milliseconds; not checked to be non-negative
    pub duration: i64,
    pub exit_code: i16,
    pub folder: String,
    pub machine: String,
    pub session: String,
}

/// What an [`Event`] holds, with its texts as character sequences.
pub struct EventView {
    pub timestamp: i64,
    pub command: Seq<char>,
    pub duration: i64,
    pub exit_code: i16,
    pub folder: Seq<char>,
    pub machine: Seq<char>,
    pub session: Seq<char>,
}

impl EventView {
    /// The instant at which the command finished, in milliseconds.
    pub open spec fn end_time(self) -> int {
        self.timestamp + self.duration
    }
}

impl View for Event {
    type V = EventView;

    open spec fn view(&self) -> EventView {
        EventView {
            timestamp: self.timestamp,
            command: self.command@,
            duration: self.duration,
            exit_code: self.exit_code,
            folder: self.folder@,
            machine: self.machine@,
            session: self.session@,
        }
    }
}

/// The end times of a sequence of events never increase: most recent first.
pub open spec fn is_newest_first(s: Seq<EventView>) -> bool {
    forall|i: int, j: int| 0 <= i < j < s.len() ==> s[i].end_time() >= s[j].end_time()
}

/// The views of a sequence of events.
pub open spec fn views(s: Seq<Event>) -> Seq<EventView> {
    s.map_values(|e: Event| e@)
}

impl Event {
    /// The instant at which the command finished, in milliseconds since the
    /// epoch. It is computed in 128 bits, so no start time and duration
    /// overflow.
    pub fn endtime(&self) -> (r: i128)
        ensures
            r == self@.end_time(),
    {
        self.timestamp as i128 + self.duration as i128
    }

    /// Whether this event finished strictly later than `other`: the order in
    /// which a merged stream hands events out.
    pub fn ends_after(&self, other: &Event) -> (r: bool)
        ensures
            r == (self@.end_time() > other@.end_time()),
    {
        self.endtime() > other.endtime()
    }

    /// A copy of the event.
    pub fn duplicate(&self) -> (r: Event)
        ensures
            r@ == self@,
    {
        Event {
            timestamp: self.timestamp,
            command: self.command.clone(),
            duration: self.duration,
            exit_code: self.exit_code,
            folder: self.folder.clone(),
            machine: self.machine.clone(),
            session: self.session.clone(),
        }
    }
}

} // verus!
