//! The text log: UTF-8, one JSON object per `\n`-terminated line. An optional
//! first line is a [`JsonLinesHeader`]; every other line holds one event. Lines
//! that are neither are skipped, so that logs written by later versions still
//! read.
//!
//! Turning the text of a line into an [`Entry`] is JSON parsing; what is done
//! here is cutting the data into lines and keeping the events of the entries.

use vstd::prelude::*;

use crate::event::{views, Event, EventView};

verus! {

/// The header line of a text log.
#[derive(Clone, Debug, PartialEq, Eq)]
pub struct JsonLinesHeader {
    pub format: String,
    pub description: Option<String>,
}

impl JsonLinesHeader {
    /// The name of the format that this library writes.
    pub open spec fn default_format() -> Seq<char> {
        seq!['o', 's', 'h', '-', 'h', 'i', 's', 't', 'o', 'r', 'y', '-', 'v', '1']
    }
}

impl Default for JsonLinesHeader {
    /// The header that this library writes at the top of a new log.
    fn default() -> (r: Self)
        ensures
            r.format@ == JsonLinesHeader::default_format(),
            r.description is None,
    {
        let format = String::from_str("osh-history-v1");
        proof {
            reveal_strlit("osh-history-v1");
        }
        JsonLinesHeader { format, description: None }
    }
}

/// One line of a text log.
#[derive(Clone, Debug, PartialEq, Eq)]
pub enum Entry {
    EventE { event: Event },
    FormatE(JsonLinesHeader),
}

impl Entry {
    /// The event of an event line; `None` for the header.
    pub fn maybe_event(self) -> (r: Option<Event>)
        ensures
            match self {
                Entry::EventE { event } => r == Some(event),
                Entry::FormatE(_) => r is None,
            },
    {
        match self {
            Entry::EventE { event } => Some(event),
            Entry::FormatE(_format) => None,
        }
    }
}

/// The lines of `data`, split at each `\n`: empty data is one empty line, and
/// a final `\n` ends with an empty line.
pub open spec fn lines(data: Seq<u8>) -> Seq<Seq<u8>>
    decreases data.len(),
{
    if data.len() == 0 {
        seq![Seq::empty()]
    } else {
        let before = lines(data.drop_last());
        if data.last() == 10u8 {
            before.push(Seq::empty())
        } else {
            before.update(before.len() - 1, before.last().push(data.last()))
        }
    }
}

proof fn lemma_lines_not_empty(data: Seq<u8>)
    ensures
        lines(data).len() >= 1,
    decreases data.len(),
{
    if data.len() > 0 {
        lemma_lines_not_empty(data.drop_last());
    }
}

/// Where each line of `data` starts and ends, as `(start, end)` byte offsets:
/// the lines are the data's slices, with no copy made.
pub fn line_bounds(data: &[u8]) -> (r: Vec<(usize, usize)>)
    ensures
        r@.len() == lines(data@).len(),
        forall|k: int|
            0 <= k < r@.len() ==> {
                &&& (#[trigger] r@[k]).0 <= r@[k].1 <= data@.len()
                &&& data@.subrange(r@[k].0 as int, r@[k].1 as int) == lines(data@)[k]
            },
{
    let mut r: Vec<(usize, usize)> = Vec::new();
    let mut start: usize = 0;
    let mut i: usize = 0;
    while i < data.len()
        invariant
            0 <= start <= i <= data@.len(),
            r@.len() + 1 == lines(data@.subrange(0, i as int)).len(),
            forall|k: int|
                0 <= k < r@.len() ==> {
                    &&& (#[trigger] r@[k]).0 <= r@[k].1 <= i
                    &&& data@.subrange(r@[k].0 as int, r@[k].1 as int) == lines(
                        data@.subrange(0, i as int),
                    )[k]
                },
            data@.subrange(start as int, i as int) == lines(data@.subrange(0, i as int)).last(),
        decreases data@.len() - i,
    {
        let ghost prefix = data@.subrange(0, i as int);
        let ghost next = data@.subrange(0, i + 1);
        proof {
            assert(next.drop_last() =~= prefix);
            assert(next.last() == data@[i as int]);
            lemma_lines_not_empty(prefix);
        }
        if data[i] == 10u8 {
            r.push((start, i));
            start = i + 1;
            proof {
                assert(data@.subrange(start as int, i + 1) =~= Seq::<u8>::empty());
            }
        } else {
            proof {
                assert(data@.subrange(start as int, i + 1) =~= data@.subrange(start as int, i as int).push(
                    data@[i as int],
                ));
            }
        }
        i = i + 1;
    }
    r.push((start, data.len()));
    proof {
        assert(data@.subrange(0, data@.len() as int) =~= data@);
    }
    r
}

/// The events among parsed lines, in order: lines that did not parse
/// (`None`) and header lines are left out.
pub open spec fn entry_events(entries: Seq<Option<Entry>>) -> Seq<EventView>
    decreases entries.len(),
{
    if entries.len() == 0 {
        Seq::empty()
    } else {
        let before = entry_events(entries.drop_last());
        match entries.last() {
            Some(Entry::EventE { event }) => before.push(event@),
            _ => before,
        }
    }
}

/// Keeps the events of the parsed lines of a text log, in order, and drops
/// the header and every line that did not parse.
pub fn load_osh_events(entries: &[Option<Entry>]) -> (r: Vec<Event>)
    ensures
        views(r@) == entry_events(entries@),
{
    let mut events: Vec<Event> = Vec::new();
    let mut i: usize = 0;
    while i < entries.len()
        invariant
            0 <= i <= entries@.len(),
            views(events@) == entry_events(entries@.subrange(0, i as int)),
        decreases entries@.len() - i,
    {
        proof {
            assert(entries@.subrange(0, i + 1).drop_last() =~= entries@.subrange(0, i as int));
        }
        match &entries[i] {
            Some(Entry::EventE { event }) => {
                events.push(event.duplicate());
                proof {
                    assert(views(events@) =~= views(events@.drop_last()).push(event@));
                }
            },
            _ => {},
        }
        i = i + 1;
    }
    proof {
        assert(entries@.subrange(0, entries@.len() as int) =~= entries@);
    }
    events
}

} // verus!
