//! Loading many logs into one stream, most recent first.
//!
//! Each log holds its events in the order they were appended, so reversed it
//! is most recent first. The reversed logs are merged with `itertools`' k-way
//! merge, by end time, and events that end at the same instant in the order
//! of the logs: the result is the reversed logs, concatenated, under a stable
//! sort by end time, most recent first. Logs that are not in order are sorted
//! that way outright.

use itertools::Itertools;
use vstd::prelude::*;

use crate::event::{is_newest_first, views, Event, EventView};
use crate::formats::rmp::{decode_log, load_osh_events, DecodeError};
use crate::sorting::sort_positions_desc;
use vstd::seq_lib::group_seq_properties;

verus! {

/// Which events a load keeps: those of one shell session, or all of them.
#[derive(Clone, Debug, PartialEq, Eq)]
pub struct EventFilter {
    pub session: Option<String>,
}

impl EventFilter {
    /// Whether the filter keeps an event.
    pub open spec fn admits(self, e: EventView) -> bool {
        match self.session {
            None => true,
            Some(s) => e.session == s@,
        }
    }

    pub fn new(session: Option<String>) -> (r: Self)
        ensures
            r.session == session,
    {
        EventFilter { session }
    }

    /// Whether the filter keeps `event`.
    pub fn admits_event(&self, event: &Event) -> (r: bool)
        ensures
            r == self.admits(event@),
    {
        match &self.session {
            None => true,
            Some(s) => event.session == *s,
        }
    }

    /// `event` if the filter keeps it.
    pub fn apply(&self, event: Event) -> (r: Option<Event>)
        ensures
            self.admits(event@) ==> r == Some(event),
            !self.admits(event@) ==> r is None,
    {
        if self.admits_event(&event) {
            Some(event)
        } else {
            None
        }
    }
}

/// The end times of a sequence of events never decrease: the order of a log.
pub open spec fn is_oldest_first(s: Seq<EventView>) -> bool {
    forall|i: int, j: int| 0 <= i < j < s.len() ==> s[i].end_time() <= s[j].end_time()
}

/// The events of a log that `filter` keeps, last appended first.
pub open spec fn newest_first(log: Seq<EventView>, filter: EventFilter) -> Seq<EventView>
    decreases log.len(),
{
    if log.len() == 0 {
        Seq::empty()
    } else {
        let rest = newest_first(log.drop_first(), filter);
        if filter.admits(log[0]) {
            rest.push(log[0])
        } else {
            rest
        }
    }
}

/// The views of the events of several logs, log by log.
pub open spec fn log_views(logs: Seq<Vec<Event>>) -> Seq<Seq<EventView>> {
    logs.map_values(|l: Vec<Event>| views(l@))
}

/// What a merge of `logs` holds: the events that `filter` keeps, of every log.
pub open spec fn kept_events(logs: Seq<Seq<EventView>>, filter: EventFilter) -> Seq<EventView> {
    logs.map_values(|l: Seq<EventView>| newest_first(l, filter)).flatten()
}

proof fn lemma_newest_first_from_log(log: Seq<EventView>, filter: EventFilter)
    ensures
        forall|x: EventView| newest_first(log, filter).contains(x) ==> log.contains(x),
        is_oldest_first(log) ==> is_newest_first(newest_first(log, filter)),
    decreases log.len(),
{
    if log.len() > 0 {
        let tail = log.drop_first();
        lemma_newest_first_from_log(tail, filter);
        let rest = newest_first(tail, filter);
        assert forall|x: EventView| newest_first(log, filter).contains(x) implies log.contains(x) by {
            if rest.contains(x) {
                assert(tail.contains(x));
                let j = choose|j: int| 0 <= j < tail.len() && tail[j] == x;
                assert(log[j + 1] == x);
            } else {
                assert(newest_first(log, filter) == rest.push(log[0]));
                let k = choose|k: int| 0 <= k < rest.len() + 1 && rest.push(log[0])[k] == x;
                assert(x == log[0]);
            }
        }
        if is_oldest_first(log) {
            assert(is_oldest_first(tail)) by {
                assert forall|i: int, j: int| 0 <= i < j < tail.len() implies tail[i].end_time()
                    <= tail[j].end_time() by {
                    assert(tail[i] == log[i + 1] && tail[j] == log[j + 1]);
                }
            }
            if filter.admits(log[0]) {
                let s = rest.push(log[0]);
                assert forall|i: int, j: int| 0 <= i < j < s.len() implies s[i].end_time()
                    >= s[j].end_time() by {
                    if j == rest.len() {
                        assert(rest[i] == s[i]);
                        assert(rest.contains(s[i]));
                        assert(tail.contains(s[i]));
                        let m = choose|m: int| 0 <= m < tail.len() && tail[m] == s[i];
                        assert(tail[m] == log[m + 1]);
                    }
                }
            }
        }
    }
}

/// The events of one log that `filter` keeps, last appended first.
pub fn log_newest_first(log: &[Event], filter: &EventFilter) -> (r: Vec<Event>)
    ensures
        views(r@) == newest_first(views(log@), *filter),
        is_oldest_first(views(log@)) ==> is_newest_first(views(r@)),
{
    let mut r: Vec<Event> = Vec::new();
    let mut i: usize = log.len();
    while i > 0
        invariant
            0 <= i <= log@.len(),
            views(r@) == newest_first(views(log@).subrange(i as int, log@.len() as int), *filter),
        decreases i,
    {
        let ghost tail = views(log@).subrange(i as int, log@.len() as int);
        i = i - 1;
        let ghost from = views(log@).subrange(i as int, log@.len() as int);
        proof {
            assert(from.drop_first() =~= tail);
            assert(from[0] == log@[i as int]@);
        }
        if filter.admits_event(&log[i]) {
            r.push(log[i].duplicate());
            proof {
                assert(views(r@) =~= views(r@.drop_last()).push(log@[i as int]@));
            }
        }
    }
    proof {
        assert(views(log@).subrange(0, log@.len() as int) =~= views(log@));
        lemma_newest_first_from_log(views(log@), *filter);
    }
    r
}

/// Whether a log is in order of end time, oldest first.
pub fn is_log_oldest_first(log: &[Event]) -> (r: bool)
    ensures
        r == is_oldest_first(views(log@)),
{
    let ghost lv = views(log@);
    let mut i: usize = 1;
    while i < log.len()
        invariant
            lv == views(log@),
            lv.len() == log@.len(),
            1 <= i,
            i <= log@.len() || log@.len() == 0,
            forall|a: int, b: int| 0 <= a < b < i && b < lv.len() ==> lv[a].end_time() <= lv[b].end_time(),
        decreases log@.len() - i,
    {
        if log[i - 1].endtime() > log[i].endtime() {
            proof {
                assert(lv[i - 1].end_time() > lv[i as int].end_time());
            }
            return false;
        }
        proof {
            assert forall|a: int, b: int| 0 <= a < b < i + 1 && b < lv.len() implies lv[a].end_time() <= lv[b].end_time() by {
                if b == i && a < i - 1 {
                    assert(lv[a].end_time() <= lv[i - 1].end_time());
                }
            }
        }
        i = i + 1;
    }
    true
}

/// Whether every log is in order of end time, oldest first.
pub fn all_oldest_first(logs: &[Vec<Event>]) -> (r: bool)
    ensures
        r == forall|k: int| 0 <= k < logs@.len() ==> is_oldest_first(#[trigger] views(logs@[k]@)),
{
    let mut f: usize = 0;
    while f < logs.len()
        invariant
            0 <= f <= logs@.len(),
            forall|k: int| 0 <= k < f ==> is_oldest_first(#[trigger] views(logs@[k]@)),
        decreases logs@.len() - f,
    {
        if !is_log_oldest_first(logs[f].as_slice()) {
            return false;
        }
        f = f + 1;
    }
    true
}

/// Position `x` of `input` goes before position `y` in a stable sort most
/// recent first: it ends later, or at the same instant and comes earlier.
pub open spec fn goes_first(input: Seq<EventView>, x: int, y: int) -> bool {
    input[x].end_time() > input[y].end_time() || (input[x].end_time() == input[y].end_time() && x < y)
}

/// `output` holds the events of `input`, each once: `p` says which event of
/// `input` stands at each place.
pub open spec fn is_arrangement(input: Seq<EventView>, output: Seq<EventView>, p: Seq<usize>) -> bool {
    &&& p.len() == input.len()
    &&& output.len() == input.len()
    &&& forall|k: int| 0 <= k < p.len() ==> #[trigger] p[k] < input.len() && output[k] == input[p[k] as int]
    &&& forall|i: usize| i < input.len() ==> #[trigger] p.contains(i)
    &&& forall|a: int, b: int| 0 <= a < b < p.len() ==> #[trigger] p[a] != #[trigger] p[b]
}

/// `output` is `input` under a stable sort, most recent first, as `p` shows.
pub open spec fn is_stable_sort_witness(input: Seq<EventView>, output: Seq<EventView>, p: Seq<usize>) -> bool {
    &&& is_arrangement(input, output, p)
    &&& forall|a: int, b: int| 0 <= a < b < p.len() ==> goes_first(input, #[trigger] p[a] as int, #[trigger] p[b] as int)
}

/// `output` is `input` sorted most recent first, events that end at the same
/// instant in their order in `input`.
pub open spec fn is_stable_sort_newest_first(input: Seq<EventView>, output: Seq<EventView>) -> bool {
    exists|p: Seq<usize>| is_stable_sort_witness(input, output, p)
}

proof fn lemma_witnesses_agree_below(input: Seq<EventView>, o1: Seq<EventView>, o2: Seq<EventView>, p1: Seq<usize>, p2: Seq<usize>, n: int)
    requires
        is_stable_sort_witness(input, o1, p1),
        is_stable_sort_witness(input, o2, p2),
        0 <= n <= p1.len(),
    ensures
        forall|j: int| 0 <= j < n ==> p1[j] == p2[j],
    decreases n,
{
    if n > 0 {
        let k = n - 1;
        lemma_witnesses_agree_below(input, o1, o2, p1, p2, k);
        let x = p1[k];
        let y = p2[k];
        assert(x < input.len() && y < input.len());
        assert(p2.contains(x));
        assert(p1.contains(y));
        let m = choose|m: int| 0 <= m < p2.len() && p2[m] == x;
        let m2 = choose|m: int| 0 <= m < p1.len() && p1[m] == y;
        if m < k {
            assert(p1[m] == p2[m]);
        }
        if m2 < k {
            assert(p1[m2] == p2[m2]);
        }
        if m > k && m2 > k {
            assert(goes_first(input, p2[k] as int, p2[m] as int));
            assert(goes_first(input, p1[k] as int, p1[m2] as int));
        }
    }
}

/// A stable sort has one outcome: a k-way merge of logs that are each in
/// order gives exactly what sorting their concatenation gives.
pub proof fn lemma_stable_sort_unique(input: Seq<EventView>, o1: Seq<EventView>, o2: Seq<EventView>)
    requires
        is_stable_sort_newest_first(input, o1),
        is_stable_sort_newest_first(input, o2),
    ensures
        o1 == o2,
{
    let p1 = choose|p: Seq<usize>| is_stable_sort_witness(input, o1, p);
    let p2 = choose|p: Seq<usize>| is_stable_sort_witness(input, o2, p);
    lemma_witnesses_agree_below(input, o1, o2, p1, p2, p1.len() as int);
    assert forall|k: int| 0 <= k < o1.len() implies o1[k] == o2[k] by {
        assert(p1[k] == p2[k]);
    }
    assert(o1 =~= o2);
}

/// Events that end at the same instant come out of a stable sort in their
/// input order: in a merge of logs, ties keep the order of the logs, then the
/// order within a log. Input event `i` stands at place `a`, input event `j`
/// at place `b`, and `a` comes first.
pub proof fn lemma_ties_keep_input_order(input: Seq<EventView>, output: Seq<EventView>, i: usize, j: usize)
    requires
        is_stable_sort_newest_first(input, output),
        i < j < input.len(),
        input[i as int].end_time() == input[j as int].end_time(),
    ensures
        exists|p: Seq<usize>, a: int, b: int|
            {
                &&& is_stable_sort_witness(input, output, p)
                &&& 0 <= a < b < output.len()
                &&& p[a] == i && p[b] == j
                &&& output[a] == input[i as int] && output[b] == input[j as int]
            },
{
    let p = choose|p: Seq<usize>| is_stable_sort_witness(input, output, p);
    assert(p.contains(i));
    assert(p.contains(j));
    let a = choose|a: int| 0 <= a < p.len() && p[a] == i;
    let b = choose|b: int| 0 <= b < p.len() && p[b] == j;
    if b < a {
        assert(goes_first(input, p[b] as int, p[a] as int));
    }
    assert(p[a] < input.len() && output[a] == input[p[a] as int]);
    assert(p[b] < input.len() && output[b] == input[p[b] as int]);
    assert(is_stable_sort_witness(input, output, p) && 0 <= a < b < output.len() && p[a] == i && p[b] == j
        && output[a] == input[i as int] && output[b] == input[j as int]);
}

/// The events most recent first, by a stable sort of their end times: the
/// way to order logs that are not each in order.
pub fn sort_newest_first(events: &[Event]) -> (r: Vec<Event>)
    ensures
        is_stable_sort_newest_first(views(events@), views(r@)),
        is_newest_first(views(r@)),
{
    let ghost ev = views(events@);
    let mut keys: Vec<i128> = Vec::new();
    let mut positions: Vec<usize> = Vec::new();
    let mut i: usize = 0;
    while i < events.len()
        invariant
            ev == views(events@),
            0 <= i <= events@.len(),
            keys@.len() == i,
            positions@.len() == i,
            forall|k: int| 0 <= k < i ==> keys@[k] == ev[k].end_time(),
            forall|k: int| 0 <= k < i ==> positions@[k] == k,
        decreases events@.len() - i,
    {
        keys.push(events[i].endtime());
        positions.push(i);
        i = i + 1;
    }
    let ghost unsorted = positions@;
    sort_positions_desc(&mut positions, keys.as_slice());
    proof {
        broadcast use group_seq_properties;
        assert(positions@.to_multiset().len() == unsorted.to_multiset().len());
        assert forall|k: int| 0 <= k < positions@.len() implies #[trigger] positions@[k] < events@.len() by {
            assert(positions@.contains(positions@[k]));
            assert(unsorted.to_multiset().count(positions@[k]) > 0);
            assert(unsorted.contains(positions@[k]));
        }
    }
    let mut r: Vec<Event> = Vec::new();
    let mut k: usize = 0;
    while k < positions.len()
        invariant
            ev == views(events@),
            positions@.len() == events@.len(),
            forall|m: int| 0 <= m < positions@.len() ==> #[trigger] positions@[m] < events@.len(),
            0 <= k <= positions@.len(),
            r@.len() == k,
            forall|m: int| 0 <= m < k ==> r@[m]@ == ev[#[trigger] positions@[m] as int],
        decreases positions@.len() - k,
    {
        proof {
            assert(positions@[k as int] < events@.len());
        }
        r.push(events[positions[k]].duplicate());
        k = k + 1;
    }
    proof {
        broadcast use group_seq_properties;
        let out = views(r@);
        let p = positions@;
        assert forall|m: int| 0 <= m < p.len() implies #[trigger] p[m] < ev.len() && out[m] == ev[p[m] as int] by {}
        assert forall|j: usize| j < ev.len() implies #[trigger] p.contains(j) by {
            assert(unsorted[j as int] == j);
            assert(unsorted.contains(j));
            assert(p.to_multiset().count(j) > 0);
        }
        assert forall|a: int, b: int| 0 <= a < b < p.len() implies goes_first(ev, #[trigger] p[a] as int, #[trigger] p[b] as int) by {
            assert(keys@[p[a] as int] == ev[p[a] as int].end_time());
            assert(keys@[p[b] as int] == ev[p[b] as int].end_time());
        }
        assert(is_stable_sort_witness(ev, out, p));
        assert forall|a: int, b: int| 0 <= a < b < out.len() implies out[a].end_time() >= out[b].end_time() by {
            assert(goes_first(ev, p[a] as int, p[b] as int));
        }
    }
    r
}

/// The views of events tagged with a position.
pub open spec fn tagged_views(s: Seq<(usize, Event)>) -> Seq<(usize, EventView)> {
    s.map_values(|t: (usize, Event)| (t.0, t.1@))
}

/// A tagged event goes before another in a merge: it ends later, or at the
/// same instant with a lower tag.
pub open spec fn merge_before(a: (usize, EventView), b: (usize, EventView)) -> bool {
    a.1.end_time() > b.1.end_time() || (a.1.end_time() == b.1.end_time() && a.0 < b.0)
}

/// No tagged event goes before one that precedes it.
pub open spec fn is_merge_ordered(s: Seq<(usize, EventView)>) -> bool {
    forall|i: int, j: int| 0 <= i < j < s.len() ==> !merge_before(#[trigger] s[j], #[trigger] s[i])
}

fn goes_before(a: &(usize, Event), b: &(usize, Event)) -> (r: bool)
    ensures
        r == merge_before((a.0, a.1@), (b.0, b.1@)),
{
    let ea = a.1.endtime();
    let eb = b.1.endtime();
    ea > eb || (ea == eb && a.0 < b.0)
}

/// Relies on `itertools::kmerge_by`: every item of every input comes out
/// once, and when each input is sorted by the predicate (here: a later end
/// time, then a lower tag, first) so is the output.
#[verifier::external_body]
fn kmerge_tagged(logs: Vec<Vec<(usize, Event)>>) -> (r: Vec<(usize, Event)>)
    ensures
        tagged_views(r@).to_multiset() == logs@.map_values(|l: Vec<(usize, Event)>| tagged_views(l@)).flatten().to_multiset(),
        (forall|k: int| 0 <= k < logs@.len() ==> is_merge_ordered(#[trigger] tagged_views(logs@[k]@)))
            ==> is_merge_ordered(tagged_views(r@)),
{
    itertools::kmerge_by(logs, |a: &(usize, Event), b: &(usize, Event)| goes_before(a, b)).collect()
}

proof fn lemma_count_two_places<A>(s: Seq<A>, a: int, b: int)
    requires
        0 <= a < b < s.len(),
        s[a] == s[b],
    ensures
        s.to_multiset().count(s[a]) >= 2,
{
    broadcast use group_seq_properties;
    let t = s.remove(b);
    assert(t[a] == s[a]);
    assert(t.contains(s[a]));
    assert(t.to_multiset() =~= s.to_multiset().remove(s[b]));
    assert(t.to_multiset().count(s[a]) > 0);
}

/// Merges several logs, each in the order it was appended, into one stream of
/// the events that `filter` keeps: each log reversed, merged by end time,
/// equal end times in the order of the logs. Every kept event comes out
/// once; when every log is in order of end time, the stream is their
/// reversed concatenation under a stable sort, most recent first.
pub fn merge_logs(logs: &[Vec<Event>], filter: &EventFilter) -> (r: Vec<Event>)
    ensures
        exists|p: Seq<usize>| is_arrangement(kept_events(log_views(logs@), *filter), views(r@), p),
        (forall|k: int| 0 <= k < logs@.len() ==> is_oldest_first(#[trigger] views(logs@[k]@)))
            ==> is_stable_sort_newest_first(kept_events(log_views(logs@), *filter), views(r@)),
{
    let ghost lv = log_views(logs@);
    let ghost per = lv.map_values(|l: Seq<EventView>| newest_first(l, *filter));
    let mut all: Vec<Event> = Vec::new();
    let mut tagged: Vec<Vec<(usize, Event)>> = Vec::new();
    let ghost mut flat: Seq<(usize, EventView)> = Seq::empty();
    let mut i: usize = 0;
    while i < logs.len()
        invariant
            lv == log_views(logs@),
            per == lv.map_values(|l: Seq<EventView>| newest_first(l, *filter)),
            0 <= i <= logs@.len(),
            views(all@) == per.take(i as int).flatten(),
            tagged@.len() == i,
            flat == tagged@.map_values(|l: Vec<(usize, Event)>| tagged_views(l@)).flatten(),
            flat.len() == all@.len(),
            forall|q: int| 0 <= q < flat.len() ==> #[trigger] flat[q] == (q as usize, views(all@)[q]),
            forall|k: int|
                0 <= k < i ==> is_oldest_first(views(logs@[k]@)) ==> is_merge_ordered(
                    #[trigger] tagged_views(tagged@[k]@),
                ),
        decreases logs@.len() - i,
    {
        let part = log_newest_first(logs[i].as_slice(), filter);
        let ghost pv = views(part@);
        let ghost before = views(all@);
        let start = all.len();
        let mut part_mut = part;
        all.append(&mut part_mut);
        proof {
            assert(views(all@) =~= before + pv);
            assert(per.take(i + 1) =~= per.take(i as int).push(per[i as int]));
            per.take(i as int).lemma_flatten_push(per[i as int]);
        }
        let mut t: Vec<(usize, Event)> = Vec::new();
        let mut j: usize = start;
        while j < all.len()
            invariant
                start <= j <= all@.len(),
                t@.len() == j - start,
                forall|q: int| 0 <= q < t@.len() ==> #[trigger] tagged_views(t@)[q] == ((start + q) as usize, views(all@)[start + q]),
            decreases all@.len() - j,
        {
            let ghost old_t = tagged_views(t@);
            t.push((j, all[j].duplicate()));
            proof {
                assert(tagged_views(t@) =~= old_t.push((j, views(all@)[j as int])));
            }
            j = j + 1;
        }
        let ghost tv = tagged_views(t@);
        proof {
            if is_oldest_first(views(logs@[i as int]@)) {
                assert(is_newest_first(pv));
                assert forall|a: int, b: int| 0 <= a < b < tv.len() implies !merge_before(#[trigger] tv[b], #[trigger] tv[a]) by {
                    assert(tv[a].1 == pv[a] && tv[b].1 == pv[b]);
                }
            }
        }
        let ghost old_tagged = tagged@;
        tagged.push(t);
        proof {
            let f = |l: Vec<(usize, Event)>| tagged_views(l@);
            assert(tagged@.map_values(f) =~= old_tagged.map_values(f).push(tv));
            old_tagged.map_values(f).lemma_flatten_push(tv);
            let new_flat = flat + tv;
            assert forall|q: int| 0 <= q < new_flat.len() implies #[trigger] new_flat[q] == (q as usize, views(all@)[q]) by {
                if q >= flat.len() {
                    assert(new_flat[q] == tv[q - start]);
                }
            }
            flat = new_flat;
        }
        i = i + 1;
    }
    proof {
        assert(per.take(logs@.len() as int) =~= per);
        assert(views(all@) == kept_events(log_views(logs@), *filter));
    }
    let ghost input = views(all@);
    let ghost ordered = forall|k: int| 0 <= k < logs@.len() ==> is_oldest_first(#[trigger] views(logs@[k]@));
    let merged = kmerge_tagged(tagged);
    let ghost mv = tagged_views(merged@);
    let mut r: Vec<Event> = Vec::new();
    let mut k: usize = 0;
    while k < merged.len()
        invariant
            mv == tagged_views(merged@),
            0 <= k <= merged@.len(),
            r@.len() == k,
            forall|m: int| 0 <= m < k ==> r@[m]@ == (#[trigger] mv[m]).1,
        decreases merged@.len() - k,
    {
        r.push(merged[k].1.duplicate());
        k = k + 1;
    }
    proof {
        broadcast use group_seq_properties;
        let out = views(r@);
        let p = mv.map_values(|t: (usize, EventView)| t.0);
        assert(flat.no_duplicates()) by {
            assert forall|a: int, b: int| 0 <= a < flat.len() && 0 <= b < flat.len() && a != b implies flat[a] != flat[b] by {
                assert(flat[a].0 == a as usize && flat[b].0 == b as usize);
            }
        }
        flat.lemma_multiset_has_no_duplicates();
        assert(mv.len() == mv.to_multiset().len());
        assert(flat.len() == flat.to_multiset().len());
        assert forall|m: int| 0 <= m < mv.len() implies flat.contains(#[trigger] mv[m]) by {
            assert(mv.contains(mv[m]));
            assert(mv.to_multiset().count(mv[m]) > 0);
        }
        assert forall|m: int| 0 <= m < p.len() implies #[trigger] p[m] < input.len() && out[m] == input[p[m] as int] by {
            assert(flat.contains(mv[m]));
            let q = choose|q: int| 0 <= q < flat.len() && flat[q] == mv[m];
            assert(flat[q] == (q as usize, input[q]));
        }
        assert forall|x: usize| x < input.len() implies #[trigger] p.contains(x) by {
            assert(flat[x as int] == (x, input[x as int]));
            assert(flat.contains(flat[x as int]));
            assert(flat.to_multiset().count(flat[x as int]) > 0);
            assert(mv.contains(flat[x as int]));
            let m = choose|m: int| 0 <= m < mv.len() && mv[m] == flat[x as int];
            assert(p[m] == x);
        }
        assert forall|a: int, b: int| 0 <= a < b < p.len() implies #[trigger] p[a] != #[trigger] p[b] by {
            if p[a] == p[b] {
                assert(mv[a].1 == input[p[a] as int]);
                assert(mv[b].1 == input[p[b] as int]);
                assert(mv[a] == mv[b]);
                lemma_count_two_places(mv, a, b);
                assert(flat.contains(mv[a]));
                assert(flat.to_multiset().count(mv[a]) == 1);
            }
        }
        assert(is_arrangement(input, out, p));
        if ordered {
            assert forall|kk: int| 0 <= kk < tagged@.len() implies is_merge_ordered(#[trigger] tagged_views(tagged@[kk]@)) by {}
            assert forall|a: int, b: int| 0 <= a < b < p.len() implies goes_first(input, #[trigger] p[a] as int, #[trigger] p[b] as int) by {
                assert(!merge_before(mv[b], mv[a]));
                assert(mv[a].1 == input[p[a] as int]);
                assert(mv[b].1 == input[p[b] as int]);
            }
            assert(is_stable_sort_witness(input, out, p));
        }
    }
    r
}

/// Loads several logs into one stream, most recent first, equal end times in
/// the order of the logs, whatever order the logs are in: by a k-way merge
/// when every log is in order, by a full stable sort when one is not. Both
/// give the same stream.
pub fn merge_or_sort(logs: &[Vec<Event>], filter: &EventFilter) -> (r: Vec<Event>)
    ensures
        is_stable_sort_newest_first(kept_events(log_views(logs@), *filter), views(r@)),
{
    if all_oldest_first(logs) {
        merge_logs(logs, filter)
    } else {
        let ghost lv = log_views(logs@);
        let ghost per = lv.map_values(|l: Seq<EventView>| newest_first(l, *filter));
        let mut all: Vec<Event> = Vec::new();
        let mut i: usize = 0;
        while i < logs.len()
            invariant
                lv == log_views(logs@),
                per == lv.map_values(|l: Seq<EventView>| newest_first(l, *filter)),
                0 <= i <= logs@.len(),
                views(all@) == per.take(i as int).flatten(),
            decreases logs@.len() - i,
        {
            let part = log_newest_first(logs[i].as_slice(), filter);
            let ghost before = views(all@);
            let mut part_mut = part;
            let ghost pv = views(part_mut@);
            all.append(&mut part_mut);
            proof {
                assert(views(all@) =~= before + pv);
                assert(per.take(i + 1) =~= per.take(i as int).push(per[i as int]));
                per.take(i as int).lemma_flatten_push(per[i as int]);
            }
            i = i + 1;
        }
        proof {
            assert(per.take(logs@.len() as int) =~= per);
        }
        sort_newest_first(all.as_slice())
    }
}

/// Reads several binary logs and merges them as [`merge_or_sort`] does. One
/// log that does not read fails the whole load with its error.
pub fn load_binary_logs(datas: &[Vec<u8>], filter: &EventFilter) -> (r: Result<Vec<Event>, DecodeError>)
    ensures
        match r {
            Ok(events) => exists|logs: Seq<Seq<EventView>>|
                {
                    &&& logs.len() == datas@.len()
                    &&& forall|k: int| 0 <= k < datas@.len() ==> decode_log(#[trigger] datas@[k]@) == Ok::<Seq<EventView>, DecodeError>(logs[k])
                    &&& is_stable_sort_newest_first(kept_events(logs, *filter), views(events@))
                },
            Err(err) => exists|k: int| 0 <= k < datas@.len() && decode_log(#[trigger] datas@[k]@) == Err::<Seq<EventView>, DecodeError>(err),
        },
        r is Ok <==> forall|k: int| 0 <= k < datas@.len() ==> (#[trigger] decode_log(datas@[k]@)) is Ok,
{
    let mut logs: Vec<Vec<Event>> = Vec::new();
    let mut i: usize = 0;
    while i < datas.len()
        invariant
            0 <= i <= datas@.len(),
            logs@.len() == i,
            forall|k: int| 0 <= k < i ==> decode_log(#[trigger] datas@[k]@) == Ok::<Seq<EventView>, DecodeError>(views(logs@[k]@)),
        decreases datas@.len() - i,
    {
        match load_osh_events(datas[i].as_slice()) {
            Ok(events) => {
                logs.push(events);
            },
            Err(err) => {
                return Err(err);
            },
        }
        i = i + 1;
    }
    let merged = merge_or_sort(logs.as_slice(), filter);
    proof {
        assert(log_views(logs@).len() == datas@.len());
        assert forall|k: int| 0 <= k < datas@.len() implies decode_log(#[trigger] datas@[k]@) == Ok::<Seq<EventView>, DecodeError>(log_views(logs@)[k]) by {}
    }
    Ok(merged)
}

/// The first event of each command text, in order: later events with a
/// command that came before are left out.
pub open spec fn first_of_each_command(s: Seq<EventView>) -> Seq<EventView>
    decreases s.len(),
{
    if s.len() == 0 {
        Seq::empty()
    } else {
        let before = first_of_each_command(s.drop_last());
        if exists|j: int| 0 <= j < s.len() - 1 && #[trigger] s[j].command == s.last().command {
            before
        } else {
            before.push(s.last())
        }
    }
}

/// Relies on `itertools::Itertools::unique_by`: an item is kept only when
/// its key has not come before; the key here is the command text, compared
/// as strings.
#[verifier::external_body]
fn unique_by_command(events: Vec<Event>) -> (r: Vec<Event>)
    ensures
        views(r@) == first_of_each_command(views(events@)),
{
    events.into_iter().unique_by(|e| e.command.clone()).collect()
}

/// The whole history of several logs, most recent first (see
/// [`merge_or_sort`]); with `unique`, each command text only at its most
/// recent event.
pub fn merged_history(logs: &[Vec<Event>], filter: &EventFilter, unique: bool) -> (r: Vec<Event>)
    ensures
        exists|sorted: Seq<EventView>|
            {
                &&& is_stable_sort_newest_first(kept_events(log_views(logs@), *filter), sorted)
                &&& views(r@) == if unique {
                    first_of_each_command(sorted)
                } else {
                    sorted
                }
            },
{
    let merged = merge_or_sort(logs, filter);
    let ghost sorted = views(merged@);
    if unique {
        unique_by_command(merged)
    } else {
        merged
    }
}

} // verus!
