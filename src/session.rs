//! The state of one interactive search, and what each key does to it.
//!
//! The terminal, the clock and the background loader stay outside: the
//! caller reads a key and hands it to [`App::handle_key`], drains newly
//! loaded events into [`App::collect_new_events`], and draws the state.

use vstd::prelude::*;

use crate::event::{views, Event, EventView};
use crate::fuzzy::{skim_match, MAX_SCORED_LINE};
use crate::index::{is_ranking, lemma_ranking_is_unique, Filter, FilterSet, LiveIndex, SessionContext};

verus! {

/// Relies on `String`'s `FromIterator<&char>`: the string of those
/// characters, in order.
#[verifier::external_body]
fn string_of(chars: &[char]) -> (r: String)
    ensures
        r@ == chars@,
{
    chars.iter().collect()
}

/// A key press, as far as the search reacts to it.
#[derive(Clone, Copy, Debug, PartialEq, Eq)]
pub enum Key {
    Enter,
    Char(char),
    Backspace,
    Left,
    Right,
    Up,
    Down,
    Esc,
    Toggle(Filter),
    Other,
}

/// Where a key leaves the search.
#[derive(Clone, Debug, PartialEq, Eq)]
pub enum Outcome {
    /// The search goes on.
    Continue,
    /// The user picked this event; the search is over.
    Accepted(Event),
    /// The user left without a pick; the search is over.
    Cancelled,
}

/// The state of a search: the query being typed, the cursor in it, the pool
/// of events loaded so far, the filters, the ranked index and the selected
/// row.
pub struct App {
    input: Vec<char>,
    character_index: usize,
    events: Vec<Event>,
    filters: FilterSet,
    context: SessionContext,
    index: LiveIndex,
    selected_index: usize,
}

impl App {
    pub closed spec fn input(&self) -> Seq<char> {
        self.input@
    }

    /// The cursor, as a count of characters before it.
    pub closed spec fn cursor(&self) -> int {
        self.character_index as int
    }

    /// The pool, in the order the events arrived.
    pub closed spec fn pool(&self) -> Seq<EventView> {
        views(self.events@)
    }

    pub closed spec fn filters(&self) -> FilterSet {
        self.filters
    }

    pub closed spec fn context(&self) -> SessionContext {
        self.context
    }

    /// The pool positions of the shown events, best first.
    pub closed spec fn shown(&self) -> Seq<usize> {
        self.index.ranks()
    }

    /// The selected row, counted from the best match.
    pub closed spec fn selected(&self) -> int {
        self.selected_index as int
    }

    /// The state holds together: the cursor is within the query, the index is
    /// the one that the pool, the query and the filters give, and the
    /// selection is on a shown row, or 0.
    pub closed spec fn wf(&self) -> bool {
        &&& self.character_index <= self.input@.len()
        &&& self.index.query() == self.input@
        &&& self.index.is_index_of(views(self.events@), self.filters, self.context)
        &&& (self.selected_index == 0 || self.selected_index < self.index.ranks().len())
    }

    /// Every shown row is an event of the pool.
    pub open spec fn shown_in_pool(&self) -> bool {
        forall|k: int| 0 <= k < self.shown().len() ==> #[trigger] self.shown()[k] < self.pool().len()
    }

    proof fn lemma_shown_in_pool(&self)
        requires
            self.wf(),
        ensures
            self.shown_in_pool(),
    {
        assert forall|k: int| 0 <= k < self.shown().len() implies #[trigger] self.shown()[k] < self.pool().len() by {
            assert(crate::index::is_shown(
                views(self.events@),
                self.index.query(),
                self.filters,
                self.context,
                self.index.ranks()[k] as int,
            ));
        }
    }

    /// The shown rows are the ranking of the pool for the query, the filters
    /// and the session; the selection is on a shown row, or 0; the cursor is
    /// within the query.
    pub open spec fn consistent(&self) -> bool {
        &&& is_ranking(self.pool(), self.input(), self.filters(), self.context(), self.shown())
        &&& (self.selected() == 0 || self.selected() < self.shown().len())
        &&& 0 <= self.cursor() <= self.input().len()
    }

    proof fn lemma_consistent(&self)
        requires
            self.wf(),
        ensures
            self.consistent(),
    {
    }

    /// Where moving the selection up leads: one row further, but never past
    /// the last shown row.
    pub open spec fn selection_up(&self) -> int {
        if self.selected() + 1 < self.shown().len() {
            self.selected() + 1
        } else {
            self.selected()
        }
    }

    /// Where moving the selection down leads: one row nearer the best match.
    pub open spec fn selection_down(&self) -> int {
        if self.selected() > 0 {
            self.selected() - 1
        } else {
            0
        }
    }

    /// Where moving the cursor left leads.
    pub open spec fn cursor_left(&self) -> int {
        if self.cursor() > 0 {
            self.cursor() - 1
        } else {
            0
        }
    }

    /// Where moving the cursor right leads.
    pub open spec fn cursor_right(&self) -> int {
        if self.cursor() < self.input().len() {
            self.cursor() + 1
        } else {
            self.cursor()
        }
    }

    /// A search with an empty query and an empty pool.
    pub fn new(context: SessionContext, filters: FilterSet) -> (r: Self)
        ensures
            r.wf(),
            r.input().len() == 0,
            r.cursor() == 0,
            r.pool().len() == 0,
            r.filters() == filters,
            r.context() == context,
            r.selected() == 0,
            r.consistent(),
    {
        let events: Vec<Event> = Vec::new();
        let input: Vec<char> = Vec::new();
        let query = string_of(input.as_slice());
        let index = LiveIndex::rebuild(events.as_slice(), query.as_str(), &filters, &context);
        let r = App { input, character_index: 0, events, filters, context, index, selected_index: 0 };
        proof {
            r.lemma_consistent();
        }
        r
    }

    /// Ranks the pool anew for the current query and filters, and selects the
    /// best match.
    pub fn run_matcher(&mut self)
        requires
            old(self).wf(),
        ensures
            final(self).wf(),
            final(self).consistent(),
            final(self).input() == old(self).input(),
            final(self).cursor() == old(self).cursor(),
            final(self).pool() == old(self).pool(),
            final(self).filters() == old(self).filters(),
            final(self).context() == old(self).context(),
            final(self).selected() == 0,
    {
        self.rerank();
    }

    /// Builds the index anew from the pool, the query and the filters.
    fn rerank(&mut self)
        requires
            old(self).cursor() <= old(self).input().len(),
        ensures
            final(self).wf(),
            final(self).consistent(),
            final(self).input() == old(self).input(),
            final(self).cursor() == old(self).cursor(),
            final(self).pool() == old(self).pool(),
            final(self).filters() == old(self).filters(),
            final(self).context() == old(self).context(),
            final(self).selected() == 0,
    {
        let query = string_of(self.input.as_slice());
        self.index = LiveIndex::rebuild(self.events.as_slice(), query.as_str(), &self.filters, &self.context);
        self.selected_index = 0;
        proof {
            self.lemma_consistent();
        }
    }

    fn clamp_cursor(&self, new_cursor_pos: usize) -> (r: usize)
        ensures
            r == if new_cursor_pos <= self.input@.len() { new_cursor_pos as int } else { self.input@.len() as int },
    {
        if new_cursor_pos <= self.input.len() {
            new_cursor_pos
        } else {
            self.input.len()
        }
    }

    /// Moves the cursor one character left, if it is not at the start.
    pub fn move_cursor_left(&mut self)
        requires
            old(self).wf(),
        ensures
            final(self).wf(),
            final(self).consistent(),
            final(self).context() == old(self).context(),
            final(self).filters() == old(self).filters(),
            final(self).cursor() == old(self).cursor_left(),
            final(self).input() == old(self).input(),
            final(self).pool() == old(self).pool(),
            final(self).shown() == old(self).shown(),
            final(self).selected() == old(self).selected(),
    {
        let moved = if self.character_index > 0 { self.character_index - 1 } else { 0 };
        self.character_index = self.clamp_cursor(moved);
        proof {
            self.lemma_consistent();
        }
    }

    /// Moves the cursor one character right, if it is not at the end.
    pub fn move_cursor_right(&mut self)
        requires
            old(self).wf(),
        ensures
            final(self).wf(),
            final(self).consistent(),
            final(self).context() == old(self).context(),
            final(self).filters() == old(self).filters(),
            final(self).cursor() == old(self).cursor_right(),
            final(self).input() == old(self).input(),
            final(self).pool() == old(self).pool(),
            final(self).shown() == old(self).shown(),
            final(self).selected() == old(self).selected(),
    {
        let len = self.input.len();
        let moved = if self.character_index < len { self.character_index + 1 } else { self.character_index };
        self.character_index = self.clamp_cursor(moved);
        proof {
            self.lemma_consistent();
        }
    }

    /// Inserts `c` at the cursor, moves the cursor past it, and ranks anew.
    pub fn enter_char(&mut self, c: char)
        requires
            old(self).wf(),
        ensures
            final(self).wf(),
            final(self).consistent(),
            final(self).context() == old(self).context(),
            final(self).filters() == old(self).filters(),
            final(self).input() == old(self).input().insert(old(self).cursor(), c),
            final(self).cursor() == old(self).cursor() + 1,
            final(self).pool() == old(self).pool(),
            final(self).selected() == 0,
    {
        self.input.insert(self.character_index, c);
        if self.character_index < self.input.len() {
            self.character_index = self.character_index + 1;
        }
        self.rerank();
    }

    /// Deletes the character before the cursor, if any, and ranks anew.
    pub fn delete_char(&mut self)
        requires
            old(self).wf(),
        ensures
            final(self).wf(),
            final(self).consistent(),
            final(self).context() == old(self).context(),
            final(self).filters() == old(self).filters(),
            old(self).cursor() > 0 ==> final(self).input() == old(self).input().remove(old(self).cursor() - 1)
                && final(self).cursor() == old(self).cursor() - 1,
            old(self).cursor() == 0 ==> final(self).input() == old(self).input() && final(self).cursor() == 0,
            final(self).pool() == old(self).pool(),
            final(self).selected() == 0,
    {
        if self.character_index != 0 {
            let current = self.character_index;
            self.input.remove(current - 1);
            self.character_index = current - 1;
        }
        self.rerank();
    }

    /// Moves the selection one row up, towards worse matches, but never past
    /// the last shown row.
    pub fn move_selection_up(&mut self)
        requires
            old(self).wf(),
        ensures
            final(self).wf(),
            final(self).consistent(),
            final(self).context() == old(self).context(),
            final(self).filters() == old(self).filters(),
            final(self).selected() == old(self).selection_up(),
            final(self).input() == old(self).input(),
            final(self).cursor() == old(self).cursor(),
            final(self).pool() == old(self).pool(),
            final(self).shown() == old(self).shown(),
    {
        let shown = self.index.len();
        if self.selected_index < shown && self.selected_index + 1 < shown {
            self.selected_index = self.selected_index + 1;
        }
        proof {
            self.lemma_consistent();
        }
    }

    /// Moves the selection one row down, towards the best match.
    pub fn move_selection_down(&mut self)
        requires
            old(self).wf(),
        ensures
            final(self).wf(),
            final(self).consistent(),
            final(self).context() == old(self).context(),
            final(self).filters() == old(self).filters(),
            final(self).selected() == old(self).selection_down(),
            final(self).input() == old(self).input(),
            final(self).cursor() == old(self).cursor(),
            final(self).pool() == old(self).pool(),
            final(self).shown() == old(self).shown(),
    {
        if self.selected_index > 0 {
            self.selected_index = self.selected_index - 1;
        }
        proof {
            self.lemma_consistent();
        }
    }

    /// Switches filter `f` on or off, and ranks anew.
    pub fn toggle_filter(&mut self, f: Filter)
        requires
            old(self).wf(),
        ensures
            final(self).wf(),
            final(self).consistent(),
            final(self).context() == old(self).context(),
            final(self).filters().has(f) == !old(self).filters().has(f),
            forall|g: Filter| g != f ==> #[trigger] final(self).filters().has(g) == old(self).filters().has(g),
            final(self).input() == old(self).input(),
            final(self).pool() == old(self).pool(),
            final(self).selected() == 0,
    {
        self.filters.toggle(f);
        self.rerank();
    }

    /// Adds newly loaded events at the end of the pool; if the pool grew, the
    /// index is built anew.
    pub fn collect_new_events(&mut self, new_events: Vec<Event>)
        requires
            old(self).wf(),
        ensures
            final(self).wf(),
            final(self).consistent(),
            final(self).context() == old(self).context(),
            final(self).filters() == old(self).filters(),
            final(self).pool() == old(self).pool() + views(new_events@),
            final(self).input() == old(self).input(),
            final(self).cursor() == old(self).cursor(),
            new_events@.len() == 0 ==> final(self).shown() == old(self).shown() && final(self).selected()
                == old(self).selected(),
    {
        let mut new_events = new_events;
        let ghost before = self.events@;
        let ghost added = new_events@;
        if new_events.len() > 0 {
            self.events.append(&mut new_events);
            proof {
                assert(views(self.events@) =~= views(before) + views(added));
            }
            self.rerank();
        } else {
            proof {
                assert(views(self.events@) =~= views(before) + views(added));
            }
        }
        proof {
            self.lemma_consistent();
        }
    }

    /// How many events are shown.
    pub fn visible_count(&self) -> (r: usize)
        ensures
            r == self.shown().len(),
    {
        self.index.len()
    }

    /// How many events the pool holds.
    pub fn pool_len(&self) -> (r: usize)
        ensures
            r == self.pool().len(),
    {
        self.events.len()
    }

    /// The row that is selected.
    pub fn selected_index(&self) -> (r: usize)
        ensures
            r == self.selected(),
    {
        self.selected_index
    }

    /// The cursor, as a count of characters before it.
    pub fn character_index(&self) -> (r: usize)
        ensures
            r == self.cursor(),
    {
        self.character_index
    }

    /// The query as typed.
    pub fn query(&self) -> (r: String)
        ensures
            r@ == self.input(),
    {
        string_of(self.input.as_slice())
    }

    /// The event at `position` of the pool.
    pub fn event(&self, position: usize) -> (r: Option<&Event>)
        ensures
            position < self.pool().len() ==> r.is_some() && r.unwrap()@ == self.pool()[position as int],
            position >= self.pool().len() ==> r is None,
    {
        if position < self.events.len() {
            Some(&self.events[position])
        } else {
            None
        }
    }

    /// The pool positions of the first `n` shown events, best first.
    pub fn first_shown(&self, n: usize) -> (r: Vec<usize>)
        ensures
            r@ == self.shown().take(if n < self.shown().len() { n as int } else { self.shown().len() as int }),
    {
        self.index.first(n)
    }

    /// The character positions of the command at `rank` that the query
    /// matched; none where `rank` is not shown.
    pub fn matched_positions(&self, rank: usize) -> (r: Vec<usize>)
        requires
            self.wf(),
        ensures
            rank >= self.shown().len() ==> r@.len() == 0,
            rank < self.shown().len() && self.pool()[self.shown()[rank as int] as int].command.len() > MAX_SCORED_LINE
                ==> r@.len() == 0,
            rank < self.shown().len() && self.pool()[self.shown()[rank as int] as int].command.len() <= MAX_SCORED_LINE
                ==> r@ == match skim_match(self.pool()[self.shown()[rank as int] as int].command, self.input()) {
                Some(p) => p.1,
                None => Seq::empty(),
            },
    {
        proof {
            self.lemma_shown_in_pool();
        }
        if rank < self.index.len() {
            self.index.matched_positions(self.events.as_slice(), rank)
        } else {
            Vec::new()
        }
    }

    /// The event on the selected row, if any row is shown.
    pub fn selected_event(&self) -> (r: Option<Event>)
        requires
            self.wf(),
        ensures
            self.shown().len() == 0 ==> r is None,
            self.shown().len() > 0 ==> r.is_some() && r.unwrap()@ == self.pool()[self.shown()[self.selected()] as int],
    {
        proof {
            self.lemma_shown_in_pool();
        }
        match self.index.pool_index(self.selected_index) {
            Some(position) => Some(self.events[position].duplicate()),
            None => None,
        }
    }

    /// What a key does: Enter accepts the selected event (or cancels when
    /// nothing is shown), Esc cancels, and every other key edits the query,
    /// moves the cursor or the selection, or switches a filter.
    pub fn handle_key(&mut self, key: Key) -> (r: Outcome)
        requires
            old(self).wf(),
        ensures
            final(self).wf(),
            final(self).consistent(),
            final(self).pool() == old(self).pool(),
            final(self).context() == old(self).context(),
            key == Key::Esc ==> r == Outcome::Cancelled,
            key == Key::Enter && old(self).shown().len() == 0 ==> r == Outcome::Cancelled,
            key == Key::Enter && old(self).shown().len() > 0 ==> (r matches Outcome::Accepted(e) && e@
                == old(self).pool()[old(self).shown()[old(self).selected()] as int]),
            key != Key::Esc && key != Key::Enter ==> r == Outcome::Continue,
            key matches Key::Char(c) ==> final(self).input() == old(self).input().insert(old(self).cursor(), c)
                && final(self).cursor() == old(self).cursor() + 1 && final(self).selected() == 0,
            key == Key::Backspace && old(self).cursor() > 0 ==> final(self).input() == old(self).input().remove(
                old(self).cursor() - 1,
            ) && final(self).cursor() == old(self).cursor() - 1,
            key == Key::Backspace && old(self).cursor() == 0 ==> final(self).input() == old(self).input()
                && final(self).cursor() == 0,
            key == Key::Backspace ==> final(self).selected() == 0,
            key == Key::Left ==> final(self).cursor() == old(self).cursor_left(),
            key == Key::Right ==> final(self).cursor() == old(self).cursor_right(),
            key == Key::Up ==> final(self).selected() == old(self).selection_up(),
            key == Key::Down ==> final(self).selected() == old(self).selection_down(),
            key matches Key::Toggle(f) ==> final(self).filters().has(f) == !old(self).filters().has(f)
                && (forall|g: Filter| g != f ==> #[trigger] final(self).filters().has(g) == old(self).filters().has(g))
                && final(self).selected() == 0,
            !(key is Toggle) ==> final(self).filters() == old(self).filters(),
            key == Key::Left || key == Key::Right || key == Key::Up || key == Key::Down || key == Key::Enter
                || key == Key::Esc || key == Key::Other ==> final(self).input() == old(self).input()
                && final(self).shown() == old(self).shown(),
            key == Key::Up || key == Key::Down || key == Key::Enter || key == Key::Esc || key == Key::Other
                ==> final(self).cursor() == old(self).cursor(),
            key == Key::Left || key == Key::Right || key == Key::Enter || key == Key::Esc || key == Key::Other
                ==> final(self).selected() == old(self).selected(),
    {
        proof {
            self.lemma_consistent();
        }
        let r =         match key {
            Key::Enter => match self.selected_event() {
                Some(event) => Outcome::Accepted(event),
                None => Outcome::Cancelled,
            },
            Key::Esc => Outcome::Cancelled,
            Key::Char(c) => {
                self.enter_char(c);
                Outcome::Continue
            },
            Key::Backspace => {
                self.delete_char();
                Outcome::Continue
            },
            Key::Left => {
                self.move_cursor_left();
                Outcome::Continue
            },
            Key::Right => {
                self.move_cursor_right();
                Outcome::Continue
            },
            Key::Up => {
                self.move_selection_up();
                Outcome::Continue
            },
            Key::Down => {
                self.move_selection_down();
                Outcome::Continue
            },
            Key::Toggle(f) => {
                self.toggle_filter(f);
                Outcome::Continue
            },
            Key::Other => Outcome::Continue,
        };
        proof {
            self.lemma_consistent();
        }
        r
    }
}

/// Ranking anew with the same pool, query, filters and session gives the
/// same rows: running the matcher a second time changes nothing.
pub proof fn lemma_rerank_idempotent(a: App, b: App)
    requires
        a.consistent(),
        b.consistent(),
        a.pool() == b.pool(),
        a.input() == b.input(),
        a.filters() == b.filters(),
        a.context() == b.context(),
    ensures
        a.shown() == b.shown(),
{
    lemma_ranking_is_unique(a.pool(), a.input(), a.filters(), a.context(), a.shown(), b.shown());
}

} // verus!
