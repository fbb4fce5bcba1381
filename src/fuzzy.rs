//! Scoring a query against a command line, with the skim algorithm of
//! `fuzzy_matcher`.

use fuzzy_matcher::FuzzyMatcher;
use rayon::iter::{IntoParallelRefIterator, ParallelIterator};
use vstd::prelude::*;

use crate::event::{Event, EventView};

verus! {

/// What skim's fuzzy matcher (smart case) reports for `query` against `line`:
/// its score and the character positions it matched, or no match.
pub uninterp spec fn skim_match(line: Seq<char>, query: Seq<char>) -> Option<(i64, Seq<usize>)>;

/// `c` is an ASCII capital letter.
pub open spec fn is_ascii_upper(c: char) -> bool {
    'A' <= c && c <= 'Z'
}

/// Smart case: a query with an ASCII capital letter is matched with case,
/// any other without.
pub open spec fn case_sensitive(query: Seq<char>) -> bool {
    exists|i: int| 0 <= i < query.len() && is_ascii_upper(#[trigger] query[i])
}

/// A character of the line matches one of the query: it is the same, or,
/// when case is ignored, the same up to ASCII case.
pub open spec fn chars_match(c: char, q: char, sensitive: bool) -> bool {
    ||| c == q
    ||| !sensitive && is_ascii_upper(c) && c as u32 + 32 == q as u32
    ||| !sensitive && is_ascii_upper(q) && q as u32 + 32 == c as u32
}

/// The query's characters occur in the line in order, taking each character
/// of the line, from the left, that matches the next one of the query.
pub open spec fn is_subsequence(line: Seq<char>, query: Seq<char>, sensitive: bool) -> bool
    decreases line.len(),
{
    if query.len() == 0 {
        true
    } else if line.len() == 0 {
        false
    } else if chars_match(line[0], query[0], sensitive) {
        is_subsequence(line.drop_first(), query.drop_first(), sensitive)
    } else {
        is_subsequence(line.drop_first(), query, sensitive)
    }
}

/// The query matches the line at all, with smart case.
pub open spec fn query_matches(line: Seq<char>, query: Seq<char>) -> bool {
    is_subsequence(line, query, case_sensitive(query))
}

/// The longest line, in characters, that is handed to skim. Its scores are
/// 32-bit and move by a few dozen per character, so longer lines could
/// overflow them; such lines count as not matching.
pub const MAX_SCORED_LINE: usize = 16777216;

/// The size of the score matrix past which skim falls back to its simpler
/// matcher.
pub const ELEMENT_LIMIT: usize = 1073741824;

/// Relies on `fuzzy_matcher::skim::SkimMatcherV2::fuzzy_indices` with smart
/// case and the element limit above: the outcome depends on the two texts
/// alone, an empty query matches with score 0 and no positions, and there is
/// no match exactly when the query is not a subsequence of the line with
/// smart case (its prefilter `cheap_matches`).
#[verifier::external_body]
fn skim_fuzzy_indices(line: &str, query: &str) -> (r: Option<(i64, Vec<usize>)>)
    requires
        line@.len() <= MAX_SCORED_LINE,
    ensures
        skim_match(line@, query@) == match r {
            Some(p) => Some((p.0, p.1@)),
            None => None,
        },
        r is None <==> !query_matches(line@, query@),
        query@.len() == 0 ==> r.is_some() && r.unwrap().0 == 0 && r.unwrap().1@.len() == 0,
{
    fuzzy_matcher::skim::SkimMatcherV2::default().element_limit(ELEMENT_LIMIT).smart_case()
        .fuzzy_indices(line, query)
}

/// The score of `line` for `query`: skim's score, or 0 where it finds no
/// match.
pub open spec fn line_score(query: Seq<char>, line: Seq<char>) -> i64 {
    match skim_match(line, query) {
        Some(p) => p.0,
        None => 0,
    }
}

/// The score of a command: that of [`line_score`] for lines skim is given,
/// 0 for longer ones.
pub open spec fn event_score(query: Seq<char>, line: Seq<char>) -> i64 {
    if line.len() <= MAX_SCORED_LINE {
        line_score(query, line)
    } else {
        0
    }
}

/// Scores lines against one query.
pub struct FuzzyEngine {
    query: String,
}

impl FuzzyEngine {
    /// The query that lines are scored against.
    pub closed spec fn query(&self) -> Seq<char> {
        self.query@
    }

    pub fn new(query: String) -> (r: Self)
        ensures
            r.query() == query@,
    {
        FuzzyEngine { query }
    }

    /// The score of `line` and the positions of its characters that matched,
    /// or `None` where the query does not match.
    pub fn fuzzy_indices(&self, line: &str) -> (r: Option<(i64, Vec<usize>)>)
        requires
            line@.len() <= MAX_SCORED_LINE,
        ensures
            r is None <==> skim_match(line@, self.query()) is None,
            r matches Some(p) ==> skim_match(line@, self.query()) == Some((p.0, p.1@)),
            r is None <==> !query_matches(line@, self.query()),
    {
        skim_fuzzy_indices(line, self.query.as_str())
    }

    /// The score of `line`: 0 where the query does not match.
    pub fn match_line(&self, line: &str) -> (r: i64)
        requires
            line@.len() <= MAX_SCORED_LINE,
        ensures
            r == line_score(self.query(), line@),
            !query_matches(line@, self.query()) ==> r == 0,
    {
        match skim_fuzzy_indices(line, self.query.as_str()) {
            Some((score, _indices)) => score,
            None => 0,
        }
    }

    /// The score of the command of `event`; 0 for a command longer than
    /// [`MAX_SCORED_LINE`].
    pub fn match_event(&self, event: &Event) -> (r: i64)
        ensures
            r == event_score(self.query(), event@.command),
            !query_matches(event@.command, self.query()) ==> r == 0,
    {
        if event.command.as_str().unicode_len() <= MAX_SCORED_LINE {
            self.match_line(event.command.as_str())
        } else {
            0
        }
    }
}

/// Relies on rayon's `par_iter().map(..).collect()`: the score of every
/// event, computed in parallel and collected in the events' order.
#[verifier::external_body]
pub(crate) fn par_scores(engine: &FuzzyEngine, events: &[Event]) -> (r: Vec<i64>)
    ensures
        r@.len() == events@.len(),
        forall|i: int| 0 <= i < events@.len() ==> r@[i] == event_score(engine.query(), #[trigger] events@[i]@.command),
        forall|i: int| 0 <= i < events@.len() && !query_matches(#[trigger] events@[i]@.command, engine.query()) ==> r@[i] == 0,
{
    events.par_iter().map(|e| engine.match_event(e)).collect()
}

proof fn lemma_drop_first_query(line: Seq<char>, query: Seq<char>, sensitive: bool)
    requires
        query.len() > 0,
        is_subsequence(line, query, sensitive),
    ensures
        is_subsequence(line, query.drop_first(), sensitive),
    decreases line.len(),
{
    let q1 = query.drop_first();
    if line.len() > 0 && q1.len() > 0 {
        let l1 = line.drop_first();
        if chars_match(line[0], query[0], sensitive) {
            if chars_match(line[0], q1[0], sensitive) {
                lemma_drop_first_query(l1, q1, sensitive);
            }
        } else {
            lemma_drop_first_query(l1, query, sensitive);
            if chars_match(line[0], q1[0], sensitive) {
                lemma_drop_first_query(l1, q1, sensitive);
            }
        }
    }
}

proof fn lemma_prefix_of_query(line: Seq<char>, query: Seq<char>, more: Seq<char>, sensitive: bool)
    requires
        is_subsequence(line, query + more, sensitive),
    ensures
        is_subsequence(line, query, sensitive),
    decreases line.len(),
{
    if query.len() > 0 && line.len() > 0 {
        let l1 = line.drop_first();
        assert((query + more)[0] == query[0]);
        if chars_match(line[0], query[0], sensitive) {
            assert((query + more).drop_first() =~= query.drop_first() + more);
            lemma_prefix_of_query(l1, query.drop_first(), more, sensitive);
        } else {
            lemma_prefix_of_query(l1, query, more, sensitive);
        }
    }
}

proof fn lemma_with_case_then_without(line: Seq<char>, query: Seq<char>)
    requires
        is_subsequence(line, query, true),
    ensures
        is_subsequence(line, query, false),
    decreases line.len(),
{
    if query.len() > 0 && line.len() > 0 {
        let l1 = line.drop_first();
        if chars_match(line[0], query[0], true) {
            lemma_with_case_then_without(l1, query.drop_first());
        } else {
            lemma_with_case_then_without(l1, query);
            if chars_match(line[0], query[0], false) {
                lemma_drop_first_query(l1, query, false);
            }
        }
    }
}

/// Typing more never brings a line back: a line that a query does not match
/// is matched by no longer query that starts with it.
pub proof fn lemma_longer_query_never_matches(line: Seq<char>, query: Seq<char>, more: Seq<char>)
    requires
        !query_matches(line, query),
    ensures
        !query_matches(line, query + more),
{
    let longer = query + more;
    if query_matches(line, longer) {
        lemma_prefix_of_query(line, query, more, case_sensitive(longer));
        if case_sensitive(query) {
            let i = choose|i: int| 0 <= i < query.len() && is_ascii_upper(#[trigger] query[i]);
            assert(longer[i] == query[i]);
        } else if case_sensitive(longer) {
            lemma_with_case_then_without(line, query);
        }
    }
}

} // verus!
