//! The live index: for the current query and filters, which events of the
//! pool are shown and in what order.
//!
//! An entry of the index is the position of an event in the pool. The index
//! owns no events and is rebuilt from scratch whenever the pool, the query or
//! the filters change.

use vstd::hash_set::StringHashSet;
use vstd::prelude::*;

use crate::event::{views, Event, EventView};
use crate::fuzzy::{event_score, lemma_longer_query_never_matches, MAX_SCORED_LINE, par_scores, query_matches, skim_match, FuzzyEngine};
use crate::sorting::{is_sorted_by_key_desc, sort_positions_desc};

verus! {

/// A filter that the user can switch on or off.
#[derive(Clone, Copy, Debug, PartialEq, Eq)]
pub enum Filter {
    /// Show each command text once, at its most recent event.
    Duplicates,
    /// Show only the events of the current shell session.
    Session,
    /// Show only the commands run in the current directory.
    Folder,
    /// Show only the commands that exited with 0.
    Success,
}

/// The filters that are switched on.
#[derive(Clone, Copy, Debug, PartialEq, Eq)]
pub struct FilterSet {
    pub duplicates: bool,
    pub session: bool,
    pub folder: bool,
    pub success: bool,
}

impl FilterSet {
    /// Whether `f` is switched on.
    pub open spec fn has(self, f: Filter) -> bool {
        match f {
            Filter::Duplicates => self.duplicates,
            Filter::Session => self.session,
            Filter::Folder => self.folder,
            Filter::Success => self.success,
        }
    }

    /// No filter switched on.
    pub fn none() -> (r: Self)
        ensures
            forall|f: Filter| !(#[trigger] r.has(f)),
    {
        FilterSet { duplicates: false, session: false, folder: false, success: false }
    }

    /// Whether `f` is switched on.
    pub fn contains(&self, f: Filter) -> (r: bool)
        ensures
            r == self.has(f),
    {
        match f {
            Filter::Duplicates => self.duplicates,
            Filter::Session => self.session,
            Filter::Folder => self.folder,
            Filter::Success => self.success,
        }
    }

    /// Switches `f` on if it was off, off if it was on; the others stay.
    pub fn toggle(&mut self, f: Filter)
        ensures
            final(self).has(f) == !old(self).has(f),
            forall|g: Filter| g != f ==> #[trigger] final(self).has(g) == old(self).has(g),
    {
        match f {
            Filter::Duplicates => self.duplicates = !self.duplicates,
            Filter::Session => self.session = !self.session,
            Filter::Folder => self.folder = !self.folder,
            Filter::Success => self.success = !self.success,
        }
    }
}

/// Where the search was started: the session and folder that the filters
/// compare against.
#[derive(Clone, Debug, PartialEq, Eq)]
pub struct SessionContext {
    pub session: String,
    pub folder: String,
}

/// No event before position `i` of the pool has the same command text.
pub open spec fn is_first_of_command(pool: Seq<EventView>, i: int) -> bool {
    forall|j: int| 0 <= j < i ==> pool[j].command != pool[i].command
}

/// Event `i` of the pool passes every filter that is on; each filter is
/// judged on its own over the whole pool. So with both the session and the
/// duplicates filter on, a command of this session is hidden when another
/// session ran it more recently.
pub open spec fn passes(pool: Seq<EventView>, i: int, filters: FilterSet, ctx: SessionContext) -> bool {
    &&& filters.duplicates ==> is_first_of_command(pool, i)
    &&& filters.session ==> pool[i].session == ctx.session@
    &&& filters.folder ==> pool[i].folder == ctx.folder@
    &&& filters.success ==> pool[i].exit_code == 0
}

/// The score that orders the index: that of the fuzzy engine, and 0 for
/// every event while the query is empty.
pub open spec fn rank_score(query: Seq<char>, line: Seq<char>) -> int {
    if query.len() == 0 {
        0
    } else {
        event_score(query, line) as int
    }
}

/// Event `i` of the pool is shown: it passes the filters and, unless the
/// query is empty, matches the query with a positive score.
pub open spec fn is_shown(
    pool: Seq<EventView>,
    query: Seq<char>,
    filters: FilterSet,
    ctx: SessionContext,
    i: int,
) -> bool {
    &&& 0 <= i < pool.len()
    &&& passes(pool, i, filters, ctx)
    &&& query.len() == 0 || event_score(query, pool[i].command) > 0
}

/// Event `i` is ranked above event `j`: a higher score, or an equal score
/// and an earlier place in the pool.
pub open spec fn ranks_before(pool: Seq<EventView>, query: Seq<char>, i: int, j: int) -> bool {
    let si = rank_score(query, pool[i].command);
    let sj = rank_score(query, pool[j].command);
    si > sj || (si == sj && i < j)
}

/// `ranks` lists exactly the shown events of the pool, best first.
pub open spec fn is_ranking(
    pool: Seq<EventView>,
    query: Seq<char>,
    filters: FilterSet,
    ctx: SessionContext,
    ranks: Seq<usize>,
) -> bool {
    &&& forall|k: int| 0 <= k < ranks.len() ==> is_shown(pool, query, filters, ctx, #[trigger] ranks[k] as int)
    &&& forall|i: int| #[trigger] is_shown(pool, query, filters, ctx, i) ==> ranks.contains(i as usize)
    &&& forall|a: int, b: int| 0 <= a < b < ranks.len() ==> ranks_before(pool, query, #[trigger] ranks[a] as int, #[trigger] ranks[b] as int)
}

proof fn lemma_rankings_agree_below(
    pool: Seq<EventView>,
    query: Seq<char>,
    filters: FilterSet,
    ctx: SessionContext,
    r1: Seq<usize>,
    r2: Seq<usize>,
    n: int,
)
    requires
        is_ranking(pool, query, filters, ctx, r1),
        is_ranking(pool, query, filters, ctx, r2),
        0 <= n <= r1.len(),
        n <= r2.len(),
    ensures
        forall|j: int| 0 <= j < n ==> r1[j] == r2[j],
    decreases n,
{
    if n > 0 {
        let k = n - 1;
        lemma_rankings_agree_below(pool, query, filters, ctx, r1, r2, k);
        let x = r1[k];
        let y = r2[k];
        assert(is_shown(pool, query, filters, ctx, x as int));
        assert(is_shown(pool, query, filters, ctx, y as int));
        assert(r2.contains(x as int as usize));
        assert(r1.contains(y as int as usize));
        let m = choose|m: int| 0 <= m < r2.len() && r2[m] == x;
        let m2 = choose|m: int| 0 <= m < r1.len() && r1[m] == y;
        if m < k {
            assert(r1[m] == r2[m]);
            assert(ranks_before(pool, query, r1[m] as int, r1[k] as int));
        }
        if m2 < k {
            assert(r1[m2] == r2[m2]);
            assert(ranks_before(pool, query, r2[m2] as int, r2[k] as int));
        }
        if m > k && m2 > k {
            assert(ranks_before(pool, query, r2[k] as int, r2[m] as int));
            assert(ranks_before(pool, query, r1[k] as int, r1[m2] as int));
        }
    }
}

/// Rebuilding the index twice with the same pool, query, filters and session
/// gives the same ranked list: there is only one list that [`is_ranking`]
/// admits.
pub proof fn lemma_ranking_is_unique(
    pool: Seq<EventView>,
    query: Seq<char>,
    filters: FilterSet,
    ctx: SessionContext,
    r1: Seq<usize>,
    r2: Seq<usize>,
)
    requires
        is_ranking(pool, query, filters, ctx, r1),
        is_ranking(pool, query, filters, ctx, r2),
    ensures
        r1 == r2,
{
    if r1.len() < r2.len() {
        lemma_rankings_agree_below(pool, query, filters, ctx, r1, r2, r1.len() as int);
        let x = r2[r1.len() as int];
        assert(is_shown(pool, query, filters, ctx, x as int));
        assert(r1.contains(x as int as usize));
        let m = choose|m: int| 0 <= m < r1.len() && r1[m] == x;
        assert(r2[m] == r1[m]);
        assert(ranks_before(pool, query, r2[m] as int, r2[r1.len() as int] as int));
    } else if r2.len() < r1.len() {
        lemma_rankings_agree_below(pool, query, filters, ctx, r1, r2, r2.len() as int);
        let x = r1[r2.len() as int];
        assert(is_shown(pool, query, filters, ctx, x as int));
        assert(r2.contains(x as int as usize));
        let m = choose|m: int| 0 <= m < r2.len() && r2[m] == x;
        assert(r2[m] == r1[m]);
        assert(ranks_before(pool, query, r1[m] as int, r1[r2.len() as int] as int));
    } else {
        lemma_rankings_agree_below(pool, query, filters, ctx, r1, r2, r1.len() as int);
        assert(r1 =~= r2);
    }
}

/// For each event of the pool, whether it passes the filters.
pub fn passing(pool: &[Event], filters: &FilterSet, ctx: &SessionContext) -> (r: Vec<bool>)
    ensures
        r@.len() == pool@.len(),
        forall|i: int| 0 <= i < pool@.len() ==> r@[i] == passes(views(pool@), i, *filters, *ctx),
{
    let ghost pv = views(pool@);
    let mut seen = StringHashSet::new();
    let mut r: Vec<bool> = Vec::new();
    let mut i: usize = 0;
    while i < pool.len()
        invariant
            pv == views(pool@),
            0 <= i <= pool@.len(),
            r@.len() == i,
            forall|k: int| 0 <= k < i ==> r@[k] == passes(pv, k, *filters, *ctx),
            forall|c: Seq<char>| seen@.contains(c) <==> exists|j: int| 0 <= j < i && #[trigger] pv[j].command == c,
        decreases pool@.len() - i,
    {
        let event = &pool[i];
        let ghost before = seen@;
        let first = seen.insert(event.command.clone());
        proof {
            if first {
                assert forall|j: int| 0 <= j < i implies pv[j].command != pv[i as int].command by {
                    if pv[j].command == pv[i as int].command {
                        assert(before.contains(pv[j].command));
                    }
                }
            } else {
                let j = choose|j: int| 0 <= j < i && #[trigger] pv[j].command == event.command@;
                assert(pv[j].command == pv[i as int].command);
            }
            assert forall|c: Seq<char>| seen@.contains(c) implies exists|j: int| 0 <= j < i + 1 && #[trigger] pv[j].command == c by {
                if c == event.command@ {
                    assert(pv[i as int].command == c);
                }
            }
        }
        let ok = (!filters.duplicates || first)
            && (!filters.session || event.session == ctx.session)
            && (!filters.folder || event.folder == ctx.folder)
            && (!filters.success || event.exit_code == 0);
        r.push(ok);
        i = i + 1;
    }
    r
}

/// The ranked view of the pool for one query and one set of filters.
pub struct LiveIndex {
    query: String,
    ranks: Vec<usize>,
    scores: Vec<i64>,
}

impl LiveIndex {
    /// The query the index was built for.
    pub closed spec fn query(&self) -> Seq<char> {
        self.query@
    }

    /// The pool positions of the shown events, best first.
    pub closed spec fn ranks(&self) -> Seq<usize> {
        self.ranks@
    }

    /// The score of each shown event, by rank.
    pub closed spec fn scores(&self) -> Seq<i64> {
        self.scores@
    }

    /// The index is the one that `pool`, its query, `filters` and `ctx` give.
    pub open spec fn is_index_of(&self, pool: Seq<EventView>, filters: FilterSet, ctx: SessionContext) -> bool {
        &&& is_ranking(pool, self.query(), filters, ctx, self.ranks())
        &&& self.scores().len() == self.ranks().len()
        &&& forall|k: int|
            0 <= k < self.ranks().len() ==> self.scores()[k] as int == rank_score(
                self.query(),
                pool[#[trigger] self.ranks()[k] as int].command,
            )
        &&& forall|k: int|
            0 <= k < self.ranks().len() && self.query().len() > 0 ==> query_matches(
                pool[#[trigger] self.ranks()[k] as int].command,
                self.query(),
            )
    }

    /// Ranks the pool for `query`. With an empty query the shown events keep
    /// the pool's order; otherwise each event is scored (in parallel), those
    /// that do not match are dropped, and the rest are sorted by score,
    /// highest first, equal scores in pool order.
    pub fn rebuild(pool: &[Event], query: &str, filters: &FilterSet, ctx: &SessionContext) -> (r: LiveIndex)
        ensures
            r.query() == query@,
            r.is_index_of(views(pool@), *filters, *ctx),
    {
        let ghost pv = views(pool@);
        let pass = passing(pool, filters, ctx);
        let owned = String::from_str(query);
        if query.unicode_len() == 0 {
            let mut ranks: Vec<usize> = Vec::new();
            let mut scores: Vec<i64> = Vec::new();
            let mut i: usize = 0;
            while i < pool.len()
                invariant
                    pv == views(pool@),
                    query@.len() == 0,
                    pass@.len() == pool@.len(),
                    forall|k: int| 0 <= k < pool@.len() ==> pass@[k] == passes(pv, k, *filters, *ctx),
                    0 <= i <= pool@.len(),
                    scores@.len() == ranks@.len(),
                    forall|k: int| 0 <= k < scores@.len() ==> scores@[k] == 0,
                    forall|k: int| 0 <= k < ranks@.len() ==> (#[trigger] ranks@[k]) < i && is_shown(pv, query@, *filters, *ctx, ranks@[k] as int),
                    forall|j: int| 0 <= j < i && #[trigger] is_shown(pv, query@, *filters, *ctx, j) ==> ranks@.contains(j as usize),
                    forall|a: int, b: int| 0 <= a < b < ranks@.len() ==> #[trigger] ranks@[a] < #[trigger] ranks@[b],
                decreases pool@.len() - i,
            {
                let ghost before = ranks@;
                if pass[i] {
                    ranks.push(i);
                    scores.push(0);
                    proof {
                        assert(ranks@[ranks@.len() - 1] == i);
                    }
                }
                proof {
                    assert forall|j: int| 0 <= j < i + 1 && #[trigger] is_shown(pv, query@, *filters, *ctx, j) implies ranks@.contains(j as usize) by {
                        if j < i {
                            assert(before.contains(j as usize));
                            let m = choose|m: int| 0 <= m < before.len() && before[m] == j as usize;
                            assert(ranks@[m] == j as usize);
                        } else {
                            assert(ranks@[ranks@.len() - 1] == i);
                        }
                    }
                }
                i = i + 1;
            }
            LiveIndex { query: owned, ranks, scores }
        } else {
            let engine = FuzzyEngine::new(owned.clone());
            let all = par_scores(&engine, pool);
            let mut ranks: Vec<usize> = Vec::new();
            let mut i: usize = 0;
            while i < pool.len()
                invariant
                    pv == views(pool@),
                    query@.len() > 0,
                    engine.query() == query@,
                    all@.len() == pool@.len(),
                    forall|k: int| 0 <= k < pool@.len() ==> all@[k] == event_score(query@, #[trigger] pv[k].command),
                    pass@.len() == pool@.len(),
                    forall|k: int| 0 <= k < pool@.len() ==> pass@[k] == passes(pv, k, *filters, *ctx),
                    0 <= i <= pool@.len(),
                    forall|k: int| 0 <= k < ranks@.len() ==> (#[trigger] ranks@[k]) < i && is_shown(pv, query@, *filters, *ctx, ranks@[k] as int)
                        && query_matches(pv[ranks@[k] as int].command, query@),
                    forall|k: int| 0 <= k < pool@.len() && !query_matches(#[trigger] pv[k].command, query@) ==> all@[k] == 0,
                    forall|j: int| 0 <= j < i && #[trigger] is_shown(pv, query@, *filters, *ctx, j) ==> ranks@.contains(j as usize),
                    forall|a: int, b: int| 0 <= a < b < ranks@.len() ==> #[trigger] ranks@[a] < #[trigger] ranks@[b],
                decreases pool@.len() - i,
            {
                proof {
                    assert(all@[i as int] == event_score(query@, pv[i as int].command));
                }
                let ghost before = ranks@;
                if pass[i] && all[i] > 0 {
                    ranks.push(i);
                    proof {
                        assert(ranks@[ranks@.len() - 1] == i);
                    }
                }
                proof {
                    assert forall|j: int| 0 <= j < i + 1 && #[trigger] is_shown(pv, query@, *filters, *ctx, j) implies ranks@.contains(j as usize) by {
                        if j < i {
                            assert(before.contains(j as usize));
                            let m = choose|m: int| 0 <= m < before.len() && before[m] == j as usize;
                            assert(ranks@[m] == j as usize);
                        } else {
                            assert(ranks@[ranks@.len() - 1] == i);
                        }
                    }
                }
                i = i + 1;
            }
            let mut keys: Vec<i128> = Vec::new();
            let mut m: usize = 0;
            while m < all.len()
                invariant
                    0 <= m <= all@.len(),
                    keys@.len() == m,
                    forall|q: int| 0 <= q < m ==> keys@[q] == all@[q] as i128,
                decreases all@.len() - m,
            {
                keys.push(all[m] as i128);
                m = m + 1;
            }
            let ghost unsorted = ranks@;
            sort_positions_desc(&mut ranks, keys.as_slice());
            proof {
                broadcast use vstd::seq_lib::group_seq_properties;
                assert forall|k: int| 0 <= k < ranks@.len() implies is_shown(pv, query@, *filters, *ctx, #[trigger] ranks@[k] as int)
                    && query_matches(pv[ranks@[k] as int].command, query@) by {
                    assert(ranks@.contains(ranks@[k]));
                    assert(unsorted.to_multiset().count(ranks@[k]) > 0);
                    assert(unsorted.contains(ranks@[k]));
                }
                assert forall|j: int| #[trigger] is_shown(pv, query@, *filters, *ctx, j) implies ranks@.contains(j as usize) by {
                    assert(unsorted.contains(j as usize));
                    assert(ranks@.to_multiset().count(j as usize) > 0);
                }
                assert forall|a: int, b: int| 0 <= a < b < ranks@.len() implies ranks_before(pv, query@, #[trigger] ranks@[a] as int, #[trigger] ranks@[b] as int) by {
                    assert(is_sorted_by_key_desc(ranks@, keys@));
                    assert(ranks@.contains(ranks@[a]));
                    assert(ranks@.contains(ranks@[b]));
                    assert(unsorted.to_multiset().count(ranks@[a]) > 0);
                    assert(unsorted.to_multiset().count(ranks@[b]) > 0);
                    assert(unsorted.contains(ranks@[a]));
                    assert(unsorted.contains(ranks@[b]));
                }
            }
            let mut scores: Vec<i64> = Vec::new();
            let mut k: usize = 0;
            while k < ranks.len()
                invariant
                    pv == views(pool@),
                    query@.len() > 0,
                    all@.len() == pool@.len(),
                    forall|m: int| 0 <= m < pool@.len() ==> all@[m] == event_score(query@, #[trigger] pv[m].command),
                    forall|m: int| 0 <= m < ranks@.len() ==> is_shown(pv, query@, *filters, *ctx, #[trigger] ranks@[m] as int)
                        && query_matches(pv[ranks@[m] as int].command, query@),
                    0 <= k <= ranks@.len(),
                    scores@.len() == k,
                    forall|m: int| 0 <= m < k ==> scores@[m] as int == rank_score(query@, pv[#[trigger] ranks@[m] as int].command),
                decreases ranks@.len() - k,
            {
                proof {
                    assert(is_shown(pv, query@, *filters, *ctx, ranks@[k as int] as int));
                }
                scores.push(all[ranks[k]]);
                k = k + 1;
            }
            LiveIndex { query: owned, ranks, scores }
        }
    }

    /// How many events are shown.
    pub fn len(&self) -> (r: usize)
        ensures
            r == self.ranks().len(),
    {
        self.ranks.len()
    }

    /// The pool position of the event shown at `rank`.
    pub fn pool_index(&self, rank: usize) -> (r: Option<usize>)
        ensures
            rank < self.ranks().len() ==> r == Some(self.ranks()[rank as int]),
            rank >= self.ranks().len() ==> r is None,
    {
        if rank < self.ranks.len() {
            Some(self.ranks[rank])
        } else {
            None
        }
    }

    /// The score of the event shown at `rank`.
    pub fn score(&self, rank: usize) -> (r: Option<i64>)
        ensures
            rank < self.ranks().len() && self.scores().len() == self.ranks().len() ==> r == Some(self.scores()[rank as int]),
            rank >= self.ranks().len() ==> r is None,
    {
        if rank < self.ranks.len() && rank < self.scores.len() {
            Some(self.scores[rank])
        } else {
            None
        }
    }

    /// The pool positions of the first `n` shown events, best first: what a
    /// view of `n` rows displays.
    pub fn first(&self, n: usize) -> (r: Vec<usize>)
        ensures
            r@ == self.ranks().take(if n < self.ranks().len() { n as int } else { self.ranks().len() as int }),
    {
        let end = if n < self.ranks.len() { n } else { self.ranks.len() };
        let mut r: Vec<usize> = Vec::new();
        let mut k: usize = 0;
        while k < end
            invariant
                end <= self.ranks@.len(),
                0 <= k <= end,
                r@ == self.ranks@.take(k as int),
            decreases end - k,
        {
            r.push(self.ranks[k]);
            proof {
                assert(self.ranks@.take(k + 1) =~= self.ranks@.take(k as int).push(self.ranks@[k as int]));
            }
            k = k + 1;
        }
        r
    }

    /// The character positions of the command at `rank` that the query
    /// matched, for highlighting: none while the query is empty.
    pub fn matched_positions(&self, pool: &[Event], rank: usize) -> (r: Vec<usize>)
        requires
            rank < self.ranks().len(),
            self.ranks()[rank as int] < pool@.len(),
        ensures
            pool@[self.ranks()[rank as int] as int]@.command.len() > MAX_SCORED_LINE ==> r@.len() == 0,
            pool@[self.ranks()[rank as int] as int]@.command.len() <= MAX_SCORED_LINE ==> r@ == match skim_match(
                pool@[self.ranks()[rank as int] as int]@.command,
                self.query(),
            ) {
                Some(p) => p.1,
                None => Seq::empty(),
            },
    {
        let line = pool[self.ranks[rank]].command.as_str();
        if line.unicode_len() > MAX_SCORED_LINE {
            return Vec::new();
        }
        let engine = FuzzyEngine::new(self.query.clone());
        match engine.fuzzy_indices(line) {
            Some((_score, positions)) => positions,
            None => Vec::new(),
        }
    }
}

/// Two indexes built for the same pool, query, filters and session are the
/// same: rebuilding with unchanged inputs changes nothing.
pub proof fn lemma_rebuild_idempotent(
    a: LiveIndex,
    b: LiveIndex,
    pool: Seq<EventView>,
    filters: FilterSet,
    ctx: SessionContext,
)
    requires
        a.query() == b.query(),
        a.is_index_of(pool, filters, ctx),
        b.is_index_of(pool, filters, ctx),
    ensures
        a.ranks() == b.ranks(),
        a.scores() == b.scores(),
{
    lemma_ranking_is_unique(pool, a.query(), filters, ctx, a.ranks(), b.ranks());
    assert forall|k: int| 0 <= k < a.scores().len() implies a.scores()[k] == b.scores()[k] by {
        assert(a.ranks()[k] == b.ranks()[k]);
        assert(a.scores()[k] as int == rank_score(a.query(), pool[a.ranks()[k] as int].command));
        assert(b.scores()[k] as int == rank_score(b.query(), pool[b.ranks()[k] as int].command));
    }
    assert(a.scores() =~= b.scores());
}

/// An event whose command the query does not match is never shown, however
/// the query was reached.
pub proof fn lemma_unmatched_never_shown(
    pool: Seq<EventView>,
    query: Seq<char>,
    filters: FilterSet,
    ctx: SessionContext,
    ranks: Seq<usize>,
    i: usize,
)
    requires
        is_ranking(pool, query, filters, ctx, ranks),
        query.len() > 0,
        i < pool.len(),
        skim_match(pool[i as int].command, query) is None,
    ensures
        !ranks.contains(i),
{
    if ranks.contains(i) {
        let k = choose|k: int| 0 <= k < ranks.len() && ranks[k] == i;
        assert(is_shown(pool, query, filters, ctx, ranks[k] as int));
    }
}

/// A longer query never shows an event whose command a shorter query, which
/// it starts with, did not match.
pub proof fn lemma_longer_query_hides_unmatched(
    index: LiveIndex,
    pool: Seq<EventView>,
    filters: FilterSet,
    ctx: SessionContext,
    query: Seq<char>,
    more: Seq<char>,
    i: usize,
)
    requires
        index.is_index_of(pool, filters, ctx),
        index.query() == query + more,
        query.len() > 0,
        i < pool.len(),
        !query_matches(pool[i as int].command, query),
    ensures
        !index.ranks().contains(i),
{
    lemma_longer_query_never_matches(pool[i as int].command, query, more);
    if index.ranks().contains(i) {
        let k = choose|k: int| 0 <= k < index.ranks().len() && index.ranks()[k] == i;
        assert(query_matches(pool[index.ranks()[k] as int].command, index.query()));
    }
}

} // verus!
