use osh_oxy::event::Event;
use osh_oxy::formats::json_lines::{line_bounds, load_osh_events, Entry, JsonLinesHeader};
use osh_oxy::formats::Kind;
use osh_oxy::fuzzy::FuzzyEngine;
use osh_oxy::index::{Filter, FilterSet, LiveIndex, SessionContext};
use osh_oxy::merge::{all_oldest_first, log_newest_first, merge_logs, merge_or_sort, merged_history, sort_newest_first, EventFilter};
use osh_oxy::session::{App, Key, Outcome};

fn event(timestamp: i64, duration: i64, command: &str, session: &str) -> Event {
    Event {
        timestamp,
        command: command.to_string(),
        duration,
        exit_code: 0,
        folder: "/tmp".to_string(),
        machine: "machine_a".to_string(),
        session: session.to_string(),
    }
}

fn context() -> SessionContext {
    SessionContext { session: "abc".to_string(), folder: "/tmp".to_string() }
}

fn shown(index: &LiveIndex) -> Vec<usize> {
    index.first(usize::MAX)
}

#[test]
fn extensions_of_the_two_encodings() {
    assert_eq!(Kind::JsonLines.extension(), "osh");
    assert_eq!(Kind::Rmp.extension(), "bosh");
}

#[test]
fn default_header_names_the_format() {
    let header = JsonLinesHeader::default();
    assert_eq!(header.format, "osh-history-v1");
    assert_eq!(header.description, None);
}

#[test]
fn lines_are_split_at_newlines() {
    let data = b"{\"format\":\"x\"}\nab\n\nc";
    let bounds = line_bounds(data);
    let lines: Vec<&[u8]> = bounds.iter().map(|&(s, e)| &data[s..e]).collect();
    assert_eq!(lines, vec![&b"{\"format\":\"x\"}"[..], b"ab", b"", b"c"]);
    assert_eq!(line_bounds(b""), vec![(0, 0)]);
    assert_eq!(line_bounds(b"a\n"), vec![(0, 1), (2, 2)]);
}

#[test]
fn header_and_unparsed_lines_are_skipped() {
    let e1 = event(1, 0, "ls", "s");
    let e2 = event(2, 0, "pwd", "s");
    let entries = vec![
        Some(Entry::FormatE(JsonLinesHeader::default())),
        Some(Entry::EventE { event: e1.clone() }),
        None,
        Some(Entry::EventE { event: e2.clone() }),
    ];
    assert_eq!(load_osh_events(&entries), vec![e1.clone(), e2]);
    assert_eq!(Entry::EventE { event: e1.clone() }.maybe_event(), Some(e1));
    assert_eq!(Entry::FormatE(JsonLinesHeader::default()).maybe_event(), None);
}

#[test]
fn end_time_adds_duration() {
    let e = event(1_000, 2_500, "sleep 2.5", "s");
    assert_eq!(e.endtime(), 3_500);
    let big = event(i64::MAX, i64::MAX, "x", "s");
    assert_eq!(big.endtime(), 2 * (i64::MAX as i128));
    assert!(event(0, 10, "a", "s").ends_after(&event(5, 4, "b", "s")));
    assert!(!event(0, 9, "a", "s").ends_after(&event(5, 4, "b", "s")));
}

/// Sorted most recent first, equal end times in input order.
fn sort_descending(mut all: Vec<Event>) -> Vec<Event> {
    all.sort_by(|a, b| b.endtime().cmp(&a.endtime()));
    all
}

fn synthetic_logs(k: usize, per_log: usize, seed: u64) -> Vec<Vec<Event>> {
    let mut state = seed;
    let mut logs = Vec::new();
    for f in 0..k {
        let mut log = Vec::new();
        for i in 0..per_log {
            state = state.wrapping_mul(6364136223846793005).wrapping_add(1442695040888963407);
            // few distinct end times, so that ties occur
            let end = ((state >> 33) % 20) as i64;
            let duration = ((state >> 20) % 5) as i64;
            log.push(event(end - duration, duration, &format!("f{f} c{i}"), "s"));
        }
        // a log holds its events in the order they were appended: oldest first
        log.sort_by_key(|e| e.endtime());
        logs.push(log);
    }
    logs
}

#[test]
fn merge_equals_sorting_the_concatenation() {
    for k in [1usize, 2, 5] {
        let logs = synthetic_logs(k, 40, k as u64 * 7919);
        let merged = merge_logs(&logs, &EventFilter::new(None));
        let reversed: Vec<Event> = logs.iter().flat_map(|l| l.iter().rev().cloned()).collect();
        let expected = sort_descending(reversed);
        assert_eq!(merged, expected);
    }
}

#[test]
fn merge_interleaves_by_end_time() {
    let a = vec![event(1, 0, "a1", "s"), event(5, 0, "a5", "s")];
    let b = vec![event(3, 0, "b3", "s"), event(7, 0, "b7", "s")];
    let merged = merge_logs(&[a, b], &EventFilter::new(None));
    let commands: Vec<&str> = merged.iter().map(|e| e.command.as_str()).collect();
    assert_eq!(commands, vec!["b7", "a5", "b3", "a1"]);
}

#[test]
fn session_filter_keeps_exactly_that_session() {
    let pool = vec![
        event(1, 0, "one", "abc"),
        event(2, 0, "two", "xyz"),
        event(3, 0, "three", "abc"),
        event(4, 0, "four", "xyz"),
        event(5, 0, "five", "qrs"),
    ];
    let filter = EventFilter::new(Some("abc".to_string()));
    let kept: Vec<Event> = pool.iter().cloned().filter_map(|e| filter.apply(e)).collect();
    assert_eq!(kept, vec![pool[0].clone(), pool[2].clone()]);
    let newest = log_newest_first(&pool, &filter);
    assert_eq!(newest, vec![pool[2].clone(), pool[0].clone()]);

    let mut filters = FilterSet::none();
    filters.toggle(Filter::Session);
    let index = LiveIndex::rebuild(&pool, "", &filters, &context());
    assert_eq!(shown(&index), vec![0, 2]);
}

#[test]
fn duplicates_filter_keeps_most_recent() {
    let pool = vec![event(3, 0, "ls", "s"), event(2, 0, "ls", "s"), event(1, 0, "cd /tmp", "s")];
    let mut filters = FilterSet::none();
    filters.toggle(Filter::Duplicates);
    assert!(filters.contains(Filter::Duplicates));
    let index = LiveIndex::rebuild(&pool, "", &filters, &context());
    assert_eq!(index.len(), 2);
    assert_eq!(shown(&index), vec![0, 2]);
}

#[test]
fn other_filters() {
    let mut failed = event(1, 0, "make", "abc");
    failed.exit_code = 2;
    let mut elsewhere = event(2, 0, "make", "abc");
    elsewhere.folder = "/home".to_string();
    let pool = vec![failed, elsewhere, event(3, 0, "make", "abc")];
    let mut filters = FilterSet::none();
    filters.toggle(Filter::Success);
    assert_eq!(shown(&LiveIndex::rebuild(&pool, "", &filters, &context())), vec![1, 2]);
    filters.toggle(Filter::Folder);
    assert_eq!(shown(&LiveIndex::rebuild(&pool, "", &filters, &context())), vec![2]);
    filters.toggle(Filter::Success);
    assert_eq!(shown(&LiveIndex::rebuild(&pool, "", &filters, &context())), vec![0, 2]);
}

#[test]
fn fuzzy_engine_scores() {
    let engine = FuzzyEngine::new("gst".to_string());
    assert!(engine.match_line("git status") > 0);
    assert_eq!(engine.match_line("ls -la"), 0);
    let (_, positions) = engine.fuzzy_indices("git status").unwrap();
    assert_eq!(positions, vec![0, 4, 5]);
    assert_eq!(FuzzyEngine::new(String::new()).match_line("anything"), 0);
    // smart case: an uppercase query only matches uppercase text
    assert_eq!(FuzzyEngine::new("G".to_string()).match_line("git"), 0);
    assert!(FuzzyEngine::new("g".to_string()).match_line("GIT") > 0);
}

#[test]
fn query_ranks_by_score_and_drops_non_matches() {
    let pool = vec![
        event(1, 0, "git status", "s"),
        event(2, 0, "ls", "s"),
        event(3, 0, "gst", "s"),
        event(4, 0, "g s t", "s"),
    ];
    let filters = FilterSet::none();
    let index = LiveIndex::rebuild(&pool, "gst", &filters, &context());
    let ranks = shown(&index);
    assert!(!ranks.contains(&1));
    assert_eq!(ranks.len(), 3);
    for k in 1..ranks.len() {
        assert!(index.score(k - 1).unwrap() >= index.score(k).unwrap());
    }
    assert_eq!(ranks[0], 2);
    assert_eq!(index.pool_index(0), Some(2));
    assert_eq!(index.pool_index(3), None);
    assert_eq!(index.matched_positions(&pool, 0), vec![0, 1, 2]);
    assert_eq!(index.first(1), vec![2]);
}

#[test]
fn no_match_is_never_shown() {
    let pool = vec![event(1, 0, "cargo build", "s"), event(2, 0, "cargo test", "s")];
    let filters = FilterSet::none();
    let mut query = String::new();
    for c in "cargo tz".chars() {
        query.push(c);
        let index = LiveIndex::rebuild(&pool, &query, &filters, &context());
        for i in 0..pool.len() {
            let engine = FuzzyEngine::new(query.clone());
            if engine.fuzzy_indices(&pool[i].command).is_none() {
                assert!(!shown(&index).contains(&i));
            }
        }
    }
    assert_eq!(LiveIndex::rebuild(&pool, "cargo tz", &filters, &context()).len(), 0);
}

#[test]
fn rebuild_twice_gives_the_same_index() {
    let pool: Vec<Event> = (0..200).map(|i| event(i, 0, &format!("cmd {} {}", i % 7, i % 11), "s")).collect();
    let filters = FilterSet::none();
    for query in ["", "cmd 3", "c1"] {
        let a = LiveIndex::rebuild(&pool, query, &filters, &context());
        let b = LiveIndex::rebuild(&pool, query, &filters, &context());
        assert_eq!(shown(&a), shown(&b));
        for k in 0..a.len() {
            assert_eq!(a.score(k), b.score(k));
        }
    }
}

#[test]
fn session_edits_query_and_accepts() {
    let mut app = App::new(context(), FilterSet::none());
    app.collect_new_events(vec![event(3, 0, "git status", "abc"), event(2, 0, "ls", "abc")]);
    assert_eq!(app.pool_len(), 2);
    assert_eq!(app.visible_count(), 2);
    assert_eq!(app.handle_key(Key::Char('l')), Outcome::Continue);
    assert_eq!(app.handle_key(Key::Char('x')), Outcome::Continue);
    assert_eq!(app.query(), "lx");
    assert_eq!(app.visible_count(), 0);
    app.handle_key(Key::Left);
    assert_eq!(app.character_index(), 1);
    app.handle_key(Key::Char('s'));
    assert_eq!(app.query(), "lsx");
    app.handle_key(Key::Right);
    app.handle_key(Key::Right);
    assert_eq!(app.character_index(), 3);
    app.handle_key(Key::Backspace);
    assert_eq!(app.query(), "ls");
    assert_eq!(app.visible_count(), 1);
    match app.handle_key(Key::Enter) {
        Outcome::Accepted(e) => assert_eq!(e.command, "ls"),
        other => panic!("expected an accepted event, got {other:?}"),
    }
}

#[test]
fn session_selection_is_clamped() {
    let mut app = App::new(context(), FilterSet::none());
    app.collect_new_events(vec![event(3, 0, "a", "abc"), event(2, 0, "b", "abc"), event(1, 0, "c", "abc")]);
    app.handle_key(Key::Up);
    app.handle_key(Key::Up);
    app.handle_key(Key::Up);
    assert_eq!(app.selected_index(), 2);
    match app.handle_key(Key::Enter) {
        Outcome::Accepted(e) => assert_eq!(e.command, "c"),
        other => panic!("expected an accepted event, got {other:?}"),
    }
    app.handle_key(Key::Down);
    assert_eq!(app.selected_index(), 1);
    app.handle_key(Key::Up);
    assert_eq!(app.selected_index(), 2);
    app.handle_key(Key::Up);
    assert_eq!(app.selected_index(), 2);
    app.handle_key(Key::Toggle(Filter::Duplicates));
    assert_eq!(app.selected_index(), 0);
    assert_eq!(app.handle_key(Key::Esc), Outcome::Cancelled);
}

#[test]
fn session_with_nothing_shown_cancels_on_enter() {
    let mut app = App::new(context(), FilterSet::none());
    assert_eq!(app.handle_key(Key::Enter), Outcome::Cancelled);
    assert_eq!(app.selected_event(), None);
    assert_eq!(app.matched_positions(0), Vec::<usize>::new());
    assert!(app.event(0).is_none());
}

#[test]
fn full_sort_is_stable_and_newest_first() {
    let events = vec![
        event(1, 1, "a", "s"),
        event(5, 0, "b", "s"),
        event(0, 2, "c", "s"),
        event(9, -4, "d", "s"),
        event(3, 0, "e", "s"),
    ];
    let sorted = sort_newest_first(&events);
    let commands: Vec<&str> = sorted.iter().map(|e| e.command.as_str()).collect();
    assert_eq!(commands, vec!["b", "d", "e", "a", "c"]);
    assert_eq!(sorted, sort_descending(events));
}

#[test]
fn unsorted_logs_fall_back_to_a_full_sort() {
    let logs = vec![
        vec![event(5, 0, "late first", "s"), event(1, 0, "early second", "s")],
        vec![event(3, 0, "x", "s"), event(3, 0, "y", "s")],
    ];
    assert!(!all_oldest_first(&logs));
    let result = merge_or_sort(&logs, &EventFilter::new(None));
    let reversed: Vec<Event> = logs.iter().flat_map(|l| l.iter().rev().cloned()).collect();
    assert_eq!(result, sort_descending(reversed));
}

#[test]
fn sorted_logs_are_merged() {
    for k in [1usize, 2, 5] {
        let logs = synthetic_logs(k, 30, 31 + k as u64);
        assert!(all_oldest_first(&logs));
        let result = merge_or_sort(&logs, &EventFilter::new(None));
        let reversed: Vec<Event> = logs.iter().flat_map(|l| l.iter().rev().cloned()).collect();
        assert_eq!(result, sort_descending(reversed));
    }
}

#[test]
fn equal_end_times_keep_the_order_of_the_logs() {
    let a = vec![event(1, 0, "a old", "s"), event(4, 0, "a tie", "s")];
    let b = vec![event(2, 2, "b tie", "s"), event(9, 0, "b new", "s")];
    let c = vec![event(4, 0, "c tie", "s")];
    let merged = merge_logs(&[a, b, c], &EventFilter::new(None));
    let commands: Vec<&str> = merged.iter().map(|e| e.command.as_str()).collect();
    assert_eq!(commands, vec!["b new", "a tie", "b tie", "c tie", "a old"]);
}

#[test]
fn selection_is_clamped_to_the_shown_rows_only() {
    let mut app = App::new(context(), FilterSet::none());
    app.collect_new_events(vec![event(2, 0, "a", "abc"), event(1, 0, "b", "abc")]);
    app.move_selection_up();
    assert_eq!(app.selected_index(), 1);
    app.move_selection_up();
    assert_eq!(app.selected_index(), 1);
    app.move_selection_down();
    app.move_selection_down();
    assert_eq!(app.selected_index(), 0);
}

#[test]
fn matching_twice_gives_the_same_rows() {
    let mut app = App::new(context(), FilterSet::none());
    app.collect_new_events((0..50).map(|i| event(i, 0, &format!("cmd {}", i % 9), "abc")).collect());
    app.handle_key(Key::Char('c'));
    app.handle_key(Key::Char('3'));
    let first: Vec<usize> = app.first_shown(usize::MAX);
    app.run_matcher();
    assert_eq!(app.first_shown(usize::MAX), first);
}

#[test]
fn unique_history_keeps_most_recent_of_each_command() {
    let a = vec![event(1, 0, "ls", "s"), event(4, 0, "cd /tmp", "s"), event(6, 0, "ls", "s")];
    let b = vec![event(2, 0, "cd /tmp", "s"), event(5, 0, "make", "s")];
    let logs = vec![a, b];
    let all = merged_history(&logs, &EventFilter::new(None), false);
    assert_eq!(all.len(), 5);
    let unique = merged_history(&logs, &EventFilter::new(None), true);
    let shown: Vec<(i64, &str)> = unique.iter().map(|e| (e.timestamp, e.command.as_str())).collect();
    assert_eq!(shown, vec![(6, "ls"), (5, "make"), (4, "cd /tmp")]);
}

#[test]
fn over_long_commands_are_not_scored() {
    let long = "a".repeat(osh_oxy::fuzzy::MAX_SCORED_LINE + 1);
    let pool = vec![event(1, 0, &long, "s"), event(2, 0, "abc", "s")];
    let index = LiveIndex::rebuild(&pool, "a", &FilterSet::none(), &context());
    assert_eq!(shown(&index), vec![1]);
    let everything = LiveIndex::rebuild(&pool, "", &FilterSet::none(), &context());
    assert_eq!(shown(&everything), vec![0, 1]);
    assert_eq!(everything.matched_positions(&pool, 0), Vec::<usize>::new());
}
