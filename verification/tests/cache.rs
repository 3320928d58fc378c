use dekho::cache::{
    active_name, budget_bytes, classify, clear, episode_of, eviction_order, is_lock_name, lock_in,
    lock_json, lock_of, plan, prune, report, top_component, Entry, WatchState,
};
use dekho::history::{History, Watch};
use std::path::PathBuf;

fn entry(name: &str, bytes: u64, last_used: u64) -> Entry {
    Entry {
        name: name.into(),
        path: PathBuf::from(name),
        bytes,
        last_used,
    }
}

fn movie(id: u32, title: &str, year: &str) -> Watch {
    Watch {
        id,
        kind: "movie",
        title: title.into(),
        year: year.into(),
        poster: String::new(),
        backdrop: String::new(),
        season: None,
        episode: None,
        episode_name: None,
        next: None,
    }
}

fn history_with(records: Vec<(Watch, u64, u64)>) -> History {
    let mut h = History::empty();
    for (i, (w, pos, dur)) in records.into_iter().enumerate() {
        h.record(&w, pos, dur, 100 + i as u64);
    }
    h
}

#[test]
fn top_component_takes_the_entry_a_file_lives_under() {
    assert_eq!(
        top_component("Fight.Club.1999/movie.mkv").as_deref(),
        Some("Fight.Club.1999")
    );
    assert_eq!(top_component("movie.mkv").as_deref(), Some("movie.mkv"));
    assert_eq!(top_component(""), None);
}

#[test]
fn a_finished_movie_is_classified_finished() {
    let h = history_with(vec![(movie(550, "Fight Club", "1999"), 9_500, 10_000)]);
    assert_eq!(
        classify("Fight.Club.1999.1080p.WEB-DL.x264", &h),
        WatchState::Finished
    );
}

#[test]
fn a_part_watched_movie_is_protected_longest() {
    let h = history_with(vec![(movie(550, "Fight Club", "1999"), 1_000, 10_000)]);
    assert_eq!(
        classify("Fight.Club.1999.1080p.WEB-DL.x264", &h),
        WatchState::PartWatched
    );
}

#[test]
fn an_unmatched_entry_is_unknown() {
    let h = history_with(vec![(movie(550, "Fight Club", "1999"), 9_500, 10_000)]);
    assert_eq!(
        classify("Some.Other.Movie.2001.720p", &h),
        WatchState::Unknown
    );
}

#[test]
fn a_different_year_is_a_different_film() {
    // A remake must not inherit the original's finished flag.
    let h = history_with(vec![(movie(550, "Suspiria", "1977"), 9_500, 10_000)]);
    assert_eq!(classify("Suspiria.2018.1080p", &h), WatchState::Unknown);
}

fn tv(episode: u32, next: Option<(u32, &str)>) -> Watch {
    Watch {
        id: 1396,
        kind: "tv",
        title: "Breaking Bad".into(),
        year: "2008".into(),
        poster: String::new(),
        backdrop: String::new(),
        season: Some(2),
        episode: Some(episode),
        episode_name: None,
        next: next.map(|(n, s)| (n, s.to_string())),
    }
}

#[test]
fn an_episode_the_viewer_moved_past_counts_as_finished() {
    // Watching S02E05 → the S02E04 pieces have done their job.
    let h = history_with(vec![(tv(5, Some((6, "Next"))), 60, 2_760)]);
    assert_eq!(
        classify("Breaking.Bad.S02E04.1080p", &h),
        WatchState::Finished
    );
}

#[test]
fn the_current_and_future_episodes_stay_protected() {
    let h = history_with(vec![(tv(5, Some((6, "Next"))), 60, 2_760)]);
    // The one on screen…
    assert_eq!(
        classify("Breaking.Bad.S02E05.1080p", &h),
        WatchState::PartWatched
    );
    // …and the one prefetched for later.
    assert_eq!(
        classify("Breaking.Bad.S02E06.1080p", &h),
        WatchState::PartWatched
    );
}

#[test]
fn a_season_pack_is_protected_while_the_title_is_in_progress() {
    let h = history_with(vec![(tv(5, Some((6, "Next"))), 60, 2_760)]);
    assert_eq!(
        classify("Breaking.Bad.S02.Complete.1080p", &h),
        WatchState::PartWatched
    );
}

#[test]
fn eviction_prefers_finished_then_unknown_then_part_watched() {
    let h = history_with(vec![
        (movie(1, "Done Film", "2001"), 9_500, 10_000),
        (movie(2, "Half Film", "2002"), 1_000, 10_000),
    ]);
    let entries = vec![
        entry("Half.Film.2002.1080p", 10, 50),
        entry("Mystery.Entry.720p", 10, 10),
        entry("Done.Film.2001.1080p", 10, 90),
    ];
    let order = eviction_order(&entries, &h, &[]);
    let names: Vec<&str> = order.iter().map(|e| e.name.as_str()).collect();
    assert_eq!(
        names,
        vec![
            "Done.Film.2001.1080p",   // finished, despite being newest
            "Mystery.Entry.720p",     // unknown
            "Half.Film.2002.1080p",   // part-watched goes last
        ]
    );
}

#[test]
fn within_a_class_the_least_recently_used_goes_first() {
    let h = History::empty();
    let entries = vec![
        entry("newer", 10, 200),
        entry("older", 10, 100),
    ];
    let order = eviction_order(&entries, &h, &[]);
    assert_eq!(order[0].name, "older");
}

#[test]
fn protected_entries_never_appear_in_the_order() {
    let h = History::empty();
    let entries = vec![entry("active", 10, 1), entry("idle", 10, 2)];
    let protected = ["active".to_string()];
    let order = eviction_order(&entries, &h, &protected);
    assert_eq!(order.len(), 1);
    assert_eq!(order[0].name, "idle");
}

#[test]
fn plan_evicts_only_until_the_budget_is_met() {
    let h = History::empty();
    let entries = vec![
        entry("a", 40, 1),
        entry("b", 40, 2),
        entry("c", 40, 3),
    ];
    let order = eviction_order(&entries, &h, &[]);
    // 120 used, budget 80: one eviction is enough.
    let evict = plan(&entries, &order, 80);
    assert_eq!(evict.len(), 1);
    assert_eq!(evict[0].name, "a");
}

#[test]
fn a_cache_under_budget_evicts_nothing() {
    let entries = vec![entry("a", 40, 1)];
    let order: Vec<&Entry> = entries.iter().collect();
    assert!(plan(&entries, &order, 100).is_empty());
}

#[test]
fn protected_bytes_still_count_against_the_budget() {
    let h = History::empty();
    let entries = vec![entry("active", 90, 1), entry("idle", 20, 2)];
    let protected = ["active".to_string()];
    let order = eviction_order(&entries, &h, &protected);
    // 110 used, budget 100: the idle entry must go even though the active
    // one is the elephant.
    let evict = plan(&entries, &order, 100);
    assert_eq!(evict.len(), 1);
    assert_eq!(evict[0].name, "idle");
}

#[test]
fn episode_markers_parse_from_release_names() {
    assert_eq!(episode_of("Show.S02E05.1080p"), Some((2, 5)));
    assert_eq!(episode_of("show s2e5 x265"), Some((2, 5)));
    assert_eq!(episode_of("Show.Season.2.Complete"), None);
    assert_eq!(episode_of("Movie.2019.1080p"), None);
}


#[test]
fn a_zero_budget_disables_pruning() {
    let entries = vec![entry("a", 40, 1)];
    let evict = prune(&entries, 0, &History::empty(), &[], &[]);
    assert!(evict.is_empty());
}

#[test]
fn pruning_respects_protection_and_budget() {
    // Three 1 MB entries of distinct ages; the oldest is playing.
    let entries = vec![
        entry("one", 1_000_000, 1_000),
        entry("two", 1_000_000, 2_000),
        entry("three", 1_000_000, 3_000),
    ];
    let protected = ["one".to_string()];
    // Budget of 1.5 MB: two entries must go, and they must be the unprotected
    // ones, whichever of the two lists protects.
    let evict = prune(&entries, 1_500_000, &History::empty(), &[], &protected);
    let evicted: Vec<&str> = evict.iter().map(|e| e.name.as_str()).collect();
    assert_eq!(evicted, vec!["two", "three"]);
    let evict = prune(&entries, 1_500_000, &History::empty(), &protected, &[]);
    assert_eq!(evict.len(), 2);
    let done = report(&entries, &evict, &[true, false]);
    assert_eq!(done.evicted, vec![("two".to_string(), 1_000_000)]);
    assert_eq!(done.freed, 1_000_000);
    assert_eq!(done.used_after, 2_000_000);
}

#[test]
fn clearing_spares_what_is_locked() {
    let entries = vec![entry("a", 1, 1), entry("b", 2, 2)];
    let gone = clear(&entries, &["a".to_string()]);
    assert_eq!(gone.len(), 1);
    assert_eq!(gone[0].name, "b");
}

#[test]
fn locks_are_read_back() {
    let lock = lock_in("{\"pid\": 4242, \"names\": [\"A\", 7, \"B\"]}").unwrap();
    assert_eq!(lock.pid, 4242);
    assert_eq!(lock.names, vec!["A".to_string(), "B".to_string()]);
    // A file that is not JSON is no lock; one without a pid is nobody's.
    assert!(lock_in("{\"pid\": 4242,").is_none());
    let lock = lock_in("[]").unwrap();
    assert_eq!(lock.pid, 0);
    assert!(lock.names.is_empty());
    let written = lock_json(7, &vec!["x".to_string()]);
    let read = lock_of(&written);
    assert_eq!(read.pid, 7);
    assert_eq!(read.names, vec!["x".to_string()]);
}

#[test]
fn lock_names_are_told_apart() {
    assert!(is_lock_name(&active_name(77)));
    assert!(!is_lock_name("Movie.2019"));
    assert!(!is_lock_name(".active-1.txt"));
}

#[test]
fn the_budget_comes_from_the_flag_first() {
    let gb: u64 = 1024 * 1024 * 1024;
    assert_eq!(budget_bytes(Some(3), Some(5)), 3 * gb);
    assert_eq!(budget_bytes(None, Some(5)), 5 * gb);
    assert_eq!(budget_bytes(Some(0), Some(5)), 0);
}

#[test]
fn labels_and_ranks_of_watch_states() {
    assert_eq!(WatchState::Finished.label(), "finished");
    assert!(WatchState::Finished.rank() < WatchState::Unknown.rank());
    assert!(WatchState::Unknown.rank() < WatchState::PartWatched.rank());
}

#[test]
fn dashed_episode_markers_count_as_well() {
    assert_eq!(episode_of("Show 2x05 720p"), Some((2, 5)));
}
