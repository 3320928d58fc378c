use dekho::history::{History, Watch, MAX_ENTRIES};

fn episode_watch(episode: u32, next: Option<(u32, &str)>) -> Watch {
    Watch {
        id: 1396,
        kind: "tv",
        title: "Breaking Bad".into(),
        year: "2008".into(),
        poster: "/ggFH.jpg".into(),
        backdrop: "/tsRy.jpg".into(),
        season: Some(2),
        episode: Some(episode),
        episode_name: Some(format!("Episode {episode}")),
        next: next.map(|(n, name)| (n, name.to_string())),
    }
}

fn movie_watch(id: u32) -> Watch {
    Watch {
        id,
        kind: "movie",
        title: format!("Movie {id}"),
        year: "1999".into(),
        poster: String::new(),
        backdrop: String::new(),
        season: None,
        episode: None,
        episode_name: None,
        next: None,
    }
}

#[test]
fn finishing_an_episode_advances_to_the_next_one() {
    let mut h = History::empty();
    h.record(&episode_watch(5, Some((6, "Peekaboo"))), 2_600, 2_760, 100);
    let e = h.entry(1396, "tv").unwrap();
    assert_eq!(e.episode, Some(6));
    assert_eq!(e.episode_name.as_deref(), Some("Peekaboo"));
    assert_eq!(e.position, 0);
    assert!(!e.finished, "the next episode has not been watched");
}

#[test]
fn the_last_episode_of_a_season_stays_finished() {
    let mut h = History::empty();
    h.record(&episode_watch(13, None), 2_600, 2_760, 100);
    let e = h.entry(1396, "tv").unwrap();
    assert_eq!(e.episode, Some(13));
    assert!(e.finished);
}

#[test]
fn ninety_percent_is_finished_and_anything_less_is_not() {
    let mut h = History::empty();
    // 89% — still watching.
    h.record(&movie_watch(550), 8_900, 10_000, 100);
    assert!(!h.entry(550, "movie").unwrap().finished);
    h.record(&movie_watch(550), 9_000, 10_000, 200);
    assert!(h.entry(550, "movie").unwrap().finished);
}

#[test]
fn a_finished_movie_stays_in_the_list() {
    let mut h = History::empty();
    h.record(&movie_watch(550), 9_900, 10_000, 100);
    assert_eq!(h.items.len(), 1);
    assert!(h.entry(550, "movie").unwrap().finished);
}

#[test]
fn an_unknown_duration_reports_no_progress() {
    let mut h = History::empty();
    h.record(&movie_watch(550), 300, 0, 100);
    let e = h.entry(550, "movie").unwrap();
    assert_eq!(f64::from_bits(e.progress().bits()), 0.0);
    assert!(!e.finished);
}

#[test]
fn the_last_minute_does_not_resume() {
    let mut h = History::empty();
    // 41 seconds left: finished, whatever the percentage says.
    h.record(&movie_watch(550), 9_959, 10_000, 100);
    assert_eq!(h.entry(550, "movie").unwrap().resume_position(), None);

    // Exactly 60 seconds left is inside the window too.
    h.record(&movie_watch(551), 9_940, 10_000, 100);
    assert_eq!(h.entry(551, "movie").unwrap().resume_position(), None);

    // 61 seconds left is still worth resuming.
    h.record(&movie_watch(552), 9_939, 10_000, 100);
    assert_eq!(
        h.entry(552, "movie").unwrap().resume_position(),
        Some(9_939)
    );
}

#[test]
fn a_title_never_started_has_nowhere_to_resume() {
    let mut h = History::empty();
    h.record(&movie_watch(550), 0, 10_000, 100);
    assert_eq!(h.entry(550, "movie").unwrap().resume_position(), None);
}

#[test]
fn one_entry_per_title_however_many_episodes() {
    let mut h = History::empty();
    h.record(&episode_watch(1, Some((2, "Two"))), 60, 2_760, 100);
    h.record(&episode_watch(2, Some((3, "Three"))), 60, 2_760, 200);
    assert_eq!(h.items.len(), 1);
    assert_eq!(h.entry(1396, "tv").unwrap().episode, Some(2));
}

#[test]
fn the_file_is_capped_at_a_hundred_entries_least_recent_first() {
    let mut h = History::empty();
    for i in 0..120u32 {
        h.record(&movie_watch(i), 60, 10_000, 1_000 + i as u64);
    }
    assert_eq!(h.items.len(), MAX_ENTRIES);
    assert_eq!(h.items[0].id, 119, "newest first");
    assert!(h.entry(19, "movie").is_none(), "the oldest are dropped");
    assert!(h.entry(20, "movie").is_some());
}

#[test]
fn recent_returns_newest_first() {
    let mut h = History::empty();
    h.record(&movie_watch(1), 60, 10_000, 100);
    h.record(&movie_watch(2), 60, 10_000, 300);
    h.record(&movie_watch(3), 60, 10_000, 200);
    let ids: Vec<u32> = h.recent(2).iter().map(|e| e.id).collect();
    assert_eq!(ids, vec![2, 3]);
}
