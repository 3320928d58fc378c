use dekho::float::Float;
use dekho::history::Entry;
use dekho::player::{Event, QueueWhen};
use dekho::series::{
    choose_episode, choose_season, episode_label, find_episode, following, movie_label, seek,
    start_position, Queue, SeasonChoice, SeriesError, Stage,
};
use dekho::tmdb::{Episode, Season};

fn season(number: u32) -> Season {
    Season {
        number,
        episode_count: 3,
        name: format!("Season {number}"),
        poster: String::new(),
        year: String::new(),
    }
}

fn episode(number: u32) -> Episode {
    Episode {
        season: 2,
        number,
        name: format!("Part {number}"),
        runtime_secs: 2700,
        overview: String::new(),
        still: String::new(),
        air_date: String::new(),
        vote: Float { bits: 0 },
    }
}

#[test]
fn a_season_is_taken_asked_for_or_missing() {
    let two = vec![season(1), season(4)];
    assert_eq!(choose_season(&two, Some(4)), SeasonChoice::Take(1));
    assert_eq!(choose_season(&two, Some(2)), SeasonChoice::Missing(2));
    assert_eq!(choose_season(&two, None), SeasonChoice::Ask);
    assert_eq!(choose_season(&vec![season(3)], None), SeasonChoice::Take(0));
}

#[test]
fn an_episode_is_found_by_its_number() {
    let list = vec![episode(4), episode(5), episode(5)];
    assert_eq!(find_episode(&list, 5), Some(1));
    assert_eq!(find_episode(&list, 9), None);
    assert_eq!(choose_episode(&list, 2, Some(5)), Ok(Some(1)));
    assert_eq!(choose_episode(&list, 2, None), Ok(None));
    assert_eq!(
        choose_episode(&list, 2, Some(9)),
        Err(SeriesError::NoEpisode { season: 2, episode: 9 })
    );
    assert_eq!(
        choose_episode(&Vec::new(), 2, Some(9)),
        Err(SeriesError::NoEpisodes { season: 2 })
    );
}

#[test]
fn what_is_missing_is_named() {
    assert_eq!(SeriesError::NoSeason { season: 7 }.message("Show"), "Show has no season 7");
    assert_eq!(
        SeriesError::NoEpisodes { season: 7 }.message("Show"),
        "TMDB lists no episodes for season 7"
    );
    assert_eq!(
        SeriesError::NoEpisode { season: 7, episode: 9 }.message("Show"),
        "season 7 has no episode 9"
    );
}

#[test]
fn titles_carry_their_year() {
    assert_eq!(movie_label("Fight Club", "1999"), "Fight Club (1999)");
    assert_eq!(movie_label("Fight Club", ""), "Fight Club");
    assert_eq!(
        episode_label("Show", "2008", &episode(5)),
        "Show (2008) — S02E05  Part 5"
    );
    assert_eq!(episode_label("Show", "", &episode(15)), "Show — S02E15  Part 15");
    assert_eq!(season(2).line(), "Season 2 (3 episodes)");
    let mut one = season(3);
    one.episode_count = 1;
    assert_eq!(one.line(), "Season 3 (1 episode)");
}

#[test]
fn one_episode_is_queued_ahead() {
    let list: Vec<Episode> = (1..=4).map(episode).collect();
    let (first, mut q) = Queue::start(list, 1);
    assert_eq!(first.number, 2);
    assert_eq!(q.wanted().unwrap().number, 3);
    q.queued();
    assert!(q.wanted().is_none(), "nothing more until the player moves on");
    q.heard(&Some(Event::StartFile));
    assert_eq!(q.wanted().unwrap().number, 4);
    q.queued();
    q.heard(&Some(Event::StartFile));
    assert!(q.wanted().is_none(), "the season is over");
    assert!(!q.is_done(), "but its last episode plays");
    q.heard(&Some(Event::EndFile { reason: "eof".into() }));
    assert!(q.is_done());
}

#[test]
fn an_episode_that_cannot_be_played_is_skipped() {
    let list: Vec<Episode> = (1..=3).map(episode).collect();
    let (_, mut q) = Queue::start(list, 0);
    q.skipped();
    assert_eq!(q.wanted().unwrap().number, 3);
    q.skipped();
    assert!(q.wanted().is_none());
    assert_eq!(q.stage, Stage::Preparing);
}

#[test]
fn quitting_ends_the_queue() {
    let fresh = || Queue::start((1..=3).map(episode).collect(), 0).1;
    let mut q = fresh();
    q.heard(&Some(Event::EndFile { reason: "quit".into() }));
    assert!(q.is_done());
    let mut q = fresh();
    q.heard(&Some(Event::EndFile { reason: "eof".into() }));
    assert!(!q.is_done(), "there is more to come");
    let mut q = fresh();
    q.heard(&Some(Event::Idle));
    assert!(q.is_done());
    let mut q = fresh();
    q.heard(&None);
    assert!(q.is_done());
    let mut q = fresh();
    q.exited();
    assert!(q.is_done());
    assert!(q.wanted().is_none());
}

#[test]
fn finishing_leads_to_the_next_in_the_season() {
    let list = vec![episode(4), episode(5), episode(7)];
    assert_eq!(following(&list, 5), Some((7, "Part 7".to_string())));
    assert_eq!(following(&list, 7), None, "the season is over");
    assert_eq!(following(&list, 9), None);
    assert_eq!(following(&Vec::new(), 1), None);
}

fn stopped(season: u32, number: u32, position: u64) -> Option<Entry> {
    Some(Entry {
        id: 1,
        kind: "tv".into(),
        title: "Show".into(),
        year: String::new(),
        poster: String::new(),
        backdrop: String::new(),
        season: Some(season),
        episode: Some(number),
        episode_name: None,
        position,
        duration: 2700,
        finished: false,
        updated: 9,
    })
}

#[test]
fn a_show_goes_on_in_the_episode_it_stopped_in() {
    let at = stopped(2, 5, 600);
    assert_eq!(seek(None, None, &at), (Some(2), Some(5)));
    assert_eq!(seek(None, Some(7), &at), (Some(2), Some(7)), "asking outranks memory");
    assert_eq!(seek(Some(2), None, &at), (Some(2), Some(5)));
    assert_eq!(seek(Some(3), None, &at), (Some(3), None), "another season starts anywhere");
    assert_eq!(seek(Some(3), Some(1), &None), (Some(3), Some(1)));
    assert_eq!(seek(None, None, &None), (None, None));
}

#[test]
fn a_position_belongs_to_its_own_episode() {
    let at = stopped(2, 5, 600);
    assert_eq!(start_position(&at, &episode(5)), Some(600));
    assert_eq!(start_position(&at, &episode(6)), None);
    assert_eq!(start_position(&stopped(3, 5, 600), &episode(5)), None);
    assert_eq!(start_position(&stopped(2, 5, 2650), &episode(5)), None, "in its last minute");
    assert_eq!(start_position(&None, &episode(5)), None);
}

#[test]
fn nothing_is_measured_between_two_files() {
    let list: Vec<Episode> = (1..=3).map(episode).collect();
    let (_, mut q) = Queue::start(list, 0);
    assert!(q.is_due(QueueWhen::Auto, None, true));
    assert!(!q.is_due(QueueWhen::Auto, None, false));
    q.queued();
    q.heard(&Some(Event::EndFile { reason: "eof".into() }));
    assert_eq!(q.wanted().unwrap().number, 3);
    assert!(!q.is_due(QueueWhen::Auto, None, true), "what was on disk is off screen");
    assert!(q.is_due(QueueWhen::Immediate, None, false));
    q.heard(&Some(Event::StartFile));
    assert!(q.is_due(QueueWhen::Auto, None, true));
}
