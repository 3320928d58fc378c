use dekho::engine::{
    already_here, download_dir, Engine, Probe, Probing, Read, TorrentFile, PROBE_BUDGET,
    REPORT_EVERY,
};
use dekho::xdg::Environment;

const SECOND: u64 = 1_000_000_000;

fn file(idx: usize, name: &str, len: u64) -> TorrentFile {
    TorrentFile { idx, name: name.into(), len }
}

#[test]
fn a_file_on_disk_in_full_needs_no_probe() {
    let files = vec![file(0, "a.mkv", 100), file(1, "b.mkv", 0)];
    assert_eq!(
        already_here(&files, 0, 100),
        Some(Probe::Ready { rate_bps: 0, buffered: 100, from_cache: true })
    );
    assert_eq!(already_here(&files, 0, 99), None);
    assert_eq!(already_here(&files, 1, 5), None, "an empty file proves nothing");
    assert_eq!(already_here(&files, 7, 5), None);
}

#[test]
fn a_steady_swarm_is_ready_once_it_was_watched_long_enough() {
    // 8 Mbps asks for 10 Mbps, and for a slab of 45 MB.
    let mut p = Probing::new(Some(8_000_000), None, 0);
    assert_eq!(p.target, 45_000_000);
    assert_eq!(p.needed, Some(10_000_000));
    let mut now = 0;
    let mut outcome = None;
    while outcome.is_none() {
        now += SECOND / 4;
        assert!(p.check(now, 5, 9).is_none(), "at {now}");
        // 16 Mbps.
        let step = p.advance(Read::Bytes(500_000), now, 5, 9);
        outcome = step.outcome;
    }
    // 45 MB at 2 MB a second; the first quarter second began the measurement.
    assert_eq!(now, 90 * SECOND / 4);
    match outcome {
        Some(Ok(Probe::Ready { rate_bps, buffered, from_cache })) => {
            assert_eq!(buffered, 45_000_000);
            assert_eq!(rate_bps, 16_000_000);
            assert!(!from_cache);
        }
        other => panic!("got {other:?}"),
    }
}

#[test]
fn a_swarm_that_stalls_is_given_up() {
    let mut p = Probing::new(Some(8_000_000), None, 0);
    let mut now = SECOND;
    p.advance(Read::Bytes(10_000_000), now, 3, 4);
    let mut gave_up = None;
    while gave_up.is_none() {
        now += SECOND / 4;
        gave_up = p.check(now, 3, 4);
        if gave_up.is_none() {
            assert!(p.advance(Read::Tick, now, 3, 4).outcome.is_none());
        }
        assert!(now < PROBE_BUDGET, "abandoned early, long before the budget");
    }
    match gave_up {
        Some(Probe::TooSlow { buffered, live_peers, seen_peers, .. }) => {
            assert_eq!(buffered, 10_000_000);
            assert_eq!((live_peers, seen_peers), (3, 4));
        }
        other => panic!("got {other:?}"),
    }
}

#[test]
fn without_peers_the_whole_base_budget_is_waited() {
    let mut p = Probing::new(Some(8_000_000), None, 0);
    p.advance(Read::Bytes(1), SECOND, 0, 4);
    assert!(p.check(PROBE_BUDGET - 1, 0, 4).is_none());
    assert!(p.check(PROBE_BUDGET, 0, 4).is_some());
}

#[test]
fn a_cached_slab_plays_at_once_but_is_no_measurement() {
    let mut p = Probing::new(Some(8_000_000), None, 50_000_000);
    let step = p.advance(Read::Bytes(45_000_000), 1_000_000, 2, 3);
    assert_eq!(step.reports.len(), 1);
    assert_eq!(step.reports[0].buffered, 45_000_000);
    match step.outcome {
        Some(Ok(Probe::Ready { rate_bps, buffered, from_cache })) => {
            assert_eq!((rate_bps, buffered, from_cache), (0, 45_000_000, true));
        }
        other => panic!("got {other:?}"),
    }
    // Bytes from the disk, short of the slab, measure nothing.
    let mut p = Probing::new(Some(8_000_000), None, 40_000_000);
    p.advance(Read::Bytes(30_000_000), 1_000_000, 2, 3);
    assert_eq!(p.measuring, None);
    assert_eq!(p.rate, 0);
}

#[test]
fn the_end_of_the_file_is_ready_and_a_failure_is_told() {
    let mut p = Probing::new(None, None, 0);
    p.advance(Read::Bytes(7), SECOND, 1, 1);
    match p.advance(Read::Eof, 2 * SECOND, 1, 1).outcome {
        Some(Ok(Probe::Ready { buffered, from_cache, .. })) => {
            assert_eq!(buffered, 7);
            assert!(!from_cache);
        }
        other => panic!("got {other:?}"),
    }
    match p.advance(Read::Failed("reset".into()), 3 * SECOND, 1, 1).outcome {
        Some(Err(why)) => assert_eq!(why, "reset"),
        other => panic!("got {other:?}"),
    }
}

#[test]
fn readings_come_no_more_often_than_they_should() {
    let mut p = Probing::new(Some(8_000_000), None, 0);
    assert!(p.advance(Read::Bytes(1), REPORT_EVERY - 1, 1, 1).reports.is_empty());
    let step = p.advance(Read::Bytes(1), REPORT_EVERY, 1, 1);
    assert_eq!(step.reports.len(), 1);
    assert_eq!(step.reports[0].buffered, 2);
    assert!(p.advance(Read::Tick, REPORT_EVERY + 1, 1, 1).reports.is_empty());
}

#[test]
fn a_session_knows_what_it_is_writing() {
    let mut e = Engine::new("http://127.0.0.1:4242".to_string());
    assert_eq!(e.stream_url(3, 12), "http://127.0.0.1:4242/torrents/3/stream/12");
    assert!(e.active_names().is_empty());
    e.mark_active(3, &vec![file(0, "Show.S01/e1.mkv", 1), file(1, "Show.S01/e2.mkv", 1)]);
    e.mark_active(4, &vec![file(0, "Film.mkv", 1), file(1, "", 1), file(2, "Show.S01/x", 1)]);
    let mut names = e.active_names();
    names.sort();
    assert_eq!(names, vec!["Film.mkv".to_string(), "Show.S01".to_string()]);
    e.forget(4);
    assert_eq!(e.active_names(), vec!["Show.S01".to_string()]);
    e.mark_active(3, &vec![file(0, "Other", 1)]);
    assert_eq!(e.active_names(), vec!["Other".to_string()]);
    e.forget(9);
    e.forget(3);
    assert!(e.active_names().is_empty());
}

#[test]
fn downloads_go_to_the_cache_directory() {
    let mut env = Environment {
        xdg_config_home: None,
        xdg_cache_home: Some("/c".into()),
        xdg_state_home: None,
        home: Some("/home/u".into()),
        temp_dir: "/tmp".into(),
    };
    assert_eq!(download_dir(&env), "/c/dekho");
    env.xdg_cache_home = Some(String::new());
    assert_eq!(download_dir(&env), "/home/u/.cache/dekho");
    env.home = None;
    assert_eq!(download_dir(&env), "/tmp/dekho");
}
