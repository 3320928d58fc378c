use dekho::audio::detect;
use dekho::engine::{Engine, Probe, ProbeStatus, TorrentFile};
use dekho::pick::{attempt_order, DualPreference, Filters, MAX_ATTEMPTS};
use dekho::link::{Ceiling, Link};
use dekho::session::{
    adapted_line, attempts, buffering_line, dry_run_lines, dual_preference, found_line,
    link_sample, play_filters, probed_line, query_of, shortlist, trying_line, unreachable_line,
    Move, NoRelease, Playable, Resolver, Stage,
};
use dekho::sources::{combine, info_hash_of, Lookup};
use dekho::torrentio::{build_magnet, Candidate, Quality};

fn release(hash: &str, quality: Quality, gb: u64, seeders: u32, name: &str) -> Candidate {
    Candidate {
        quality,
        title: name.into(),
        size_bytes: Some(gb * 1024 * 1024 * 1024),
        seeders,
        file_idx: None,
        magnet: build_magnet(hash, name, None),
        audio: detect(name),
    }
}

fn three() -> Vec<Candidate> {
    vec![
        release("aaa", Quality::P2160, 18, 40, "Film 2160p"),
        release("bbb", Quality::P1080, 8, 400, "Film 1080p Dual Audio Hindi English"),
        release("ccc", Quality::P720, 4, 900, "Film 720p"),
    ]
}

fn files() -> Vec<TorrentFile> {
    vec![
        TorrentFile { idx: 0, name: "Film/readme.txt".into(), len: 1 },
        TorrentFile { idx: 1, name: "Film/film.mkv".into(), len: 1_000 },
    ]
}

fn too_slow(rate_bps: u64) -> Probe {
    Probe::TooSlow { rate_bps, buffered: 1_048_576, live_peers: 2, seen_peers: 7 }
}

const HOURS: u32 = 7200;

#[test]
fn the_first_release_to_clear_the_bar_is_played() {
    let list = three();
    let engine = Engine::new("http://h".into());
    let order = attempt_order(&list, MAX_ATTEMPTS);
    let (mut walk, turn) = Resolver::start(order, "Film (1999)".into(), HOURS, None, None);
    assert!(turn.forget.is_empty());
    assert_eq!(turn.say, vec!["Trying 4K · 18 GB · 40 seeders · needs 21.5 Mbps".to_string()]);
    match turn.act {
        Move::Add(m) => assert_eq!(m, list[0].magnet),
        other => panic!("got {other:?}"),
    }
    let turn = walk.added(5, &files(), &engine);
    match turn.act {
        Move::Probe { torrent_id, file_idx, url, needed } => {
            assert_eq!((torrent_id, file_idx), (5, 1));
            assert_eq!(url, "http://h/torrents/5/stream/1");
            assert_eq!(needed, list[0].required_bps(HOURS));
        }
        other => panic!("got {other:?}"),
    }
    // Too slow: it is kept as the fallback, and the next is tried.
    let turn = walk.probed(too_slow(9_000_000));
    assert!(turn.forget.is_empty());
    assert_eq!(
        turn.say[0],
        "   too slow · 9.0 Mbps sustained, 1.0 MB buffered, 2 peers (7 known) \
         — trying a lighter release"
    );
    assert_eq!(
        turn.say[1],
        "Trying 1080p · 8.0 GB · 400 seeders · Dual Hindi+English · needs 9.5 Mbps"
    );
    walk.added(6, &files(), &engine);
    let turn = walk.probed(Probe::Ready {
        rate_bps: 12_000_000,
        buffered: 50_000_000,
        from_cache: false,
    });
    assert_eq!(turn.forget, vec![5], "the also-ran is dropped");
    assert_eq!(turn.say, vec!["   ready · 48 MB buffered at 12.0 Mbps".to_string()]);
    match turn.act {
        Move::Play(p) => {
            assert_eq!(p.title, "Film (1999)");
            assert_eq!(p.url, "http://h/torrents/6/stream/1");
            assert_eq!(p.torrent_id, 6);
            assert_eq!(p.bitrate, list[1].required_bps(HOURS));
        }
        other => panic!("got {other:?}"),
    }
}

#[test]
fn when_none_clears_it_the_fastest_is_played() {
    let list = three();
    let engine = Engine::new("http://h".into());
    let order = attempt_order(&list, MAX_ATTEMPTS);
    let (mut walk, _) = Resolver::start(order, "Film".into(), HOURS, None, None);
    walk.added(1, &files(), &engine);
    assert!(walk.probed(too_slow(3_000_000)).forget.is_empty());
    walk.added(2, &files(), &engine);
    assert_eq!(walk.probed(too_slow(8_000_000)).forget, vec![1], "slower, so it goes");
    walk.added(3, &files(), &engine);
    let turn = walk.probed(too_slow(5_000_000));
    assert_eq!(turn.forget, vec![3]);
    assert_eq!(
        turn.say[1],
        "⚠  No release cleared the smoothness check. Playing the fastest one (8.0 Mbps sustained) \
         — it may buffer."
    );
    match turn.act {
        Move::Play(p) => {
            assert_eq!(p.torrent_id, 2);
            assert_eq!(p.title, "Film [Film/film.mkv]");
        }
        other => panic!("got {other:?}"),
    }
    assert!(matches!(walk.stage, Stage::Over));
}

#[test]
fn a_walk_that_can_start_nothing_says_so() {
    let list = three();
    let engine = Engine::new("http://h".into());
    let order = attempt_order(&list, MAX_ATTEMPTS);
    let (mut walk, _) = Resolver::start(order, "Film".into(), HOURS, None, None);
    let turn = walk.not_added("no metadata");
    assert_eq!(turn.say[0], "   could not add: no metadata");
    assert!(turn.forget.is_empty());
    let turn = walk.added(8, &Vec::new(), &engine);
    assert_eq!(turn.say[0], "   no playable file: the torrent contains no files");
    assert_eq!(turn.forget, vec![8]);
    walk.added(9, &files(), &engine);
    let turn = walk.probe_failed("timed out");
    assert_eq!(turn.say[0], "   probe failed: timed out");
    assert_eq!(turn.forget, vec![9]);
    match turn.act {
        Move::GiveUp(why) => assert_eq!(
            why,
            "could not stream Film: no release could be started. Try -q 1080p or --min-seeders 1."
        ),
        other => panic!("got {other:?}"),
    }
}

#[test]
fn an_empty_order_gives_up_at_once() {
    let (walk, turn) = Resolver::start(Vec::new(), "Film".into(), HOURS, None, None);
    assert!(matches!(turn.act, Move::GiveUp(_)));
    assert!(matches!(walk.stage, Stage::Over));
}

#[test]
fn a_season_pack_is_probed_at_the_episode() {
    let list = vec![release("aaa", Quality::P1080, 20, 50, "Show S02")];
    let engine = Engine::new("b".into());
    let order = attempt_order(&list, MAX_ATTEMPTS);
    let (mut walk, _) = Resolver::start(order, "Show".into(), 2700, Some(2), Some(5));
    let pack = vec![
        TorrentFile { idx: 0, name: "Show.S02E04.mkv".into(), len: 100 },
        TorrentFile { idx: 1, name: "Show.S02E05.mkv".into(), len: 90 },
    ];
    match walk.added(1, &pack, &engine).act {
        Move::Probe { file_idx, .. } => assert_eq!(file_idx, 1),
        other => panic!("got {other:?}"),
    }
}

fn filters(dual: DualPreference) -> Filters {
    Filters {
        max_quality: Quality::P2160,
        max_bitrate: 40_000_000,
        min_seeders: 4,
        dual,
        link_bps: None,
    }
}

#[test]
fn the_shortlist_says_why_it_is_empty() {
    assert_eq!(
        shortlist(Vec::new(), &filters(DualPreference::Ignore), HOURS).unwrap_err(),
        NoRelease::NoneFound
    );
    let hopeless = vec![release("aaa", Quality::P1080, 8, 1, "Film")];
    let e = shortlist(hopeless, &filters(DualPreference::Ignore), HOURS).unwrap_err();
    assert_eq!(e, NoRelease::NoneFit { found: 1, dual_only: false });
    assert_eq!(
        e.message("Film"),
        "none of the 1 releases for Film fit the filters \
         (try a higher --max-bitrate, a lower --min-seeders, or -q 1080p)"
    );
    let plain = vec![release("aaa", Quality::P1080, 8, 50, "Film")];
    let e = shortlist(plain, &filters(DualPreference::Only), HOURS).unwrap_err();
    assert_eq!(
        e.message("Film"),
        "none of the 1 releases for Film fit the filters — no dual-audio release exists for this \
         title, so drop --dual-only or use --dual"
    );
    assert_eq!(NoRelease::NoneFound.message("Film"), "no indexer has a release for Film");
    let ok = shortlist(three(), &filters(DualPreference::Ignore), HOURS).unwrap();
    assert_eq!(ok[0].quality, Quality::P2160);
}

fn lookup(failed: bool) -> Lookup {
    combine(Some(three()), if failed { None } else { Some(three()) })
}

#[test]
fn a_lookup_is_summed_up() {
    let l = lookup(false);
    assert_eq!(
        found_line(&l),
        "3 releases (Torrentio 3, apibay 3, 3 shared) · 1 dual audio"
    );
    assert_eq!(unreachable_line(&l), None);
    assert_eq!(
        unreachable_line(&lookup(true)).unwrap(),
        "⚠  apibay unreachable — searching without it"
    );
    let none = combine(None, None);
    assert_eq!(
        unreachable_line(&none).unwrap(),
        "⚠  Torrentio and apibay unreachable — searching without it"
    );
    assert_eq!(none.failed, vec!["Torrentio", "apibay"]);
}

#[test]
fn an_attempt_without_a_size_is_described_too() {
    let mut c = release("aaa", Quality::Sd, 1, 7, "Film");
    c.size_bytes = None;
    assert_eq!(trying_line(&c, HOURS), "Trying SD · size unknown · 7 seeders");
}

#[test]
fn readings_are_written_for_one_peer_and_for_many() {
    let mut s = ProbeStatus { buffered: 2048, rate_bps: 1_500_000, live_peers: 1, seen_peers: 3 };
    assert_eq!(buffering_line(&s), "   buffering 2.0 KB · 1.5 Mbps · 1 peer (3 known)");
    s.live_peers = 0;
    assert_eq!(buffering_line(&s), "   buffering 2.0 KB · 1.5 Mbps · 0 peers (3 known)");
    let ready = Probe::Ready { rate_bps: 0, buffered: 0, from_cache: true };
    assert_eq!(probed_line(&ready), "   ready · 0 B buffered at 0.0 Mbps");
}

#[test]
fn a_dry_run_says_what_would_play() {
    let mut p = Playable {
        url: "http://h".into(),
        title: "Film".into(),
        bitrate: Some(9_540_000),
        torrent_id: 1,
    };
    assert_eq!(
        dry_run_lines(&p),
        vec!["would play: Film", "stream:     http://h", "bitrate:    9.5 Mbps"]
    );
    p.bitrate = None;
    assert_eq!(dry_run_lines(&p)[2], "bitrate:    unknown");
}

#[test]
fn flags_become_filters() {
    let ignore = DualPreference::Ignore;
    let (f, c) = play_filters("1080p", Some(40), 4, ignore, &Link::empty()).unwrap();
    assert_eq!(f.max_quality, Quality::P1080);
    assert_eq!(f.max_bitrate, 40_000_000);
    assert_eq!(f.min_seeders, 4);
    assert_eq!(f.dual, ignore);
    assert_eq!(f.link_bps, None);
    assert_eq!(c, Ceiling::Flag(40_000_000));
    let (f, _) = play_filters("4k", Some(u64::MAX), 0, ignore, &Link::empty()).unwrap();
    assert_eq!(f.max_bitrate, u64::MAX);
    assert!(play_filters("potato", Some(1), 0, ignore, &Link::empty()).is_none());
}

#[test]
fn a_slow_link_lowers_the_ceiling_and_says_so() {
    let slow = Link { version: 1, ewma_bps: 5_500_000, samples: 3, updated: 1 };
    let (f, c) = play_filters("4k", None, 4, DualPreference::Prefer, &slow).unwrap();
    assert_eq!(f.max_bitrate, 4_400_000);
    assert_eq!(f.link_bps, Some(5_500_000));
    assert_eq!(f.dual, DualPreference::Prefer);
    assert_eq!(
        adapted_line(&c).unwrap(),
        "Link measures 5.5 Mbps over 3 sessions — releases capped at 4.4 Mbps"
    );
    // The flag always wins.
    let (f, c) = play_filters("4k", Some(25), 4, DualPreference::Ignore, &slow).unwrap();
    assert_eq!(f.max_bitrate, 25_000_000);
    assert_eq!(adapted_line(&c), None);
}

#[test]
fn flags_outrank_the_config_on_dual_audio() {
    assert_eq!(dual_preference(false, false, false, None), Some(DualPreference::Ignore));
    assert_eq!(dual_preference(true, false, false, None), Some(DualPreference::Prefer));
    assert_eq!(dual_preference(false, true, false, None), Some(DualPreference::Only));
    assert_eq!(dual_preference(false, false, false, Some(" Only ")), Some(DualPreference::Only));
    assert_eq!(dual_preference(true, false, false, Some("only")), Some(DualPreference::Prefer));
    assert_eq!(dual_preference(false, false, true, Some("only")), Some(DualPreference::Ignore));
    assert_eq!(dual_preference(false, false, false, Some("maybe")), None);
}

#[test]
fn what_played_last_time_is_tried_first() {
    let mut list = three();
    for i in 0..6 {
        list.push(release(&format!("x{i}"), Quality::P480, 1, 9, "Film 480p"));
    }
    let hash = |c: &Candidate| info_hash_of(&c.magnet);
    let plain = attempts(&list, DualPreference::Ignore, None);
    assert_eq!(plain.len(), MAX_ATTEMPTS);
    assert_eq!(hash(plain[0]), "aaa");
    // Even from behind those that would be tried.
    let order = attempts(&list, DualPreference::Ignore, Some("x5"));
    assert_eq!(order.len(), MAX_ATTEMPTS);
    assert_eq!(hash(order[0]), "x5");
    assert_eq!(hash(order[1]), "aaa");
    assert_eq!(hash(attempts(&list, DualPreference::Ignore, Some("gone"))[0]), "aaa");
}

#[test]
fn only_real_traffic_is_a_sample() {
    let ready = |from_cache: bool| Probe::Ready { rate_bps: 7, buffered: 1, from_cache };
    assert_eq!(link_sample(&ready(false)), Some(7));
    assert_eq!(link_sample(&ready(true)), None);
    assert_eq!(link_sample(&too_slow(3)), Some(3));
}

#[test]
fn words_become_a_query() {
    let words = vec!["fight".to_string(), "club".to_string()];
    assert_eq!(query_of(&words).unwrap(), "fight club");
    assert_eq!(query_of(&Vec::new()), None);
    assert_eq!(query_of(&vec![" ".to_string(), "\t".to_string()]), None);
}

#[test]
fn a_remembered_release_does_not_outrank_the_dual_audio_asked_for() {
    let mut list = three();
    list.swap(0, 1);
    let hash = |c: &Candidate| info_hash_of(&c.magnet);
    let first = |dual: DualPreference, h: &str| hash(attempts(&list, dual, Some(h))[0]);
    // The dual release leads; the one that played last time is English only.
    assert_eq!(first(DualPreference::Prefer, "aaa"), "bbb");
    assert_eq!(first(DualPreference::Only, "ccc"), "bbb");
    assert_eq!(first(DualPreference::Ignore, "aaa"), "aaa");
    assert_eq!(first(DualPreference::Prefer, "bbb"), "bbb");
    // Behind one that is no better, it goes first whatever the preference.
    list.remove(0);
    assert_eq!(hash(attempts(&list, DualPreference::Prefer, Some("ccc"))[0]), "ccc");
}
