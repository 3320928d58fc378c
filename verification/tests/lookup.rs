use dekho::apibay::search_url;
use dekho::audio::{detect, Audio, Dual, Languages};
use dekho::engine::{choose_file, matches_episode, FileError, TorrentFile};
use dekho::pick::{rank_for_menu, significant_words, title_guard, words_of, DualPreference};
use dekho::history::{History, Recorder, Watch};
use dekho::player::{append, event_of, launch, track_argument, trailer, Event, QueueWhen};
use dekho::prefetch;
use dekho::prefetch::{check_size, wanted, ImageError};
use dekho::replay::promote;
use dekho::sources::combine;
use dekho::torrentio::{
    build_magnet, contains_word, display_title, parse_streams, percent_encode, streams_url,
    BehaviorHints, Candidate, Quality, RawStream, MAX_TRACKERS,
};
use dekho::json::{Json, Number};

fn stream(name: &str, title: &str, hash: &str) -> RawStream {
    RawStream {
        name: Some(name.into()),
        title: Some(title.into()),
        info_hash: Some(hash.into()),
        file_idx: Some(2),
        sources: None,
        behavior_hints: None,
    }
}

#[test]
fn an_answer_becomes_candidates_best_first() {
    let mut nameless = stream("Torrentio\n720p", "X", "");
    nameless.info_hash = None;
    let out = parse_streams(vec![
        stream("Torrentio\n720p", "Film.720p\n👤 90 💾 1 GB", "aaa"),
        stream("Torrentio\n1080p", "Film.1080p\n👤 5 💾 2 GB", "bbb"),
        stream("Torrentio\n1080p", "Film.1080p.Hindi\n👤 50 💾 2 GB", "ccc"),
        stream("Torrentio", "No hash", ""),
        nameless,
    ]);
    let seeders: Vec<u32> = out.iter().map(|c| c.seeders).collect();
    assert_eq!(seeders, vec![50, 5, 90]);
    assert_eq!(out[0].title, "Film.1080p.Hindi");
    assert_eq!(out[0].size_bytes, Some(2 * 1024 * 1024 * 1024));
    assert_eq!(out[0].file_idx, Some(2));
    assert!(out[0].audio.hindi);
    let menu = rank_for_menu(out);
    assert_eq!(menu[0].seeders, 50);
}

#[test]
fn a_stream_is_named_by_its_file_or_its_first_telling_line() {
    let mut s = stream("Torrentio\nName", "👤 5\n  Film.mkv \nrest", "a");
    assert_eq!(display_title(&s), "Film.mkv");
    s.behavior_hints = Some(BehaviorHints { filename: Some(" hint.mkv ".into()) });
    assert_eq!(display_title(&s), "hint.mkv");
    s.behavior_hints = Some(BehaviorHints { filename: Some("  ".into()) });
    s.title = Some("💾 1 GB".into());
    assert_eq!(display_title(&s), "Name");
    s.name = Some("torrentio".into());
    assert_eq!(display_title(&s), "Unknown release");
}

#[test]
fn urls_are_put_together() {
    assert_eq!(
        streams_url("tt0903747", "series", Some(2), Some(5)),
        "https://torrentio.strem.fun/stream/series/tt0903747:2:5.json"
    );
    assert!(search_url("tt1187043").contains("tt1187043"));
    assert_eq!(percent_encode("a b/é~"), "a%20b%2F%C3%A9~");
    assert!(contains_word("the 4k cut", "4k"));
    assert!(!contains_word("24kbps", "4k"));
}

#[test]
fn a_magnet_never_carries_too_many_trackers() {
    let many: Vec<String> = (0..50).map(|i| format!("tracker:udp://t{i}.org:80")).collect();
    let m = build_magnet("abc", "n", Some(&many));
    assert_eq!(m.matches("&tr=").count(), MAX_TRACKERS);
}

#[test]
fn words_are_folded_beyond_ascii() {
    let words = |s: &str| -> Vec<String> {
        words_of(s).into_iter().map(|w| w.into_iter().collect()).collect()
    };
    // Lowered and split by the rules of Unicode, not of ASCII.
    assert_eq!(words("ÉTÉ à Ω"), vec!["ete", "a", "\u{3c9}"]);
    assert_eq!(words("Don't\u{2003}Look"), vec!["dont", "look"]);
    assert_eq!(words("हिन्दी"), words("हिन्दी"));
    assert_eq!(significant_words("The Office").len(), 1);
    let c = Candidate {
        quality: Quality::P1080,
        title: "ÀMÉLIE.2001".into(),
        size_bytes: None,
        seeders: 1,
        file_idx: None,
        magnet: String::new(),
        audio: Audio::default(),
    };
    let g = title_guard(vec![c], &["Amélie"]);
    assert_eq!((g.kept.len(), g.dropped, g.fail_open), (1, 0, false));
}

#[test]
fn languages_are_listed_once_and_in_order() {
    let mut l = Languages::new();
    l.insert("Telugu");
    l.insert("Tamil");
    l.insert("Telugu");
    assert_eq!(l.len(), 2);
    assert_eq!((l.name(0), l.name(1)), ("Tamil", "Telugu"));
    assert_eq!(Dual::Likely.rank(), 1);
    assert_eq!(detect("Film Tamil Telugu").label(), "Tamil+Telugu");
}

#[test]
fn an_event_is_read_from_what_mpv_says() {
    assert!(matches!(event_of(Some("start-file"), None), Some(Event::StartFile)));
    assert!(matches!(event_of(Some("idle"), None), Some(Event::Idle)));
    match event_of(Some("end-file"), None) {
        Some(Event::EndFile { reason }) => assert_eq!(reason, "unknown"),
        other => panic!("{other:?}"),
    }
    match event_of(Some("end-file"), Some("quit".into())) {
        Some(Event::EndFile { reason }) => assert_eq!(reason, "quit"),
        other => panic!("{other:?}"),
    }
    assert!(event_of(Some("pause"), None).is_none());
    assert!(event_of(None, None).is_none());
}

#[test]
fn mpv_is_told_how_to_buffer() {
    let args = launch("http://u", "T", "/tmp/s", Some(20_000_000));
    assert_eq!(args[0], "http://u");
    assert_eq!(args[1], "--force-media-title=T");
    assert_eq!(args[2], "--input-ipc-server=/tmp/s");
    assert!(args.contains(&"--demuxer-max-bytes=750000000".to_string()));
    assert!(args.contains(&"--cache-secs=300".to_string()));
    let j = append("http://u", "Amélie");
    match j.get("command") {
        Some(Json::List(v)) => {
            assert_eq!(v[0], Json::Text("loadfile".into()));
            assert_eq!(v[3], Json::Number(Number::Negative(-1)));
            // The length is counted in bytes.
            assert_eq!(v[4], Json::Text("force-media-title=%7%Amélie".into()));
        }
        other => panic!("{other:?}"),
    }
}

#[test]
fn a_trailer_goes_straight_to_youtube() {
    assert_eq!(
        trailer("https://y", "T"),
        vec![
            "https://y",
            "--force-media-title=T",
            "--ytdl-raw-options=extractor-args=youtube:player_client=web_embedded",
        ]
    );
}

#[test]
fn a_dual_audio_run_opens_on_the_hindi_track() {
    assert_eq!(track_argument(DualPreference::Ignore), None);
    assert_eq!(track_argument(DualPreference::Prefer), Some("--alang=hin,hi"));
    assert_eq!(track_argument(DualPreference::Only), Some("--alang=hin,hi"));
}

#[test]
fn the_moment_to_queue_is_read_and_kept() {
    assert_eq!(QueueWhen::parse(" Auto "), Some(QueueWhen::Auto));
    assert_eq!(QueueWhen::parse("immediate"), Some(QueueWhen::Immediate));
    assert_eq!(QueueWhen::parse("50%"), Some(QueueWhen::At(50)));
    assert_eq!(QueueWhen::parse("101%"), None);
    assert_eq!(QueueWhen::parse("%"), None);
    assert_eq!(QueueWhen::parse("later"), None);

    let played = |position: u64| {
        let mut r = Recorder::new(History::empty());
        r.set_current(Watch {
            id: 1,
            kind: "tv",
            title: "T".into(),
            year: String::new(),
            poster: String::new(),
            backdrop: String::new(),
            season: Some(1),
            episode: Some(1),
            episode_name: None,
            next: None,
        });
        r.progress(position, 1000, 1, 1);
        r.playing_fraction()
    };
    assert!(QueueWhen::Immediate.is_due(None, false));
    assert!(QueueWhen::Auto.is_due(None, true));
    assert!(!QueueWhen::Auto.is_due(None, false));
    assert!(!QueueWhen::Auto.is_due(played(499), false));
    assert!(QueueWhen::Auto.is_due(played(500), false));
    assert!(!QueueWhen::At(70).is_due(played(699), true));
    assert!(QueueWhen::At(70).is_due(played(700), false));
}

#[test]
fn images_are_asked_for_once_each() {
    let paths = vec!["/a.jpg".to_string(), "a.jpg".to_string(), "/b.jpg".to_string()];
    let list = wanted("w342", &paths).unwrap();
    let names: Vec<&str> = list.iter().map(|i| i.name.as_str()).collect();
    assert_eq!(names, vec!["a.jpg", "b.jpg"]);
    assert!(matches!(wanted("w999", &paths), Err(ImageError::UnknownSize)));
    let bad = vec!["/a.jpg".to_string(), "/x/y.jpg".to_string()];
    assert!(matches!(wanted("w342", &bad), Err(ImageError::ManySegments)));
    assert!(matches!(wanted("w342", &["..".to_string()]), Err(ImageError::Traverses)));
    assert!(matches!(wanted("w342", &["/".to_string()]), Err(ImageError::EmptyPath)));
    assert_eq!(prefetch::url("w342", "a.jpg"), "https://image.tmdb.org/t/p/w342/a.jpg");
    assert_eq!(prefetch::url("w342", "/a.jpg"), "https://image.tmdb.org/t/p/w342/a.jpg");
    assert!(check_size("w45").is_ok());
    let j = prefetch::answer("/d", &vec![("/a.jpg".into(), "/d/a.jpg".into())]);
    assert_eq!(j.get("files").unwrap().get("/a.jpg"), Some(&Json::Text("/d/a.jpg".into())));
}

#[test]
fn a_missing_indexer_is_named_and_the_other_still_answers() {
    let l = combine(None, Some(Vec::new()));
    assert_eq!(l.failed, vec!["Torrentio"]);
    assert!(l.candidates.is_empty());
    assert_eq!((l.counts.torrentio, l.counts.apibay, l.counts.shared), (0, 0, 0));
    assert!(promote(Vec::new(), Some("x")).is_empty());
}

#[test]
fn an_empty_torrent_says_what_is_wrong() {
    assert_eq!(choose_file(&[], Some(0), None, None), Err(FileError::NoFiles));
    assert_eq!(FileError::NoFiles.message(), "the torrent contains no files");
    let files = [TorrentFile { idx: 4, name: "x.txt".into(), len: 9 }];
    assert_eq!(choose_file(&files, None, None, None), Ok(4), "better than nothing");
    assert!(matches_episode("Show s02 e05.mkv", 2, 5));
}
