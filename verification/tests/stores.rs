use dekho::cache::{newest_mtime, status_value, Entry};
use dekho::config;
use dekho::config::KeyMissing;
use dekho::history;
use dekho::history::{History, Recorder, Watch};
use dekho::json::Json;
use dekho::link;
use dekho::link::{Link, LinkStore};
use dekho::player::Event;
use dekho::replay;
use dekho::replay::{Replay, ReplayStore};
use dekho::xdg;
use dekho::xdg::Environment;
use std::path::PathBuf;

fn env() -> Environment {
    Environment {
        xdg_config_home: None,
        xdg_cache_home: None,
        xdg_state_home: None,
        home: Some("/home/u".into()),
        temp_dir: "/tmp".into(),
    }
}

#[test]
fn every_store_has_its_place() {
    assert_eq!(history::path(&env()), "/home/u/.local/state/dekho/history.json");
    assert_eq!(link::path(&env()), "/home/u/.local/state/dekho/link.json");
    assert_eq!(replay::path(&env()), "/home/u/.local/state/dekho/releases.json");
    assert_eq!(config::path(&env()), "/home/u/.config/dekho/config.toml");
    let mut e = env();
    e.xdg_state_home = Some("/s/".into());
    assert_eq!(history::path(&e), "/s/dekho/history.json");
    e.xdg_config_home = Some("/c".into());
    assert_eq!(xdg::config_home(&e), "/c");
    assert_eq!(xdg::cache_home(&e), "/home/u/.cache");
    assert_eq!(xdg::join("", "x"), "x");
}

#[test]
fn the_key_comes_from_the_environment_first() {
    let file = Some("tmdb_api_key = 'from-file'");
    assert_eq!(config::tmdb_key(Some("  k1 "), file), Ok("k1".to_string()));
    assert_eq!(config::tmdb_key(Some("   "), file), Ok("from-file".to_string()));
    assert_eq!(config::tmdb_key(None, file), Ok("from-file".to_string()));
    assert_eq!(config::tmdb_key(None, None), Err(KeyMissing));
    let why = KeyMissing.message("/p/config.toml");
    assert!(why.starts_with("TMDB_API_KEY is not set.\nGet a free key at "));
    assert!(why.ends_with("or put it in /p/config.toml:\n  tmdb_api_key = \"<your key>\""));
}

#[test]
fn other_settings_are_read_from_the_file() {
    let file = Some("cache_max_gb = 12\nqueue_next = \"50%\"\n");
    assert_eq!(config::cache_max_gb(file), Some(12));
    assert_eq!(config::cache_max_gb(Some("cache_max_gb = lots")), None);
    assert_eq!(config::cache_max_gb(None), None);
    assert_eq!(config::queue_next(file).as_deref(), Some("50%"));
    assert_eq!(config::get(file, "nothing"), None);
}

#[test]
fn a_link_store_folds_samples_in() {
    let mut s = LinkStore::open("/p/link.json".into(), Link::empty());
    s.observe_at(10_000_000, 7);
    assert_eq!(s.snapshot().ewma_bps, 10_000_000);
    assert_eq!(s.snapshot().updated, 7);
    let before = history::now();
    assert!(before > 1_600_000_000, "unix seconds, not some other clock");
    s.observe(20_000_000);
    assert_eq!(s.snapshot().ewma_bps, 15_000_000);
    assert!(s.snapshot().updated >= before, "the sample is dated by the clock");
    assert_eq!(s.path, "/p/link.json");
}

#[test]
fn a_replay_store_remembers() {
    let mut s = ReplayStore::open("/p/releases.json".into(), Replay::empty());
    assert_eq!(s.recall("tt1"), None);
    s.remember("tt1", "ABC");
    assert_eq!(s.recall("tt1").as_deref(), Some("abc"));
    s.remember_at("tt1", "DEF", 0);
    assert_eq!(s.recall("tt1").as_deref(), Some("def"));
    assert_eq!(s.path, "/p/releases.json");
    assert_eq!(s.replay.items.len(), 1);
}

fn watch(id: u32) -> Watch {
    Watch {
        id,
        kind: "movie",
        title: "Film".into(),
        year: "1999".into(),
        poster: String::new(),
        backdrop: String::new(),
        season: None,
        episode: None,
        episode_name: None,
        next: None,
    }
}

#[test]
fn a_recorder_writes_no_more_often_than_it_should() {
    const SECOND: u64 = 1_000_000_000;
    let mut r = Recorder::new(History::empty());
    assert!(!r.progress(1, 100, 50, 0), "nothing is playing");
    r.set_current(watch(1));
    assert!(r.playing_fraction().is_none());
    assert!(r.progress(10, 100, 50, SECOND));
    assert!(!r.progress(11, 100, 51, SECOND + 1), "too soon");
    assert_eq!(f64::from_bits(r.playing_fraction().unwrap().bits()), 0.11);
    assert_eq!(r.entry(1, "movie").unwrap().position, 10);
    let version = r.history.version;
    assert!(r.flush(52, SECOND + 2), "a flush does not wait");
    assert_eq!((r.last_write, r.history.version), (Some(SECOND + 2), version));
    assert_eq!(r.entry(1, "movie").unwrap().position, 11);
    assert!(r.entry(2, "movie").is_none());
    r.set_current(watch(2));
    assert!(!r.flush(60, 2 * SECOND), "nothing was seen of it yet");
    assert_eq!((r.last_write, r.history.version), (None, version));
}

#[test]
fn the_cache_status_counts_and_orders() {
    let entry = |name: &str, bytes: u64, last_used: u64| Entry {
        name: name.into(),
        path: PathBuf::from(name),
        bytes,
        last_used,
    };
    let entries = vec![entry("old", 5, 1), entry("new", 7, 9)];
    let j = status_value("/c", &entries, 100, &History::empty(), &["old".to_string()]);
    assert_eq!(j.get("used_bytes").unwrap().as_u64(), Some(12));
    assert_eq!(j.get("budget_bytes").unwrap().as_u64(), Some(100));
    match j.get("entries") {
        Some(Json::List(v)) => {
            assert_eq!(v.len(), 2);
            assert_eq!(v[0].get("name"), Some(&Json::Text("new".into())));
            assert_eq!(v[1].get("active"), Some(&Json::Bool(true)));
        }
        other => panic!("{other:?}"),
    }
}

#[test]
fn a_directory_is_as_old_as_what_it_holds() {
    assert_eq!(newest_mtime(7, Some(99)), 7, "its own time is always now");
    assert_eq!(newest_mtime(0, Some(99)), 99, "an empty one has nothing else");
    assert_eq!(newest_mtime(0, None), 0);
}

#[test]
fn copies_are_what_they_were_made_of() {
    let e = Entry { name: "a".into(), path: PathBuf::from("/c/a"), bytes: 3, last_used: 4 };
    let c = e.clone();
    assert_eq!((c.name, c.path, c.bytes, c.last_used), (e.name, e.path, e.bytes, e.last_used));
    let mut w = watch(7);
    w.next = Some((3, "Three".into()));
    w.episode_name = Some("Two".into());
    assert_eq!(format!("{:?}", w.clone()), format!("{w:?}"));
    for event in [Event::StartFile, Event::Idle, Event::EndFile { reason: "eof".into() }] {
        assert_eq!(format!("{:?}", event.clone()), format!("{event:?}"));
    }
}
