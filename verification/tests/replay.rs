use dekho::audio::Audio;
use dekho::replay::{promote, Replay, MAX_ENTRIES};
use dekho::torrentio::{build_magnet, Candidate, Quality};

fn candidate(hash: &str) -> Candidate {
    Candidate {
        quality: Quality::P1080,
        title: hash.to_string(),
        size_bytes: Some(1_000_000_000),
        seeders: 10,
        file_idx: None,
        magnet: build_magnet(hash, "x", None),
        audio: Audio::default(),
    }
}

#[test]
fn remember_and_recall_round_trip() {
    let mut r = Replay::empty();
    r.remember("tt0137523", "ABC123", 100);
    assert_eq!(r.recall("tt0137523"), Some("abc123"), "hash is lowercased");
    assert_eq!(r.recall("tt0000001"), None);
}

#[test]
fn remembering_again_replaces_the_old_winner() {
    let mut r = Replay::empty();
    r.remember("tt1:2:5", "aaa", 100);
    r.remember("tt1:2:5", "bbb", 200);
    assert_eq!(r.items.len(), 1);
    assert_eq!(r.recall("tt1:2:5"), Some("bbb"));
}

#[test]
fn the_store_is_capped_dropping_the_least_recent() {
    let mut r = Replay::empty();
    for i in 0..(MAX_ENTRIES + 20) {
        r.remember(&format!("tt{i}"), "aaa", i as u64);
    }
    assert_eq!(r.items.len(), MAX_ENTRIES);
    assert!(r.recall("tt0").is_none(), "the oldest fell off");
    assert!(r.recall(&format!("tt{}", MAX_ENTRIES + 19)).is_some());
}

#[test]
fn promote_moves_the_remembered_release_first() {
    let (a, b, c) = (candidate("aaa"), candidate("bbb"), candidate("ccc"));
    let order = promote(vec![&a, &b, &c], Some("bbb"));
    let hashes: Vec<&str> = order.iter().map(|c| c.title.as_str()).collect();
    assert_eq!(hashes, vec!["bbb", "aaa", "ccc"], "rest keep their order");
}

#[test]
fn promote_without_a_match_changes_nothing() {
    let (a, b) = (candidate("aaa"), candidate("bbb"));
    let order = promote(vec![&a, &b], Some("zzz"));
    assert_eq!(order.len(), 2);
    assert_eq!(order[0].title, "aaa");
}

#[test]
fn promote_without_a_memory_changes_nothing() {
    let a = candidate("aaa");
    let order = promote(vec![&a], None);
    assert_eq!(order.len(), 1);
}
