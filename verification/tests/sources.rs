use dekho::audio::{detect, Audio, Dual};
use dekho::sources::{info_hash_of, merge};
use dekho::torrentio::{build_magnet, Candidate, Quality};

fn candidate(hash: &str, name: &str, seeders: u32, size: Option<u64>) -> Candidate {
    Candidate {
        quality: Quality::P1080,
        title: name.into(),
        size_bytes: size,
        seeders,
        file_idx: None,
        magnet: build_magnet(hash, name, None),
        audio: detect(name),
    }
}

#[test]
fn info_hash_is_extracted_and_lowercased() {
    let m = build_magnet("ABCDEF123", "Name", None);
    assert_eq!(info_hash_of(&m), "abcdef123");
}

#[test]
fn the_same_torrent_from_both_sources_appears_once() {
    let t = vec![candidate("aaa", "Movie 1080p", 10, Some(100))];
    let a = vec![candidate("AAA", "Movie 1080p", 20, Some(200))];
    let (merged, shared) = merge(t, a);
    assert_eq!(
        merged.len(),
        1,
        "case-different hashes are the same torrent"
    );
    assert_eq!(shared, 1);
}

#[test]
fn merging_keeps_the_better_seeder_count_and_exact_size() {
    let t = vec![candidate("aaa", "Movie 1080p", 10, Some(100))];
    let a = vec![candidate("aaa", "Movie 1080p", 55, Some(2_691_958_652))];
    let (merged, _) = merge(t, a);
    assert_eq!(merged[0].seeders, 55);
    assert_eq!(merged[0].size_bytes, Some(2_691_958_652));
}

#[test]
fn language_knowledge_from_either_source_is_unioned() {
    // Torrentio flagged only Hindi; apibay's name says dual audio English.
    let mut only_hindi = candidate("aaa", "Movie 1080p", 10, Some(100));
    only_hindi.audio = Audio {
        hindi: true,
        ..Audio::default()
    };
    let a = vec![candidate(
        "aaa",
        "Movie 1080p Dual Audio Hindi English",
        10,
        Some(100),
    )];
    let (merged, _) = merge(vec![only_hindi], a);
    assert!(merged[0].audio.hindi);
    assert!(merged[0].audio.english, "apibay's English claim survives");
    assert_eq!(merged[0].audio.dual(), Dual::Yes);
}

#[test]
fn releases_unique_to_apibay_are_added() {
    let t = vec![candidate("aaa", "Movie 1080p", 10, Some(100))];
    let a = vec![
        candidate("aaa", "Movie 1080p", 10, Some(100)),
        candidate("bbb", "Movie Dual Audio 1080p", 5, Some(100)),
    ];
    let (merged, shared) = merge(t, a);
    assert_eq!(merged.len(), 2);
    assert_eq!(shared, 1);
}

#[test]
fn torrentio_entries_keep_their_leading_order() {
    let t = vec![
        candidate("aaa", "First", 10, None),
        candidate("bbb", "Second", 10, None),
    ];
    let a = vec![candidate("ccc", "Third", 10, None)];
    let (merged, _) = merge(t, a);
    let titles: Vec<&str> = merged.iter().map(|c| c.title.as_str()).collect();
    assert_eq!(titles, vec!["First", "Second", "Third"]);
}

#[test]
fn merging_empty_lists_is_not_an_error() {
    let (merged, shared) = merge(Vec::new(), Vec::new());
    assert!(merged.is_empty());
    assert_eq!(shared, 0);
}
