use dekho::apibay::{keeps_episode, parse_rows, RawTorrent, EMPTY_HASH};
use dekho::audio::Dual;

fn row(name: &str, hash: &str, seeders: &str, size: &str, imdb: &str) -> RawTorrent {
    RawTorrent {
        name: name.into(),
        info_hash: hash.into(),
        seeders: seeders.into(),
        size: size.into(),
        imdb: imdb.into(),
    }
}

const H: &str = "8F50891FCC8AC9B8C0127803F6F30C4F8D611311";

#[test]
fn the_no_results_sentinel_is_dropped() {
    let rows = vec![row("No results returned", EMPTY_HASH, "0", "0", "")];
    assert!(parse_rows(rows, "tt1187043", None, None).is_empty());
}

#[test]
fn rows_tagged_with_another_title_are_dropped() {
    let rows = vec![
        row("Right Movie 1080p", H, "10", "1000", "tt1187043"),
        row("Wrong Movie 1080p", H, "99", "1000", "tt0000001"),
    ];
    let out = parse_rows(rows, "tt1187043", None, None);
    assert_eq!(out.len(), 1);
    assert_eq!(out[0].title, "Right Movie 1080p");
}

#[test]
fn size_and_seeders_come_through_as_numbers() {
    let rows = vec![row("Movie 1080p", H, "118", "2691958652", "tt1187043")];
    let c = &parse_rows(rows, "tt1187043", None, None)[0];
    assert_eq!(c.seeders, 118);
    assert_eq!(c.size_bytes, Some(2_691_958_652));
}

#[test]
fn dual_audio_is_detected_from_the_name() {
    let rows = vec![row(
        "Movie 2019 1080p BluRay Dual Audio Hindi English x264",
        H,
        "5",
        "1000",
        "tt1187043",
    )];
    let c = &parse_rows(rows, "tt1187043", None, None)[0];
    assert_eq!(c.audio.dual(), Dual::Yes);
}

#[test]
fn episode_releases_and_matching_season_packs_are_kept() {
    assert!(keeps_episode("Breaking Bad S02E01 1080p", Some(2), Some(1)));
    assert!(keeps_episode(
        "Breaking Bad Season 2 Complete 720p",
        Some(2),
        Some(1)
    ));
    assert!(keeps_episode(
        "Breaking Bad S02 Complete 1080p",
        Some(2),
        Some(1)
    ));
}

#[test]
fn a_pack_for_a_different_season_is_rejected() {
    assert!(!keeps_episode(
        "Breaking Bad Season 4 Complete 720p",
        Some(2),
        Some(1)
    ));
    assert!(!keeps_episode(
        "Breaking Bad S05E01 1080p",
        Some(2),
        Some(1)
    ));
}

#[test]
fn complete_series_packs_are_kept() {
    assert!(keeps_episode(
        "Breaking Bad S01-S05 Complete 720p x265",
        Some(2),
        Some(1)
    ));
}

#[test]
fn movies_skip_episode_filtering_entirely() {
    assert!(keeps_episode("3 Idiots 2009 1080p", None, None));
}

#[test]
fn a_complete_season_is_the_one_it_says() {
    let keeps = |name: &str, season: u32| keeps_episode(name, Some(season), Some(1));
    assert!(!keeps("Breaking Bad Complete Season 4 720p", 2));
    assert!(keeps("Breaking Bad Complete Season 4 720p", 4));
    assert!(keeps("Breaking Bad Complete Season 04 720p", 4));
    assert!(!keeps("Breaking Bad S04 Complete Season 720p", 2));
    assert!(!keeps("Breaking Bad Season 4 - Complete Season", 2));
    // A range is of every season from its first to its last.
    assert!(keeps("complete season 1-2", 2));
    assert!(keeps("Show Complete Season 1-5 720p", 2));
    assert!(keeps("Show Complete Season 1 to 5 720p", 3));
    assert!(keeps("Show Complete Season 1, 2 & 3", 3));
    assert!(keeps("Show Complete Season 1 - Season 5", 4));
    assert!(keeps("S02-S05 Complete Season", 3));
    assert!(!keeps("S02-S05 Complete Season", 6));
    assert!(!keeps("Show Complete Season 3-5 720p", 2));
    assert!(!keeps("Show Complete Season 4 2008 720p", 5));
    assert!(keeps("Show S01 Extras Complete Season 1-5", 3));
    // These do not say which.
    assert!(keeps("Show Complete Season 2008 720p", 2));
    assert!(keeps("Show Complete Season 1080 BluRay", 2));
    assert!(keeps("Breaking Bad Complete Season 720p", 2));
    assert!(keeps("Breaking Bad Complete Seasons 1-5", 2));
    assert!(keeps("Breaking Bad The Complete Series", 2));
}
