use dekho::engine::{
    choose_file, matches_episode, prebuffer_secs, prebuffer_target, probe_budget, TorrentFile,
    PREBUFFER_MAX_BYTES, PREBUFFER_MAX_SECS, PREBUFFER_MIN_BYTES, PROBE_BUDGET, PROBE_BUDGET_MAX,
};

fn f(idx: usize, name: &str, len: u64) -> TorrentFile {
    TorrentFile {
        idx,
        name: name.into(),
        len,
    }
}

#[test]
fn video_detection_ignores_non_video_files() {
    assert!(f(0, "Movie.1080p.mkv", 1).is_video());
    assert!(f(0, "Movie.MP4", 1).is_video());
    assert!(!f(0, "Movie.nfo", 1).is_video());
    assert!(!f(0, "RARBG.txt", 1).is_video());
}

#[test]
fn torrentio_file_index_wins_when_valid() {
    let files = vec![f(0, "a.mkv", 10), f(1, "b.mkv", 999)];
    assert_eq!(choose_file(&files, Some(0), None, None).unwrap(), 0);
}

#[test]
fn invalid_file_index_falls_through_to_largest_video() {
    let files = vec![f(0, "a.mkv", 10), f(1, "b.mkv", 999)];
    assert_eq!(choose_file(&files, Some(7), None, None).unwrap(), 1);
}

#[test]
fn season_pack_resolves_by_episode_name() {
    let files = vec![
        f(0, "Show.S02E04.1080p.mkv", 100),
        f(1, "Show.S02E05.1080p.mkv", 100),
        f(2, "Show.S02E06.1080p.mkv", 100),
    ];
    assert_eq!(choose_file(&files, None, Some(2), Some(5)).unwrap(), 1);
}

#[test]
fn largest_video_beats_a_bigger_non_video() {
    let files = vec![f(0, "extras.iso", 9_999), f(1, "movie.mkv", 500)];
    assert_eq!(choose_file(&files, None, None, None).unwrap(), 1);
}

#[test]
fn sample_files_lose_to_the_feature() {
    let files = vec![
        f(0, "sample/movie-sample.mkv", 50_000_000),
        f(1, "movie.mkv", 8_000_000_000),
    ];
    assert_eq!(choose_file(&files, None, None, None).unwrap(), 1);
}

#[test]
fn episode_matching_covers_common_release_forms() {
    assert!(matches_episode("Show.S02E05.1080p.WEB.mkv", 2, 5));
    assert!(matches_episode("Show 2x05 720p.mkv", 2, 5));
    assert!(matches_episode("Show - Season 2 Episode 5.mkv", 2, 5));
    assert!(matches_episode("Show.s2e5.mkv", 2, 5));
}

#[test]
fn episode_matching_rejects_the_wrong_episode() {
    assert!(!matches_episode("Show.S02E06.1080p.mkv", 2, 5));
    assert!(!matches_episode("Show.S03E05.1080p.mkv", 2, 5));
}

#[test]
fn prebuffer_scales_with_bitrate_but_is_capped() {
    // 10 Mbps for 45s ≈ 56 MB.
    let small = prebuffer_target(Some(10_000_000), None);
    assert!((50_000_000..60_000_000).contains(&small), "got {small}");
    // An absurd bitrate is clamped rather than making us wait forever.
    assert_eq!(prebuffer_target(Some(500_000_000), None), PREBUFFER_MAX_BYTES);
}

#[test]
fn prebuffer_has_a_floor_for_tiny_bitrates() {
    assert_eq!(prebuffer_target(Some(1), None), PREBUFFER_MIN_BYTES);
}

#[test]
fn prebuffer_without_a_known_bitrate_is_within_bounds() {
    let t = prebuffer_target(None, None);
    assert!((PREBUFFER_MIN_BYTES..=PREBUFFER_MAX_BYTES).contains(&t));
}

#[test]
fn comfortable_headroom_keeps_the_base_prebuffer() {
    // 5 Mbps release on a 20 Mbps link: 4x headroom, no need to wait.
    assert_eq!(prebuffer_secs(Some(5_000_000), Some(20_000_000)), 45);
}

#[test]
fn thin_headroom_grows_the_prebuffer() {
    // 8 Mbps release on a 10 Mbps link: 1.25x headroom, exactly the threshold —
    // the buffer does the absorbing that the rate cannot.
    assert_eq!(
        prebuffer_secs(Some(8_000_000), Some(10_000_000)),
        PREBUFFER_MAX_SECS
    );
    // Between the anchors it scales, monotonically.
    let mid = prebuffer_secs(Some(6_000_000), Some(10_000_000));
    assert!((45..PREBUFFER_MAX_SECS).contains(&mid), "got {mid}");
}

#[test]
fn no_link_estimate_means_no_scaling() {
    assert_eq!(prebuffer_secs(Some(8_000_000), None), 45);
    assert_eq!(prebuffer_secs(None, Some(10_000_000)), 45);
}

#[test]
fn probe_budget_grows_with_the_slab_but_is_capped() {
    // A modest slab at a healthy rate: the base budget holds.
    assert_eq!(probe_budget(30_000_000, Some(10_000_000)), PROBE_BUDGET);
    // A 240s slab at 8 Mbps (240 MB) takes ~192s at the threshold rate; the
    // budget must cover it with slack.
    let big = probe_budget(240_000_000, Some(8_000_000));
    assert!(big > 190_000_000_000, "got {big:?}");
    assert!(big <= PROBE_BUDGET_MAX);
    // Unknown bitrate: nothing to reason with, base budget.
    assert_eq!(probe_budget(999_000_000, None), PROBE_BUDGET);
}

#[test]
fn empty_torrent_is_an_error_not_a_panic() {
    assert!(choose_file(&[], None, None, None).is_err());
}

#[test]
fn headroom_at_the_ends_is_the_base_and_the_maximum() {
    assert_eq!(prebuffer_secs(Some(5_000_000), Some(10_000_000)), 45);
    assert_eq!(prebuffer_secs(Some(5_000_000), Some(9_999_999)), 45, "rounded down");
    assert_eq!(prebuffer_secs(Some(5_000_000), Some(9_900_000)), 50);
    assert_eq!(prebuffer_secs(Some(4), Some(5)), 240);
    assert_eq!(prebuffer_secs(Some(5_000_000), Some(6_250_000)), 240);
    assert_eq!(prebuffer_secs(Some(5_000_000), Some(0)), 240);
    assert_eq!(prebuffer_secs(Some(0), Some(0)), 45);
    assert_eq!(prebuffer_secs(Some(u64::MAX / 2), Some(u64::MAX)), 45);
    // Rates that no double holds: a quarter above, and yet just over the bar.
    assert_eq!(
        prebuffer_secs(Some(18_014_398_509_482_002), Some(22_517_998_136_852_502)),
        239
    );
    assert_eq!(
        prebuffer_secs(Some(36_028_797_018_963_972), Some(45_035_996_273_704_965)),
        239
    );
}
