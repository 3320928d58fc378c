use dekho::audio::Audio;
use dekho::torrentio::{
    build_magnet, parse_quality, parse_seeders, parse_size, stream_id, Candidate, Quality,
};

#[test]
fn quality_orders_high_to_low() {
    assert!(Quality::P2160 > Quality::P1080);
    assert!(Quality::P1080 > Quality::P720);
    assert!(Quality::Sd > Quality::Cam);
}

#[test]
fn parses_quality_from_release_names() {
    assert_eq!(parse_quality("Movie 2160p UHD Remux"), Quality::P2160);
    assert_eq!(parse_quality("Movie.1080p.WEB-DL"), Quality::P1080);
    assert_eq!(parse_quality("Movie 720p BluRay"), Quality::P720);
    assert_eq!(parse_quality("Movie HDCAM"), Quality::Cam);
    assert_eq!(parse_quality("Movie DVDRip"), Quality::Sd);
}

#[test]
fn quality_word_match_does_not_fire_on_substrings() {
    // "ts" inside "tsunami" must not classify this as a CAM rip.
    assert_eq!(parse_quality("Tsunami.1080p.WEB"), Quality::P1080);
    // "4k" inside "24kbps" must not promote an SD rip to 4K.
    assert_eq!(parse_quality("Concert 24kbps audio"), Quality::Sd);
}

#[test]
fn parses_size_marker() {
    // Torrentio's "GB" is really GiB: 74.43 * 1024^3.
    assert_eq!(
        parse_size("👤 44 💾 74.43 GB ⚙️ 1337x"),
        Some(79_918_603_960)
    );
    assert_eq!(parse_size("👤 10 💾 900 MB"), Some(943_718_400));
    assert_eq!(parse_size("no size here"), None);
}

#[test]
fn parses_seeder_marker() {
    assert_eq!(parse_seeders("👤 44 💾 74.43 GB"), Some(44));
    assert_eq!(parse_seeders("💾 1 GB"), None);
}

#[test]
fn stream_id_switches_on_episode() {
    assert_eq!(stream_id("tt0903747", None, None), "tt0903747");
    assert_eq!(stream_id("tt0903747", Some(2), Some(5)), "tt0903747:2:5");
}

#[test]
fn required_bitrate_is_size_over_runtime() {
    let c = Candidate {
        quality: Quality::P1080,
        title: "x".into(),
        size_bytes: Some(2 * 1024 * 1024 * 1024),
        seeders: 10,
        file_idx: None,
        magnet: String::new(),
        audio: Audio::default(),
    };
    // 2 GiB over 2 hours ≈ 2.39 Mbps.
    let bps = c.required_bps(7200).unwrap();
    assert!((2_300_000..2_500_000).contains(&bps), "got {bps}");
}

#[test]
fn required_bitrate_is_none_without_a_size() {
    let c = Candidate {
        quality: Quality::P1080,
        title: "x".into(),
        size_bytes: None,
        seeders: 10,
        file_idx: None,
        magnet: String::new(),
        audio: Audio::default(),
    };
    assert!(c.required_bps(7200).is_none());
}

#[test]
fn magnet_carries_hash_and_trackers() {
    let m = build_magnet("abc123", "My Release", None);
    assert!(m.starts_with("magnet:?xt=urn:btih:abc123"));
    assert!(m.contains("dn=My%20Release"));
    assert!(m.contains("tr=udp%3A%2F%2Ftracker.opentrackr.org%3A1337%2Fannounce"));
}
