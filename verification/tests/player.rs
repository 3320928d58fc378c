use dekho::player::{demuxer_bytes_for, DEMUXER_MAX_BYTES, DEMUXER_MIN_BYTES};

#[test]
fn demuxer_cache_scales_with_bitrate() {
    // 20 Mbps over 300s = 750 MB, inside the clamp.
    let mid = demuxer_bytes_for(Some(20_000_000));
    assert!((700_000_000..800_000_000).contains(&mid), "got {mid}");
}

#[test]
fn demuxer_cache_is_clamped_at_both_ends() {
    assert_eq!(demuxer_bytes_for(Some(1_000)), DEMUXER_MIN_BYTES);
    assert_eq!(demuxer_bytes_for(Some(900_000_000)), DEMUXER_MAX_BYTES);
}

#[test]
fn unknown_bitrate_gets_a_sane_default() {
    let d = demuxer_bytes_for(None);
    assert!((DEMUXER_MIN_BYTES..=DEMUXER_MAX_BYTES).contains(&d));
}
