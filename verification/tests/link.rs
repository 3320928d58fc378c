use dekho::link::{
    effective_ceiling, Ceiling, Link, DEFAULT_CEILING_BPS, MIN_CEILING_BPS, MIN_SAMPLES, VERSION,
};

#[test]
fn the_first_sample_is_taken_verbatim() {
    let mut l = Link::empty();
    l.observe(10_000_000, 100);
    assert_eq!(l.ewma_bps, 10_000_000);
    assert_eq!(l.samples, 1);
    assert_eq!(l.updated, 100);
}

#[test]
fn the_estimate_rises_fast_and_falls_slow() {
    let mut l = Link::empty();
    l.observe(10_000_000, 100);
    // A faster sample moves halfway up…
    l.observe(20_000_000, 200);
    assert_eq!(l.ewma_bps, 15_000_000);
    // …a slower one only a fifth of the way down: it may have been the
    // swarm's fault, not the link's.
    l.observe(5_000_000, 300);
    assert_eq!(l.ewma_bps, 13_000_000);
}

#[test]
fn a_zero_sample_is_not_a_measurement() {
    let mut l = Link::empty();
    l.observe(0, 100);
    assert_eq!(l.samples, 0);
}

#[test]
fn too_few_samples_are_not_trusted() {
    let mut l = Link::empty();
    l.observe(6_000_000, 1);
    l.observe(6_000_000, 2);
    assert_eq!(l.trusted_estimate(), None, "two sessions prove nothing");
    l.observe(6_000_000, 3);
    assert_eq!(l.trusted_estimate(), Some(6_000_000));
}

fn trusted(bps: u64) -> Link {
    Link {
        version: VERSION,
        ewma_bps: bps,
        samples: MIN_SAMPLES,
        updated: 1,
    }
}

#[test]
fn an_explicit_flag_always_wins() {
    // Even over a link that says the flag is hopeless.
    let c = effective_ceiling(Some(40_000_000), &trusted(3_000_000));
    assert_eq!(c, Ceiling::Flag(40_000_000));
}

#[test]
fn a_slow_link_lowers_the_ceiling_with_headroom() {
    let c = effective_ceiling(None, &trusted(10_000_000));
    match c {
        Ceiling::Adapted { bps, link_bps, .. } => {
            assert_eq!(bps, 8_000_000, "80% of the estimate");
            assert_eq!(link_bps, 10_000_000);
        }
        other => panic!("expected an adapted ceiling, got {other:?}"),
    }
}

#[test]
fn a_fast_link_keeps_the_historical_default() {
    // 100 Mbps measured must not raise the ceiling above the old 40.
    let c = effective_ceiling(None, &trusted(100_000_000));
    assert_eq!(c, Ceiling::Default(DEFAULT_CEILING_BPS));
}

#[test]
fn an_untrusted_link_keeps_the_historical_default() {
    let c = effective_ceiling(None, &Link::empty());
    assert_eq!(c, Ceiling::Default(DEFAULT_CEILING_BPS));
}

#[test]
fn the_ceiling_never_drops_below_the_floor() {
    // A link that measured 1 Mbps still gets to try SD.
    let c = effective_ceiling(None, &trusted(1_000_000));
    assert_eq!(c.bps(), MIN_CEILING_BPS);
}
