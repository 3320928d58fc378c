use dekho::audio::{detect, Dual};
use dekho::pick::{
    attempt_order, shortlist, title_guard, DualPreference, Filters, MAX_ATTEMPTS,
};
use dekho::torrentio::{Candidate, Quality};

fn candidate(quality: Quality, size_gb: Option<f64>, seeders: u32) -> Candidate {
    named(quality, size_gb, seeders, "")
}

/// A candidate whose release name carries `extra`, so audio detection sees it.
fn named(quality: Quality, size_gb: Option<f64>, seeders: u32, extra: &str) -> Candidate {
    let title = format!("{} {}s {extra}", quality.label(), seeders);
    Candidate {
        quality,
        size_bytes: size_gb.map(|g| (g * 1024.0 * 1024.0 * 1024.0) as u64),
        seeders,
        file_idx: None,
        magnet: String::new(),
        audio: detect(&title),
        title,
    }
}

fn filters() -> Filters {
    Filters {
        max_quality: Quality::P2160,
        max_bitrate: 40_000_000,
        min_seeders: 4,
        dual: DualPreference::Ignore,
        link_bps: None,
    }
}

// Two hours.
const RUNTIME: u32 = 7200;

#[test]
fn a_4k_remux_is_dropped_but_a_4k_web_dl_survives() {
    // 74 GB over 2h ≈ 88 Mbps — over the ceiling.
    let remux = candidate(Quality::P2160, Some(74.0), 40);
    // 18 GB over 2h ≈ 21 Mbps — fine.
    let webdl = candidate(Quality::P2160, Some(18.0), 40);
    let out = shortlist(vec![remux, webdl], &filters(), RUNTIME);
    assert_eq!(out.len(), 1);
    assert_eq!(out[0].size_bytes, Some((18.0 * 1024.0f64.powi(3)) as u64));
}

#[test]
fn quality_ceiling_excludes_everything_above_it() {
    let f = Filters {
        max_quality: Quality::P1080,
        ..filters()
    };
    let out = shortlist(
        vec![
            candidate(Quality::P2160, Some(18.0), 500),
            candidate(Quality::P1080, Some(8.0), 10),
        ],
        &f,
        RUNTIME,
    );
    assert_eq!(out.len(), 1);
    assert_eq!(out[0].quality, Quality::P1080);
}

#[test]
fn seeder_floor_drops_hopeless_swarms() {
    let out = shortlist(
        vec![
            candidate(Quality::P1080, Some(8.0), 1),
            candidate(Quality::P720, Some(4.0), 100),
        ],
        &filters(),
        RUNTIME,
    );
    assert_eq!(out.len(), 1);
    assert_eq!(out[0].quality, Quality::P720);
}

#[test]
fn higher_quality_outranks_more_seeders() {
    let out = shortlist(
        vec![
            candidate(Quality::P720, Some(4.0), 900),
            candidate(Quality::P1080, Some(8.0), 20),
        ],
        &filters(),
        RUNTIME,
    );
    assert_eq!(out[0].quality, Quality::P1080);
}

#[test]
fn seeders_break_ties_within_a_quality() {
    let out = shortlist(
        vec![
            candidate(Quality::P1080, Some(8.0), 20),
            candidate(Quality::P1080, Some(8.0), 300),
        ],
        &filters(),
        RUNTIME,
    );
    assert_eq!(out[0].seeders, 300);
}

#[test]
fn unknown_size_is_kept_but_ranked_below_a_known_one() {
    let out = shortlist(
        vec![
            candidate(Quality::P1080, None, 900),
            candidate(Quality::P1080, Some(8.0), 20),
        ],
        &filters(),
        RUNTIME,
    );
    assert_eq!(out.len(), 2);
    assert!(out[0].size_bytes.is_some());
}

#[test]
fn everything_filtered_out_yields_an_empty_shortlist() {
    let out = shortlist(
        vec![candidate(Quality::P1080, Some(8.0), 0)],
        &filters(),
        RUNTIME,
    );
    assert!(out.is_empty());
}

#[test]
fn attempts_descend_through_tiers_instead_of_exhausting_the_top_one() {
    // The Fight Club case: four 4K releases ahead of any 1080p.
    let list = vec![
        candidate(Quality::P2160, Some(33.0), 40),
        candidate(Quality::P2160, Some(6.8), 35),
        candidate(Quality::P2160, Some(38.0), 32),
        candidate(Quality::P2160, Some(7.9), 16),
        candidate(Quality::P1080, Some(8.0), 500),
        candidate(Quality::P720, Some(4.0), 900),
    ];
    let order = attempt_order(&list, MAX_ATTEMPTS);
    let tiers: Vec<Quality> = order.iter().map(|c| c.quality).collect();
    assert_eq!(
        &tiers[..3],
        &[Quality::P2160, Quality::P2160, Quality::P1080],
        "must reach 1080p by the third attempt"
    );
    assert!(tiers.contains(&Quality::P720), "and 720p within the budget");
}

#[test]
fn a_single_tier_still_gets_the_full_attempt_budget() {
    let list: Vec<Candidate> = (0..6)
        .map(|i| candidate(Quality::P1080, Some(8.0), 100 - i))
        .collect();
    assert_eq!(attempt_order(&list, MAX_ATTEMPTS).len(), MAX_ATTEMPTS);
}

#[test]
fn attempt_order_preserves_rank_within_a_tier() {
    let list = vec![
        candidate(Quality::P1080, Some(8.0), 900),
        candidate(Quality::P1080, Some(8.0), 500),
        candidate(Quality::P1080, Some(8.0), 100),
    ];
    let order = attempt_order(&list, MAX_ATTEMPTS);
    assert_eq!(order[0].seeders, 900);
    assert_eq!(order[1].seeders, 500);
}

#[test]
fn attempt_order_on_an_empty_shortlist_is_empty() {
    assert!(attempt_order(&[], MAX_ATTEMPTS).is_empty());
}

#[test]
fn prefer_puts_dual_audio_above_higher_quality() {
    let f = Filters {
        dual: DualPreference::Prefer,
        ..filters()
    };
    let out = shortlist(
        vec![
            named(Quality::P2160, Some(18.0), 900, "English"),
            named(Quality::P1080, Some(8.0), 20, "Dual Audio Hindi English"),
        ],
        &f,
        RUNTIME,
    );
    assert_eq!(
        out[0].quality,
        Quality::P1080,
        "a 4K English-only is not a better answer to 'dual audio'"
    );
}

#[test]
fn prefer_still_keeps_non_dual_as_a_fallback() {
    let f = Filters {
        dual: DualPreference::Prefer,
        ..filters()
    };
    let out = shortlist(
        vec![named(Quality::P1080, Some(8.0), 20, "English only")],
        &f,
        RUNTIME,
    );
    assert_eq!(out.len(), 1, "nothing dual exists; play something anyway");
}

#[test]
fn only_drops_everything_that_is_not_dual() {
    let f = Filters {
        dual: DualPreference::Only,
        ..filters()
    };
    let out = shortlist(
        vec![
            named(Quality::P2160, Some(18.0), 900, "English"),
            named(Quality::P1080, Some(8.0), 20, "Dual Audio Hindi English"),
        ],
        &f,
        RUNTIME,
    );
    assert_eq!(out.len(), 1);
    assert_eq!(out[0].audio.dual(), Dual::Yes);
}

#[test]
fn only_accepts_a_likely_dual_release() {
    // "Dual Audio" naming just Hindi is the common Indian release form.
    let f = Filters {
        dual: DualPreference::Only,
        ..filters()
    };
    let out = shortlist(
        vec![named(
            Quality::P1080,
            Some(8.0),
            20,
            "Dual Audio Hindi DD5 1",
        )],
        &f,
        RUNTIME,
    );
    assert_eq!(out.len(), 1);
    assert_eq!(out[0].audio.dual(), Dual::Likely);
}

#[test]
fn definite_dual_outranks_likely_dual() {
    let f = Filters {
        dual: DualPreference::Prefer,
        ..filters()
    };
    let out = shortlist(
        vec![
            named(Quality::P1080, Some(8.0), 900, "Dual Audio Hindi DD5 1"),
            named(Quality::P1080, Some(8.0), 10, "Dual Audio Hindi English"),
        ],
        &f,
        RUNTIME,
    );
    assert_eq!(out[0].audio.dual(), Dual::Yes);
}

#[test]
fn ignore_leaves_the_quality_ordering_untouched() {
    let out = shortlist(
        vec![
            named(Quality::P1080, Some(8.0), 20, "Dual Audio Hindi English"),
            named(Quality::P2160, Some(18.0), 20, "English"),
        ],
        &filters(),
        RUNTIME,
    );
    assert_eq!(out[0].quality, Quality::P2160);
}

#[test]
fn a_slow_link_ranks_a_healthy_swarm_above_a_thin_higher_quality_one() {
    let f = Filters {
        link_bps: Some(6_000_000),
        max_bitrate: 5_000_000,
        ..filters()
    };
    let out = shortlist(
        vec![
            // 1080p that fits the ceiling but has 5 seeders.
            candidate(Quality::P1080, Some(4.0), 5),
            // 720p with a swarm that will actually saturate the line.
            candidate(Quality::P720, Some(2.0), 400),
        ],
        &f,
        RUNTIME,
    );
    assert_eq!(
        out[0].quality,
        Quality::P720,
        "on a thin pipe swarm health beats a quality tier"
    );
}

#[test]
fn a_slow_link_still_prefers_quality_between_healthy_swarms() {
    let f = Filters {
        link_bps: Some(6_000_000),
        max_bitrate: 5_000_000,
        ..filters()
    };
    let out = shortlist(
        vec![
            candidate(Quality::P720, Some(2.0), 900),
            candidate(Quality::P1080, Some(4.0), 60),
        ],
        &f,
        RUNTIME,
    );
    assert_eq!(
        out[0].quality,
        Quality::P1080,
        "both swarms can fill the link, so quality decides"
    );
}

#[test]
fn a_fast_link_keeps_the_quality_first_ordering() {
    let f = Filters {
        link_bps: Some(80_000_000),
        ..filters()
    };
    let out = shortlist(
        vec![
            candidate(Quality::P720, Some(4.0), 900),
            candidate(Quality::P1080, Some(8.0), 5),
        ],
        &f,
        RUNTIME,
    );
    assert_eq!(out[0].quality, Quality::P1080);
}

#[test]
fn an_unknown_size_release_is_judged_by_its_tiers_typical_bitrate() {
    // 5 Mbps ceiling: an unknown-size 4K (assumed ~16 Mbps) is not worth a
    // probe budget, an unknown-size 720p (assumed ~4 Mbps) is.
    let f = Filters {
        max_bitrate: 5_000_000,
        ..filters()
    };
    let out = shortlist(
        vec![
            candidate(Quality::P2160, None, 500),
            candidate(Quality::P720, None, 500),
        ],
        &f,
        RUNTIME,
    );
    assert_eq!(out.len(), 1);
    assert_eq!(out[0].quality, Quality::P720);
}

/// A candidate whose release name is `title`, for the title guard.
fn release(title: &str) -> Candidate {
    let mut c = candidate(Quality::P1080, Some(4.0), 50);
    c.title = title.to_string();
    c
}

#[test]
fn the_config_words_for_dual_parse() {
    assert_eq!(DualPreference::parse("prefer"), Some(DualPreference::Prefer));
    assert_eq!(DualPreference::parse(" Only "), Some(DualPreference::Only));
    assert_eq!(DualPreference::parse("off"), Some(DualPreference::Ignore));
    assert_eq!(DualPreference::parse("both"), None);
}

#[test]
fn a_stranger_under_the_right_imdb_id_is_dropped() {
    // Observed live: Torrentio served this for Money Heist S01E01, and its
    // fake 4K outranked every genuine release.
    let guarded = title_guard(
        vec![
            release("La.casa.di.Davide.S01E01-03.2160p.AMZN.WEB-DL.ITA-ENG.DDP5.1"),
            release("Money.Heist.S01E01.1080p.NF.WEB-DL.DDP5.1.x264"),
        ],
        &["Money Heist", "La casa de papel"],
    );
    assert_eq!(guarded.kept.len(), 1);
    assert_eq!(guarded.dropped, 1);
    assert!(!guarded.fail_open);
    assert!(guarded.kept[0].title.starts_with("Money.Heist"));
}

#[test]
fn the_original_language_name_matches_too() {
    let guarded = title_guard(
        vec![release("La.Casa.De.Papel.S01.COMPLETE.1080p.WEB-DL")],
        &["Money Heist", "La casa de papel"],
    );
    assert_eq!(guarded.kept.len(), 1);
    assert_eq!(guarded.dropped, 0);
}

#[test]
fn articles_and_accents_do_not_defeat_a_match() {
    // "La" dropped by the release group, é folded to e.
    let guarded = title_guard(
        vec![release("Casa.de.Papel.S02.SPANISH.720p")],
        &["La casa de papél"],
    );
    assert_eq!(guarded.dropped, 0);
    // Apostrophes vanish rather than split.
    let guarded = title_guard(vec![release("Dont.Look.Up.2021.1080p")], &["Don't Look Up"]);
    assert_eq!(guarded.dropped, 0);
}

#[test]
fn nothing_matching_fails_open() {
    // Blind spot, not 45 wrong torrents: keep everything, say so.
    let guarded = title_guard(
        vec![release("LCDP.S01.1080p"), release("LCDP.S02.1080p")],
        &["La casa de papel"],
    );
    assert_eq!(guarded.kept.len(), 2);
    assert_eq!(guarded.dropped, 0);
    assert!(guarded.fail_open);
}

#[test]
fn an_unjudgeable_title_leaves_the_list_alone() {
    // Every word is a stopword; empty original title comes in as "".
    let guarded = title_guard(vec![release("Anything.At.All.1080p")], &["The", ""]);
    assert_eq!(guarded.kept.len(), 1);
    assert_eq!(guarded.dropped, 0);
    assert!(!guarded.fail_open);
}

#[test]
fn a_short_runtime_raises_the_computed_bitrate() {
    // 8 GB over 22 minutes is ~48 Mbps — too hot, even though 8 GB over two
    // hours would have been fine. Episode runtimes matter here.
    let out = shortlist(
        vec![candidate(Quality::P1080, Some(8.0), 50)],
        &filters(),
        22 * 60,
    );
    assert!(out.is_empty());
}
