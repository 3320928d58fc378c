use dekho::browse::Kind;
use dekho::engine::{prebuffer_secs, prebuffer_target, probe_budget, Probing};
use dekho::engine::{PROBE_BUDGET, PROBE_BUDGET_MAX};
use dekho::float::Float;
use dekho::history::{History, Watch};
use dekho::link::{effective_ceiling, Ceiling, Link, MIN_SAMPLES, VERSION};
use dekho::torrentio::{format_bps, format_bytes, parse_size};
use std::time::Duration;

/// Numbers of every size, with awkward ones among them.
fn spread() -> Vec<u64> {
    let mut v = vec![0, 1, 2, 3, 5, 9, 10, 999, 1000, 1023, 1024, 1025, u64::MAX];
    let mut x: u64 = 0x9e37_79b9_7f4a_7c15;
    for i in 0..400u32 {
        x ^= x << 13;
        x ^= x >> 7;
        x ^= x << 17;
        v.push(x >> (i % 64));
    }
    for p in 0..64u32 {
        let b = 1u64 << p;
        v.push(b);
        v.push(b - 1);
        v.push(b + b / 2);
        v.push(b.saturating_add(b / 20));
    }
    v
}

#[test]
fn bytes_are_written_as_the_formatter_writes_them() {
    let units = ["B", "KB", "MB", "GB", "TB"];
    for bytes in spread() {
        let mut n = bytes as f64;
        let mut i = 0;
        while n >= 1024.0 && i < units.len() - 1 {
            n /= 1024.0;
            i += 1;
        }
        let wanted = if i == 0 || n >= 10.0 {
            format!("{:.0} {}", n, units[i])
        } else {
            format!("{:.1} {}", n, units[i])
        };
        assert_eq!(format_bytes(bytes), wanted, "{bytes}");
    }
    assert_eq!(format_bytes(1536), "1.5 KB");
    assert_eq!(format_bytes(0), "0 B");
}

#[test]
fn bitrates_are_written_as_the_formatter_writes_them() {
    for bps in spread() {
        let wanted = format!("{:.1} Mbps", bps as f64 / 1_000_000.0);
        assert_eq!(format_bps(bps), wanted, "{bps}");
    }
    assert_eq!(format_bps(24_950_000), "24.9 Mbps");
}

#[test]
fn sizes_are_read_as_a_double_would_read_them() {
    let texts = [
        "0", "0.1", "1", "1.", ".5", "2.49", "74.43", "900", "999.999", "0.0000001", "123456789.123",
        "16777216.5", "3.3333333333333333333333333", "00012.50", "1.1.1", ".", "",
    ];
    let units = [("TB", 4), ("GB", 3), ("MB", 2), ("KB", 1)];
    for t in texts {
        for (name, power) in units {
            let line = format!("👤 1 💾 {t} {name} ⚙️");
            let wanted = t
                .parse::<f64>()
                .ok()
                .map(|v| (v * 1024f64.powi(power)) as u64);
            assert_eq!(parse_size(&line), wanted, "{line}");
        }
    }
    assert_eq!(parse_size("💾 5 XB"), None);
}

#[test]
fn the_prebuffer_scales_as_it_would_in_doubles() {
    let numbers = spread();
    for (i, need) in numbers.iter().enumerate() {
        for link in [
            numbers[(i * 7 + 3) % numbers.len()],
            need.saturating_mul(3) / 2,
            need.saturating_add(need / 4),
            need.saturating_add(need / 2),
            need.saturating_mul(2),
            need.saturating_mul(2).saturating_sub(1),
        ] {
            let wanted = if *need == 0 {
                45
            } else {
                let headroom = link as f64 / *need as f64;
                if headroom >= 2.0 {
                    45
                } else if headroom <= 1.25 {
                    240
                } else {
                    let thin = (2.0 - headroom) / (2.0 - 1.25);
                    (45f64 + thin * 195f64) as u64
                }
            };
            let got = prebuffer_secs(Some(*need), Some(link));
            assert_eq!(got, wanted, "{need} over {link}");
            assert!((45..=240).contains(&got));
        }
    }
    assert_eq!(prebuffer_target(Some(8_000_000), Some(10_000_000)), 240_000_000);
}

#[test]
fn the_budget_is_counted_as_a_duration_would_be() {
    for target in [1u64, 30_000_000, 240_000_000, 512 * 1024 * 1024, 987_654_321] {
        for bps in [1u64, 999, 1_000_000, 3_333_333, 8_000_000, 24_000_001, 500_000_000] {
            let fetch = target as f64 * 8.0 / (bps as f64 * 1.25);
            let secs = (fetch * 1.5).max(45.0).min(1e9);
            let wanted = Duration::from_secs_f64(secs).min(Duration::from_nanos(PROBE_BUDGET_MAX));
            let got = probe_budget(target, Some(bps));
            assert_eq!(u128::from(got), wanted.as_nanos(), "{target} at {bps}");
            assert!((PROBE_BUDGET..=PROBE_BUDGET_MAX).contains(&got));
        }
    }
    assert_eq!(probe_budget(u64::MAX, Some(0)), PROBE_BUDGET);
}

#[test]
fn the_estimate_moves_as_it_would_in_doubles() {
    let numbers = spread();
    for (i, est) in numbers.iter().enumerate() {
        let sample = numbers[(i * 11 + 5) % numbers.len()];
        let mut link = Link { version: VERSION, ewma_bps: *est, samples: 7, updated: 1 };
        link.observe(sample, 2);
        if sample == 0 {
            assert_eq!(link.ewma_bps, *est);
            assert_eq!(link.samples, 7);
        } else {
            let alpha = if sample > *est { 0.5 } else { 0.2 };
            let e = *est as f64;
            let wanted = (e + alpha * (sample as f64 - e)) as u64;
            assert_eq!(link.ewma_bps, wanted, "{est} then {sample}");
            assert_eq!(link.samples, 8);
            assert_eq!(link.updated, 2);
        }
    }
}

#[test]
fn the_ceiling_is_derived_as_it_would_be_in_doubles() {
    for est in spread() {
        let link = Link { version: VERSION, ewma_bps: est, samples: MIN_SAMPLES, updated: 1 };
        let derived = ((est as f64 * 0.8) as u64).max(2_000_000);
        match effective_ceiling(None, &link) {
            Ceiling::Adapted { bps, link_bps, samples } => {
                assert_eq!(bps, derived, "{est}");
                assert_eq!(link_bps, est);
                assert_eq!(samples, MIN_SAMPLES);
                assert!(derived < 40_000_000);
            }
            Ceiling::Default(bps) => {
                assert_eq!(bps, 40_000_000);
                assert!(est == 0 || derived >= 40_000_000, "{est}");
            }
            Ceiling::Flag(_) => panic!("no flag was given"),
        }
    }
}

fn film(id: u32) -> Watch {
    Watch {
        id,
        kind: "movie",
        title: "Film".into(),
        year: "1999".into(),
        poster: String::new(),
        backdrop: String::new(),
        season: None,
        episode: None,
        episode_name: None,
        next: None,
    }
}

#[test]
fn progress_is_the_fraction_a_double_would_be() {
    let numbers = spread();
    for (i, duration) in numbers.iter().enumerate() {
        let position = numbers[(i * 13 + 1) % numbers.len()] % duration.saturating_add(10).max(1);
        let mut h = History::empty();
        h.record(&film(1), position, *duration, 5);
        let e = h.entry(1, "movie").unwrap();
        let wanted = if *duration == 0 {
            0.0
        } else {
            (position as f64 / *duration as f64).clamp(0.0, 1.0)
        };
        assert_eq!(f64::from_bits(e.progress().bits()), wanted, "{position}/{duration}");
        let finished = *duration > 0 && position as f64 >= *duration as f64 * 0.9;
        assert_eq!(e.finished, finished, "{position}/{duration}");
    }
}

#[test]
fn doubles_kept_by_their_bits_compare_as_doubles() {
    let values = [
        0.0, -0.0, 1.0, -1.0, 7.9, 8.0, 8.1, 1e-300, -1e-300, 1e300, 4.0, 5.0, f64::INFINITY,
        f64::NEG_INFINITY,
    ];
    for a in values {
        let x = Float { bits: a.to_bits() };
        for b in values {
            let y = Float { bits: b.to_bits() };
            assert_eq!(x.is_below(y), a < b, "{a} < {b}");
        }
        for n in [0u32, 1, 4, 5, 7, 8, 9, u32::MAX] {
            assert_eq!(x.is_at_least(n), a >= f64::from(n), "{a} >= {n}");
        }
        assert_eq!(x.finite(), a.is_finite());
    }
    let nan = Float { bits: f64::NAN.to_bits() };
    assert!(!nan.is_at_least(0));
    assert!(!nan.finite());
    assert_eq!(Kind::Movie.label(), "Movies");
}

fn small() -> Vec<u64> {
    spread().into_iter().filter(|n| *n > 0 && *n < 1 << 49).collect()
}

#[test]
fn the_estimate_rises_by_half_and_falls_by_a_fifth() {
    for est in small() {
        for sample in small().into_iter().step_by(7) {
            let mut link = Link { version: VERSION, ewma_bps: est, samples: 1, updated: 0 };
            link.observe(sample, 1);
            let now = link.ewma_bps;
            if sample > est {
                assert_eq!(now, est + (sample - est) / 2);
            } else {
                let fifth = (est - sample) / 5;
                assert!(sample <= now && now <= est, "{est} then {sample} gave {now}");
                assert!((fifth..=fifth + 2).contains(&(est - now)), "{est} then {sample}");
            }
        }
    }
}

#[test]
fn the_ceiling_is_four_fifths_of_the_estimate() {
    let mut last = 0;
    let mut list = small();
    list.sort();
    for est in list {
        let link = Link { version: VERSION, ewma_bps: est, samples: MIN_SAMPLES, updated: 1 };
        let bps = effective_ceiling(None, &link).bps();
        assert_eq!(bps, (4 * est / 5).clamp(2_000_000, 40_000_000), "{est}");
        assert!(bps >= last, "a faster link is capped no lower");
        last = bps;
    }
}

#[test]
fn less_headroom_is_more_buffer() {
    let need = 8_000_000;
    let mut last = u64::MAX;
    for link in (1_000_000..20_000_000).step_by(37_123) {
        let secs = prebuffer_secs(Some(need), Some(link));
        assert!(secs <= last, "{link}");
        last = secs;
    }
    assert_eq!(last, 45);
    assert_eq!(prebuffer_secs(Some(need), Some(13_000_000)), 142);
}

#[test]
fn the_bar_is_a_quarter_above_the_bitrate() {
    for bps in small() {
        // Bitrates that no slab could be counted for are not judged.
        if bps / 8 <= u64::MAX / 240 {
            assert_eq!(Probing::new(Some(bps), None, 0).needed, Some(bps + bps / 4));
        }
    }
    assert_eq!(Probing::new(None, None, 0).needed, None);
}
