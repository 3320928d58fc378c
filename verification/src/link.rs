//! Memory of what this internet connection can actually deliver.
//!
//! The throughput gate in `engine` measures one swarm at a time, from scratch,
//! every run. On a fast line that is merely redundant; on a slow one it is the
//! failure mode: the first two attempts go to 4K releases the link could never
//! stream, each burns its probe budget, and the run ends on the "play the
//! fastest one anyway" warning path.
//!
//! So the link gets a memory: a rolling estimate of achievable throughput,
//! updated from every probe that watched real network traffic. The estimate
//! rises quickly and falls slowly, because the two directions mean different
//! things: a fast measurement proves the link can do at least that much, while
//! a slow one may only prove the *swarm* was bad.
//!
//! An explicit `--max-bitrate` always wins, and every adaptation is reported:
//! a user must be able to see *why* they got 720p.

use crate::binary64;
use crate::binary64::{Binary, Dyadic};
use crate::history;
use crate::json;
use crate::json::{Fields, Json, Tree};
use crate::xdg;
use crate::xdg::Environment;
use vstd::prelude::*;

verus! {

/// Bumped only if the shape changes in a way an older dekho cannot read.
pub const VERSION: u32 = 1;

/// Sessions measured before the estimate is trusted to cap anything. One
/// unlucky evening must not decide what next week's runs are allowed to try.
pub const MIN_SAMPLES: u32 = 3;

/// Never cap below this. Even a bad link streams SD, and a floor keeps a few
/// catastrophic samples from filtering out everything.
pub const MIN_CEILING_BPS: u64 = 2_000_000;

/// The built-in ceiling when nothing else applies, the `--max-bitrate` default
/// of 40 Mbps. Adaptation can only lower it.
pub const DEFAULT_CEILING_BPS: u64 = 40_000_000;

/// Below this estimate the link counts as slow, and `pick` starts ranking
/// swarm health above quality. Roughly: a link that cannot clear the threshold for
/// a typical 4K WEB-DL (~16 Mbps at 1.25x).
pub const SLOW_LINK_BPS: u64 = 20_000_000;

/// The weight of a sample above the estimate: one half. Rising fast and falling
/// slowly is deliberate: a high sample is proof the link can do it, a low
/// sample may just be a bad swarm.
pub open spec fn alpha_up() -> Dyadic {
    Dyadic { m: 0x10_0000_0000_0000, e: -53 }
}

/// The weight of a sample below the estimate: the number nearest to one fifth.
pub open spec fn alpha_down() -> Dyadic {
    Dyadic { m: 0x19_9999_9999_999A, e: -55 }
}

/// The part of the estimate that the ceiling allows, the number nearest to four
/// fifths: the inverse of the probe's 1.25x gate, so a release at the ceiling
/// is one the threshold can still be expected to pass.
pub open spec fn ceiling_headroom() -> Dyadic {
    Dyadic { m: 0x19_9999_9999_999A, e: -53 }
}

/// The persisted estimate.
#[derive(Clone, Copy, Debug)]
pub struct Link {
    pub version: u32,
    /// Achievable throughput in bits per second, exponentially smoothed.
    pub ewma_bps: u64,
    /// How many sessions have contributed. Confidence, not history.
    pub samples: u32,
    /// Unix seconds of the last update.
    pub updated: u64,
}

/// `est + alpha * (sample - est)`, rounded down; zero where it is negative.
pub open spec fn drifted(est: Dyadic, sample: Dyadic, alpha: Dyadic) -> u64 {
    if binary64::at_least(sample, est) {
        binary64::to_u64(
            binary64::sum(est, binary64::product(alpha, binary64::difference(sample, est))),
        )
    } else {
        let fall = binary64::product(alpha, binary64::difference(est, sample));
        if binary64::at_least(est, fall) {
            binary64::to_u64(binary64::difference(est, fall))
        } else {
            0
        }
    }
}

/// The estimate once a sample is folded in.
pub open spec fn smoothed(ewma: u64, sample: u64) -> u64 {
    drifted(
        binary64::of_int(ewma as nat),
        binary64::of_int(sample as nat),
        if sample > ewma {
            alpha_up()
        } else {
            alpha_down()
        },
    )
}

/// The link once a sample is folded in.
pub open spec fn observed(link: Link, sample_bps: u64, now: u64) -> Link {
    if sample_bps == 0 {
        link
    } else {
        Link {
            version: link.version,
            ewma_bps: if link.samples == 0 {
                sample_bps
            } else {
                smoothed(link.ewma_bps, sample_bps)
            },
            samples: if link.samples == u32::MAX {
                u32::MAX
            } else {
                (link.samples + 1) as u32
            },
            updated: now,
        }
    }
}

/// The estimate, once there is enough evidence to act on it.
pub open spec fn trusted(link: Link) -> Option<u64> {
    if link.samples >= MIN_SAMPLES && link.ewma_bps > 0 {
        Some(link.ewma_bps)
    } else {
        None
    }
}

fn drift(ewma: u64, sample: u64) -> (r: u64)
    requires
        sample > 0,
    ensures
        r == smoothed(ewma, sample),
{
    let est = binary64::from_u64(ewma);
    let s = binary64::from_u64(sample);
    let alpha = if sample > ewma {
        Binary { m: 0x10_0000_0000_0000, e: -53 }
    } else {
        Binary { m: 0x19_9999_9999_999A, e: -55 }
    };
    if binary64::ge(s, est) {
        let d = binary64::minus(s, est);
        proof {
            if d.m > 0 {
                if est.m > 0 {
                    binary64::lemma_difference_reach(s, est, d);
                } else {
                    lemma_from_nothing(s, est, d);
                }
            }
        }
        let rise = binary64::times(alpha, d);
        binary64::truncated(binary64::plus(est, rise))
    } else {
        proof {
            if est.m == 0 {
                lemma_nothing_is_least(s, est);
            }
            lemma_total(est, s);
        }
        let d = binary64::minus(est, s);
        proof {
            if d.m > 0 {
                binary64::lemma_difference_reach(est, s, d);
            }
        }
        let fall = binary64::times(alpha, d);
        if binary64::ge(est, fall) {
            binary64::truncated(binary64::minus(est, fall))
        } else {
            0
        }
    }
}

/// Of two numbers one is at least the other.
proof fn lemma_total(a: Binary, b: Binary)
    ensures
        binary64::at_least(a@, b@) || binary64::at_least(b@, a@),
{
}

proof fn lemma_nothing_is_least(a: Binary, b: Binary)
    requires
        b.m == 0,
    ensures
        binary64::at_least(a@, b@),
{
    assert(0 * binary64::two((b.e - binary64::low(b@, a@)) as nat) == 0);
}

/// What is left of a number when nothing is taken away has its exponent.
proof fn lemma_from_nothing(a: Binary, b: Binary, d: Binary)
    requires
        binary64::B52 <= a.m <= binary64::B53,
        -52 <= a.e <= 11,
        b.m == 0,
        b.e == 0,
        d.m > 0,
        binary64::fits(
            (binary64::aligned(a@, b@) - binary64::aligned(b@, a@)) as nat,
            1,
            d.e - binary64::low(a@, b@),
        ),
    ensures
        a.e - 53 <= d.e <= a.e + 1,
{
    binary64::lemma_two_values();
    let lo = binary64::low(a@, b@);
    let g = (a.e - lo) as nat;
    let t = binary64::two(g);
    let n = (binary64::aligned(a@, b@) - binary64::aligned(b@, a@)) as nat;
    assert(0 * binary64::two((b.e - lo) as nat) == 0);
    assert(n == a.m * t);
    binary64::lemma_two_pos(g);
    binary64::lemma_two_add(53, g);
    binary64::lemma_two_add(52, g);
    binary64::lemma_two_grows(53 + g, 54 + g);
    assert(binary64::two(52 + g) <= n <= binary64::two(53 + g)) by (nonlinear_arith)
        requires
            n == a.m * t,
            binary64::B52 <= a.m <= binary64::B53,
            binary64::two(53 + g) == binary64::B53 * t,
            binary64::two(52 + g) == binary64::B52 * t,
    ;
    binary64::lemma_two_pos(53 + g);
    assert(binary64::two(54 + g) == 2 * binary64::two(53 + g));
    binary64::lemma_exponent_from(n, d.e - lo, 52 + g);
    binary64::lemma_exponent_upto(n, d.e - lo, 54 + g);
}

impl Link {
    pub fn empty() -> (r: Link)
        ensures
            r == (Link { version: VERSION, ewma_bps: 0, samples: 0, updated: 0 }),
    {
        Link { version: VERSION, ewma_bps: 0, samples: 0, updated: 0 }
    }

    /// Fold one measured sample in.
    pub fn observe(&mut self, sample_bps: u64, now: u64)
        ensures
            *final(self) == observed(*old(self), sample_bps, now),
    {
        if sample_bps == 0 {
            return;
        }
        if self.samples == 0 {
            self.ewma_bps = sample_bps;
        } else {
            self.ewma_bps = drift(self.ewma_bps, sample_bps);
        }
        if self.samples < u32::MAX {
            self.samples = self.samples + 1;
        }
        self.updated = now;
    }

    /// The estimate, once there is enough evidence to act on it.
    pub fn trusted_estimate(&self) -> (r: Option<u64>)
        ensures
            r == trusted(*self),
    {
        if self.samples >= MIN_SAMPLES && self.ewma_bps > 0 {
            Some(self.ewma_bps)
        } else {
            None
        }
    }
}

/// Where the effective bitrate ceiling came from, so the adaptation is
/// visible rather than silent.
#[derive(Clone, Copy, Debug, PartialEq, Eq, Structural)]
pub enum Ceiling {
    /// An explicit `--max-bitrate`, which always wins.
    Flag(u64),
    /// Derived from the remembered link throughput.
    Adapted { bps: u64, link_bps: u64, samples: u32 },
    /// No flag and not enough evidence yet: the default.
    Default(u64),
}

/// The bitrate of a ceiling.
pub open spec fn ceiling_bps(c: Ceiling) -> u64 {
    match c {
        Ceiling::Flag(b) => b,
        Ceiling::Adapted { bps, .. } => bps,
        Ceiling::Default(b) => b,
    }
}

/// A ceiling as a caller sees it, so that they can see why they got 720p.
pub open spec fn ceiling_fields(c: Ceiling) -> Seq<(Seq<char>, Tree)> {
    match c {
        Ceiling::Flag(bps) => seq![
            ("event"@, Tree::Text("adaptive"@)),
            ("source"@, Tree::Text("flag"@)),
            ("max_bitrate_bps"@, json::number(bps)),
        ],
        Ceiling::Default(bps) => seq![
            ("event"@, Tree::Text("adaptive"@)),
            ("source"@, Tree::Text("default"@)),
            ("max_bitrate_bps"@, json::number(bps)),
        ],
        Ceiling::Adapted { bps, link_bps, samples } => seq![
            ("event"@, Tree::Text("adaptive"@)),
            ("source"@, Tree::Text("link"@)),
            ("max_bitrate_bps"@, json::number(bps)),
            ("link_bps"@, json::number(link_bps)),
            ("samples"@, json::number(samples as u64)),
        ],
    }
}

impl Ceiling {
    /// The adaptation as an event.
    pub fn json(&self) -> (r: Json)
        ensures
            r@ == json::object(ceiling_fields(*self)),
    {
        let mut f = Fields::new();
        f.put("event", json::string("adaptive"));
        match *self {
            Ceiling::Flag(bps) => {
                f.put("source", json::string("flag"));
                f.put("max_bitrate_bps", json::unsigned(bps));
            },
            Ceiling::Default(bps) => {
                f.put("source", json::string("default"));
                f.put("max_bitrate_bps", json::unsigned(bps));
            },
            Ceiling::Adapted { bps, link_bps, samples } => {
                f.put("source", json::string("link"));
                f.put("max_bitrate_bps", json::unsigned(bps));
                f.put("link_bps", json::unsigned(link_bps));
                f.put("samples", json::unsigned(samples as u64));
            },
        }
        assert(f@ =~= ceiling_fields(*self));
        f.finish()
    }

    pub fn bps(&self) -> (r: u64)
        ensures
            r == ceiling_bps(*self),
    {
        match *self {
            Ceiling::Flag(b) => b,
            Ceiling::Default(b) => b,
            Ceiling::Adapted { bps, .. } => bps,
        }
    }
}

/// What the estimate allows: the part that the headroom leaves, not below the
/// floor.
pub open spec fn derived_bps(est: u64) -> u64 {
    let part = binary64::to_u64(
        binary64::product(binary64::of_int(est as nat), ceiling_headroom()),
    );
    if part > MIN_CEILING_BPS {
        part
    } else {
        MIN_CEILING_BPS
    }
}

/// The ceiling of a run.
pub open spec fn ceiling_for(flag_bps: Option<u64>, link: Link) -> Ceiling {
    match (flag_bps, trusted(link)) {
        (Some(bps), _) => Ceiling::Flag(bps),
        (None, Some(est)) => if derived_bps(est) >= DEFAULT_CEILING_BPS {
            Ceiling::Default(DEFAULT_CEILING_BPS)
        } else {
            Ceiling::Adapted { bps: derived_bps(est), link_bps: est, samples: link.samples }
        },
        (None, None) => Ceiling::Default(DEFAULT_CEILING_BPS),
    }
}

/// The bitrate ceiling this run should filter with.
///
/// An explicit flag always wins. Otherwise a trusted estimate caps releases at
/// what the link has actually shown it can carry (with headroom), never
/// *above* the default, so a fast line is not held back.
pub fn effective_ceiling(flag_bps: Option<u64>, link: &Link) -> (r: Ceiling)
    ensures
        r == ceiling_for(flag_bps, *link),
{
    if let Some(bps) = flag_bps {
        return Ceiling::Flag(bps);
    }
    match link.trusted_estimate() {
        Some(est) => {
            let headroom = Binary { m: 0x19_9999_9999_999A, e: -53 };
            let part = binary64::truncated(
                binary64::times(binary64::from_u64(est), headroom),
            );
            let derived: u64 = if part > MIN_CEILING_BPS {
                part
            } else {
                MIN_CEILING_BPS
            };
            if derived >= DEFAULT_CEILING_BPS {
                Ceiling::Default(DEFAULT_CEILING_BPS)
            } else {
                Ceiling::Adapted { bps: derived, link_bps: est, samples: link.samples }
            }
        },
        None => Ceiling::Default(DEFAULT_CEILING_BPS),
    }
}

/// Where the estimate is kept.
pub fn path(env: &Environment) -> (r: String)
    ensures
        r@ == xdg::own_file(
            xdg::base_dir(env.xdg_state_home, env.home, ".local/state"@, env.temp_dir@),
            "link.json"@,
        ),
{
    let base = xdg::state_home(env);
    xdg::dekho_file(base.as_str(), "link.json")
}

/// The estimate as a run holds it, with the file it is kept in: probes report
/// in from the resolution path, and the caller writes each report down.
pub struct LinkStore {
    pub path: String,
    pub link: Link,
}

impl LinkStore {
    pub fn open(path: String, link: Link) -> (r: LinkStore)
        ensures
            r.path == path,
            r.link == link,
    {
        LinkStore { path, link }
    }

    pub fn snapshot(&self) -> (r: Link)
        ensures
            r == self.link,
    {
        self.link
    }

    /// Fold in a sample measured now.
    pub fn observe(&mut self, sample_bps: u64)
        ensures
            exists|now: u64|
                final(self).link == #[trigger] observed(old(self).link, sample_bps, now),
            final(self).path == old(self).path,
    {
        let now = history::now();
        self.observe_at(sample_bps, now);
    }

    /// Fold in a sample measured at a time.
    pub fn observe_at(&mut self, sample_bps: u64, now: u64)
        ensures
            final(self).link == observed(old(self).link, sample_bps, now),
            final(self).path == old(self).path,
    {
        self.link.observe(sample_bps, now);
    }
}

// --- what holds of the estimate ---------------------------------------------------

/// A rise takes half of the way, exactly.
proof fn lemma_rise(ewma: u64, sample: u64)
    requires
        ewma < sample < binary64::B52,
    ensures
        smoothed(ewma, sample) == ewma + (sample - ewma) / 2,
{
    binary64::lemma_two_values();
    let n = ewma as nat;
    let s = sample as nat;
    let d = (s - n) as nat;
    binary64::lemma_difference_exact(s, n);
    let i = binary64::lemma_int_exact(n);
    let j = binary64::lemma_int_exact(d);
    // Half the difference.
    binary64::lemma_two_add(52, j);
    let w = binary64::two(52 + j);
    assert(0x10_0000_0000_0000 * (d * binary64::two(j)) == d * w) by (nonlinear_arith)
        requires
            w == binary64::B52 * binary64::two(j),
    ;
    binary64::lemma_round_shift(d, 52 + j, -1);
    let k = binary64::lemma_round_exact(d, -1);
    let half = binary64::product(alpha_up(), binary64::of_int(d));
    assert(half == binary64::round(d, 1, -1));
    assert(half == (Dyadic { m: d * binary64::two(k), e: -1 - k }));
    // The sum.
    let est = binary64::of_int(n);
    let l = if i >= k + 1 {
        i
    } else {
        k + 1
    };
    assert(binary64::low(est, half) == -(l as int));
    let t = binary64::two((l - 1) as nat);
    assert(binary64::two(l) == 2 * t);
    binary64::lemma_two_add(i, (l - i) as nat);
    binary64::lemma_two_add(k, (l - 1 - k) as nat);
    let x = 2 * n + d;
    assert(n * binary64::two(i) * binary64::two((l - i) as nat) + d * binary64::two(k)
        * binary64::two((l - 1 - k) as nat) == x * t) by (nonlinear_arith)
        requires
            binary64::two(i) * binary64::two((l - i) as nat) == 2 * t,
            binary64::two(k) * binary64::two((l - 1 - k) as nat) == t,
            x == 2 * n + d,
    ;
    binary64::lemma_round_shift(x, (l - 1) as nat, -1);
    let h = binary64::lemma_round_exact(x, -1);
    let g = binary64::two(h);
    binary64::lemma_two_pos(h);
    assert(binary64::two(h + 1) == 2 * g);
    assert((x * g) / (2 * g) == x / 2) by (nonlinear_arith)
        requires
            g > 0,
    ;
    assert(x / 2 == n + d / 2);
}

/// A fall takes a fifth of the way, give or take the rounding.
proof fn lemma_fall(ewma: u64, sample: u64)
    requires
        0 < sample < ewma < binary64::B52,
    ensures
        sample <= smoothed(ewma, sample) <= ewma,
        (ewma - sample) / 5 <= ewma - smoothed(ewma, sample) <= (ewma - sample) / 5 + 2,
{
    binary64::lemma_two_values();
    binary64::lemma_two_add(53, 2);
    reveal_with_fuel(binary64::two, 3);
    let n = ewma as nat;
    let s = sample as nat;
    let d = (n - s) as nat;
    let q = d / 5;
    let c = 4 * d / 5 + 2;
    let a: nat = 0x19_9999_9999_999A;
    assert(binary64::two(55) == 4 * binary64::B53);
    assert(5 * a == binary64::two(55) + 2);
    binary64::lemma_difference_exact(n, s);
    let i = binary64::lemma_int_exact(n);
    let j = binary64::lemma_int_exact(d);
    let est = binary64::of_int(n);
    // What is taken away lies between the fifth and a little more than that.
    let fall = binary64::product(alpha_down(), binary64::of_int(d));
    assert(a * (d * binary64::two(j)) == (a * d) * binary64::two(j)) by (nonlinear_arith);
    assert(a * d > 0) by (nonlinear_arith)
        requires
            a > 0,
            d > 0,
    ;
    binary64::lemma_round_shift(a * d, j, -55);
    assert(fall == binary64::round(a * d, 1, -55));
    assert((0x19_9999_9999_999A * d) * 4 <= c * 0x80_0000_0000_0000);
    assert((a * d) * 4 <= c * binary64::two(55) * 1);
    binary64::lemma_round_upto(a * d, 1, -55, c, 2);
    let g = (-fall.e) as nat;
    let v = binary64::two(g);
    binary64::lemma_two_pos(g);
    assert(fall.m * 4 <= c * v);
    assert(fall.m >= q * v) by {
        if q > 0 {
            assert(0x19_9999_9999_999A * d >= q * 0x80_0000_0000_0000);
            assert(a * d >= q * binary64::two(55));
            binary64::lemma_round_from(a * d, -55, q);
            assert(fall.m >= q * v) by (nonlinear_arith)
                requires
                    if g == 0 {
                        fall.m * v >= q && v == 1
                    } else {
                        fall.m / v >= q
                    },
                    v > 0,
            ;
        } else {
            assert(0 * v == 0);
        }
    }
    // What is left.
    let l = if i >= g {
        i
    } else {
        g
    };
    let t = binary64::two(l);
    binary64::lemma_two_pos(l);
    let u = binary64::two((l - g) as nat);
    binary64::lemma_two_add(i, (l - i) as nat);
    binary64::lemma_two_add(g, (l - g) as nat);
    assert(n * binary64::two(i) * binary64::two((l - i) as nat) == n * t) by (nonlinear_arith)
        requires
            t == binary64::two(i) * binary64::two((l - i) as nat),
    ;
    let f = fall.m * u;
    assert(4 * f <= c * t && f >= q * t) by (nonlinear_arith)
        requires
            f == fall.m * u,
            fall.m * 4 <= c * v,
            fall.m >= q * v,
            t == v * u,
    ;
    assert(binary64::low(est, fall) == -(l as int));
    assert(c < 4 * d && c <= 4 * q + 5);
    assert(f < d * t && d * t <= n * t) by (nonlinear_arith)
        requires
            4 * f <= c * t,
            c < 4 * d,
            d <= n,
            t > 0,
    ;
    assert(binary64::at_least(est, fall));
    let left = (n * t - f) as nat;
    let r = binary64::round(left, 1, -(l as int));
    assert(left >= s * t && left <= (n - q) * t) by (nonlinear_arith)
        requires
            left == n * t - f,
            f < d * t,
            f >= q * t,
            d == n - s,
    ;
    binary64::lemma_round_from(left, -(l as int), s);
    assert(left * binary64::two(0) <= ((n - q) as nat) * t * 1);
    binary64::lemma_round_upto(left, 1, -(l as int), (n - q) as nat, 0);
    let b = binary64::two((-r.e) as nat);
    binary64::lemma_two_pos((-r.e) as nat);
    assert(r.m * 1 <= (n - q) * b);
    assert(binary64::floor(r) <= n - q) by {
        if r.e == 0 {
            assert(r.m * b <= n - q) by (nonlinear_arith)
                requires
                    r.m <= (n - q) * b,
                    b == 1,
            ;
        } else {
            assert(r.m / b <= n - q) by (nonlinear_arith)
                requires
                    r.m <= (n - q) * b,
                    b > 0,
            ;
        }
    }
    assert(binary64::floor(r) >= n - q - 2) by {
        if n > q + 2 {
            let m = (n - q - 2) as nat;
            assert(left >= m * t) by (nonlinear_arith)
                requires
                    left == n * t - f,
                    4 * f <= c * t,
                    c <= 4 * q + 5,
                    m == n - q - 2,
                    t > 0,
            ;
            binary64::lemma_round_from(left, -(l as int), m);
        }
    }
}

/// The estimate rises fast and falls slowly, and never goes past what was
/// measured: a sample above it takes it half of the way up, a sample below it
/// a fifth of the way down, to the bit or two that rounding costs.
///
/// Rates below 2^52 bits per second are counted exactly.
pub proof fn rises_fast_and_falls_slowly(ewma: u64, sample: u64)
    requires
        ewma < binary64::B52,
        0 < sample < binary64::B52,
    ensures
        sample > ewma ==> smoothed(ewma, sample) == ewma + (sample - ewma) / 2,
        sample <= ewma ==> sample <= smoothed(ewma, sample) <= ewma,
        sample <= ewma ==> (ewma - sample) / 5 <= ewma - smoothed(ewma, sample) <= (ewma - sample)
            / 5 + 2,
{
    if sample > ewma {
        lemma_rise(ewma, sample);
    } else if sample < ewma {
        lemma_fall(ewma, sample);
    } else {
        let n = ewma as nat;
        binary64::lemma_two_values();
        binary64::lemma_difference_exact(n, n);
        let k = binary64::lemma_int_exact(n);
        let est = binary64::of_int(n);
        let none = Dyadic { m: 0, e: 0 };
        assert(alpha_down().m * 0 == 0);
        assert(binary64::product(alpha_down(), binary64::of_int(0)) == none);
        assert(binary64::low(est, none) == est.e);
        assert(est.m * binary64::two(0) == est.m) by (nonlinear_arith)
            requires
                binary64::two(0) == 1,
        ;
        assert(0 * binary64::two((-est.e) as nat) == 0);
        binary64::lemma_round_shift(n, k, 0);
        let t = binary64::two(k);
        binary64::lemma_two_pos(k);
        assert((n * t) / t == n) by (nonlinear_arith)
            requires
                t > 0,
        ;
    }
}

// --- what holds of the ceiling ----------------------------------------------------

/// A flag always wins; without one the ceiling lies between the floor and the
/// default.
pub proof fn ceiling_stays_in_bounds(flag_bps: Option<u64>, link: Link)
    ensures
        flag_bps is Some ==> ceiling_for(flag_bps, link) == Ceiling::Flag(flag_bps->0),
        flag_bps is None ==> MIN_CEILING_BPS <= ceiling_bps(ceiling_for(flag_bps, link))
            <= DEFAULT_CEILING_BPS,
{
}

/// Once the link is trusted, releases are capped at four fifths of the estimate,
/// within the bounds of the ceiling.
///
/// Rates below 2^49 bits per second are multiplied without loss.
pub proof fn ceiling_is_four_fifths(link: Link)
    requires
        trusted(link) is Some,
        link.ewma_bps < 0x2_0000_0000_0000,
    ensures
        ({
            let part = 4 * link.ewma_bps as int / 5;
            ceiling_bps(ceiling_for(None, link)) == (if part < MIN_CEILING_BPS {
                MIN_CEILING_BPS as int
            } else if part < DEFAULT_CEILING_BPS {
                part
            } else {
                DEFAULT_CEILING_BPS as int
            })
        }),
{
    binary64::lemma_two_values();
    reveal_with_fuel(binary64::two, 4);
    let n = link.ewma_bps as nat;
    let q = 4 * n / 5;
    let c = 8 * q + 7;
    let a: nat = 0x19_9999_9999_999A;
    let k = binary64::lemma_int_exact(n);
    assert((n * binary64::two(k)) * a == (a * n) * binary64::two(k)) by (nonlinear_arith);
    assert(a * n > 0) by (nonlinear_arith)
        requires
            a > 0,
            n > 0,
    ;
    binary64::lemma_round_shift(a * n, k, -53);
    let r = binary64::product(binary64::of_int(n), ceiling_headroom());
    assert(r == binary64::round(a * n, 1, -53));
    assert((0x19_9999_9999_999A * n) * 8 <= c * 0x20_0000_0000_0000);
    assert((a * n) * binary64::two(3) <= c * binary64::two(53) * 1);
    binary64::lemma_round_upto(a * n, 1, -53, c, 3);
    let b = binary64::two((-r.e) as nat);
    binary64::lemma_two_pos((-r.e) as nat);
    assert(r.m * 8 <= c * b);
    assert(binary64::floor(r) <= q) by {
        if r.e == 0 {
            assert(r.m * b <= q) by (nonlinear_arith)
                requires
                    r.m * 8 <= (8 * q + 7) * b,
                    b == 1,
            ;
        } else {
            assert(r.m / b <= q) by (nonlinear_arith)
                requires
                    r.m * 8 <= (8 * q + 7) * b,
                    b > 0,
            ;
        }
    }
    if q > 0 {
        assert(0x19_9999_9999_999A * n >= q * 0x20_0000_0000_0000);
        binary64::lemma_round_from(a * n, -53, q);
    }
    assert(binary64::floor(r) == q);
}

/// A faster link is never capped lower than a slower one.
pub proof fn faster_links_are_capped_no_lower(link: Link, faster: Link)
    requires
        trusted(link) is Some,
        trusted(faster) is Some,
        link.ewma_bps <= faster.ewma_bps,
    ensures
        ceiling_bps(ceiling_for(None, link)) <= ceiling_bps(ceiling_for(None, faster)),
{
    let a = binary64::of_int(link.ewma_bps as nat);
    let b = binary64::of_int(faster.ewma_bps as nat);
    binary64::lemma_int_grows(link.ewma_bps as nat, faster.ewma_bps as nat);
    binary64::lemma_product_grows(a, b, ceiling_headroom());
    binary64::lemma_floor_grows(
        binary64::product(a, ceiling_headroom()),
        binary64::product(b, ceiling_headroom()),
    );
}

/// Until enough sessions have measured, the link decides nothing.
pub proof fn few_samples_do_not_adapt(link: Link)
    requires
        link.samples < MIN_SAMPLES,
    ensures
        ceiling_for(None, link) == Ceiling::Default(DEFAULT_CEILING_BPS),
{
}

/// A sample of nothing changes nothing. The first one is taken as it is; a later
/// one above the estimate takes it half of the way up, one below it a fifth of the
/// way down. Each counts, and dates the estimate.
///
/// Rates below 2^52 bits per second are counted exactly.
pub proof fn samples_are_folded_in(link: Link, sample: u64, now: u64)
    requires
        link.ewma_bps < 0x10_0000_0000_0000,
        sample < 0x10_0000_0000_0000,
    ensures
        sample == 0 ==> observed(link, sample, now) == link,
        sample > 0 ==> ({
            let after = observed(link, sample, now);
            &&& after.version == link.version && after.updated == now
            &&& link.samples < u32::MAX ==> after.samples == link.samples + 1
            &&& link.samples == u32::MAX ==> after.samples == u32::MAX
            &&& link.samples == 0 ==> after.ewma_bps == sample
            &&& link.samples > 0 && sample > link.ewma_bps ==> after.ewma_bps == link.ewma_bps + (
            sample - link.ewma_bps) / 2
            &&& link.samples > 0 && sample <= link.ewma_bps ==> sample <= after.ewma_bps
                <= link.ewma_bps && (link.ewma_bps - sample) / 5 <= link.ewma_bps - after.ewma_bps
                <= (link.ewma_bps - sample) / 5 + 2
        }),
{
    if sample > 0 {
        rises_fast_and_falls_slowly(link.ewma_bps, sample);
    }
}

/// A flag is the ceiling. Without one it is 40 Mbps, until three sessions have
/// measured the link; then four fifths of what they show, between 2 Mbps and that.
pub proof fn three_sessions_set_the_ceiling(flag: Option<u64>, link: Link)
    requires
        link.ewma_bps < 0x2_0000_0000_0000,
    ensures
        ({
            let c = ceiling_for(flag, link);
            let part = 4 * link.ewma_bps / 5;
            if flag is Some {
                c == Ceiling::Flag(flag->0) && ceiling_bps(c) == flag->0
            } else if link.samples < 3 || link.ewma_bps == 0 || part >= 40_000_000 {
                c == Ceiling::Default(40_000_000) && ceiling_bps(c) == 40_000_000
            } else {
                c == (Ceiling::Adapted {
                    bps: (if part < 2_000_000 {
                        2_000_000
                    } else {
                        part as u64
                    }),
                    link_bps: link.ewma_bps,
                    samples: link.samples,
                }) && ceiling_bps(c) == (if part < 2_000_000 {
                    2_000_000
                } else {
                    part
                })
            }
        }),
        trusted(link) == (if link.samples >= 3 && link.ewma_bps > 0 {
            Some(link.ewma_bps)
        } else {
            None
        }),
{
    if trusted(link) is Some {
        ceiling_is_four_fifths(link);
    }
}

/// A ceiling says where it comes from and what it is, and one that was adapted to
/// the link also what was measured, and how often.
pub proof fn ceilings_say_where_they_come_from(c: Ceiling)
    ensures
        ({
            let s = ceiling_fields(c);
            &&& s.contains(("event"@, Tree::Text("adaptive"@)))
            &&& s.contains(("max_bitrate_bps"@, json::number(ceiling_bps(c))))
            &&& c is Flag ==> s.contains(("source"@, Tree::Text("flag"@)))
            &&& c is Default ==> s.contains(("source"@, Tree::Text("default"@)))
            &&& c is Adapted ==> s.contains(("source"@, Tree::Text("link"@))) && s.contains(
                ("link_bps"@, json::number(c->link_bps)),
            ) && s.contains(("samples"@, json::number(c->samples as u64)))
        }),
{
    let s = ceiling_fields(c);
    assert(s.contains(s[0]) && s.contains(s[1]) && s.contains(s[2]));
    if c is Adapted {
        assert(s.contains(s[3]) && s.contains(s[4]));
    }
}

} // verus!
