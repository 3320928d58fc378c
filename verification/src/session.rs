//! One run: from a title to a release that plays.
//!
//! Candidates are walked best-first and each is measured. The first to clear
//! its own bitrate with headroom wins. If none does, the fastest one measured
//! is used anyway with a warning: a stuttering stream beats no stream, but the
//! user should know which they are getting.
//!
//! The walk is a machine: it says what to do next, the caller does it and
//! reports back. Whatever it drops on the way it says to forget, so that no
//! also-ran steals bandwidth from the release being watched.

use crate::audio;
use crate::audio::Dual;
use crate::engine;
use crate::engine::{Engine, Probe, ProbeStatus, TorrentFile};
use crate::link;
use crate::link::{Ceiling, Link};
use crate::list;
use crate::pick;
use crate::pick::DualPreference;
use crate::replay;
use crate::sources;
use crate::sources::Lookup;
use crate::text;
use crate::torrentio;
use crate::torrentio::{Candidate, Quality};
use vstd::prelude::*;

verus! {

// --- what was asked ---------------------------------------------------------------

/// What a run does about dual audio: what the flags say, or else the word of the
/// config file. Nothing where that word means nothing.
pub open spec fn dual_meant(
    dual: bool,
    dual_only: bool,
    no_dual: bool,
    configured: Option<Seq<char>>,
) -> Option<DualPreference> {
    if no_dual {
        Some(DualPreference::Ignore)
    } else if dual_only {
        Some(DualPreference::Only)
    } else if dual {
        Some(DualPreference::Prefer)
    } else {
        match configured {
            Some(word) => pick::preference_named(text::lower(text::trim(word))),
            None => Some(DualPreference::Ignore),
        }
    }
}

pub fn dual_preference(
    dual: bool,
    dual_only: bool,
    no_dual: bool,
    configured: Option<&str>,
) -> (r: Option<DualPreference>)
    ensures
        r == dual_meant(
            dual,
            dual_only,
            no_dual,
            match configured {
                Some(word) => Some(word@),
                None => None,
            },
        ),
{
    if no_dual {
        Some(DualPreference::Ignore)
    } else if dual_only {
        Some(DualPreference::Only)
    } else if dual {
        Some(DualPreference::Prefer)
    } else {
        match configured {
            Some(word) => DualPreference::parse(word),
            None => Some(DualPreference::Ignore),
        }
    }
}

/// A bitrate in Mbps as bits per second, as far as they can be counted.
pub open spec fn mbps(n: u64) -> u64 {
    if n * 1_000_000 <= u64::MAX {
        (n * 1_000_000) as u64
    } else {
        u64::MAX
    }
}

/// The ceiling of a run that was asked for so many Mbps, or for none.
pub open spec fn asked_ceiling(max_bitrate: Option<u64>, link: Link) -> Ceiling {
    link::ceiling_for(
        match max_bitrate {
            Some(n) => Some(mbps(n)),
            None => None,
        },
        link,
    )
}

/// The filters that the flags ask for, and the bitrate ceiling they hold: the
/// one asked for, in Mbps, or the one that the link has earned. None where the
/// quality is not one.
pub fn play_filters(
    quality: &str,
    max_bitrate: Option<u64>,
    min_seeders: u32,
    dual: DualPreference,
    remembered: &Link,
) -> (r: Option<(pick::Filters, Ceiling)>)
    ensures
        r == (match torrentio::cap_named(text::lower(text::trim(quality@))) {
            Some(q) => Some(
                (
                    pick::Filters {
                        max_quality: q,
                        max_bitrate: link::ceiling_bps(asked_ceiling(max_bitrate, *remembered)),
                        min_seeders,
                        dual,
                        link_bps: link::trusted(*remembered),
                    },
                    asked_ceiling(max_bitrate, *remembered),
                ),
            ),
            None => None,
        }),
{
    match Quality::parse_cap(quality) {
        Some(max_quality) => {
            let flag: Option<u64> = match max_bitrate {
                Some(n) => if n > u64::MAX / 1_000_000 {
                    Some(u64::MAX)
                } else {
                    Some(n * 1_000_000)
                },
                None => None,
            };
            let ceiling = link::effective_ceiling(flag, remembered);
            let filters = pick::Filters {
                max_quality,
                max_bitrate: ceiling.bps(),
                min_seeders,
                dual,
                link_bps: remembered.trusted_estimate(),
            };
            Some((filters, ceiling))
        },
        None => None,
    }
}

/// An adapted ceiling, announced; nothing where none was adapted.
pub open spec fn adapted_text(c: Ceiling) -> Option<Seq<char>> {
    match c {
        Ceiling::Adapted { bps, link_bps, samples } => Some(
            "Link measures "@ + torrentio::bps_text(link_bps) + " over "@ + text::decimal(
                samples as nat,
            ) + " sessions — releases capped at "@ + torrentio::bps_text(bps),
        ),
        _ => None,
    }
}

pub fn adapted_line(c: &Ceiling) -> (r: Option<String>)
    ensures
        match r {
            Some(s) => adapted_text(*c) == Some(s@),
            None => adapted_text(*c) is None,
        },
{
    match *c {
        Ceiling::Adapted { bps, link_bps, samples } => {
            let mut out = text::chars_of("Link measures ");
            text::push_str(&mut out, torrentio::format_bps(link_bps).as_str());
            text::push_str(&mut out, " over ");
            text::push_decimal(&mut out, samples as u64);
            text::push_str(&mut out, " sessions — releases capped at ");
            text::push_str(&mut out, torrentio::format_bps(bps).as_str());
            Some(text::string_of(out.as_slice()))
        },
        _ => None,
    }
}

/// The words to search for as one text, unless there is nothing in them.
pub fn query_of(words: &Vec<String>) -> (r: Option<String>)
    ensures
        ({
            let query = text::join(text::string_texts(words@), " "@);
            match r {
                Some(q) => q@ == query && text::trim(query).len() > 0,
                None => text::trim(query).len() == 0,
            }
        }),
{
    let n = words.len();
    let mut parts: Vec<Vec<char>> = Vec::new();
    let mut i: usize = 0;
    while i < n
        invariant
            i <= n == words@.len(),
            parts@.len() == i,
            forall|k: int| 0 <= k < i ==> (#[trigger] parts@[k])@ == words@[k]@,
        decreases n - i,
    {
        parts.push(text::chars_of(words[i].as_str()));
        i += 1;
    }
    assert(text::texts(parts@) =~= text::string_texts(words@));
    let query = text::joined(&parts, " ");
    if text::trimmed(query.as_slice()).len() == 0 {
        None
    } else {
        Some(text::string_of(query.as_slice()))
    }
}

// --- what was found ---------------------------------------------------------------

/// Indexers that did not answer, as a warning; nothing where all did.
pub open spec fn unreachable_text(failed: Seq<Seq<char>>) -> Option<Seq<char>> {
    if failed.len() == 0 {
        None
    } else {
        Some("⚠  "@ + text::join(failed, " and "@) + " unreachable — searching without it"@)
    }
}

pub fn unreachable_line(lookup: &Lookup) -> (r: Option<String>)
    ensures
        match r {
            Some(s) => unreachable_text(text::str_texts(lookup.failed@)) == Some(s@),
            None => unreachable_text(text::str_texts(lookup.failed@)) is None,
        },
{
    let n = lookup.failed.len();
    if n == 0 {
        return None;
    }
    let mut names: Vec<Vec<char>> = Vec::new();
    let mut i: usize = 0;
    while i < n
        invariant
            i <= n == lookup.failed@.len(),
            names@.len() == i,
            forall|k: int| 0 <= k < i ==> (#[trigger] names@[k])@ == lookup.failed@[k]@,
        decreases n - i,
    {
        names.push(text::chars_of(lookup.failed[i]));
        i += 1;
    }
    assert(text::texts(names@) =~= text::str_texts(lookup.failed@));
    let joined = text::joined(&names, " and ");
    let mut out = text::chars_of("⚠  ");
    text::push_all(&mut out, joined.as_slice());
    text::push_str(&mut out, " unreachable — searching without it");
    Some(text::string_of(out.as_slice()))
}

/// A release that is, or probably is, in two languages.
pub open spec fn speaks_two(c: Candidate) -> bool {
    audio::confidence(c.audio@) != Dual::No
}

/// How many releases speak two languages.
pub open spec fn duals(s: Seq<Candidate>) -> nat {
    s.filter(|c: Candidate| speaks_two(c)).len()
}

/// What a lookup brought.
pub open spec fn found_text(l: Lookup) -> Seq<char> {
    text::decimal(l.candidates@.len()) + " releases (Torrentio "@ + text::decimal(
        l.counts.torrentio as nat,
    ) + ", apibay "@ + text::decimal(l.counts.apibay as nat) + ", "@ + text::decimal(
        l.counts.shared as nat,
    ) + " shared) · "@ + text::decimal(duals(l.candidates@)) + " dual audio"@
}

pub fn found_line(lookup: &Lookup) -> (r: String)
    ensures
        r@ == found_text(*lookup),
{
    let n = lookup.candidates.len();
    let ghost p = |c: Candidate| speaks_two(c);
    let ghost all = lookup.candidates@;
    let mut dual: usize = 0;
    let mut i: usize = 0;
    assert(all.take(0).filter(p).len() == 0) by {
        reveal(Seq::filter);
    }
    while i < n
        invariant
            i <= n == all.len(),
            all == lookup.candidates@,
            p == (|c: Candidate| speaks_two(c)),
            dual <= i,
            dual == all.take(i as int).filter(p).len(),
        decreases n - i,
    {
        proof {
            text::lemma_filter_push(all.take(i as int), p, all[i as int]);
            assert(all.take(i + 1) =~= all.take(i as int).push(all[i as int]));
        }
        match lookup.candidates[i].audio.dual() {
            Dual::No => {},
            _ => {
                dual += 1;
            },
        }
        i += 1;
    }
    assert(all.take(n as int) =~= all);
    let mut out: Vec<char> = Vec::new();
    text::push_decimal(&mut out, n as u64);
    text::push_str(&mut out, " releases (Torrentio ");
    text::push_decimal(&mut out, lookup.counts.torrentio as u64);
    text::push_str(&mut out, ", apibay ");
    text::push_decimal(&mut out, lookup.counts.apibay as u64);
    text::push_str(&mut out, ", ");
    text::push_decimal(&mut out, lookup.counts.shared as u64);
    text::push_str(&mut out, " shared) · ");
    text::push_decimal(&mut out, dual as u64);
    text::push_str(&mut out, " dual audio");
    let r = text::string_of(out.as_slice());
    assert(r@ =~= found_text(*lookup));
    r
}

/// Why there is nothing to try.
#[derive(Clone, Copy, PartialEq, Eq, Debug, Structural)]
pub enum NoRelease {
    /// No indexer has one.
    NoneFound,
    /// Of those found, none fits the filters.
    NoneFit { found: usize, dual_only: bool },
}

pub open spec fn no_release_text(e: NoRelease, label: Seq<char>) -> Seq<char> {
    match e {
        NoRelease::NoneFound => "no indexer has a release for "@ + label,
        NoRelease::NoneFit { found, dual_only } => "none of the "@ + text::decimal(found as nat)
            + " releases for "@ + label + " fit the filters"@ + (if dual_only {
            " — no dual-audio release exists for this title, so drop --dual-only or use --dual"@
        } else {
            " (try a higher --max-bitrate, a lower --min-seeders, or -q 1080p)"@
        }),
    }
}

impl NoRelease {
    pub fn message(self, label: &str) -> (r: String)
        ensures
            r@ == no_release_text(self, label@),
    {
        match self {
            NoRelease::NoneFound => {
                let mut out = text::chars_of("no indexer has a release for ");
                text::push_str(&mut out, label);
                text::string_of(out.as_slice())
            },
            NoRelease::NoneFit { found, dual_only } => {
                let mut out = text::chars_of("none of the ");
                text::push_decimal(&mut out, found as u64);
                text::push_str(&mut out, " releases for ");
                text::push_str(&mut out, label);
                text::push_str(&mut out, " fit the filters");
                if dual_only {
                    text::push_str(
                        &mut out,
                        " — no dual-audio release exists for this title, so drop --dual-only or use --dual",
                    );
                } else {
                    text::push_str(
                        &mut out,
                        " (try a higher --max-bitrate, a lower --min-seeders, or -q 1080p)",
                    );
                }
                text::string_of(out.as_slice())
            },
        }
    }
}

/// The releases worth trying, best first, or why there are none.
pub fn shortlist(
    candidates: Vec<Candidate>,
    filters: &pick::Filters,
    runtime_secs: u32,
) -> (r: Result<Vec<Candidate>, NoRelease>)
    ensures
        ({
            let fit = pick::shortlisted(
                torrentio::releases(candidates@),
                *filters,
                runtime_secs,
            );
            match r {
                Ok(v) => fit.len() > 0 && torrentio::releases(v@) == fit,
                Err(e) => if candidates@.len() == 0 {
                    e == NoRelease::NoneFound
                } else {
                    fit.len() == 0 && e == (NoRelease::NoneFit {
                        found: candidates@.len() as usize,
                        dual_only: filters.dual == DualPreference::Only,
                    })
                },
            }
        }),
{
    let found = candidates.len();
    if found == 0 {
        return Err(NoRelease::NoneFound);
    }
    let fit = pick::shortlist(candidates, filters, runtime_secs);
    assert(torrentio::releases(fit@).len() == fit@.len());
    if fit.len() == 0 {
        return Err(
            NoRelease::NoneFit { found, dual_only: filters.dual == DualPreference::Only },
        );
    }
    Ok(fit)
}

/// A release that played last time may go first: it is still in the order, and
/// it answers the dual-audio preference no worse than the one that stands first
/// now.
pub open spec fn may_lead(order: Seq<Candidate>, dual: DualPreference, hash: Seq<char>) -> bool {
    match replay::place(order, hash) {
        Some(i) => pick::dual_level(order[0]@, dual) <= pick::dual_level(order[i]@, dual),
        None => false,
    }
}

/// The releases to try, in order: the one that played last time first, where it
/// is still worth trying first.
pub open spec fn tried(
    fit: Seq<Candidate>,
    dual: DualPreference,
    remembered: Option<Seq<char>>,
) -> Seq<Candidate> {
    let order = pick::attempts(fit, fit.len());
    list::first(
        match remembered {
            Some(hash) => if may_lead(order, dual, hash) {
                replay::promoted(order, remembered)
            } else {
                order
            },
            None => order,
        },
        pick::MAX_ATTEMPTS as nat,
    )
}

pub fn attempts<'a>(
    fit: &'a [Candidate],
    dual: DualPreference,
    remembered: Option<&str>,
) -> (r: Vec<&'a Candidate>)
    ensures
        pick::referred(r@) == tried(
            fit@,
            dual,
            match remembered {
                Some(h) => Some(h@),
                None => None,
            },
        ),
{
    let mut order = pick::attempt_order(fit, fit.len());
    if let Some(hash) = remembered {
        let place = replay::position(&order, hash);
        proof {
            replay::lemma_place(pick::referred(order@), hash@);
        }
        if let Some(i) = place {
            if pick::dual_rank_of(order[0], dual) <= pick::dual_rank_of(order[i], dual) {
                order = replay::promote(order, remembered);
            }
        }
    }
    let ghost all = order@;
    let r = list::cut(order, pick::MAX_ATTEMPTS);
    assert(pick::referred(r@) =~= list::first(
        pick::referred(all),
        pick::MAX_ATTEMPTS as nat,
    ));
    r
}

/// The release that played last time is tried first whenever it fits the filters
/// and answers the dual-audio preference no worse than the release that would
/// lead without it; where it answers worse, that release keeps the lead. No run
/// tries more releases than it may.
pub proof fn remembered_release_comes_first(
    fit: Seq<Candidate>,
    dual: DualPreference,
    hash: Seq<char>,
)
    ensures
        tried(fit, dual, Some(hash)).len() <= pick::MAX_ATTEMPTS,
        forall|i: int|
            0 <= i < fit.len() && sources::hash_of((#[trigger] fit[i]).magnet@) == hash && (forall|
                j: int,
            |
                0 <= j < fit.len() && sources::hash_of((#[trigger] fit[j]).magnet@) == hash
                    ==> pick::dual_level(tried(fit, dual, None)[0]@, dual) <= pick::dual_level(
                    fit[j]@,
                    dual,
                )) ==> tried(fit, dual, Some(hash)).len() > 0 && sources::hash_of(
                tried(fit, dual, Some(hash))[0].magnet@,
            ) == hash,
        (forall|j: int|
            0 <= j < fit.len() && sources::hash_of((#[trigger] fit[j]).magnet@) == hash
                ==> pick::dual_level(fit[j]@, dual) < pick::dual_level(
                tried(fit, dual, None)[0]@,
                dual,
            )) ==> tried(fit, dual, Some(hash)) == tried(fit, dual, None),
        tried(fit, dual, Some(hash)).len() > 0 ==> pick::dual_level(
            tried(fit, dual, None)[0]@,
            dual,
        ) <= pick::dual_level(tried(fit, dual, Some(hash))[0]@, dual),
{
    broadcast use vstd::seq_lib::group_to_multiset_ensures;

    pick::attempts_reorder(fit);
    let order = pick::attempts(fit, fit.len());
    replay::promoting_reorders(order, Some(hash));
    replay::lemma_place(order, hash);
    assert forall|i: int| 0 <= i < fit.len() implies order.contains(#[trigger] fit[i]) by {
        assert(fit.to_multiset().contains(fit[i]));
        assert(order.to_multiset().contains(fit[i]));
    }
    if fit.len() > 0 {
        assert(order.contains(fit[0]));
        assert(tried(fit, dual, None)[0] == order[0]);
    }
    match replay::place(order, hash) {
        Some(k) => {
            assert(order.to_multiset().contains(order[k]));
            assert(fit.to_multiset().contains(order[k]));
            assert(fit.contains(order[k]));
            let j = choose|j: int| 0 <= j < fit.len() && fit[j] == order[k];
            assert(sources::hash_of(fit[j].magnet@) == hash);
        },
        None => {
            assert forall|i: int| 0 <= i < fit.len() implies sources::hash_of(
                (#[trigger] fit[i]).magnet@,
            ) != hash by {
                let j = choose|j: int| 0 <= j < order.len() && order[j] == fit[i];
                assert(order[j] == fit[i]);
            }
        },
    }
}

// --- what is said of an attempt ---------------------------------------------------

/// A release about to be tried.
pub open spec fn trying_text(c: Candidate, runtime_secs: u32) -> Seq<char> {
    "Trying "@ + torrentio::quality_label(c.quality) + " · "@ + (match c.size_bytes {
        Some(n) => torrentio::bytes_text(n),
        None => "size unknown"@,
    }) + " · "@ + text::decimal(c.seeders as nat) + " seeders"@ + (if audio::audio_label(
        c.audio,
    ).len() == 0 {
        Seq::empty()
    } else {
        " · "@ + audio::audio_label(c.audio)
    }) + (match torrentio::bitrate(c.size_bytes, runtime_secs) {
        Some(b) => " · needs "@ + torrentio::bps_text(b),
        None => Seq::empty(),
    })
}

pub fn trying_line(c: &Candidate, runtime_secs: u32) -> (r: String)
    ensures
        r@ == trying_text(*c, runtime_secs),
{
    let mut out = text::chars_of("Trying ");
    text::push_str(&mut out, c.quality.label());
    text::push_str(&mut out, " · ");
    match c.size_bytes {
        Some(n) => text::push_str(&mut out, torrentio::format_bytes(n).as_str()),
        None => text::push_str(&mut out, "size unknown"),
    }
    text::push_str(&mut out, " · ");
    text::push_decimal(&mut out, c.seeders as u64);
    text::push_str(&mut out, " seeders");
    let spoken = c.audio.label();
    if !spoken.as_str().is_empty() {
        text::push_str(&mut out, " · ");
        text::push_str(&mut out, spoken.as_str());
    }
    match c.required_bps(runtime_secs) {
        Some(b) => {
            text::push_str(&mut out, " · needs ");
            text::push_str(&mut out, torrentio::format_bps(b).as_str());
        },
        None => {},
    }
    let r = text::string_of(out.as_slice());
    assert(r@ =~= trying_text(*c, runtime_secs));
    r
}

/// A reading while the head of a stream is buffered.
pub open spec fn buffering_text(s: ProbeStatus) -> Seq<char> {
    "   buffering "@ + torrentio::bytes_text(s.buffered) + " · "@ + torrentio::bps_text(s.rate_bps)
        + " · "@ + text::decimal(s.live_peers as nat) + " peer"@ + (if s.live_peers == 1 {
        Seq::empty()
    } else {
        "s"@
    }) + " ("@ + text::decimal(s.seen_peers as nat) + " known)"@
}

pub fn buffering_line(s: &ProbeStatus) -> (r: String)
    ensures
        r@ == buffering_text(*s),
{
    let mut out = text::chars_of("   buffering ");
    text::push_str(&mut out, torrentio::format_bytes(s.buffered).as_str());
    text::push_str(&mut out, " · ");
    text::push_str(&mut out, torrentio::format_bps(s.rate_bps).as_str());
    text::push_str(&mut out, " · ");
    text::push_decimal(&mut out, s.live_peers as u64);
    text::push_str(&mut out, " peer");
    if s.live_peers != 1 {
        text::push_str(&mut out, "s");
    }
    text::push_str(&mut out, " (");
    text::push_decimal(&mut out, s.seen_peers as u64);
    text::push_str(&mut out, " known)");
    let r = text::string_of(out.as_slice());
    assert(r@ =~= buffering_text(*s));
    r
}

/// What a probe learned.
pub open spec fn probed_text(p: Probe) -> Seq<char> {
    match p {
        Probe::Ready { rate_bps, buffered, .. } => "   ready · "@ + torrentio::bytes_text(buffered)
            + " buffered at "@ + torrentio::bps_text(rate_bps),
        Probe::TooSlow { rate_bps, buffered, live_peers, seen_peers } => "   too slow · "@
            + torrentio::bps_text(rate_bps) + " sustained, "@ + torrentio::bytes_text(buffered)
            + " buffered, "@ + text::decimal(live_peers as nat) + " peers ("@ + text::decimal(
            seen_peers as nat,
        ) + " known) — trying a lighter release"@,
    }
}

pub fn probed_line(p: &Probe) -> (r: String)
    ensures
        r@ == probed_text(*p),
{
    let mut out: Vec<char> = Vec::new();
    match p {
        Probe::Ready { rate_bps, buffered, .. } => {
            text::push_str(&mut out, "   ready · ");
            text::push_str(&mut out, torrentio::format_bytes(*buffered).as_str());
            text::push_str(&mut out, " buffered at ");
            text::push_str(&mut out, torrentio::format_bps(*rate_bps).as_str());
        },
        Probe::TooSlow { rate_bps, buffered, live_peers, seen_peers } => {
            text::push_str(&mut out, "   too slow · ");
            text::push_str(&mut out, torrentio::format_bps(*rate_bps).as_str());
            text::push_str(&mut out, " sustained, ");
            text::push_str(&mut out, torrentio::format_bytes(*buffered).as_str());
            text::push_str(&mut out, " buffered, ");
            text::push_decimal(&mut out, *live_peers as u64);
            text::push_str(&mut out, " peers (");
            text::push_decimal(&mut out, *seen_peers as u64);
            text::push_str(&mut out, " known) — trying a lighter release");
        },
    }
    let r = text::string_of(out.as_slice());
    assert(r@ =~= probed_text(*p));
    r
}

/// The warning that the fastest release plays though none cleared the threshold.
pub open spec fn fastest_text(rate_bps: u64) -> Seq<char> {
    "⚠  No release cleared the smoothness check. Playing the fastest one ("@ + torrentio::bps_text(
        rate_bps,
    ) + " sustained) — it may buffer."@
}

fn fastest_line(rate_bps: u64) -> (r: String)
    ensures
        r@ == fastest_text(rate_bps),
{
    let mut out = text::chars_of(
        "⚠  No release cleared the smoothness check. Playing the fastest one (",
    );
    text::push_str(&mut out, torrentio::format_bps(rate_bps).as_str());
    text::push_str(&mut out, " sustained) — it may buffer.");
    text::string_of(out.as_slice())
}

/// What to say when no release could be started.
pub open spec fn gave_up_text(label: Seq<char>) -> Seq<char> {
    "could not stream "@ + label
        + ": no release could be started. Try -q 1080p or --min-seeders 1."@
}

fn gave_up_line(label: &str) -> (r: String)
    ensures
        r@ == gave_up_text(label@),
{
    let mut out = text::chars_of("could not stream ");
    text::push_str(&mut out, label);
    text::push_str(
        &mut out,
        ": no release could be started. Try -q 1080p or --min-seeders 1.",
    );
    text::string_of(out.as_slice())
}

fn with_reason(what: &str, why: &str) -> (r: String)
    ensures
        r@ == what@ + why@,
{
    let mut out = text::chars_of(what);
    text::push_str(&mut out, why);
    text::string_of(out.as_slice())
}

/// What a probe says of the link: the rate it measured, unless it read what was
/// on disk already.
pub open spec fn measured(p: Probe) -> Option<u64> {
    match p {
        Probe::Ready { rate_bps, from_cache, .. } => if from_cache {
            None
        } else {
            Some(rate_bps)
        },
        Probe::TooSlow { rate_bps, .. } => Some(rate_bps),
    }
}

pub fn link_sample(p: &Probe) -> (r: Option<u64>)
    ensures
        r == measured(*p),
{
    match *p {
        Probe::Ready { rate_bps, from_cache, .. } => if from_cache {
            None
        } else {
            Some(rate_bps)
        },
        Probe::TooSlow { rate_bps, .. } => Some(rate_bps),
    }
}

// --- the walk ---------------------------------------------------------------------

/// A release that is ready for mpv.
#[derive(Debug)]
pub struct Playable {
    pub url: String,
    pub title: String,
    pub bitrate: Option<u64>,
    /// Kept so losing candidates can be dropped from the session.
    pub torrent_id: usize,
}

/// What a playable release says.
#[verifier::ext_equal]
pub struct Stream {
    pub url: Seq<char>,
    pub title: Seq<char>,
    pub bitrate: Option<u64>,
    pub torrent_id: usize,
}

impl View for Playable {
    type V = Stream;

    open spec fn view(&self) -> Stream {
        Stream {
            url: self.url@,
            title: self.title@,
            bitrate: self.bitrate,
            torrent_id: self.torrent_id,
        }
    }
}

/// What would play, for a run that stops there.
pub open spec fn dry_run_texts(p: Stream) -> Seq<Seq<char>> {
    seq![
        "would play: "@ + p.title,
        "stream:     "@ + p.url,
        "bitrate:    "@ + (match p.bitrate {
            Some(b) => torrentio::bps_text(b),
            None => "unknown"@,
        }),
    ]
}

pub fn dry_run_lines(p: &Playable) -> (r: Vec<String>)
    ensures
        text::string_texts(r@) == dry_run_texts(p@),
{
    let mut out: Vec<String> = Vec::new();
    out.push(with_reason("would play: ", p.title.as_str()));
    out.push(with_reason("stream:     ", p.url.as_str()));
    match p.bitrate {
        Some(b) => out.push(with_reason("bitrate:    ", torrentio::format_bps(b).as_str())),
        None => out.push(with_reason("bitrate:    ", "unknown")),
    }
    assert(text::string_texts(out@) =~= dry_run_texts(p@));
    out
}

/// What to do next.
#[derive(Debug)]
pub enum Move {
    /// Add this magnet to the session.
    Add(String),
    /// Restrict the torrent to one file, and probe its stream. Season packs
    /// otherwise fetch every episode at once, splitting bandwidth away from
    /// the one on screen.
    Probe { torrent_id: usize, file_idx: usize, url: String, needed: Option<u64> },
    /// Hand this to the player.
    Play(Playable),
    /// Nothing can be played.
    GiveUp(String),
}

/// What a move says.
pub enum Doing {
    Add(Seq<char>),
    Probe { torrent_id: usize, file_idx: usize, url: Seq<char>, needed: Option<u64> },
    Play(Stream),
    GiveUp(Seq<char>),
}

impl View for Move {
    type V = Doing;

    open spec fn view(&self) -> Doing {
        match *self {
            Move::Add(m) => Doing::Add(m@),
            Move::Probe { torrent_id, file_idx, url, needed } => Doing::Probe {
                torrent_id,
                file_idx,
                url: url@,
                needed,
            },
            Move::Play(p) => Doing::Play(p@),
            Move::GiveUp(s) => Doing::GiveUp(s@),
        }
    }
}

/// One turn of the walk: what to drop from the session, what to tell the user,
/// and what to do after that.
#[derive(Debug)]
pub struct Turn {
    pub forget: Vec<usize>,
    pub say: Vec<String>,
    pub act: Move,
}

/// Where the walk stands.
#[derive(Debug)]
pub enum Stage {
    /// Waiting for a release to be added.
    Adding,
    /// Waiting for its stream to be probed.
    Probing { torrent_id: usize, url: String, file_name: String },
    /// Over, with something to play or nothing.
    Over,
}

/// What is seen of where the walk stands.
pub enum At {
    Adding,
    Probing { torrent_id: usize, url: Seq<char>, file_name: Seq<char> },
    Over,
}

impl View for Stage {
    type V = At;

    open spec fn view(&self) -> At {
        match *self {
            Stage::Adding => At::Adding,
            Stage::Probing { torrent_id, url, file_name } => At::Probing {
                torrent_id,
                url: url@,
                file_name: file_name@,
            },
            Stage::Over => At::Over,
        }
    }
}

/// The walk through the releases of one title.
#[derive(Debug)]
pub struct Resolver<'a> {
    /// The releases to try, in order.
    pub attempts: Vec<&'a Candidate>,
    pub label: String,
    pub runtime_secs: u32,
    pub season: Option<u32>,
    pub episode: Option<u32>,
    /// The place of the release being tried.
    pub next: usize,
    pub stage: Stage,
    /// The fastest release so far that did not clear the threshold, and its rate.
    pub fallback: Option<(u64, Playable)>,
}

/// What is seen of a walk.
#[verifier::ext_equal]
pub struct Walk {
    pub attempts: Seq<Candidate>,
    pub label: Seq<char>,
    pub runtime_secs: u32,
    pub season: Option<u32>,
    pub episode: Option<u32>,
    pub next: nat,
    pub stage: At,
    pub fallback: Option<(u64, Stream)>,
}

pub open spec fn kept_back(f: Option<(u64, Playable)>) -> Option<(u64, Stream)> {
    match f {
        Some((rate, p)) => Some((rate, p@)),
        None => None,
    }
}

impl<'a> View for Resolver<'a> {
    type V = Walk;

    open spec fn view(&self) -> Walk {
        Walk {
            attempts: pick::referred(self.attempts@),
            label: self.label@,
            runtime_secs: self.runtime_secs,
            season: self.season,
            episode: self.episode,
            next: self.next as nat,
            stage: self.stage@,
            fallback: kept_back(self.fallback),
        }
    }
}

/// What is seen of a turn.
#[verifier::ext_equal]
pub struct Step {
    pub forget: Seq<usize>,
    pub say: Seq<Seq<char>>,
    pub act: Doing,
}

impl View for Turn {
    type V = Step;

    open spec fn view(&self) -> Step {
        Step { forget: self.forget@, say: text::string_texts(self.say@), act: self.act@ }
    }
}

/// The walk stands at the place `w.next`: the release there is tried, or where
/// there is none, the walk is over. `forget` and `say` come first.
pub open spec fn onward(w: Walk, forget: Seq<usize>, say: Seq<Seq<char>>) -> (Walk, Step) {
    if w.next < w.attempts.len() {
        let c = w.attempts[w.next as int];
        (
            Walk { stage: At::Adding, ..w },
            Step {
                forget,
                say: say.push(trying_text(c, w.runtime_secs)),
                act: Doing::Add(c.magnet@),
            },
        )
    } else {
        let over = Walk { stage: At::Over, fallback: None, ..w };
        match w.fallback {
            Some((rate, p)) => (
                over,
                Step { forget, say: say.push(fastest_text(rate)), act: Doing::Play(p) },
            ),
            None => (over, Step { forget, say, act: Doing::GiveUp(gave_up_text(w.label)) }),
        }
    }
}

/// The name of a file of a torrent.
pub open spec fn name_of_file(files: Seq<TorrentFile>, idx: usize) -> Option<Seq<char>>
    decreases files.len(),
{
    if files.len() == 0 {
        None
    } else if files[0].idx == idx {
        Some(files[0].name@)
    } else {
        name_of_file(files.skip(1), idx)
    }
}

fn find_name(files: &Vec<TorrentFile>, idx: usize) -> (r: Option<String>)
    ensures
        match r {
            Some(s) => name_of_file(files@, idx) == Some(s@),
            None => name_of_file(files@, idx) is None,
        },
{
    let n = files.len();
    let mut i: usize = 0;
    assert(files@.skip(0) =~= files@);
    while i < n
        invariant
            i <= n == files@.len(),
            name_of_file(files@.skip(i as int), idx) == name_of_file(files@, idx),
        decreases n - i,
    {
        assert(files@.skip(i as int)[0] == files@[i as int]);
        assert(files@.skip(i as int).skip(1) =~= files@.skip(i + 1));
        if files[i].idx == idx {
            return Some(files[i].name.clone());
        }
        i += 1;
    }
    None
}

/// Where a file of a torrent is read from.
pub open spec fn file_url(base: Seq<char>, torrent_id: usize, file_idx: usize) -> Seq<char> {
    base + "/torrents/"@ + text::decimal(torrent_id as nat) + "/stream/"@ + text::decimal(
        file_idx as nat,
    )
}

/// A release could not be added.
pub open spec fn when_not_added(w: Walk, why: Seq<char>) -> (Walk, Step) {
    onward(
        Walk { next: w.next + 1, ..w },
        Seq::empty(),
        seq!["   could not add: "@ + why],
    )
}

/// A release was added, with these files, to a session served at `base`.
pub open spec fn when_added(
    w: Walk,
    torrent_id: usize,
    files: Seq<TorrentFile>,
    base: Seq<char>,
) -> (Walk, Step) {
    let c = w.attempts[w.next as int];
    match engine::chosen(files, c.file_idx, w.season, w.episode) {
        Some(file_idx) => {
            let url = file_url(base, torrent_id, file_idx);
            let file_name = match name_of_file(files, file_idx) {
                Some(n) => n,
                None => c.title@,
            };
            (
                Walk { stage: At::Probing { torrent_id, url, file_name }, ..w },
                Step {
                    forget: Seq::empty(),
                    say: Seq::empty(),
                    act: Doing::Probe {
                        torrent_id,
                        file_idx,
                        url,
                        needed: torrentio::bitrate(c.size_bytes, w.runtime_secs),
                    },
                },
            )
        },
        None => onward(
            Walk { next: w.next + 1, ..w },
            seq![torrent_id],
            seq!["   no playable file: the torrent contains no files"@],
        ),
    }
}

/// A stream was probed.
pub open spec fn when_probed(w: Walk, probe: Probe) -> (Walk, Step) {
    let c = w.attempts[w.next as int];
    let needed = torrentio::bitrate(c.size_bytes, w.runtime_secs);
    let say = seq![probed_text(probe)];
    match (w.stage, probe) {
        (At::Probing { torrent_id, url, file_name }, Probe::Ready { .. }) => (
            Walk { stage: At::Over, fallback: None, ..w },
            Step {
                // This one won; stop any earlier also-ran from stealing
                // bandwidth from it.
                forget: match w.fallback {
                    Some((_, old_one)) => seq![old_one.torrent_id],
                    None => Seq::empty(),
                },
                say,
                act: Doing::Play(Stream { url, title: w.label, bitrate: needed, torrent_id }),
            },
        ),
        (At::Probing { torrent_id, url, file_name }, Probe::TooSlow { rate_bps, .. }) => {
            let this = Stream {
                url,
                title: w.label + " ["@ + file_name + "]"@,
                bitrate: needed,
                torrent_id,
            };
            match w.fallback {
                Some((rate, other)) => if rate_bps > rate {
                    onward(
                        Walk { next: w.next + 1, fallback: Some((rate_bps, this)), ..w },
                        seq![other.torrent_id],
                        say,
                    )
                } else {
                    onward(Walk { next: w.next + 1, ..w }, seq![torrent_id], say)
                },
                None => onward(
                    Walk { next: w.next + 1, fallback: Some((rate_bps, this)), ..w },
                    Seq::empty(),
                    say,
                ),
            }
        },
        _ => arbitrary(),
    }
}

/// A probe failed.
pub open spec fn when_probe_failed(w: Walk, why: Seq<char>) -> (Walk, Step) {
    onward(
        Walk { next: w.next + 1, ..w },
        seq![w.stage->torrent_id],
        seq!["   probe failed: "@ + why],
    )
}

fn said(line: String) -> (r: Vec<String>)
    ensures
        text::string_texts(r@) == seq![line@],
{
    let mut v: Vec<String> = Vec::new();
    v.push(line);
    assert(text::string_texts(v@) =~= seq![line@]);
    v
}

fn just(id: usize) -> (r: Vec<usize>)
    ensures
        r@ == seq![id],
{
    let mut v: Vec<usize> = Vec::new();
    v.push(id);
    assert(v@ =~= seq![id]);
    v
}

impl<'a> Resolver<'a> {
    /// A walk through some releases, and its first turn.
    pub fn start(
        attempts: Vec<&'a Candidate>,
        label: String,
        runtime_secs: u32,
        season: Option<u32>,
        episode: Option<u32>,
    ) -> (r: (Resolver<'a>, Turn))
        ensures
            (r.0@, r.1@) == onward(
                Walk {
                    attempts: pick::referred(attempts@),
                    label: label@,
                    runtime_secs,
                    season,
                    episode,
                    next: 0,
                    stage: At::Adding,
                    fallback: None,
                },
                Seq::empty(),
                Seq::empty(),
            ),
    {
        let mut r = Resolver {
            attempts,
            label,
            runtime_secs,
            season,
            episode,
            next: 0,
            stage: Stage::Adding,
            fallback: None,
        };
        let none: Vec<String> = Vec::new();
        assert(text::string_texts(none@) =~= Seq::empty());
        let turn = r.onward(Vec::new(), none);
        (r, turn)
    }

    fn onward(&mut self, forget: Vec<usize>, say: Vec<String>) -> (r: Turn)
        ensures
            (final(self)@, r@) == onward(old(self)@, forget@, text::string_texts(say@)),
    {
        let ghost before = self@;
        let ghost said_before = text::string_texts(say@);
        let mut say = say;
        if self.next < self.attempts.len() {
            let c: &Candidate = self.attempts[self.next];
            assert(before.attempts[self.next as int] == *c);
            let line = trying_line(c, self.runtime_secs);
            let ghost shown = line@;
            say.push(line);
            assert(text::string_texts(say@) =~= said_before.push(shown));
            self.stage = Stage::Adding;
            let r = Turn { forget, say, act: Move::Add(c.magnet.clone()) };
            assert((self@, r@) == onward(before, forget@, said_before)) by {
                assert(self@ =~= onward(before, forget@, said_before).0);
            }
            r
        } else {
            self.stage = Stage::Over;
            let kept = self.fallback.take();
            let r = match kept {
                Some((rate, p)) => {
                    let line = fastest_line(rate);
                    let ghost shown = line@;
                    say.push(line);
                    assert(text::string_texts(say@) =~= said_before.push(shown));
                    Turn { forget, say, act: Move::Play(p) }
                },
                None => Turn {
                    forget,
                    say,
                    act: Move::GiveUp(gave_up_line(self.label.as_str())),
                },
            };
            assert(self@ =~= onward(before, forget@, said_before).0);
            r
        }
    }

    /// The release could not be added.
    pub fn not_added(&mut self, why: &str) -> (r: Turn)
        requires
            old(self)@.stage is Adding,
            old(self)@.next < old(self)@.attempts.len(),
        ensures
            (final(self)@, r@) == when_not_added(old(self)@, why@),
    {
        let ghost before = self@;
        let say = said(with_reason("   could not add: ", why));
        let count = self.attempts.len();
        assert(self.next < count);
        self.next = self.next + 1;
        assert(self@ =~= Walk { next: before.next + 1, ..before });
        self.onward(Vec::new(), say)
    }

    /// The release was added to the session, with these files.
    pub fn added(
        &mut self,
        torrent_id: usize,
        files: &Vec<TorrentFile>,
        session: &Engine,
    ) -> (r: Turn)
        requires
            old(self)@.stage is Adding,
            old(self)@.next < old(self)@.attempts.len(),
        ensures
            (final(self)@, r@) == when_added(
                old(self)@,
                torrent_id,
                files@,
                session.served_at(),
            ),
    {
        let ghost before = self@;
        let c: &Candidate = self.attempts[self.next];
        assert(before.attempts[before.next as int] == *c);
        match engine::choose_file(files.as_slice(), c.file_idx, self.season, self.episode) {
            Ok(file_idx) => {
                let url = session.stream_url(torrent_id, file_idx);
                let file_name: String = match find_name(files, file_idx) {
                    Some(n) => n,
                    None => c.title.clone(),
                };
                let needed = c.required_bps(self.runtime_secs);
                self.stage = Stage::Probing { torrent_id, url: url.clone(), file_name };
                let say: Vec<String> = Vec::new();
                assert(text::string_texts(say@) =~= Seq::empty());
                let forget: Vec<usize> = Vec::new();
                let r = Turn {
                    forget,
                    say,
                    act: Move::Probe { torrent_id, file_idx, url, needed },
                };
                proof {
                    let (w, s) = when_added(before, torrent_id, files@, session.served_at());
                    assert(self@ =~= w);
                    assert(r@ =~= s);
                }
                r
            },
            Err(e) => {
                let say = said(with_reason("   no playable file: ", e.message()));
                assert("   no playable file: "@ + "the torrent contains no files"@
                    =~= "   no playable file: the torrent contains no files"@) by {
                    reveal_strlit("   no playable file: ");
                    reveal_strlit("the torrent contains no files");
                    reveal_strlit("   no playable file: the torrent contains no files");
                }
                let count = self.attempts.len();
                assert(self.next < count);
                self.next = self.next + 1;
                assert(self@ =~= Walk { next: before.next + 1, ..before });
                self.onward(just(torrent_id), say)
            },
        }
    }

    /// The stream was probed.
    pub fn probed(&mut self, probe: Probe) -> (r: Turn)
        requires
            old(self)@.stage is Probing,
            old(self)@.next < old(self)@.attempts.len(),
        ensures
            (final(self)@, r@) == when_probed(old(self)@, probe),
    {
        let ghost before = self@;
        let c: &Candidate = self.attempts[self.next];
        assert(before.attempts[before.next as int] == *c);
        let needed = c.required_bps(self.runtime_secs);
        let say = said(probed_line(&probe));
        let mut stage = Stage::Over;
        std::mem::swap(&mut stage, &mut self.stage);
        match stage {
            Stage::Probing { torrent_id, url, file_name } => match probe {
                Probe::Ready { .. } => {
                    let forget: Vec<usize> = match self.fallback.take() {
                        Some((_, other)) => just(other.torrent_id),
                        None => Vec::new(),
                    };
                    let title = self.label.clone();
                    let r = Turn {
                        forget,
                        say,
                        act: Move::Play(Playable { url, title, bitrate: needed, torrent_id }),
                    };
                    proof {
                        let (w, s) = when_probed(before, probe);
                        assert(self@ =~= w);
                        assert(r@ =~= s);
                    }
                    r
                },
                Probe::TooSlow { rate_bps, .. } => {
                    let mut title = text::chars_of(self.label.as_str());
                    text::push_str(&mut title, " [");
                    text::push_str(&mut title, file_name.as_str());
                    text::push_str(&mut title, "]");
                    let this = Playable {
                        url,
                        title: text::string_of(title.as_slice()),
                        bitrate: needed,
                        torrent_id,
                    };
                    let ghost shown = this@;
                    let count = self.attempts.len();
                    assert(self.next < count);
                    self.next = self.next + 1;
                    let kept = self.fallback.take();
                    let forget: Vec<usize> = match kept {
                        Some((rate, other)) => if rate_bps > rate {
                            // Keep the previous fallback's torrent from
                            // competing for bandwidth with everything that
                            // comes after it.
                            self.fallback = Some((rate_bps, this));
                            just(other.torrent_id)
                        } else {
                            self.fallback = Some((rate, other));
                            just(torrent_id)
                        },
                        None => {
                            self.fallback = Some((rate_bps, this));
                            Vec::new()
                        },
                    };
                    let ghost fallback = self@.fallback;
                    let ghost w = Walk { next: before.next + 1, fallback, ..before };
                    let ghost here = self@;
                    assert(here =~= Walk { stage: here.stage, ..w });
                    proof {
                        lemma_stage_does_not_matter(
                            here,
                            w,
                            forget@,
                            text::string_texts(say@),
                        );
                    }
                    self.onward(forget, say)
                },
            },
            _ => {
                assert(false);
                Turn { forget: Vec::new(), say, act: Move::GiveUp(self.label.clone()) }
            },
        }
    }

    /// The probe failed.
    pub fn probe_failed(&mut self, why: &str) -> (r: Turn)
        requires
            old(self)@.stage is Probing,
            old(self)@.next < old(self)@.attempts.len(),
        ensures
            (final(self)@, r@) == when_probe_failed(old(self)@, why@),
    {
        let ghost before = self@;
        let id: usize = match &self.stage {
            Stage::Probing { torrent_id, .. } => *torrent_id,
            _ => 0,
        };
        let say = said(with_reason("   probe failed: ", why));
        let count = self.attempts.len();
        assert(self.next < count);
        self.next = self.next + 1;
        assert(self@ =~= Walk { next: before.next + 1, ..before });
        self.onward(just(id), say)
    }
}

proof fn lemma_stage_does_not_matter(a: Walk, b: Walk, forget: Seq<usize>, say: Seq<Seq<char>>)
    requires
        a == (Walk { stage: a.stage, ..b }),
    ensures
        onward(a, forget, say) == onward(b, forget, say),
{
    assert(onward(a, forget, say).0 =~= onward(b, forget, say).0);
}

// --- what holds of every walk -----------------------------------------------------

/// What the caller of a walk can report.
pub enum Report {
    NotAdded(Seq<char>),
    Added { torrent_id: usize, files: Seq<TorrentFile>, base: Seq<char> },
    Probed(Probe),
    ProbeFailed(Seq<char>),
}

/// The turn that follows a report.
pub open spec fn after(w: Walk, e: Report) -> (Walk, Step) {
    match e {
        Report::NotAdded(why) => when_not_added(w, why),
        Report::Added { torrent_id, files, base } => when_added(w, torrent_id, files, base),
        Report::Probed(probe) => when_probed(w, probe),
        Report::ProbeFailed(why) => when_probe_failed(w, why),
    }
}

/// The torrents that a walk has in the session.
pub open spec fn running(w: Walk) -> Set<usize> {
    let held = match w.fallback {
        Some((_, p)) => set![p.torrent_id],
        None => Set::empty(),
    };
    match w.stage {
        At::Probing { torrent_id, .. } => held.insert(torrent_id),
        _ => held,
    }
}

/// A walk that is not over, and a report it can get there: a torrent that is
/// added is not one it has already.
pub open spec fn awaits(w: Walk, e: Report) -> bool {
    &&& w.next < w.attempts.len()
    &&& w.stage is Probing && w.fallback is Some ==> (w.fallback->0).1.torrent_id
        != w.stage->torrent_id
    &&& match e {
        Report::NotAdded(_) => w.stage is Adding,
        Report::Added { torrent_id, .. } => w.stage is Adding && !running(w).contains(torrent_id),
        Report::Probed(_) | Report::ProbeFailed(_) => w.stage is Probing,
    }
}

/// The torrents in the session once a report is dealt with and what is to be
/// forgotten is gone.
pub open spec fn left_running(w: Walk, e: Report) -> Set<usize> {
    let before = match e {
        Report::Added { torrent_id, .. } => running(w).insert(torrent_id),
        _ => running(w),
    };
    before.difference(after(w, e).1.forget.to_set())
}

/// Nothing runs on: after every turn the session holds the release being
/// probed and the fallback, no more; when something plays, that alone is left;
/// when nothing can be played, nothing is.
pub proof fn also_rans_are_dropped(w: Walk, e: Report)
    requires
        awaits(w, e),
    ensures
        match after(w, e).1.act {
            Doing::Play(p) => left_running(w, e) =~= set![p.torrent_id],
            Doing::GiveUp(_) => left_running(w, e) =~= Set::<usize>::empty(),
            _ => left_running(w, e) =~= running(after(w, e).0),
        },
{
    let (v, s) = after(w, e);
    assert forall|id: usize| s.forget.to_set().contains(id) == s.forget.contains(id) by {}
    if s.forget.len() == 1 {
        assert(s.forget.contains(s.forget[0]));
    }
}

/// The walk goes on to the next release or comes to its end: between two
/// reports it cannot stay where it is, and it never tries more releases than
/// it was given.
pub proof fn walks_end(w: Walk, e: Report)
    requires
        awaits(w, e),
    ensures
        ({
            let (v, s) = after(w, e);
            &&& v.attempts == w.attempts
            &&& v.next == w.next || v.next == w.next + 1
            &&& match s.act {
                Doing::Add(magnet) => v.next == w.next + 1 && v.next < v.attempts.len() && magnet
                    == v.attempts[v.next as int].magnet@ && v.stage is Adding,
                Doing::Probe { .. } => v.next == w.next && w.stage is Adding
                    && v.stage is Probing,
                Doing::Play(_) => v.stage is Over,
                Doing::GiveUp(_) => v.stage is Over,
            }
        }),
{
}

/// A release that did not clear the threshold plays only when every release was
/// tried, and it is the fastest of those measured: what is kept back is never
/// slower than what was just measured, nor than what was kept before.
pub proof fn the_fastest_is_kept(w: Walk, e: Report)
    requires
        awaits(w, e),
    ensures
        ({
            let (v, s) = after(w, e);
            &&& s.act is Play ==> (e matches Report::Probed(Probe::Ready { .. })) || v.next
                == v.attempts.len()
            &&& e matches Report::Probed(Probe::TooSlow { rate_bps, .. }) ==> ({
                let best = match w.fallback {
                    Some((rate, _)) => if rate_bps > rate {
                        rate_bps
                    } else {
                        rate
                    },
                    None => rate_bps,
                };
                if v.stage is Over {
                    s.act is Play && s.say.last() == fastest_text(best)
                } else {
                    v.fallback is Some && (v.fallback->0).0 == best
                }
            })
        }),
{
}

/// What was probed is what plays: the stream that was ready, under its title's
/// name, sized by the bits of its file over the runtime. Of those too slow the
/// faster one is kept back, the earlier of two alike, with the name of its file.
/// A file is probed at its own place in the torrent that was added. A release
/// that fails takes nothing with it.
pub proof fn what_was_probed_is_what_plays(w: Walk, e: Report)
    requires
        awaits(w, e),
        w.attempts[w.next as int].size_bytes is Some
            ==> w.attempts[w.next as int].size_bytes->0 * 8 <= u64::MAX,
    ensures
        ({
            let (v, s) = after(w, e);
            let c = w.attempts[w.next as int];
            let needed: Option<u64> = if c.size_bytes is Some && w.runtime_secs > 0 {
                Some(((c.size_bytes->0 * 8) / (w.runtime_secs as int)) as u64)
            } else {
                None
            };
            let last = w.next + 1 == w.attempts.len();
            let kept: Option<(u64, Stream)> = match e {
                Report::Probed(Probe::TooSlow { rate_bps, .. }) => if w.fallback is Some && (
                w.fallback->0).0 >= rate_bps {
                    w.fallback
                } else {
                    Some(
                        (
                            rate_bps,
                            Stream {
                                url: w.stage->url,
                                title: w.label + " ["@ + w.stage->file_name + "]"@,
                                bitrate: needed,
                                torrent_id: w.stage->Probing_torrent_id,
                            },
                        ),
                    )
                },
                _ => w.fallback,
            };
            &&& v.label == w.label && v.runtime_secs == w.runtime_secs
            &&& v.season == w.season && v.episode == w.episode
            &&& e matches Report::Probed(Probe::Ready { .. }) ==> s.act == Doing::Play(
                Stream {
                    url: w.stage->url,
                    title: w.label,
                    bitrate: needed,
                    torrent_id: w.stage->Probing_torrent_id,
                },
            )
            &&& e is Added && e->files.len() > 0 ==> ({
                let file_idx = engine::chosen(e->files, c.file_idx, w.season, w.episode)->0;
                &&& s.act == (Doing::Probe {
                    torrent_id: e->torrent_id,
                    file_idx,
                    url: e->base + "/torrents/"@ + text::decimal(e->torrent_id as nat) + "/stream/"@
                        + text::decimal(file_idx as nat),
                    needed,
                })
                &&& v.fallback == w.fallback
                &&& s.forget.len() == 0
            })
            &&& !(e matches Report::Probed(Probe::Ready { .. })) && !(e is Added && e->files.len()
                > 0) ==> {
                &&& !last ==> v.fallback == kept && s.act == Doing::Add(
                    w.attempts[(w.next + 1) as int].magnet@,
                )
                &&& last && kept is Some ==> s.act == Doing::Play((kept->0).1)
                &&& last && kept is None ==> s.act is GiveUp
            }
            &&& e is ProbeFailed ==> s.forget == seq![w.stage->Probing_torrent_id]
            &&& e is NotAdded ==> s.forget.len() == 0
        }),
{
    let c = w.attempts[w.next as int];
    if c.size_bytes is Some && w.runtime_secs > 0 {
        let n = c.size_bytes->0 * 8;
        let d = w.runtime_secs as int;
        assert(0 <= n / d <= n) by (nonlinear_arith)
            requires
                d > 0,
                n >= 0,
        ;
    }
    match e {
        Report::Added { torrent_id, files, base } => {
            if files.len() > 0 {
                engine::some_file_is_chosen(files, c.file_idx, w.season, w.episode);
            }
        },
        _ => {},
    }
}

/// A walk starts with the first of its releases, and where there is none, it ends.
pub proof fn walks_start_at_the_first(w: Walk)
    requires
        w.next == 0,
        w.fallback is None,
    ensures
        ({
            let (v, s) = onward(w, Seq::empty(), Seq::empty());
            &&& s.forget.len() == 0
            &&& w.attempts.len() > 0 ==> v.next == 0 && v.stage is Adding && s.act == Doing::Add(
                w.attempts[0].magnet@,
            )
            &&& w.attempts.len() == 0 ==> v.stage is Over && s.act is GiveUp
        }),
{
}

/// A probe that read the network is a sample of the link, one that read the disk
/// is not.
pub proof fn the_disk_is_no_sample(p: Probe)
    ensures
        match p {
            Probe::Ready { rate_bps, from_cache, .. } => (from_cache ==> measured(p) is None) && (
            !from_cache ==> measured(p) == Some(rate_bps)),
            Probe::TooSlow { rate_bps, .. } => measured(p) == Some(rate_bps),
        },
{
}

/// Refusing dual audio outranks asking for it, asking for nothing else outranks
/// preferring it, and any flag outranks the config file.
pub proof fn flags_outrank_the_config(
    dual: bool,
    dual_only: bool,
    no_dual: bool,
    configured: Option<Seq<char>>,
)
    ensures
        no_dual ==> dual_meant(dual, dual_only, no_dual, configured) == Some(DualPreference::Ignore),
        !no_dual && dual_only ==> dual_meant(dual, dual_only, no_dual, configured) == Some(
            DualPreference::Only,
        ),
        !no_dual && !dual_only && dual ==> dual_meant(dual, dual_only, no_dual, configured) == Some(
            DualPreference::Prefer,
        ),
        !no_dual && !dual_only && !dual && configured is None ==> dual_meant(
            dual,
            dual_only,
            no_dual,
            configured,
        ) == Some(DualPreference::Ignore),
        forall|n: u64| n <= 18_000_000_000_000 ==> #[trigger] mbps(n) == n * 1_000_000,
{
}

/// The release that played last time leads wherever it still fits: always where
/// dual audio does not matter, and where it does, whenever it names both
/// languages. It does not displace a leader that names both where it does not.
/// Five releases are tried, or all where there are fewer.
pub proof fn what_played_before_leads(
    fit: Seq<Candidate>,
    dual: DualPreference,
    hash: Seq<char>,
    i: int,
)
    requires
        0 <= i < fit.len(),
        sources::hash_of(fit[i].magnet@) == hash,
    ensures
        tried(fit, dual, None).len() == (if fit.len() < 5 {
            fit.len()
        } else {
            5
        }),
        tried(fit, dual, Some(hash)).len() == tried(fit, dual, None).len(),
        dual is Ignore ==> sources::hash_of(tried(fit, dual, Some(hash))[0].magnet@) == hash,
        (forall|j: int|
            0 <= j < fit.len() && sources::hash_of((#[trigger] fit[j]).magnet@) == hash
                ==> fit[j]@.audio.hindi && fit[j]@.audio.english) ==> sources::hash_of(
            tried(fit, dual, Some(hash))[0].magnet@,
        ) == hash,
        !(dual is Ignore) && tried(fit, dual, None)[0]@.audio.hindi && tried(
            fit,
            dual,
            None,
        )[0]@.audio.english && (forall|j: int|
            0 <= j < fit.len() && sources::hash_of((#[trigger] fit[j]).magnet@) == hash ==> !(
            fit[j]@.audio.hindi && fit[j]@.audio.english)) ==> tried(fit, dual, Some(hash))
            == tried(fit, dual, None),
{
    remembered_release_comes_first(fit, dual, hash);
    pick::attempts_reorder(fit);
    let order = pick::attempts(fit, fit.len());
    replay::lemma_place(order, hash);
    let leader = tried(fit, dual, None)[0];
    assert forall|j: int|
        0 <= j < fit.len() && sources::hash_of((#[trigger] fit[j]).magnet@) == hash && fit[j]@.audio.hindi
            && fit[j]@.audio.english implies pick::dual_level(leader@, dual) <= pick::dual_level(
        fit[j]@,
        dual,
    ) by {}
    if dual is Ignore {
        assert forall|j: int|
            0 <= j < fit.len() && sources::hash_of((#[trigger] fit[j]).magnet@) == hash implies
            pick::dual_level(leader@, dual) <= pick::dual_level(fit[j]@, dual) by {}
    }
    if !(dual is Ignore) && leader@.audio.hindi && leader@.audio.english && (forall|j: int|
        0 <= j < fit.len() && sources::hash_of((#[trigger] fit[j]).magnet@) == hash ==> !(
        fit[j]@.audio.hindi && fit[j]@.audio.english)) {
        assert forall|j: int|
            0 <= j < fit.len() && sources::hash_of((#[trigger] fit[j]).magnet@) == hash implies
            pick::dual_level(fit[j]@, dual) < pick::dual_level(leader@, dual) by {}
    }
}

} // verus!
