//! Which releases to try, and in what order.
//!
//! "Highest quality" and "plays without buffering" pull against each other, and
//! this is where they get reconciled. The ordering is quality-first, but three
//! filters run before it:
//!
//! - **A quality ceiling** (`--quality`), so nothing above what was asked for is
//!   considered at all.
//! - **A bitrate ceiling** (`--max-bitrate`). A 4K WEB-DL at 20 Mbps streams
//!   beautifully; a 4K Blu-ray remux of the same film wants 80 Mbps sustained
//!   and no swarm delivers that reliably. Both are "4K", so quality alone
//!   cannot tell them apart; bitrate can.
//! - **A seeder floor** (`--min-seeders`), which drops the releases that would
//!   only ever fail the probe, so we do not spend 30 seconds proving it.
//!
//! Whatever survives is still only a *candidate*: the engine's probe measures
//! the swarm before any of it is played.

use crate::audio;
use crate::audio::Dual;
use crate::link;
use crate::list;
use crate::list::{Condition, Order};
use crate::text;
use crate::text::Separator;
use crate::torrentio;
use crate::torrentio::{Candidate, Quality, Release};
use vstd::prelude::*;

verus! {

/// How many releases are worth probing before we settle. Each failed probe
/// costs real seconds, and past the first few the quality is dropping anyway.
pub const MAX_ATTEMPTS: usize = 5;

/// How many releases from the same quality tier may be probed before dropping
/// to the next tier down. If two releases in a tier both fail, the tier is the
/// problem, not the release.
pub const MAX_PER_TIER: usize = 2;

/// Seeders at and above which a swarm counts as healthy. On a thin pipe any
/// healthy swarm delivers the whole link, so among healthy swarms quality can
/// decide as usual.
pub const HEALTHY_SEEDERS: u32 = 30;

pub struct Filters {
    pub max_quality: Quality,
    /// Bits per second. Releases needing more than this are skipped.
    pub max_bitrate: u64,
    pub min_seeders: u32,
    /// How to treat Hindi+English dual-audio releases.
    pub dual: DualPreference,
    /// The remembered link estimate, when trusted. Below `link::SLOW_LINK_BPS`
    /// the ordering starts caring about swarm health more than quality.
    pub link_bps: Option<u64>,
}

/// What to do about dual audio.
#[derive(Clone, Copy, PartialEq, Eq, Debug, Structural)]
pub enum DualPreference {
    /// Ignore audio entirely; rank on quality as usual.
    Ignore,
    /// Rank dual-audio releases above everything else, but keep the rest as a
    /// fallback for titles that simply have no dual-audio release.
    Prefer,
    /// Drop anything that is not dual audio.
    Only,
}

impl Default for DualPreference {
    fn default() -> (r: DualPreference)
        ensures
            r == DualPreference::Ignore,
    {
        DualPreference::Ignore
    }
}

/// The preference that a word stands for.
pub open spec fn preference_named(t: Seq<char>) -> Option<DualPreference> {
    if t == "off"@ || t == "ignore"@ || t == "no"@ || t == "false"@ {
        Some(DualPreference::Ignore)
    } else if t == "prefer"@ || t == "on"@ || t == "yes"@ || t == "true"@ {
        Some(DualPreference::Prefer)
    } else if t == "only"@ {
        Some(DualPreference::Only)
    } else {
        None
    }
}

impl DualPreference {
    /// The config file's word for it. `None` is the caller's cue to explain
    /// what the accepted words are.
    pub fn parse(s: &str) -> (r: Option<DualPreference>)
        ensures
            r == preference_named(text::lower(text::trim(s@))),
    {
        let all = text::chars_of(s);
        let inner = text::trimmed(all.as_slice());
        let low = text::lowered(inner.as_slice());
        let t = low.as_slice();
        if text::is_str(t, "off") || text::is_str(t, "ignore") || text::is_str(t, "no")
            || text::is_str(t, "false") {
            Some(DualPreference::Ignore)
        } else if text::is_str(t, "prefer") || text::is_str(t, "on") || text::is_str(t, "yes")
            || text::is_str(t, "true") {
            Some(DualPreference::Prefer)
        } else if text::is_str(t, "only") {
            Some(DualPreference::Only)
        } else {
            None
        }
    }
}

// --- the shortlist ----------------------------------------------------------------

/// How well a release answers the dual-audio preference.
pub open spec fn dual_level(r: Release, dual: DualPreference) -> nat {
    if dual == DualPreference::Ignore {
        0
    } else {
        audio::confidence(r.audio).level()
    }
}

/// The bitrate that a release is judged by: what its size needs over the
/// runtime, or its tier's typical one.
pub open spec fn judged_bps(r: Release, runtime_secs: u32) -> u64 {
    match torrentio::bitrate(r.size_bytes, runtime_secs) {
        Some(bps) => bps,
        None => torrentio::typical_bps(r.quality),
    }
}

/// The release passes every filter.
pub open spec fn wanted(r: Release, f: Filters, runtime_secs: u32) -> bool {
    &&& r.quality.level() <= f.max_quality.level()
    &&& r.seeders >= f.min_seeders
    &&& f.dual == DualPreference::Only ==> audio::confidence(r.audio) != Dual::No
    &&& judged_bps(r, runtime_secs) <= f.max_bitrate
}

/// The link is remembered as slow.
pub open spec fn on_slow_link(f: Filters) -> bool {
    f.link_bps is Some && f.link_bps->0 < link::SLOW_LINK_BPS
}

pub open spec fn healthy(r: Release) -> bool {
    r.seeders >= HEALTHY_SEEDERS
}

/// The one release goes before the other: dual audio where asked for, then on a
/// slow link a healthy swarm, then quality, then a known size, then seeders.
pub open spec fn preferred(a: Release, b: Release, f: Filters) -> bool {
    let da = dual_level(a, f.dual);
    let db = dual_level(b, f.dual);
    let qa = a.quality.level();
    let qb = b.quality.level();
    if da != db {
        da > db
    } else if on_slow_link(f) && healthy(a) != healthy(b) {
        healthy(a)
    } else if qa != qb {
        qa > qb
    } else if a.size_bytes.is_some() != b.size_bytes.is_some() {
        a.size_bytes.is_some()
    } else {
        a.seeders > b.seeders
    }
}

/// The shortlist of a list of releases.
pub open spec fn shortlisted(s: Seq<Release>, f: Filters, runtime_secs: u32) -> Seq<Release> {
    list::stable_sort(
        s.filter(|r: Release| wanted(r, f, runtime_secs)),
        |a: Release, b: Release| preferred(a, b, f),
    )
}

struct Wanted<'a> {
    filters: &'a Filters,
    runtime_secs: u32,
}

impl<'a> Condition<Candidate> for Wanted<'a> {
    closed spec fn passes(&self, c: Candidate) -> bool {
        wanted(c@, *self.filters, self.runtime_secs)
    }

    fn check(&self, c: &Candidate) -> (r: bool) {
        let f = self.filters;
        if c.quality.rank() > f.max_quality.rank() || c.seeders < f.min_seeders {
            return false;
        }
        // `Likely` counts: an Indian release saying "Dual Audio" and naming
        // only Hindi almost always carries English too, and excluding those
        // would throw away most of what the flag is for.
        if f.dual == DualPreference::Only && c.audio.dual() == Dual::No {
            return false;
        }
        match c.required_bps(self.runtime_secs) {
            Some(bps) => bps <= f.max_bitrate,
            // Unknown size: assume the tier's typical bitrate. On a slow link
            // an unknown-size 4K would otherwise sail past the ceiling.
            None => c.quality.assumed_bps() <= f.max_bitrate,
        }
    }
}

struct Preferred<'a> {
    filters: &'a Filters,
    slow_link: bool,
}

impl<'a> Order<Candidate> for Preferred<'a> {
    closed spec fn before(&self, a: Candidate, b: Candidate) -> bool {
        preferred_on(a@, b@, *self.filters, self.slow_link)
    }

    fn less(&self, a: &Candidate, b: &Candidate) -> (r: bool) {
        // Dual audio outranks quality when asked for: a 1080p Hindi+English is
        // the point, and a 4K English-only is not a better answer to it.
        let da = dual_rank_of(a, self.filters.dual);
        let db = dual_rank_of(b, self.filters.dual);
        if da != db {
            return da > db;
        }
        // On a slow link, swarm health outranks quality: an under-seeded
        // release a tier up cannot even saturate a thin pipe, while any
        // healthy swarm can.
        let ha = a.seeders >= HEALTHY_SEEDERS;
        let hb = b.seeders >= HEALTHY_SEEDERS;
        if self.slow_link && ha != hb {
            return ha;
        }
        let qa = a.quality.rank();
        let qb = b.quality.rank();
        if qa != qb {
            return qa > qb;
        }
        // A known size is worth more than an unknown one at equal quality: we
        // can size the buffer for it and predict whether it will hold.
        let ka = a.size_bytes.is_some();
        let kb = b.size_bytes.is_some();
        if ka != kb {
            return ka;
        }
        a.seeders > b.seeders
    }
}

/// `preferred`, with the state of the link given apart.
spec fn preferred_on(a: Release, b: Release, f: Filters, slow: bool) -> bool {
    let da = dual_level(a, f.dual);
    let db = dual_level(b, f.dual);
    let qa = a.quality.level();
    let qb = b.quality.level();
    if da != db {
        da > db
    } else if slow && healthy(a) != healthy(b) {
        healthy(a)
    } else if qa != qb {
        qa > qb
    } else if a.size_bytes.is_some() != b.size_bytes.is_some() {
        a.size_bytes.is_some()
    } else {
        a.seeders > b.seeders
    }
}

/// How well a candidate answers the dual-audio preference. Public so replay's
/// promotion can refuse to move a cached English-only winner above the dual
/// release the ordering just asked for.
pub fn dual_rank_of(c: &Candidate, dual: DualPreference) -> (r: u8)
    ensures
        r == dual_level(c@, dual),
{
    match dual {
        DualPreference::Ignore => 0,
        _ => match c.audio.dual() {
            Dual::Yes => 2,
            Dual::Likely => 1,
            Dual::No => 0,
        },
    }
}

/// Order candidates best-first, dropping the ones not worth probing.
///
/// `runtime_secs` converts a release's size into the bitrate it needs. A release
/// without a size is judged by the bitrate its tier typically has: it is dropped
/// where that is over the ceiling, and otherwise sorted below the ones of a known
/// size at its quality.
pub fn shortlist(candidates: Vec<Candidate>, filters: &Filters, runtime_secs: u32) -> (r: Vec<
    Candidate,
>)
    ensures
        torrentio::releases(r@) == shortlisted(
            torrentio::releases(candidates@),
            *filters,
            runtime_secs,
        ),
{
    let ghost all = candidates@;
    let test = Wanted { filters, runtime_secs };
    let kept = list::kept(candidates, &test);
    proof {
        list::lemma_filter_maps(
            all,
            |c: Candidate| c@,
            |c: Candidate| test.passes(c),
            |r: Release| wanted(r, *filters, runtime_secs),
        );
    }
    let slow_link = match filters.link_bps {
        Some(bps) => bps < link::SLOW_LINK_BPS,
        None => false,
    };
    let ghost found = kept@;
    let order = Preferred { filters, slow_link };
    let r = list::sorted(kept, &order);
    proof {
        list::lemma_sort_maps(
            found,
            |c: Candidate| c@,
            |a: Candidate, b: Candidate| order.before(a, b),
            |a: Release, b: Release| preferred(a, b, *filters),
        );
    }
    r
}

/// A shortlist holds exactly the releases that pass the filters, and none of
/// them comes before one that is preferred to it.
pub proof fn shortlist_is_ordered(s: Seq<Release>, f: Filters, runtime_secs: u32)
    ensures
        ({
            let r = shortlisted(s, f, runtime_secs);
            &&& forall|i: int| 0 <= i < r.len() ==> wanted(#[trigger] r[i], f, runtime_secs)
            &&& forall|i: int, j: int|
                0 <= i < j < r.len() ==> !preferred(#[trigger] r[j], #[trigger] r[i], f)
            &&& r.to_multiset() == s.filter(
                |r: Release| wanted(r, f, runtime_secs),
            ).to_multiset()
        }),
{
    broadcast use vstd::seq_lib::group_to_multiset_ensures;

    let lt = |a: Release, b: Release| preferred(a, b, f);
    let p = |r: Release| wanted(r, f, runtime_secs);
    let kept = s.filter(p);
    assert(list::is_order(lt));
    list::sorting_orders(kept, lt);
    let r = shortlisted(s, f, runtime_secs);
    assert forall|i: int| 0 <= i < r.len() implies wanted(#[trigger] r[i], f, runtime_secs) by {
        assert(r.contains(r[i]));
        assert(r.to_multiset().count(r[i]) > 0);
        assert(kept.to_multiset().count(r[i]) > 0);
        assert(kept.contains(r[i]));
        s.lemma_filter_contains_rev(p, r[i]);
    }
}

/// Where dual audio is asked for, a release that names both languages stands
/// before every one that does not, and one that says "dual audio" and names Hindi
/// before every one that has neither, whatever their quality, size and seeders.
pub proof fn dual_audio_comes_first(s: Seq<Release>, f: Filters, runtime_secs: u32)
    requires
        f.dual != DualPreference::Ignore,
    ensures
        ({
            let r = shortlisted(s, f, runtime_secs);
            &&& forall|i: int, j: int|
                0 <= i < j < r.len() && (#[trigger] r[j]).audio.hindi && r[j].audio.english ==> (
                #[trigger] r[i]).audio.hindi && r[i].audio.english
            &&& forall|i: int, j: int|
                0 <= i < j < r.len() && (#[trigger] r[j]).audio.hindi && (r[j].audio.english
                    || r[j].audio.multi_marker) ==> (#[trigger] r[i]).audio.hindi && (
                r[i].audio.english || r[i].audio.multi_marker)
        }),
{
    shortlist_is_ordered(s, f, runtime_secs);
    let r = shortlisted(s, f, runtime_secs);
    assert forall|i: int, j: int|
        0 <= i < j < r.len() && (#[trigger] r[j]).audio.hindi && r[j].audio.english implies (
    #[trigger] r[i]).audio.hindi && r[i].audio.english by {
        assert(!preferred(r[j], r[i], f));
    }
    assert forall|i: int, j: int|
        0 <= i < j < r.len() && (#[trigger] r[j]).audio.hindi && (r[j].audio.english
            || r[j].audio.multi_marker) implies (#[trigger] r[i]).audio.hindi && (
    r[i].audio.english || r[i].audio.multi_marker) by {
        assert(!preferred(r[j], r[i], f));
    }
}

/// The lines of a tier's picture, with those below 480 told apart.
pub open spec fn lines(q: Quality) -> nat {
    match q {
        Quality::Cam => 0,
        Quality::Sd => 1,
        Quality::P480 => 480,
        Quality::P720 => 720,
        Quality::P1080 => 1080,
        Quality::P2160 => 2160,
        Quality::P4320 => 4320,
    }
}

/// Two releases answer the dual-audio preference alike.
pub open spec fn sound_alike(a: Release, b: Release, dual: DualPreference) -> bool {
    dual == DualPreference::Ignore || ((a.audio.hindi && a.audio.english) == (b.audio.hindi
        && b.audio.english) && (a.audio.hindi && a.audio.multi_marker && !a.audio.english) == (
    b.audio.hindi && b.audio.multi_marker && !b.audio.english))
}

/// Among releases that answer the preference alike, one of thirty seeders goes
/// first on a link below 20 Mbps; then the one of more lines; at the same lines the
/// one whose size is known; and then the one of more seeders.
pub proof fn the_better_release_comes_first(s: Seq<Release>, f: Filters, runtime_secs: u32)
    ensures
        ({
            let r = shortlisted(s, f, runtime_secs);
            let slow = f.link_bps is Some && f.link_bps->0 < 20_000_000;
            forall|i: int, j: int|
                0 <= i < j < r.len() && sound_alike(#[trigger] r[i], #[trigger] r[j], f.dual) ==> {
                    &&& slow && r[j].seeders >= 30 ==> r[i].seeders >= 30
                    &&& (slow ==> (r[i].seeders >= 30) == (r[j].seeders >= 30)) ==> lines(
                        r[j].quality,
                    ) <= lines(r[i].quality)
                    &&& (slow ==> (r[i].seeders >= 30) == (r[j].seeders >= 30)) && r[i].quality
                        == r[j].quality ==> {
                        &&& r[j].size_bytes is Some ==> r[i].size_bytes is Some
                        &&& (r[i].size_bytes is Some) == (r[j].size_bytes is Some)
                            ==> r[i].seeders >= r[j].seeders
                    }
                }
        }),
{
    shortlist_is_ordered(s, f, runtime_secs);
    let r = shortlisted(s, f, runtime_secs);
    assert forall|i: int, j: int|
        0 <= i < j < r.len() && sound_alike(#[trigger] r[i], #[trigger] r[j], f.dual) implies ({
        let slow = f.link_bps is Some && f.link_bps->0 < 20_000_000;
        &&& slow && r[j].seeders >= 30 ==> r[i].seeders >= 30
        &&& (slow ==> (r[i].seeders >= 30) == (r[j].seeders >= 30)) ==> lines(r[j].quality)
            <= lines(r[i].quality)
        &&& (slow ==> (r[i].seeders >= 30) == (r[j].seeders >= 30)) && r[i].quality == r[j].quality
            ==> {
            &&& r[j].size_bytes is Some ==> r[i].size_bytes is Some
            &&& (r[i].size_bytes is Some) == (r[j].size_bytes is Some) ==> r[i].seeders
                >= r[j].seeders
        }
    }) by {
        assert(!preferred(r[j], r[i], f));
    }
}

/// A shortlist holds exactly the releases of the list with no more lines than the
/// ceiling, seeders enough, dual audio or a sign of it where nothing else will do,
/// and a bitrate within the ceiling: the bits of its size over the runtime, or
/// where that is unknown, what its tier typically takes.
pub proof fn the_shortlist_keeps_what_fits(
    s: Seq<Release>,
    f: Filters,
    runtime_secs: u32,
    x: Release,
)
    requires
        x.size_bytes is Some ==> x.size_bytes->0 * 8 <= u64::MAX,
    ensures
        shortlisted(s, f, runtime_secs).contains(x) <==> {
            &&& s.contains(x)
            &&& lines(x.quality) <= lines(f.max_quality)
            &&& x.seeders >= f.min_seeders
            &&& f.dual == DualPreference::Only ==> x.audio.hindi && (x.audio.english
                || x.audio.multi_marker)
            &&& if x.size_bytes is Some && runtime_secs > 0 {
                (x.size_bytes->0 * 8) / (runtime_secs as int) <= f.max_bitrate
            } else {
                (match x.quality {
                    Quality::P4320 => 45_000_000u64,
                    Quality::P2160 => 16_000_000u64,
                    Quality::P1080 => 8_000_000u64,
                    Quality::P720 => 4_000_000u64,
                    _ => 2_500_000u64,
                }) <= f.max_bitrate
            }
        },
{
    broadcast use vstd::seq_lib::group_to_multiset_ensures;

    shortlist_is_ordered(s, f, runtime_secs);
    let p = |r: Release| wanted(r, f, runtime_secs);
    let r = shortlisted(s, f, runtime_secs);
    let kept = s.filter(p);
    assert(r.to_multiset().count(x) == kept.to_multiset().count(x));
    if kept.contains(x) {
        s.lemma_filter_contains_rev(p, x);
    }
    if s.contains(x) && p(x) {
        let i = choose|i: int| 0 <= i < s.len() && s[i] == x;
        s.lemma_filter_contains(p, i);
    }
    if x.size_bytes is Some && runtime_secs > 0 {
        let n = x.size_bytes->0 * 8;
        let d = runtime_secs as int;
        assert(0 <= n / d <= n) by (nonlinear_arith)
            requires
                d > 0,
                n >= 0,
        ;
    }
}

// --- the title guard --------------------------------------------------------------

/// The text in lower case, as Unicode defines it.
pub uninterp spec fn unicode_lower(s: Seq<char>) -> Seq<char>;

/// The character is a letter or a number, as Unicode defines them.
pub uninterp spec fn unicode_alphanumeric(c: char) -> bool;

/// Calls `str::to_lowercase`. The result is a function of the text alone; a
/// text of ASCII characters only has its ASCII letters lower-cased.
#[verifier::external_body]
fn to_lowercase(s: &str) -> (r: String)
    ensures
        r@ == unicode_lower(s@),
        (forall|i: int| 0 <= i < s@.len() ==> (#[trigger] s@[i] as u32) < 128) ==> r@
            == text::lower(s@),
{
    s.to_lowercase()
}

/// Calls `char::is_alphanumeric`. The result is a function of the character
/// alone; of the ASCII characters it holds for letters and digits.
#[verifier::external_body]
fn is_alphanumeric(c: char) -> (r: bool)
    ensures
        r == unicode_alphanumeric(c),
        (c as u32) < 128 ==> r == text::is_alnum(c),
{
    c.is_alphanumeric()
}

/// What a character leaves in the folded text. Latin accents fold to ASCII,
/// anything else alphanumeric passes through, apostrophes vanish rather than
/// split, so `Don't` and `Dont` agree, and separators become spaces.
pub open spec fn fold_char(c: char, alphanumeric: bool) -> Seq<char> {
    if c == '\u{E1}' || c == '\u{E0}' || c == '\u{E2}' || c == '\u{E4}' || c == '\u{E3}' || c == '\u{E5}' || c == '\u{101}' {
        seq!['a']
    } else if c == '\u{E7}' || c == '\u{107}' || c == '\u{10D}' {
        seq!['c']
    } else if c == '\u{E9}' || c == '\u{E8}' || c == '\u{EA}' || c == '\u{EB}' || c == '\u{113}' {
        seq!['e']
    } else if c == '\u{ED}' || c == '\u{EC}' || c == '\u{EE}' || c == '\u{EF}' {
        seq!['i']
    } else if c == '\u{F1}' || c == '\u{144}' {
        seq!['n']
    } else if c == '\u{F3}' || c == '\u{F2}' || c == '\u{F4}' || c == '\u{F6}' || c == '\u{F5}' || c == '\u{F8}' {
        seq!['o']
    } else if c == '\u{FA}' || c == '\u{F9}' || c == '\u{FB}' || c == '\u{FC}' {
        seq!['u']
    } else if c == '\u{FD}' || c == '\u{FF}' {
        seq!['y']
    } else if c == '\u{DF}' {
        seq!['s', 's']
    } else if c == '\u{E6}' {
        seq!['a', 'e']
    } else if c == '\u{153}' {
        seq!['o', 'e']
    } else if c == '\'' || c == '\u{2019}' {
        Seq::empty()
    } else if alphanumeric {
        seq![c]
    } else {
        seq![' ']
    }
}

/// A text folded, given which of its characters are alphanumeric.
pub open spec fn folded(s: Seq<char>, alphanumeric: Seq<bool>) -> Seq<char>
    decreases s.len(),
{
    if s.len() == 0 {
        Seq::empty()
    } else {
        folded(s.drop_last(), alphanumeric) + fold_char(s.last(), alphanumeric[s.len() - 1])
    }
}

/// The words of a lower-cased text.
pub open spec fn folded_words(s: Seq<char>, alphanumeric: Seq<bool>) -> Seq<Seq<char>> {
    text::words(folded(s, alphanumeric), Separator::Space)
}

/// Which characters of a text are alphanumeric.
pub open spec fn alphanumerics(s: Seq<char>) -> Seq<bool> {
    s.map_values(|c: char| unicode_alphanumeric(c))
}

/// The words of a text, lower-cased and folded.
pub open spec fn title_words(s: Seq<char>) -> Seq<Seq<char>> {
    folded_words(unicode_lower(s), alphanumerics(unicode_lower(s)))
}

/// ASCII-fold the Latin accents release groups actually vary on. Anything
/// else alphanumeric passes through; separators become spaces.
pub fn fold_push(out: &mut Vec<char>, c: char, alphanumeric: bool)
    ensures
        final(out)@ == old(out)@ + fold_char(c, alphanumeric),
{
    let ghost before = out@;
    if c == '\u{E1}' || c == '\u{E0}' || c == '\u{E2}' || c == '\u{E4}' || c == '\u{E3}' || c == '\u{E5}' || c == '\u{101}' {
        out.push('a');
    } else if c == '\u{E7}' || c == '\u{107}' || c == '\u{10D}' {
        out.push('c');
    } else if c == '\u{E9}' || c == '\u{E8}' || c == '\u{EA}' || c == '\u{EB}' || c == '\u{113}' {
        out.push('e');
    } else if c == '\u{ED}' || c == '\u{EC}' || c == '\u{EE}' || c == '\u{EF}' {
        out.push('i');
    } else if c == '\u{F1}' || c == '\u{144}' {
        out.push('n');
    } else if c == '\u{F3}' || c == '\u{F2}' || c == '\u{F4}' || c == '\u{F6}' || c == '\u{F5}' || c == '\u{F8}' {
        out.push('o');
    } else if c == '\u{FA}' || c == '\u{F9}' || c == '\u{FB}' || c == '\u{FC}' {
        out.push('u');
    } else if c == '\u{FD}' || c == '\u{FF}' {
        out.push('y');
    } else if c == '\u{DF}' {
        out.push('s');
        out.push('s');
    } else if c == '\u{E6}' {
        out.push('a');
        out.push('e');
    } else if c == '\u{153}' {
        out.push('o');
        out.push('e');
    } else if c == '\'' || c == '\u{2019}' {
    } else if alphanumeric {
        out.push(c);
    } else {
        out.push(' ');
    }
    assert(out@ =~= before + fold_char(c, alphanumeric));
}

/// The words of a text that is in lower case, given which of its characters are
/// alphanumeric.
pub fn words_of_lowered(lowered: &str, alphanumeric: &Vec<bool>) -> (r: Vec<Vec<char>>)
    requires
        alphanumeric@.len() == lowered@.len(),
    ensures
        text::texts(r@) == folded_words(lowered@, alphanumeric@),
{
    let s = text::chars_of(lowered);
    let mut out: Vec<char> = Vec::new();
    let mut i: usize = 0;
    assert(s@.take(0) =~= Seq::empty());
    while i < s.len()
        invariant
            i <= s.len(),
            alphanumeric@.len() == s@.len(),
            out@ == folded(s@.take(i as int), alphanumeric@),
        decreases s.len() - i,
    {
        assert(s@.take(i + 1).drop_last() =~= s@.take(i as int));
        fold_push(&mut out, s[i], alphanumeric[i]);
        i += 1;
    }
    assert(s@.take(s@.len() as int) =~= s@);
    text::words_on(out.as_slice(), Separator::Space)
}

/// Lowercased, accent-folded, alphanumeric words of a string, so
/// `La.Casa.De.Papel` and `la casa de papel` come out identical.
pub fn words_of(s: &str) -> (r: Vec<Vec<char>>)
    ensures
        text::texts(r@) == title_words(s@),
{
    let lowered = to_lowercase(s);
    let chars = text::chars_of(lowered.as_str());
    let mut flags: Vec<bool> = Vec::new();
    let mut i: usize = 0;
    while i < chars.len()
        invariant
            i <= chars.len(),
            flags@.len() == i,
            forall|j: int| 0 <= j < i ==> flags@[j] == unicode_alphanumeric(#[trigger] chars@[j]),
        decreases chars.len() - i,
    {
        flags.push(is_alphanumeric(chars[i]));
        i += 1;
    }
    assert(flags@ =~= alphanumerics(lowered@));
    words_of_lowered(lowered.as_str(), &flags)
}

/// Words release names freely drop, translate, or reorder around, never enough
/// on their own to identify a title.
pub open spec fn is_stopword(w: Seq<char>) -> bool {
    ||| w == "the"@
    ||| w == "a"@
    ||| w == "an"@
    ||| w == "and"@
    ||| w == "of"@
    ||| w == "or"@
    ||| w == "in"@
    ||| w == "on"@
    ||| w == "at"@
    ||| w == "to"@
    ||| w == "la"@
    ||| w == "le"@
    ||| w == "les"@
    ||| w == "el"@
    ||| w == "los"@
    ||| w == "las"@
    ||| w == "un"@
    ||| w == "une"@
    ||| w == "uno"@
    ||| w == "una"@
    ||| w == "y"@
    ||| w == "o"@
    ||| w == "de"@
    ||| w == "di"@
    ||| w == "da"@
    ||| w == "del"@
    ||| w == "della"@
    ||| w == "du"@
    ||| w == "des"@
    ||| w == "il"@
    ||| w == "lo"@
    ||| w == "e"@
    ||| w == "et"@
    ||| w == "der"@
    ||| w == "die"@
    ||| w == "das"@
    ||| w == "den"@
    ||| w == "ein"@
    ||| w == "eine"@
    ||| w == "und"@
    ||| w == "um"@
    ||| w == "uma"@
    ||| w == "do"@
    ||| w == "dos"@
    ||| w == "as"@
    ||| w == "os"@
}

fn stopword(w: &[char]) -> (r: bool)
    ensures
        r == is_stopword(w@),
{
    text::is_str(w, "the") || text::is_str(w, "a") || text::is_str(w, "an") || text::is_str(w, "and") || text::is_str(w, "of") || text::is_str(w, "or") || text::is_str(w, "in") || text::is_str(w, "on") || text::is_str(w, "at") || text::is_str(w, "to") || text::is_str(w, "la") || text::is_str(w, "le") || text::is_str(w, "les") || text::is_str(w, "el") || text::is_str(w, "los") || text::is_str(w, "las") || text::is_str(w, "un") || text::is_str(w, "une") || text::is_str(w, "uno") || text::is_str(w, "una") || text::is_str(w, "y") || text::is_str(w, "o") || text::is_str(w, "de") || text::is_str(w, "di") || text::is_str(w, "da") || text::is_str(w, "del") || text::is_str(w, "della") || text::is_str(w, "du") || text::is_str(w, "des") || text::is_str(w, "il") || text::is_str(w, "lo") || text::is_str(w, "e") || text::is_str(w, "et") || text::is_str(w, "der") || text::is_str(w, "die") || text::is_str(w, "das") || text::is_str(w, "den") || text::is_str(w, "ein") || text::is_str(w, "eine") || text::is_str(w, "und") || text::is_str(w, "um") || text::is_str(w, "uma") || text::is_str(w, "do") || text::is_str(w, "dos") || text::is_str(w, "as") || text::is_str(w, "os")
}

/// The words of a list that are not stop words.
pub open spec fn significant(words: Seq<Seq<char>>) -> Seq<Seq<char>> {
    words.filter(|w: Seq<char>| !is_stopword(w))
}

struct Significant;

impl Condition<Vec<char>> for Significant {
    closed spec fn passes(&self, w: Vec<char>) -> bool {
        !is_stopword(w@)
    }

    fn check(&self, w: &Vec<char>) -> (r: bool) {
        !stopword(w.as_slice())
    }
}

/// The words of a title that a matching release name must carry, given all of
/// its words.
pub fn significant_of(words: Vec<Vec<char>>) -> (r: Vec<Vec<char>>)
    ensures
        text::texts(r@) == significant(text::texts(words@)),
{
    let ghost all = words@;
    let test = Significant;
    let r = list::kept(words, &test);
    proof {
        list::lemma_filter_maps(
            all,
            |w: Vec<char>| w@,
            |w: Vec<char>| test.passes(w),
            |w: Seq<char>| !is_stopword(w),
        );
    }
    r
}

/// The words of a title that a matching release name must carry.
pub fn significant_words(title: &str) -> (r: Vec<Vec<char>>)
    ensures
        text::texts(r@) == significant(title_words(title@)),
{
    significant_of(words_of(title))
}

/// A list of word lists as the texts they hold.
pub open spec fn word_lists(v: Seq<Vec<Vec<char>>>) -> Seq<Seq<Seq<char>>> {
    v.map_values(|x: Vec<Vec<char>>| text::texts(x@))
}

/// Every word of the key stands among the words.
pub open spec fn carries(words: Seq<Seq<char>>, key: Seq<Seq<char>>) -> bool {
    forall|j: int| 0 <= j < key.len() ==> words.contains(#[trigger] key[j])
}

/// The words carry at least one of the keys.
pub open spec fn named_like(words: Seq<Seq<char>>, keys: Seq<Seq<Seq<char>>>) -> bool {
    exists|i: int| 0 <= i < keys.len() && carries(words, #[trigger] keys[i])
}

/// The elements at the places marked `true`.
pub open spec fn marked<A>(s: Seq<A>, marks: Seq<bool>) -> Seq<A>
    decreases s.len(),
{
    if s.len() == 0 {
        s
    } else if marks[s.len() - 1] {
        marked(s.drop_last(), marks).push(s.last())
    } else {
        marked(s.drop_last(), marks)
    }
}

/// What `title_guard` decided.
pub struct Guarded {
    pub kept: Vec<Candidate>,
    /// Releases dropped for being named like a different title.
    pub dropped: usize,
    /// True when no release matched at all, so the guard stood aside.
    pub fail_open: bool,
}

/// The guard's decision on releases of which the marked ones match. Without
/// keys it cannot judge; where nothing matches it stands aside.
pub open spec fn guarded(s: Seq<Candidate>, marks: Seq<bool>, judging: bool) -> (
    Seq<Candidate>,
    nat,
    bool,
) {
    let kept = marked(s, marks);
    if !judging {
        (s, 0, false)
    } else if kept.len() == 0 {
        (s, 0, true)
    } else {
        (kept, (s.len() - kept.len()) as nat, false)
    }
}

/// Whether the words of a release's name match one of the keys.
pub fn matches_any(words: &Vec<Vec<char>>, keys: &Vec<Vec<Vec<char>>>) -> (r: bool)
    ensures
        r == named_like(text::texts(words@), word_lists(keys@)),
{
    let ghost all = word_lists(keys@);
    let ghost name = text::texts(words@);
    let mut i: usize = 0;
    while i < keys.len()
        invariant
            i <= keys.len(),
            all == word_lists(keys@),
            name == text::texts(words@),
            forall|k: int| 0 <= k < i ==> !carries(name, #[trigger] all[k]),
        decreases keys.len() - i,
    {
        let mut j: usize = 0;
        let mut holds: bool = true;
        assert(all[i as int] == text::texts(keys@[i as int]@));
        while j < keys[i].len() && holds
            invariant
                i < keys.len(),
                j <= keys@[i as int]@.len(),
                all == word_lists(keys@),
                all[i as int] == text::texts(keys@[i as int]@),
                name == text::texts(words@),
                holds ==> forall|k: int| 0 <= k < j ==> name.contains(#[trigger] all[i as int][k]),
                !holds ==> !carries(name, all[i as int]),
            decreases keys@[i as int]@.len() - j, holds as int,
        {
            assert(all[i as int][j as int] == keys@[i as int]@[j as int]@);
            if text::has_text(words, keys[i][j].as_slice()) {
                j += 1;
            } else {
                holds = false;
            }
        }
        if holds {
            assert(carries(name, all[i as int]));
            return true;
        }
        i += 1;
    }
    false
}

/// The guard, given the words of every release's name and the keys.
pub fn guard(
    candidates: Vec<Candidate>,
    names: &Vec<Vec<Vec<char>>>,
    keys: &Vec<Vec<Vec<char>>>,
) -> (r: Guarded)
    requires
        names@.len() == candidates@.len(),
    ensures
        (r.kept@, r.dropped as nat, r.fail_open) == guarded(
            candidates@,
            word_lists(names@).map_values(|w: Seq<Seq<char>>| named_like(w, word_lists(keys@))),
            keys@.len() > 0,
        ),
{
    let ghost all = candidates@;
    let ghost marks = word_lists(names@).map_values(
        |w: Seq<Seq<char>>| named_like(w, word_lists(keys@)),
    );
    if keys.len() == 0 {
        return Guarded { kept: candidates, dropped: 0, fail_open: false };
    }
    let mut flags: Vec<bool> = Vec::new();
    let mut found: usize = 0;
    let mut i: usize = 0;
    while i < names.len()
        invariant
            i <= names.len(),
            names@.len() == all.len(),
            marks == word_lists(names@).map_values(
                |w: Seq<Seq<char>>| named_like(w, word_lists(keys@)),
            ),
            flags@.len() == i,
            forall|j: int| 0 <= j < i ==> flags@[j] == marks[j],
            found <= i,
            found == marked(all.take(i as int), marks).len(),
        decreases names.len() - i,
    {
        assert(all.take(i + 1).drop_last() =~= all.take(i as int));
        let m = matches_any(&names[i], keys);
        assert(word_lists(names@)[i as int] == text::texts(names@[i as int]@));
        assert(marks[i as int] == m);
        if m {
            found += 1;
        }
        flags.push(m);
        i += 1;
    }
    assert(all.take(all.len() as int) =~= all);
    assert(flags@ =~= marks);
    if found == 0 {
        return Guarded { kept: candidates, dropped: 0, fail_open: true };
    }
    let total = candidates.len();
    let mut kept: Vec<Candidate> = Vec::new();
    let mut k: usize = 0;
    assert(all.take(0) =~= Seq::empty());
    for c in it: candidates
        invariant
            it.seq() == all,
            k == it.index(),
            all.len() == flags@.len(),
            all.len() == total,
            flags@ == marks,
            kept@ == marked(all.take(it.index()), marks),
    {
        let ghost i = it.index();
        assert(all.take(i + 1).drop_last() =~= all.take(i));
        assert(all.take(i + 1).last() == c);
        if flags[k] {
            kept.push(c);
        }
        k += 1;
    }
    assert(all.take(all.len() as int) =~= all);
    Guarded { kept, dropped: total - found, fail_open: false }
}

/// The keys of a list of titles: the significant words of each, where it has
/// any.
pub open spec fn title_keys(titles: Seq<Seq<char>>) -> Seq<Seq<Seq<char>>> {
    titles.map_values(|t: Seq<char>| significant(title_words(t))).filter(
        |k: Seq<Seq<char>>| k.len() > 0,
    )
}

/// Drop releases named like a different title entirely.
///
/// Indexers occasionally file a stranger under a title's IMDB id, whose fake
/// 2160p then outranks every genuine 1080p release. A release matches when
/// every significant word of at least one accepted title appears in its name;
/// articles and connectives are not significant, because release names drop
/// and translate them freely. Callers pass both the display title and the
/// original-language one: releases are named after either.
///
/// Deliberately fail-open twice over: a title with no significant words cannot
/// judge anything, and if nothing at all matches the guard stands aside, since
/// one naming style we cannot read is far more likely than every torrent being
/// for the wrong show.
pub fn title_guard(candidates: Vec<Candidate>, titles: &[&str]) -> (r: Guarded)
    ensures
        (r.kept@, r.dropped as nat, r.fail_open) == guarded(
            candidates@,
            candidates@.map_values(
                |c: Candidate|
                    named_like(title_words(c.title@), title_keys(text::str_texts(titles@))),
            ),
            title_keys(text::str_texts(titles@)).len() > 0,
        ),
{
    let ghost wanted = text::str_texts(titles@).map_values(
        |t: Seq<char>| significant(title_words(t)),
    );
    let ghost some = |k: Seq<Seq<char>>| k.len() > 0;
    let mut keys: Vec<Vec<Vec<char>>> = Vec::new();
    let mut i: usize = 0;
    proof {
        reveal(Seq::filter);
        assert(word_lists(keys@) =~= wanted.take(0).filter(some));
    }
    while i < titles.len()
        invariant
            i <= titles.len(),
            some == (|k: Seq<Seq<char>>| k.len() > 0),
            wanted == text::str_texts(titles@).map_values(
                |t: Seq<char>| significant(title_words(t)),
            ),
            word_lists(keys@) == wanted.take(i as int).filter(some),
        decreases titles.len() - i,
    {
        let k = significant_words(titles[i]);
        assert(text::str_texts(titles@)[i as int] == titles@[i as int]@);
        assert(wanted[i as int] == text::texts(k@));
        proof {
            text::lemma_filter_push(wanted.take(i as int), some, wanted[i as int]);
            assert(wanted.take(i + 1) =~= wanted.take(i as int).push(wanted[i as int]));
        }
        let ghost before = word_lists(keys@);
        if k.len() > 0 {
            keys.push(k);
            assert(word_lists(keys@) =~= before.push(text::texts(k@)));
        }
        i += 1;
    }
    assert(wanted.take(wanted.len() as int) =~= wanted);
    let ghost all_keys = title_keys(text::str_texts(titles@));
    assert(word_lists(keys@) == all_keys);
    assert(keys@.len() == all_keys.len());
    let mut names: Vec<Vec<Vec<char>>> = Vec::new();
    let mut j: usize = 0;
    while j < candidates.len()
        invariant
            j <= candidates.len(),
            names@.len() == j,
            forall|k: int|
                0 <= k < j ==> text::texts((#[trigger] names@[k])@) == title_words(
                    candidates@[k].title@,
                ),
        decreases candidates.len() - j,
    {
        names.push(words_of(candidates[j].title.as_str()));
        j += 1;
    }
    assert(word_lists(names@).map_values(|w: Seq<Seq<char>>| named_like(w, word_lists(keys@)))
        =~= candidates@.map_values(
        |c: Candidate| named_like(title_words(c.title@), all_keys),
    ));
    guard(candidates, &names, &keys)
}

/// The guard never loses the whole list, and what it keeps comes from the list
/// in its order.
pub proof fn guard_fails_open(s: Seq<Candidate>, marks: Seq<bool>, judging: bool)
    requires
        marks.len() == s.len(),
    ensures
        s.len() > 0 ==> guarded(s, marks, judging).0.len() > 0,
        guarded(s, marks, judging).0.len() + guarded(s, marks, judging).1 == s.len(),
        forall|c: Candidate| #[trigger]
            guarded(s, marks, judging).0.contains(c) ==> s.contains(c),
{
    lemma_marked(s, marks);
}

proof fn lemma_marked(s: Seq<Candidate>, marks: Seq<bool>)
    ensures
        marked(s, marks).len() <= s.len(),
        forall|c: Candidate| #[trigger] marked(s, marks).contains(c) ==> s.contains(c),
    decreases s.len(),
{
    if s.len() > 0 {
        let t = s.drop_last();
        lemma_marked(t, marks);
        assert forall|c: Candidate| #[trigger] marked(s, marks).contains(c) implies s.contains(
            c,
        ) by {
            let m = marked(s, marks);
            let k = choose|k: int| 0 <= k < m.len() && m[k] == c;
            if k < marked(t, marks).len() {
                assert(marked(t, marks)[k] == c);
                assert(marked(t, marks).contains(c));
                let j = choose|j: int| 0 <= j < t.len() && t[j] == c;
                assert(s[j] == c);
            } else {
                assert(s[s.len() - 1] == c);
            }
        }
    }
}

/// The words carry all the significant words of one of the titles, and it has
/// some.
pub open spec fn named_after(words: Seq<Seq<char>>, titles: Seq<Seq<char>>) -> bool {
    exists|i: int|
        0 <= i < titles.len() && bears(words, title_words(#[trigger] titles[i]))
}

/// All words of the title but the stop words are among the words, and it has
/// others than stop words.
pub open spec fn bears(words: Seq<Seq<char>>, title: Seq<Seq<char>>) -> bool {
    &&& exists|k: int| 0 <= k < title.len() && !is_stopword(#[trigger] title[k])
    &&& forall|k: int|
        0 <= k < title.len() && !is_stopword(#[trigger] title[k]) ==> words.contains(title[k])
}

/// Where some release carries the significant words of an accepted title, just
/// those that do stay, in their order; where none does, all of them stay, and
/// that is called standing aside only where some title could judge.
pub proof fn the_guard_keeps_what_is_named_after_a_title(
    s: Seq<Candidate>,
    titles: Seq<Seq<char>>,
)
    ensures
        ({
            let keys = title_keys(titles);
            let r = guarded(
                s,
                s.map_values(|c: Candidate| named_like(title_words(c.title@), keys)),
                keys.len() > 0,
            );
            let some = exists|i: int|
                0 <= i < s.len() && named_after(title_words((#[trigger] s[i]).title@), titles);
            let judging = exists|i: int, k: int|
                0 <= i < titles.len() && 0 <= k < title_words(titles[i]).len() && !is_stopword(
                    #[trigger] title_words(titles[i])[k],
                );
            &&& some ==> r.0 == s.filter(
                |c: Candidate| named_after(title_words(c.title@), titles),
            ) && !r.2
            &&& !some ==> r.0 == s && r.2 == judging
            &&& r.1 + r.0.len() == s.len()
        }),
{
    let keys = title_keys(titles);
    let all = titles.map_values(|t: Seq<char>| significant(title_words(t)));
    let full = |k: Seq<Seq<char>>| k.len() > 0;
    assert(keys == all.filter(full));
    let marks = s.map_values(|c: Candidate| named_like(title_words(c.title@), keys));
    let p = |c: Candidate| named_after(title_words(c.title@), titles);
    let judging = exists|i: int, k: int|
        0 <= i < titles.len() && 0 <= k < title_words(titles[i]).len() && !is_stopword(
            #[trigger] title_words(titles[i])[k],
        );
    assert(judging == (keys.len() > 0)) by {
        if judging {
            let (i, k) = choose|i: int, k: int|
                0 <= i < titles.len() && 0 <= k < title_words(titles[i]).len() && !is_stopword(
                    #[trigger] title_words(titles[i])[k],
                );
            lemma_significant(title_words(titles[i]), title_words(titles[i])[k]);
            assert(all[i] == significant(title_words(titles[i])));
            all.lemma_filter_contains(full, i);
        }
        if keys.len() > 0 {
            assert(keys.contains(keys[0]));
            all.lemma_filter_pred(full, 0);
            all.lemma_filter_contains_rev(full, keys[0]);
            let i = choose|i: int| 0 <= i < all.len() && all[i] == keys[0];
            let w = keys[0][0];
            assert(significant(title_words(titles[i])).contains(w));
            lemma_significant(title_words(titles[i]), w);
            let k = choose|k: int|
                0 <= k < title_words(titles[i]).len() && title_words(titles[i])[k] == w;
            assert(!is_stopword(title_words(titles[i])[k]));
        }
    }
    assert forall|i: int| 0 <= i < s.len() implies #[trigger] marks[i] == p(s[i]) by {
        lemma_named_after(title_words(s[i].title@), titles);
    }
    lemma_marked_filter(s, marks, p);
    lemma_marked(s, marks);
    if exists|i: int|
        0 <= i < s.len() && named_after(title_words((#[trigger] s[i]).title@), titles) {
        let i = choose|i: int|
            0 <= i < s.len() && named_after(title_words((#[trigger] s[i]).title@), titles);
        assert(p(s[i]));
        s.lemma_filter_contains(p, i);
        assert(marks[i]);
        assert(keys.len() > 0);
    } else {
        if s.filter(p).len() > 0 {
            let c = s.filter(p)[0];
            assert(s.filter(p).contains(c));
            s.lemma_filter_pred(p, 0);
            s.lemma_filter_contains_rev(p, c);
            let i = choose|i: int| 0 <= i < s.len() && s[i] == c;
            assert(named_after(title_words(s[i].title@), titles));
        }
    }
}

proof fn lemma_significant(words: Seq<Seq<char>>, w: Seq<char>)
    ensures
        significant(words).contains(w) <==> words.contains(w) && !is_stopword(w),
{
    let p = |w: Seq<char>| !is_stopword(w);
    if words.contains(w) && !is_stopword(w) {
        let k = choose|k: int| 0 <= k < words.len() && words[k] == w;
        words.lemma_filter_contains(p, k);
    }
    if significant(words).contains(w) {
        let k = choose|k: int| 0 <= k < words.filter(p).len() && words.filter(p)[k] == w;
        words.lemma_filter_pred(p, k);
        words.lemma_filter_contains_rev(p, w);
    }
}

proof fn lemma_named_after(words: Seq<Seq<char>>, titles: Seq<Seq<char>>)
    ensures
        named_like(words, title_keys(titles)) == named_after(words, titles),
{
    let keys = title_keys(titles);
    let all = titles.map_values(|t: Seq<char>| significant(title_words(t)));
    let full = |k: Seq<Seq<char>>| k.len() > 0;
    if named_like(words, keys) {
        let i = choose|i: int| 0 <= i < keys.len() && carries(words, #[trigger] keys[i]);
        assert(keys.contains(keys[i]));
        all.lemma_filter_pred(full, i);
        all.lemma_filter_contains_rev(full, keys[i]);
        let j = choose|j: int| 0 <= j < all.len() && all[j] == keys[i];
        let title = title_words(titles[j]);
        assert(keys[i] == significant(title));
        let w = keys[i][0];
        assert(significant(title).contains(w));
        lemma_significant(title, w);
        let k = choose|k: int| 0 <= k < title.len() && title[k] == w;
        assert(!is_stopword(title[k]));
        assert forall|k: int| 0 <= k < title.len() && !is_stopword(#[trigger] title[k]) implies
            words.contains(title[k]) by {
            lemma_significant(title, title[k]);
            let m = choose|m: int| 0 <= m < keys[i].len() && keys[i][m] == title[k];
            assert(words.contains(keys[i][m]));
        }
        assert(bears(words, title_words(titles[j])));
    }
    if named_after(words, titles) {
        let j = choose|j: int|
            0 <= j < titles.len() && bears(words, title_words(#[trigger] titles[j]));
        let title = title_words(titles[j]);
        let k = choose|k: int| 0 <= k < title.len() && !is_stopword(#[trigger] title[k]);
        lemma_significant(title, title[k]);
        assert(all[j] == significant(title));
        all.lemma_filter_contains(full, j);
        let i = choose|i: int| 0 <= i < keys.len() && keys[i] == all[j];
        assert forall|m: int| 0 <= m < keys[i].len() implies words.contains(
            #[trigger] keys[i][m],
        ) by {
            assert(significant(title).contains(keys[i][m]));
            lemma_significant(title, keys[i][m]);
            let n = choose|n: int| 0 <= n < title.len() && title[n] == keys[i][m];
            assert(!is_stopword(title[n]));
        }
        assert(carries(words, keys[i]));
    }
}

proof fn lemma_marked_filter(s: Seq<Candidate>, marks: Seq<bool>, p: spec_fn(Candidate) -> bool)
    requires
        marks.len() >= s.len(),
        forall|i: int| 0 <= i < s.len() ==> #[trigger] marks[i] == p(s[i]),
    ensures
        marked(s, marks) == s.filter(p),
    decreases s.len(),
{
    reveal(Seq::filter);
    if s.len() > 0 {
        let t = s.drop_last();
        assert forall|i: int| 0 <= i < t.len() implies #[trigger] marks[i] == p(t[i]) by {
            assert(t[i] == s[i]);
        }
        lemma_marked_filter(t, marks, p);
        assert(marks[s.len() - 1] == p(s.last()));
    }
}

/// Folding a title leaves ASCII letters and digits as they are, drops
/// apostrophes, and turns what is neither into a space; an accented vowel and
/// the plain one fold alike, as do a c with a cedilla and an n with a tilde.
pub proof fn folding_keeps_letters(c: char, alphanumeric: bool)
    requires
        (c as u32) < 128 ==> alphanumeric == text::is_alnum(c),
    ensures
        text::is_alnum(c) ==> fold_char(c, alphanumeric) == seq![c],
        c == '\'' || c == '\u{2019}' ==> fold_char(c, alphanumeric) == Seq::<char>::empty(),
        (c as u32) < 128 && !text::is_alnum(c) && c != '\'' ==> fold_char(c, alphanumeric)
            == seq![' '],
        '\u{E0}' <= c <= '\u{E5}' ==> fold_char(c, alphanumeric) == seq!['a'],
        '\u{E8}' <= c <= '\u{EB}' ==> fold_char(c, alphanumeric) == seq!['e'],
        '\u{EC}' <= c <= '\u{EF}' ==> fold_char(c, alphanumeric) == seq!['i'],
        '\u{F2}' <= c <= '\u{F6}' ==> fold_char(c, alphanumeric) == seq!['o'],
        '\u{F9}' <= c <= '\u{FC}' ==> fold_char(c, alphanumeric) == seq!['u'],
        c == '\u{E7}' ==> fold_char(c, alphanumeric) == seq!['c'],
        c == '\u{F1}' ==> fold_char(c, alphanumeric) == seq!['n'],
        c == '\u{DF}' ==> fold_char(c, alphanumeric) == seq!['s', 's'],
        c as u32 > '\u{2019}' as u32 && alphanumeric ==> fold_char(c, alphanumeric) == seq![c],
        c as u32 > '\u{2019}' as u32 && !alphanumeric ==> fold_char(c, alphanumeric) == seq![' '],
{
}

// --- the order of attempts --------------------------------------------------------

/// How many releases of a tier a list holds.
pub open spec fn in_tier(s: Seq<Candidate>, q: Quality) -> nat {
    s.filter(|c: Candidate| c.quality == q).len()
}

/// The releases that are among the first of their tier.
pub open spec fn tier_leaders(s: Seq<Candidate>) -> Seq<Candidate>
    decreases s.len(),
{
    if s.len() == 0 {
        s
    } else if in_tier(s.drop_last(), s.last().quality) < MAX_PER_TIER {
        tier_leaders(s.drop_last()).push(s.last())
    } else {
        tier_leaders(s.drop_last())
    }
}

/// The releases that are not.
pub open spec fn tier_followers(s: Seq<Candidate>) -> Seq<Candidate>
    decreases s.len(),
{
    if s.len() == 0 {
        s
    } else if in_tier(s.drop_last(), s.last().quality) < MAX_PER_TIER {
        tier_followers(s.drop_last())
    } else {
        tier_followers(s.drop_last()).push(s.last())
    }
}

/// The releases to probe, in order.
pub open spec fn attempts(s: Seq<Candidate>, max_attempts: nat) -> Seq<Candidate> {
    list::first(tier_leaders(s) + tier_followers(s), max_attempts)
}

/// A list of references as what they refer to.
pub open spec fn referred(v: Seq<&Candidate>) -> Seq<Candidate> {
    v.map_values(|c: &Candidate| *c)
}

/// The order releases are actually probed in.
///
/// Takes the shortlist and caps how many come from any one quality tier, so the
/// attempt budget descends through tiers instead of being spent entirely on the
/// top one. Anything left over is appended, so a list that is all one tier still
/// gets its full budget rather than being truncated to `MAX_PER_TIER`.
pub fn attempt_order(shortlist: &[Candidate], max_attempts: usize) -> (r: Vec<&Candidate>)
    ensures
        referred(r@) == attempts(shortlist@, max_attempts as nat),
{
    let mut seen: Vec<Quality> = Vec::new();
    let mut primary: Vec<&Candidate> = Vec::new();
    let mut overflow: Vec<&Candidate> = Vec::new();
    let mut i: usize = 0;
    proof {
        assert(shortlist@.take(0) =~= Seq::empty());
        assert(referred(primary@) =~= Seq::empty());
        assert(referred(overflow@) =~= Seq::empty());
    }
    while i < shortlist.len()
        invariant
            i <= shortlist.len(),
            seen@.len() == i,
            forall|k: int| 0 <= k < i ==> seen@[k] == (#[trigger] shortlist@[k]).quality,
            referred(primary@) == tier_leaders(shortlist@.take(i as int)),
            referred(overflow@) == tier_followers(shortlist@.take(i as int)),
        decreases shortlist.len() - i,
    {
        let c = &shortlist[i];
        let ghost before = shortlist@.take(i as int);
        assert(shortlist@.take(i + 1).drop_last() =~= before);
        let n = count_of(&seen, c.quality);
        proof {
            lemma_tier_count(before, seen@, c.quality);
        }
        if n < MAX_PER_TIER {
            let ghost p = referred(primary@);
            primary.push(c);
            assert(referred(primary@) =~= p.push(*c));
        } else {
            let ghost p = referred(overflow@);
            overflow.push(c);
            assert(referred(overflow@) =~= p.push(*c));
        }
        seen.push(c.quality);
        i += 1;
    }
    assert(shortlist@.take(shortlist@.len() as int) =~= shortlist@);
    let ghost p = primary@;
    let ghost o = overflow@;
    let mut overflow = overflow;
    primary.append(&mut overflow);
    assert(referred(p + o) =~= referred(p) + referred(o));
    let r = list::cut(primary, max_attempts);
    assert(referred(r@) =~= attempts(shortlist@, max_attempts as nat));
    r
}

spec fn times_in(v: Seq<Quality>, q: Quality) -> nat
    decreases v.len(),
{
    if v.len() == 0 {
        0
    } else {
        times_in(v.drop_last(), q) + if v.last() == q {
            1nat
        } else {
            0nat
        }
    }
}

fn count_of(v: &Vec<Quality>, q: Quality) -> (r: usize)
    ensures
        r == times_in(v@, q),
{
    let mut n: usize = 0;
    let mut i: usize = 0;
    assert(v@.take(0) =~= Seq::empty());
    while i < v.len()
        invariant
            i <= v.len(),
            n <= i,
            n == times_in(v@.take(i as int), q),
        decreases v.len() - i,
    {
        assert(v@.take(i + 1).drop_last() =~= v@.take(i as int));
        if v[i] == q {
            n += 1;
        }
        i += 1;
    }
    assert(v@.take(v@.len() as int) =~= v@);
    n
}

proof fn lemma_tier_count(s: Seq<Candidate>, v: Seq<Quality>, q: Quality)
    requires
        v.len() == s.len(),
        forall|k: int| 0 <= k < s.len() ==> v[k] == (#[trigger] s[k]).quality,
    ensures
        in_tier(s, q) == times_in(v, q),
    decreases s.len(),
{
    let p = |c: Candidate| c.quality == q;
    if s.len() == 0 {
        reveal(Seq::filter);
    } else {
        lemma_tier_count(s.drop_last(), v.drop_last(), q);
        assert(s =~= s.drop_last().push(s.last()));
        text::lemma_filter_push(s.drop_last(), p, s.last());
        assert(v.last() == s.last().quality);
    }
}

/// The attempts are a reordering of the shortlist, cut at the budget.
pub proof fn attempts_reorder(s: Seq<Candidate>)
    ensures
        (tier_leaders(s) + tier_followers(s)).to_multiset() == s.to_multiset(),
        tier_leaders(s).len() + tier_followers(s).len() == s.len(),
    decreases s.len(),
{
    broadcast use vstd::seq_lib::group_to_multiset_ensures;

    if s.len() > 0 {
        let t = s.drop_last();
        attempts_reorder(t);
        assert(s =~= t.push(s.last()));
        vstd::seq_lib::lemma_multiset_commutative(tier_leaders(s), tier_followers(s));
        vstd::seq_lib::lemma_multiset_commutative(tier_leaders(t), tier_followers(t));
        assert((tier_leaders(s) + tier_followers(s)).to_multiset() =~= s.to_multiset());
    } else {
        assert(tier_leaders(s) + tier_followers(s) =~= s);
    }
}

/// Before any tier gets a further attempt, every tier has had its share: the
/// leaders hold at most that many of each tier.
pub proof fn tiers_take_turns(s: Seq<Candidate>, q: Quality)
    ensures
        in_tier(tier_leaders(s), q) == (if in_tier(s, q) < MAX_PER_TIER {
            in_tier(s, q)
        } else {
            MAX_PER_TIER as nat
        }),
    decreases s.len(),
{
    let p = |c: Candidate| c.quality == q;
    if s.len() == 0 {
        reveal(Seq::filter);
    } else {
        let t = s.drop_last();
        tiers_take_turns(t, q);
        assert(s =~= t.push(s.last()));
        text::lemma_filter_push(t, p, s.last());
        text::lemma_filter_push(tier_leaders(t), p, s.last());
    }
}

/// A release goes right behind the leaders while there are fewer than two of its
/// quality before it, and to the very end of the order after that; the attempts
/// are the order's first, as many as the budget allows.
pub proof fn each_quality_gets_two_tries(s: Seq<Candidate>, c: Candidate, max: nat)
    ensures
        ({
            let alike = s.filter(|x: Candidate| x.quality == c.quality).len();
            let t = s.push(c);
            &&& alike < 2 ==> tier_leaders(t) == tier_leaders(s).push(c) && tier_followers(t)
                == tier_followers(s)
            &&& alike >= 2 ==> tier_leaders(t) == tier_leaders(s) && tier_followers(t)
                == tier_followers(s).push(c)
            &&& attempts(s, max).len() == if s.len() < max {
                s.len()
            } else {
                max
            }
            &&& forall|k: int|
                0 <= k < attempts(s, max).len() ==> #[trigger] attempts(s, max)[k] == (
                tier_leaders(s) + tier_followers(s))[k]
        }),
        tier_leaders(Seq::empty()) == Seq::<Candidate>::empty(),
        tier_followers(Seq::empty()) == Seq::<Candidate>::empty(),
{
    let t = s.push(c);
    assert(t.drop_last() =~= s);
    assert(t.last() == c);
    attempts_reorder(s);
}

// --- the menu ---------------------------------------------------------------------

/// The releases as a menu shows them: best first, nothing hidden.
pub fn rank_for_menu(candidates: Vec<Candidate>) -> (r: Vec<Candidate>)
    ensures
        r@ == list::stable_sort(
            candidates@,
            |a: Candidate, b: Candidate| torrentio::better(a@, b@),
        ),
{
    let order = torrentio::BestFirst;
    assert((|a: Candidate, b: Candidate| order.before(a, b)) =~= (|a: Candidate, b: Candidate|
        torrentio::better(a@, b@)));
    list::sorted(candidates, &order)
}

/// A menu shows every release once, those of more lines first, and at the same
/// lines those of more seeders.
pub proof fn menus_list_the_best_first(s: Seq<Candidate>)
    ensures
        ({
            let r = list::stable_sort(
                s,
                |a: Candidate, b: Candidate| torrentio::better(a@, b@),
            );
            &&& r.to_multiset() == s.to_multiset()
            &&& forall|i: int, j: int|
                0 <= i < j < r.len() ==> lines((#[trigger] r[i])@.quality) >= lines(
                    (#[trigger] r[j])@.quality,
                )
            &&& forall|i: int, j: int|
                0 <= i < j < r.len() && (#[trigger] r[i])@.quality == (#[trigger] r[j])@.quality
                    ==> r[i]@.seeders >= r[j]@.seeders
        }),
{
    let lt = |a: Candidate, b: Candidate| torrentio::better(a@, b@);
    assert(list::is_order(lt));
    list::sorting_orders(s, lt);
    let r = list::stable_sort(s, lt);
    assert forall|i: int, j: int| 0 <= i < j < r.len() implies lines((#[trigger] r[i])@.quality)
        >= lines((#[trigger] r[j])@.quality) && (r[i]@.quality == r[j]@.quality ==> r[i]@.seeders
        >= r[j]@.seeders) by {
        assert(!lt(r[j], r[i]));
    }
}

} // verus!
