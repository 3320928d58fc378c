//! Torrentio lookup.
//!
//! Torrentio is a free, account-less torrent indexer keyed by IMDB id. It
//! returns torrents rather than direct files, which is exactly what we want:
//! `engine` streams them, so nothing has to finish downloading before playback
//! starts. This module turns its answer into candidate releases.

use crate::audio;
use crate::audio::Audio;
use crate::binary64;
use crate::decimal;
use crate::list;
use crate::list::Order;
use crate::text;
use crate::text::Separator;
use crate::values;
use vstd::prelude::*;

verus! {

pub const BASE: &'static str = "https://torrentio.strem.fun";

pub const MAX_TRACKERS: usize = 20;

/// Quality tiers, ordered. `Ord` is derived from declaration order, so higher
/// variants compare greater; that ordering is what `pick` sorts on.
#[derive(Clone, Copy, PartialEq, Eq, PartialOrd, Ord, Debug, Structural)]
pub enum Quality {
    Cam,
    Sd,
    P480,
    P720,
    P1080,
    P2160,
    P4320,
}

impl Quality {
    /// The place of a tier in its order, worst first.
    pub open spec fn level(self) -> nat {
        match self {
            Quality::Cam => 0,
            Quality::Sd => 1,
            Quality::P480 => 2,
            Quality::P720 => 3,
            Quality::P1080 => 4,
            Quality::P2160 => 5,
            Quality::P4320 => 6,
        }
    }

    /// The place of a tier in its order, worst first.
    pub fn rank(self) -> (r: u8)
        ensures
            r == self.level(),
    {
        match self {
            Quality::Cam => 0,
            Quality::Sd => 1,
            Quality::P480 => 2,
            Quality::P720 => 3,
            Quality::P1080 => 4,
            Quality::P2160 => 5,
            Quality::P4320 => 6,
        }
    }

    pub fn label(self) -> (r: &'static str)
        ensures
            r@ == quality_label(self),
    {
        match self {
            Quality::Cam => "CAM",
            Quality::Sd => "SD",
            Quality::P480 => "480p",
            Quality::P720 => "720p",
            Quality::P1080 => "1080p",
            Quality::P2160 => "4K",
            Quality::P4320 => "8K",
        }
    }

    /// Typical sustained bitrate for a web release of this tier, used when a
    /// candidate's size is unknown and its real bitrate cannot be computed.
    /// Deliberately on the low side for each tier: a too-high guess would
    /// filter out releases the probe could have validated.
    pub fn assumed_bps(self) -> (r: u64)
        ensures
            r == typical_bps(self),
    {
        match self {
            Quality::Cam | Quality::Sd | Quality::P480 => 2_500_000,
            Quality::P720 => 4_000_000,
            Quality::P1080 => 8_000_000,
            Quality::P2160 => 16_000_000,
            Quality::P4320 => 45_000_000,
        }
    }

    /// Parse a `--quality` ceiling from the command line.
    pub fn parse_cap(s: &str) -> (r: Option<Quality>)
        ensures
            r == cap_named(text::lower(text::trim(s@))),
    {
        let all = text::chars_of(s);
        let inner = text::trimmed(all.as_slice());
        let low = text::lowered(inner.as_slice());
        let t = low.as_slice();
        if text::is_str(t, "8k") || text::is_str(t, "4320") || text::is_str(t, "4320p") {
            Some(Quality::P4320)
        } else if text::is_str(t, "4k") || text::is_str(t, "2160") || text::is_str(t, "2160p")
            || text::is_str(t, "uhd") {
            Some(Quality::P2160)
        } else if text::is_str(t, "1080") || text::is_str(t, "1080p") || text::is_str(t, "fhd") {
            Some(Quality::P1080)
        } else if text::is_str(t, "720") || text::is_str(t, "720p") || text::is_str(t, "hd") {
            Some(Quality::P720)
        } else if text::is_str(t, "480") || text::is_str(t, "480p") {
            Some(Quality::P480)
        } else if text::is_str(t, "sd") {
            Some(Quality::Sd)
        } else {
            None
        }
    }
}

pub open spec fn quality_label(q: Quality) -> Seq<char> {
    match q {
        Quality::Cam => "CAM"@,
        Quality::Sd => "SD"@,
        Quality::P480 => "480p"@,
        Quality::P720 => "720p"@,
        Quality::P1080 => "1080p"@,
        Quality::P2160 => "4K"@,
        Quality::P4320 => "8K"@,
    }
}

/// The bitrate a release of a tier is taken to need when its size is unknown.
pub open spec fn typical_bps(q: Quality) -> u64 {
    match q {
        Quality::Cam | Quality::Sd | Quality::P480 => 2_500_000,
        Quality::P720 => 4_000_000,
        Quality::P1080 => 8_000_000,
        Quality::P2160 => 16_000_000,
        Quality::P4320 => 45_000_000,
    }
}

/// The tier that a ceiling on the command line names.
pub open spec fn cap_named(t: Seq<char>) -> Option<Quality> {
    if t == "8k"@ || t == "4320"@ || t == "4320p"@ {
        Some(Quality::P4320)
    } else if t == "4k"@ || t == "2160"@ || t == "2160p"@ || t == "uhd"@ {
        Some(Quality::P2160)
    } else if t == "1080"@ || t == "1080p"@ || t == "fhd"@ {
        Some(Quality::P1080)
    } else if t == "720"@ || t == "720p"@ || t == "hd"@ {
        Some(Quality::P720)
    } else if t == "480"@ || t == "480p"@ {
        Some(Quality::P480)
    } else if t == "sd"@ {
        Some(Quality::Sd)
    } else {
        None
    }
}

// --- reading a release's name -----------------------------------------------------

/// The text holds a word on its own, not inside a longer one.
pub open spec fn has_word(s: Seq<char>, word: Seq<char>) -> bool {
    text::split(s, Separator::Punctuation).contains(word)
}

/// The tier that a release's text names; `t` is the text in lower case.
pub open spec fn quality_named(t: Seq<char>) -> Quality {
    if text::holds(t, "4320p"@) || has_word(t, "8k"@) {
        Quality::P4320
    } else if text::holds(t, "2160p"@) || has_word(t, "4k"@) || text::holds(t, "uhd"@) {
        Quality::P2160
    } else if text::holds(t, "1080p"@) {
        Quality::P1080
    } else if text::holds(t, "720p"@) {
        Quality::P720
    } else if text::holds(t, "480p"@) {
        Quality::P480
    } else if has_word(t, "cam"@) || has_word(t, "hdcam"@) || has_word(t, "ts"@) || has_word(
        t,
        "telesync"@,
    ) || has_word(t, "hdts"@) {
        Quality::Cam
    } else {
        Quality::Sd
    }
}

/// Whole-word containment, so "ts" does not match "tsunami" and "4k" does not
/// match "24kbps".
pub fn contains_word(haystack: &str, word: &str) -> (r: bool)
    ensures
        r == has_word(haystack@, word@),
{
    let s = text::chars_of(haystack);
    let w = text::chars_of(word);
    let pieces = text::split_on(s.as_slice(), Separator::Punctuation);
    text::has_text(&pieces, w.as_slice())
}

/// Classify a release's quality from its name/title text.
pub fn parse_quality(text: &str) -> (r: Quality)
    ensures
        r == quality_named(text::lower(text@)),
{
    let s = text::chars_of(text);
    let low = text::lowered(s.as_slice());
    let t = low.as_slice();
    let lowered = text::string_of(t);
    let l = lowered.as_str();
    if text::contains_str(t, "4320p") || contains_word(l, "8k") {
        return Quality::P4320;
    }
    if text::contains_str(t, "2160p") || contains_word(l, "4k") || text::contains_str(t, "uhd") {
        return Quality::P2160;
    }
    if text::contains_str(t, "1080p") {
        return Quality::P1080;
    }
    if text::contains_str(t, "720p") {
        return Quality::P720;
    }
    if text::contains_str(t, "480p") {
        return Quality::P480;
    }
    if contains_word(l, "cam") || contains_word(l, "hdcam") || contains_word(l, "ts")
        || contains_word(l, "telesync") || contains_word(l, "hdts") {
        return Quality::Cam;
    }
    Quality::Sd
}

/// What follows the first marker `c`, without the space before it.
pub open spec fn after_marker(s: Seq<char>, c: char) -> Option<Seq<char>> {
    match text::place_of(s, c) {
        Some(i) => Some(text::trim_start(s.skip(i + 1))),
        None => None,
    }
}

/// The length of the run of digits, and points where they count, that a text
/// starts with.
pub open spec fn run_length(s: Seq<char>, points: bool) -> nat
    decreases s.len(),
{
    if s.len() > 0 && (text::is_digit(s[0]) || (points && s[0] == '.')) {
        1 + run_length(s.drop_first(), points)
    } else {
        0
    }
}

/// The power of two that a size's unit stands for.
pub open spec fn unit_shift(unit: Seq<char>) -> Option<int> {
    if unit == "TB"@ {
        Some(40)
    } else if unit == "GB"@ {
        Some(30)
    } else if unit == "MB"@ {
        Some(20)
    } else if unit == "KB"@ {
        Some(10)
    } else {
        None
    }
}

/// The size behind the disk marker: a numeral and a binary unit.
pub open spec fn size_named(s: Seq<char>) -> Option<u64> {
    match after_marker(s, '\u{1F4BE}') {
        Some(rest) => {
            let n = run_length(rest, true) as int;
            let unit = text::upper(list::first(text::trim_start(rest.skip(n)), 2));
            match unit_shift(unit) {
                Some(shift) => if decimal::is_numeral(rest.take(n)) {
                    Some(decimal::scaled_integer(rest.take(n), shift))
                } else {
                    None
                },
                None => None,
            }
        },
        None => None,
    }
}

/// The number of seeders behind the person marker.
pub open spec fn seeders_named(s: Seq<char>) -> Option<nat> {
    match after_marker(s, '\u{1F464}') {
        Some(rest) => text::parse_number(
            rest.take(run_length(rest, false) as int),
            u32::MAX as nat,
        ),
        None => None,
    }
}

fn text_after(s: &[char], c: char) -> (r: Option<Vec<char>>)
    ensures
        match r {
            Some(t) => after_marker(s@, c) == Some(t@),
            None => after_marker(s@, c) is None,
        },
{
    let end = s.len();
    match text::find_char(s, c) {
        Some(i) => {
            let rest = text::slice_of(s, i + 1, end);
            assert(rest@ =~= s@.skip(i + 1));
            Some(text::trimmed_start(rest.as_slice()))
        },
        None => None,
    }
}

fn run_of(s: &[char], points: bool) -> (r: usize)
    ensures
        r == run_length(s@, points),
        r <= s@.len(),
{
    let mut i: usize = 0;
    assert(s@.skip(0) =~= s@);
    while i < s.len() && (text::digit(s[i]) || (points && s[i] == '.'))
        invariant
            i <= s.len(),
            run_length(s@, points) == i + run_length(s@.skip(i as int), points),
        decreases s.len() - i,
    {
        assert(s@.skip(i as int).drop_first() =~= s@.skip(i + 1));
        i += 1;
    }
    i
}

/// Parse the size marker into bytes. Torrentio's "GB" is really GiB.
pub fn parse_size(title: &str) -> (r: Option<u64>)
    ensures
        r == size_named(title@),
{
    let s = text::chars_of(title);
    let rest = match text_after(s.as_slice(), '\u{1F4BE}') {
        Some(rest) => rest,
        None => {
            return None;
        },
    };
    let n = run_of(rest.as_slice(), true);
    let numeral = text::slice_of(rest.as_slice(), 0, n);
    assert(numeral@ =~= rest@.take(n as int));
    let tail = text::slice_of(rest.as_slice(), n, rest.len());
    assert(tail@ =~= rest@.skip(n as int));
    let behind = text::trimmed_start(tail.as_slice());
    let two = list::cut(behind, 2);
    let unit = text::uppered(two.as_slice());
    let u = unit.as_slice();
    let shift: i32 = if text::is_str(u, "TB") {
        40
    } else if text::is_str(u, "GB") {
        30
    } else if text::is_str(u, "MB") {
        20
    } else if text::is_str(u, "KB") {
        10
    } else {
        return None;
    };
    decimal::read_scaled(numeral.as_slice(), shift)
}

/// Parse the seeder marker.
pub fn parse_seeders(title: &str) -> (r: Option<u32>)
    ensures
        match r {
            Some(n) => seeders_named(title@) == Some(n as nat),
            None => seeders_named(title@) is None,
        },
{
    let s = text::chars_of(title);
    let rest = match text_after(s.as_slice(), '\u{1F464}') {
        Some(rest) => rest,
        None => {
            return None;
        },
    };
    let n = run_of(rest.as_slice(), false);
    let digits = text::slice_of(rest.as_slice(), 0, n);
    assert(digits@ =~= rest@.take(n as int));
    match text::read_number(digits.as_slice(), 0xffff_ffff) {
        Some(v) => Some(v as u32),
        None => None,
    }
}

// --- candidates -------------------------------------------------------------------

/// One stream of Torrentio's answer, as it comes.
pub struct RawStream {
    pub name: Option<String>,
    pub title: Option<String>,
    pub info_hash: Option<String>,
    pub file_idx: Option<usize>,
    pub sources: Option<Vec<String>>,
    pub behavior_hints: Option<BehaviorHints>,
}

pub struct BehaviorHints {
    pub filename: Option<String>,
}

/// One candidate release, normalised and ready to hand to the engine.
#[derive(Debug)]
pub struct Candidate {
    pub quality: Quality,
    pub title: String,
    pub size_bytes: Option<u64>,
    pub seeders: u32,
    /// Which file inside the torrent holds this episode, when Torrentio says.
    /// Season packs rely on this; without it we fall back to matching by name.
    pub file_idx: Option<usize>,
    pub magnet: String,
    /// Audio tracks, from flag emoji and the release name.
    pub audio: Audio,
}

/// What a candidate says of its release.
#[verifier::ext_equal]
pub struct Release {
    pub quality: Quality,
    pub title: Seq<char>,
    pub size_bytes: Option<u64>,
    pub seeders: u32,
    pub file_idx: Option<usize>,
    pub magnet: Seq<char>,
    pub audio: audio::Heard,
}

impl View for Candidate {
    type V = Release;

    open spec fn view(&self) -> Release {
        Release {
            quality: self.quality,
            title: self.title@,
            size_bytes: self.size_bytes,
            seeders: self.seeders,
            file_idx: self.file_idx,
            magnet: self.magnet@,
            audio: self.audio@,
        }
    }
}

impl Clone for Candidate {
    fn clone(&self) -> (r: Candidate)
        ensures
            r@ == self@,
            r.audio.others@ == self.audio.others@,
    {
        Candidate {
            quality: self.quality,
            title: self.title.clone(),
            size_bytes: self.size_bytes,
            seeders: self.seeders,
            file_idx: self.file_idx,
            magnet: self.magnet.clone(),
            audio: self.audio.clone(),
        }
    }
}

/// A list of candidates as the releases they stand for.
pub open spec fn releases(v: Seq<Candidate>) -> Seq<Release> {
    v.map_values(|c: Candidate| c@)
}

/// The sustained bitrate that a release of a size needs over a runtime.
pub open spec fn bitrate(size_bytes: Option<u64>, runtime_secs: u32) -> Option<u64> {
    match size_bytes {
        Some(size) => if runtime_secs == 0 {
            None
        } else {
            Some(
                ((if size * 8 > u64::MAX {
                    u64::MAX as int
                } else {
                    size * 8
                }) / runtime_secs as int) as u64,
            )
        },
        None => None,
    }
}

impl Candidate {
    /// Sustained bitrate this release needs, in bits per second, given a
    /// runtime. `None` when the size is unknown: the live probe then decides
    /// on its own.
    pub fn required_bps(&self, runtime_secs: u32) -> (r: Option<u64>)
        ensures
            r == bitrate(self.size_bytes, runtime_secs),
    {
        match self.size_bytes {
            Some(size) => {
                if runtime_secs == 0 {
                    return None;
                }
                let bits: u64 = if size > 0x1fff_ffff_ffff_ffff {
                    u64::MAX
                } else {
                    size * 8
                };
                Some(bits / runtime_secs as u64)
            },
            None => None,
        }
    }
}

pub open spec fn stream_id_text(
    imdb_id: Seq<char>,
    season: Option<u32>,
    episode: Option<u32>,
) -> Seq<char> {
    match (season, episode) {
        (Some(s), Some(e)) => imdb_id + ":"@ + text::decimal(s as nat) + ":"@ + text::decimal(
            e as nat,
        ),
        _ => imdb_id,
    }
}

/// The stream id Torrentio expects: `tt123` for a movie, `tt123:S:E` for an
/// episode.
pub fn stream_id(imdb_id: &str, season: Option<u32>, episode: Option<u32>) -> (r: String)
    ensures
        r@ == stream_id_text(imdb_id@, season, episode),
{
    let mut out = text::chars_of(imdb_id);
    match (season, episode) {
        (Some(s), Some(e)) => {
            text::push_str(&mut out, ":");
            text::push_decimal(&mut out, s as u64);
            text::push_str(&mut out, ":");
            text::push_decimal(&mut out, e as u64);
        },
        _ => {},
    }
    text::string_of(out.as_slice())
}

/// Where Torrentio lists the streams of a title, or of one episode of a show.
pub fn streams_url(imdb_id: &str, kind: &str, season: Option<u32>, episode: Option<u32>) -> (r:
    String)
    ensures
        r@ == BASE@ + "/stream/"@ + kind@ + "/"@ + stream_id_text(imdb_id@, season, episode)
            + ".json"@,
{
    let id = stream_id(imdb_id, season, episode);
    let mut out = text::chars_of(BASE);
    text::push_str(&mut out, "/stream/");
    text::push_str(&mut out, kind);
    text::push_str(&mut out, "/");
    text::push_str(&mut out, id.as_str());
    text::push_str(&mut out, ".json");
    text::string_of(out.as_slice())
}

// --- display titles ---------------------------------------------------------------

/// A line that holds a release's name, not a marker.
pub open spec fn is_name_line(l: Seq<char>) -> bool {
    l.len() > 0 && l[0] != '\u{1F464}' && l[0] != '\u{1F4BE}' && l[0] != '\u{2699}' && l[0]
        != '\u{1F1EC}'
}

/// A line that says more than where the stream comes from.
pub open spec fn is_source_line(l: Seq<char>) -> bool {
    l.len() > 0 && !text::same_ignoring_case(l, "torrentio"@)
}

/// The lines of a text, each without the space round it.
pub open spec fn trimmed_lines(s: Seq<char>) -> Seq<Seq<char>> {
    text::split(s, Separator::Only('\n')).map_values(|l: Seq<char>| text::trim(l))
}

/// The first line of which the condition holds.
pub open spec fn first_line(lines: Seq<Seq<char>>, p: spec_fn(Seq<char>) -> bool) -> Option<
    Seq<char>,
>
    decreases lines.len(),
{
    if lines.len() == 0 {
        None
    } else if p(lines[0]) {
        Some(lines[0])
    } else {
        first_line(lines.drop_first(), p)
    }
}

/// The file name that the stream hints at.
pub open spec fn hinted_name(s: RawStream) -> Seq<char> {
    match s.behavior_hints {
        Some(h) => text::trim(text::or_empty(h.filename)),
        None => Seq::empty(),
    }
}

/// The name to show: the hinted file name, else the first naming line of the
/// title, else the first telling line of the stream's name.
pub open spec fn title_shown(s: RawStream) -> Seq<char> {
    let hint = hinted_name(s);
    let named = first_line(
        trimmed_lines(text::or_empty(s.title)),
        |l: Seq<char>| is_name_line(l),
    );
    let source = first_line(
        trimmed_lines(text::or_empty(s.name)),
        |l: Seq<char>| is_source_line(l),
    );
    if hint.len() > 0 {
        hint
    } else if named is Some {
        named->0
    } else if source is Some {
        source->0
    } else {
        "Unknown release"@
    }
}

/// Which lines of a stream's text can name it.
enum LineTest {
    Name,
    Source,
}

impl LineTest {
    spec fn accepts(self, l: Seq<char>) -> bool {
        match self {
            LineTest::Name => is_name_line(l),
            LineTest::Source => is_source_line(l),
        }
    }

    fn check(&self, l: &[char]) -> (r: bool)
        ensures
            r == self.accepts(l@),
    {
        if l.len() == 0 {
            return false;
        }
        match self {
            LineTest::Name => {
                let c = l[0];
                c != '\u{1F464}' && c != '\u{1F4BE}' && c != '\u{2699}' && c != '\u{1F1EC}'
            },
            LineTest::Source => {
                let low = text::lowered(l);
                let name = text::chars_of("torrentio");
                let name = text::lowered(name.as_slice());
                !text::same(low.as_slice(), name.as_slice())
            },
        }
    }
}

fn find_line(s: &[char], test: LineTest) -> (r: Option<Vec<char>>)
    ensures
        match r {
            Some(l) => first_line(trimmed_lines(s@), |l: Seq<char>| test.accepts(l)) == Some(l@),
            None => first_line(trimmed_lines(s@), |l: Seq<char>| test.accepts(l)) is None,
        },
{
    let pieces = text::split_on(s, Separator::Only('\n'));
    let ghost p = |l: Seq<char>| test.accepts(l);
    let ghost lines = trimmed_lines(s@);
    let mut i: usize = 0;
    assert(lines.skip(0) =~= lines);
    while i < pieces.len()
        invariant
            i <= pieces.len(),
            p == (|l: Seq<char>| test.accepts(l)),
            lines == trimmed_lines(s@),
            text::texts(pieces@) == text::split(s@, Separator::Only('\n')),
            first_line(lines, p) == first_line(lines.skip(i as int), p),
        decreases pieces.len() - i,
    {
        let line = text::trimmed(pieces[i].as_slice());
        assert(text::texts(pieces@)[i as int] == pieces@[i as int]@);
        assert(lines[i as int] == line@);
        assert(lines.skip(i as int)[0] == line@);
        if test.check(line.as_slice()) {
            return Some(line);
        }
        assert(lines.skip(i as int).drop_first() =~= lines.skip(i + 1));
        i += 1;
    }
    assert(lines.len() == text::texts(pieces@).len());
    None
}

pub fn display_title(s: &RawStream) -> (r: String)
    ensures
        r@ == title_shown(*s),
{
    let hint: Vec<char> = match &s.behavior_hints {
        Some(h) => {
            let f = text::chars_or_empty(&h.filename);
            text::trimmed(f.as_slice())
        },
        None => Vec::new(),
    };
    if hint.len() > 0 {
        return text::string_of(hint.as_slice());
    }
    let title = text::chars_or_empty(&s.title);
    let named = find_line(title.as_slice(), LineTest::Name);
    assert((|l: Seq<char>| LineTest::Name.accepts(l)) =~= (|l: Seq<char>| is_name_line(l)));
    assert((|l: Seq<char>| LineTest::Source.accepts(l)) =~= (|l: Seq<char>| is_source_line(l)));
    match named {
        Some(l) => {
            return text::string_of(l.as_slice());
        },
        None => {},
    }
    let name = text::chars_or_empty(&s.name);
    match find_line(name.as_slice(), LineTest::Source) {
        Some(l) => text::string_of(l.as_slice()),
        None => {
            let r = text::chars_of("Unknown release");
            text::string_of(r.as_slice())
        },
    }
}

// --- magnets ----------------------------------------------------------------------

/// What an URL takes as it is.
pub open spec fn is_unreserved(b: u8) -> bool {
    ||| 65 <= b <= 90
    ||| 97 <= b <= 122
    ||| 48 <= b <= 57
    ||| b == 45
    ||| b == 95
    ||| b == 46
    ||| b == 126
}

/// A hexadecimal digit, letters in upper case.
pub open spec fn hex_digit(d: u8) -> char {
    if d < 10 {
        (48 + d) as char
    } else {
        (55 + d) as char
    }
}

/// One byte as an URL holds it.
pub open spec fn encoded_byte(b: u8) -> Seq<char> {
    if is_unreserved(b) {
        seq![b as char]
    } else {
        seq!['%', hex_digit(b / 16), hex_digit(b % 16)]
    }
}

pub open spec fn encoded_bytes(s: Seq<u8>) -> Seq<char>
    decreases s.len(),
{
    if s.len() == 0 {
        Seq::empty()
    } else {
        encoded_bytes(s.drop_last()) + encoded_byte(s.last())
    }
}

/// A text percent-encoded, byte by byte.
pub open spec fn encoded(s: Seq<char>) -> Seq<char> {
    encoded_bytes(vstd::utf8::encode_utf8(s))
}

fn hex(d: u8) -> (r: char)
    requires
        d < 16,
    ensures
        r == hex_digit(d),
{
    if d < 10 {
        (48 + d) as char
    } else {
        (55 + d) as char
    }
}

/// Percent-encode a string, keeping only the unreserved set.
pub fn percent_encode(s: &str) -> (r: String)
    ensures
        r@ == encoded(s@),
{
    let bytes = s.as_bytes();
    let mut out: Vec<char> = Vec::new();
    let mut i: usize = 0;
    assert(bytes@.take(0) =~= Seq::empty());
    while i < bytes.len()
        invariant
            i <= bytes.len(),
            out@ == encoded_bytes(bytes@.take(i as int)),
        decreases bytes.len() - i,
    {
        let b = bytes[i];
        assert(bytes@.take(i + 1).drop_last() =~= bytes@.take(i as int));
        let ghost before = out@;
        if (65 <= b && b <= 90) || (97 <= b && b <= 122) || (48 <= b && b <= 57) || b == 45 || b
            == 95 || b == 46 || b == 126 {
            out.push(b as char);
        } else {
            out.push('%');
            out.push(hex(b / 16));
            out.push(hex(b % 16));
        }
        assert(out@ =~= before + encoded_byte(b));
        i += 1;
    }
    assert(bytes@.take(bytes@.len() as int) =~= bytes@);
    text::string_of(out.as_slice())
}

/// The trackers that a stream names itself.
pub open spec fn own_trackers(sources: Seq<Seq<char>>) -> Seq<Seq<char>>
    decreases sources.len(),
{
    if sources.len() == 0 {
        Seq::empty()
    } else {
        let before = own_trackers(sources.drop_last());
        if text::begins(sources.last(), "tracker:"@) {
            before.push(sources.last().skip("tracker:"@.len() as int))
        } else {
            before
        }
    }
}

/// A tracker added where it is not listed yet.
pub open spec fn with_tracker(l: Seq<Seq<char>>, t: Seq<char>) -> Seq<Seq<char>> {
    if l.contains(t) {
        l
    } else {
        l.push(t)
    }
}

/// A stream's own trackers and the public ones, so a link still resolves peers
/// when Torrentio omits `sources` for a stream.
pub open spec fn trackers(sources: Seq<Seq<char>>) -> Seq<Seq<char>> {
    let l0 = own_trackers(sources);
    let l1 = with_tracker(l0, "udp://tracker.opentrackr.org:1337/announce"@);
    let l2 = with_tracker(l1, "udp://open.stealth.si:80/announce"@);
    let l3 = with_tracker(l2, "udp://tracker.torrent.eu.org:451/announce"@);
    let l4 = with_tracker(l3, "udp://open.demonii.com:1337/announce"@);
    let l5 = with_tracker(l4, "udp://exodus.desync.com:6969/announce"@);
    let l6 = with_tracker(l5, "udp://tracker.openbittorrent.com:6969/announce"@);
    list::first(l6, MAX_TRACKERS as nat)
}

/// The trackers as parameters of a magnet link.
pub open spec fn tracker_parameters(l: Seq<Seq<char>>) -> Seq<char>
    decreases l.len(),
{
    if l.len() == 0 {
        Seq::empty()
    } else {
        tracker_parameters(l.drop_last()) + "&tr="@ + encoded(l.last())
    }
}

/// What an optional list of strings holds.
pub open spec fn listed(sources: Option<&[String]>) -> Seq<Seq<char>> {
    match sources {
        Some(l) => text::string_texts(l@),
        None => Seq::empty(),
    }
}

pub open spec fn magnet_text(
    info_hash: Seq<char>,
    display_name: Seq<char>,
    sources: Seq<Seq<char>>,
) -> Seq<char> {
    "magnet:?xt=urn:btih:"@ + info_hash + "&dn="@ + encoded(display_name) + tracker_parameters(
        trackers(sources),
    )
}

fn add_tracker(l: &mut Vec<Vec<char>>, t: &str)
    ensures
        text::texts(final(l)@) == with_tracker(text::texts(old(l)@), t@),
{
    let c = text::chars_of(t);
    if !text::has_text(l, c.as_slice()) {
        let ghost before = text::texts(l@);
        l.push(c);
        assert(text::texts(l@) =~= before.push(t@));
    }
}

fn own_trackers_of(sources: &[String]) -> (r: Vec<Vec<char>>)
    ensures
        text::texts(r@) == own_trackers(text::string_texts(sources@)),
{
    let ghost all = text::string_texts(sources@);
    let prefix = text::chars_of("tracker:");
    let mut out: Vec<Vec<char>> = Vec::new();
    let mut i: usize = 0;
    assert(text::texts(out@) =~= Seq::empty());
    assert(all.take(0) =~= Seq::empty());
    while i < sources.len()
        invariant
            i <= sources.len(),
            all == text::string_texts(sources@),
            prefix@ == "tracker:"@,
            text::texts(out@) == own_trackers(all.take(i as int)),
        decreases sources.len() - i,
    {
        let s = text::chars_of(sources[i].as_str());
        assert(all[i as int] == s@);
        assert(all.take(i + 1).drop_last() =~= all.take(i as int));
        if text::starts_with(s.as_slice(), prefix.as_slice()) {
            let t = text::slice_of(s.as_slice(), prefix.len(), s.len());
            assert(t@ =~= s@.skip(prefix@.len() as int));
            let ghost before = text::texts(out@);
            out.push(t);
            assert(text::texts(out@) =~= before.push(t@));
        }
        i += 1;
    }
    assert(all.take(all.len() as int) =~= all);
    out
}

pub fn build_magnet(info_hash: &str, display_name: &str, sources: Option<&[String]>) -> (r: String)
    ensures
        r@ == magnet_text(info_hash@, display_name@, listed(sources)),
{
    let mut l: Vec<Vec<char>> = match sources {
        Some(s) => own_trackers_of(s),
        None => Vec::new(),
    };
    assert(text::texts(l@) =~= own_trackers(listed(sources)));
    add_tracker(&mut l, "udp://tracker.opentrackr.org:1337/announce");
    add_tracker(&mut l, "udp://open.stealth.si:80/announce");
    add_tracker(&mut l, "udp://tracker.torrent.eu.org:451/announce");
    add_tracker(&mut l, "udp://open.demonii.com:1337/announce");
    add_tracker(&mut l, "udp://exodus.desync.com:6969/announce");
    add_tracker(&mut l, "udp://tracker.openbittorrent.com:6969/announce");
    let ghost all = text::texts(l@);
    let l = list::cut(l, MAX_TRACKERS);
    assert(text::texts(l@) =~= list::first(all, MAX_TRACKERS as nat));
    let mut out = text::chars_of("magnet:?xt=urn:btih:");
    text::push_str(&mut out, info_hash);
    text::push_str(&mut out, "&dn=");
    let name = percent_encode(display_name);
    text::push_str(&mut out, name.as_str());
    let ghost head = out@;
    let ghost chosen = text::texts(l@);
    let mut i: usize = 0;
    assert(chosen.take(0) =~= Seq::empty());
    assert(out@ =~= head + tracker_parameters(chosen.take(0)));
    while i < l.len()
        invariant
            i <= l.len(),
            chosen == text::texts(l@),
            out@ == head + tracker_parameters(chosen.take(i as int)),
        decreases l.len() - i,
    {
        assert(chosen[i as int] == l@[i as int]@);
        assert(chosen.take(i + 1).drop_last() =~= chosen.take(i as int));
        let t = text::string_of(l[i].as_slice());
        let e = percent_encode(t.as_str());
        text::push_str(&mut out, "&tr=");
        text::push_str(&mut out, e.as_str());
        assert(out@ =~= head + tracker_parameters(chosen.take(i + 1)));
        i += 1;
    }
    assert(chosen.take(chosen.len() as int) =~= chosen);
    text::string_of(out.as_slice())
}

// --- Torrentio's answer -----------------------------------------------------------

/// The name and the title of a stream, one below the other.
pub open spec fn stream_meta(s: RawStream) -> Seq<char> {
    text::or_empty(s.name) + "\n"@ + text::or_empty(s.title)
}

/// The trackers and the like that a stream lists.
pub open spec fn stream_sources(s: RawStream) -> Seq<Seq<char>> {
    match s.sources {
        Some(l) => text::string_texts(l@),
        None => Seq::empty(),
    }
}

/// The release that a stream offers; none without a hash to find it by.
pub open spec fn release_of(s: RawStream) -> Option<Release> {
    let hash = text::or_empty(s.info_hash);
    let meta = stream_meta(s);
    let title = text::or_empty(s.title);
    if hash.len() == 0 {
        None
    } else {
        Some(
            Release {
                quality: quality_named(text::lower(meta)),
                title: title_shown(s),
                size_bytes: size_named(title),
                seeders: match seeders_named(title) {
                    Some(n) => n as u32,
                    None => 0,
                },
                file_idx: s.file_idx,
                magnet: magnet_text(hash, title_shown(s), stream_sources(s)),
                audio: audio::both(audio::heard_in_flags(meta), audio::heard_in_name(meta)),
            },
        )
    }
}

/// The releases of an answer, in its order.
pub open spec fn releases_of(streams: Seq<RawStream>) -> Seq<Release>
    decreases streams.len(),
{
    if streams.len() == 0 {
        Seq::empty()
    } else {
        match release_of(streams.last()) {
            Some(r) => releases_of(streams.drop_last()).push(r),
            None => releases_of(streams.drop_last()),
        }
    }
}

/// Best first: quality, then swarm health.
pub open spec fn better(a: Release, b: Release) -> bool {
    a.quality.level() > b.quality.level() || (a.quality == b.quality && a.seeders > b.seeders)
}

/// Best first: quality, then swarm health.
pub struct BestFirst;

impl Order<Candidate> for BestFirst {
    open spec fn before(&self, a: Candidate, b: Candidate) -> bool {
        better(a@, b@)
    }

    fn less(&self, a: &Candidate, b: &Candidate) -> (r: bool) {
        let x = a.quality.rank();
        let y = b.quality.rank();
        x > y || (x == y && a.seeders > b.seeders)
    }
}

fn candidate_of(s: RawStream) -> (r: Option<Candidate>)
    ensures
        match r {
            Some(c) => release_of(s) == Some(c@) && audio::ascending(c.audio.others@),
            None => release_of(s) is None,
        },
{
    let hash: &str = match &s.info_hash {
        Some(h) => h.as_str(),
        None => {
            return None;
        },
    };
    if hash.is_empty() {
        return None;
    }
    let title_chars = text::chars_or_empty(&s.title);
    let title = text::string_of(title_chars.as_slice());
    let mut meta_chars = text::chars_or_empty(&s.name);
    text::push_str(&mut meta_chars, "\n");
    text::push_all(&mut meta_chars, title_chars.as_slice());
    let meta = text::string_of(meta_chars.as_slice());
    let display = display_title(&s);
    let sources: Option<&[String]> = match &s.sources {
        Some(l) => Some(l.as_slice()),
        None => None,
    };
    let magnet = build_magnet(hash, display.as_str(), sources);
    let seeders: u32 = match parse_seeders(title.as_str()) {
        Some(n) => n,
        None => 0,
    };
    Some(
        Candidate {
            quality: parse_quality(meta.as_str()),
            size_bytes: parse_size(title.as_str()),
            seeders,
            file_idx: s.file_idx,
            magnet,
            // Read from the whole text, not just the filename: the flag emoji
            // live on their own line of `title`, away from the name.
            audio: audio::detect(meta.as_str()),
            title: display,
        },
    )
}

/// The candidates of Torrentio's answer, best first. `pick` re-ranks against
/// measured throughput, but this is the order it walks.
pub fn parse_streams(streams: Vec<RawStream>) -> (r: Vec<Candidate>)
    ensures
        releases(r@) == list::stable_sort(
            releases_of(streams@),
            |a: Release, b: Release| better(a, b),
        ),
{
    let ghost all = streams@;
    let mut out: Vec<Candidate> = Vec::new();
    assert(releases(out@) =~= releases_of(all.take(0)));
    for s in it: streams
        invariant
            it.seq() == all,
            releases(out@) == releases_of(all.take(it.index())),
    {
        let ghost i = it.index();
        assert(all.take(i + 1).drop_last() =~= all.take(i));
        assert(all.take(i + 1).last() == s);
        let ghost before = releases(out@);
        match candidate_of(s) {
            Some(c) => {
                out.push(c);
                assert(releases(out@) =~= before.push(c@));
            },
            None => {},
        }
    }
    assert(all.take(all.len() as int) =~= all);
    let ghost found = out@;
    let order = BestFirst;
    let r = list::sorted(out, &order);
    proof {
        list::lemma_sort_maps(
            found,
            |c: Candidate| c@,
            |a: Candidate, b: Candidate| order.before(a, b),
            |a: Release, b: Release| better(a, b),
        );
    }
    r
}

// --- numbers for people -----------------------------------------------------------

/// How often 1024 goes into a number of bytes, up to four times.
pub open spec fn unit_of(n: nat) -> nat {
    if n < 0x400 {
        0
    } else if n < 0x10_0000 {
        1
    } else if n < 0x4000_0000 {
        2
    } else if n < 0x100_0000_0000 {
        3
    } else {
        4
    }
}

pub open spec fn unit_size(i: nat) -> nat {
    binary64::two(10 * i)
}

pub open spec fn unit_name(i: nat) -> Seq<char> {
    if i == 0 {
        "B"@
    } else if i == 1 {
        "KB"@
    } else if i == 2 {
        "MB"@
    } else if i == 3 {
        "GB"@
    } else {
        "TB"@
    }
}

/// A number of tenths as a decimal with one place.
pub open spec fn tenths_text(t: nat) -> Seq<char> {
    text::decimal(t / 10) + "."@ + text::decimal(t % 10)
}

/// A size as people read it: at least ten of a unit without places, less with
/// one; bytes are always whole.
pub open spec fn bytes_text(bytes: u64) -> Seq<char> {
    let n = binary64::floor(binary64::of_int(bytes as nat));
    let i = unit_of(n);
    let d = unit_size(i);
    (if i == 0 || n >= 10 * d {
        text::decimal(binary64::half_even(n, d))
    } else {
        tenths_text(binary64::half_even(10 * n, d))
    }) + " "@ + unit_name(i)
}

/// A rate as people read it: megabits with one place.
pub open spec fn bps_text(bps: u64) -> Seq<char> {
    let megabits = binary64::quotient(
        binary64::of_int(bps as nat),
        binary64::of_int(1_000_000),
    );
    tenths_text(binary64::scaled(megabits, 10)) + " Mbps"@
}

fn push_tenths(out: &mut Vec<char>, t: u64)
    ensures
        final(out)@ == old(out)@ + tenths_text(t as nat),
{
    let ghost before = out@;
    text::push_decimal(out, t / 10);
    text::push_str(out, ".");
    text::push_decimal(out, t % 10);
    assert(out@ =~= before + tenths_text(t as nat));
}

/// Human-readable byte size, e.g. "1.4 GB".
pub fn format_bytes(bytes: u64) -> (r: String)
    ensures
        r@ == bytes_text(bytes),
{
    let b = binary64::from_u64(bytes);
    let n = binary64::whole(b);
    proof {
        lemma_units();
        lemma_whole_bytes(bytes);
    }
    let (i, d): (u8, u128) = if n < 0x400 {
        (0, 1)
    } else if n < 0x10_0000 {
        (1, 0x400)
    } else if n < 0x4000_0000 {
        (2, 0x10_0000)
    } else if n < 0x100_0000_0000 {
        (3, 0x4000_0000)
    } else {
        (4, 0x100_0000_0000)
    };
    assert(n / d <= 0x100_0000 || n / d <= 0x400) by (nonlinear_arith)
        requires
            n <= 0x1_0000_0000_0000_0000,
            d > 0,
            n < 0x400 * d || d == 0x100_0000_0000,
    ;
    let mut out: Vec<char> = Vec::new();
    if i == 0 || n >= 10 * d {
        let v = binary64::nearest_integer(n, d);
        text::push_decimal(&mut out, v as u64);
    } else {
        assert((10 * n) / (d as int) <= 100) by (nonlinear_arith)
            requires
                n < 10 * d,
                d > 0,
        ;
        let t = binary64::nearest_integer(10 * n, d);
        push_tenths(&mut out, t as u64);
    }
    let ghost number = out@;
    text::push_str(&mut out, " ");
    if i == 0 {
        text::push_str(&mut out, "B");
    } else if i == 1 {
        text::push_str(&mut out, "KB");
    } else if i == 2 {
        text::push_str(&mut out, "MB");
    } else if i == 3 {
        text::push_str(&mut out, "GB");
    } else {
        text::push_str(&mut out, "TB");
    }
    text::string_of(out.as_slice())
}

proof fn lemma_units()
    ensures
        unit_size(0) == 1,
        unit_size(1) == 0x400,
        unit_size(2) == 0x10_0000,
        unit_size(3) == 0x4000_0000,
        unit_size(4) == 0x100_0000_0000,
{
    binary64::lemma_two_values();
    binary64::lemma_two_add(10, 10);
    binary64::lemma_two_add(20, 10);
    binary64::lemma_two_add(30, 10);
}

/// Rounding a 64-bit integer goes no further than `2^64`.
proof fn lemma_whole_bytes(n: u64)
    ensures
        binary64::floor(binary64::of_int(n as nat)) <= 0x1_0000_0000_0000_0000,
{
    binary64::lemma_of_int_bound(n as nat);
}

/// Bits per second as "12.4 Mbps".
pub fn format_bps(bps: u64) -> (r: String)
    ensures
        r@ == bps_text(bps),
{
    let million = binary64::from_u64(1_000_000);
    proof {
        binary64::lemma_two_values();
        assert(binary64::two(33) == 0x2_0000_0000) by {
            binary64::lemma_two_add(10, 10);
            binary64::lemma_two_add(20, 10);
            binary64::lemma_two_add(30, 3);
            reveal_with_fuel(binary64::two, 4);
        }
        assert(binary64::fits(1_000_000, 1, -33));
        binary64::lemma_round_at(1_000_000, 1, 0, -33);
    }
    let megabits = binary64::over(binary64::from_u64(bps), million);
    let t = binary64::nearest_multiple(megabits, 10);
    let mut out: Vec<char> = Vec::new();
    push_tenths(&mut out, t as u64);
    text::push_str(&mut out, " Mbps");
    text::string_of(out.as_slice())
}

// --- what holds of every answer ---------------------------------------------------

/// A parsed answer is in order, best first, and holds every release that the
/// answer offers, no more.
pub proof fn streams_come_best_first(streams: Seq<RawStream>)
    ensures
        ({
            let r = list::stable_sort(
                releases_of(streams),
                |a: Release, b: Release| better(a, b),
            );
            &&& forall|i: int, j: int|
                0 <= i < j < r.len() ==> !better(#[trigger] r[j], #[trigger] r[i])
            &&& r.to_multiset() == releases_of(streams).to_multiset()
            &&& r.len() <= streams.len()
        }),
{
    list::sorting_orders(releases_of(streams), |a: Release, b: Release| better(a, b));
    lemma_no_more_releases(streams);
}

proof fn lemma_no_more_releases(streams: Seq<RawStream>)
    ensures
        releases_of(streams).len() <= streams.len(),
    decreases streams.len(),
{
    if streams.len() > 0 {
        lemma_no_more_releases(streams.drop_last());
    }
}

/// A magnet never carries more than the greatest number of trackers.
pub proof fn magnets_stay_short(sources: Seq<Seq<char>>)
    ensures
        trackers(sources).len() <= MAX_TRACKERS,
{
}

/// A character that percent-encoding leaves in a text.
pub open spec fn is_clean(c: char) -> bool {
    text::is_alnum(c) || c == '-' || c == '_' || c == '.' || c == '~' || c == '%'
}

/// Percent-encoding leaves only unreserved characters and percent signs.
pub proof fn encoding_is_clean(s: Seq<char>)
    ensures
        forall|i: int| 0 <= i < encoded(s).len() ==> is_clean(#[trigger] encoded(s)[i]),
{
    lemma_encoding_is_clean(vstd::utf8::encode_utf8(s));
}

proof fn lemma_encoding_is_clean(s: Seq<u8>)
    ensures
        forall|i: int| 0 <= i < encoded_bytes(s).len() ==> is_clean(#[trigger] encoded_bytes(s)[i]),
    decreases s.len(),
{
    if s.len() > 0 {
        let before = encoded_bytes(s.drop_last());
        let b = s.last();
        lemma_encoding_is_clean(s.drop_last());
        assert(is_unreserved(b) ==> is_clean(b as char));
        assert(is_clean(hex_digit(b / 16)));
        assert(is_clean(hex_digit(b % 16)));
        assert forall|i: int| 0 <= i < encoded_bytes(s).len() implies is_clean(
            #[trigger] encoded_bytes(s)[i],
        ) by {
            if i < before.len() {
                assert(encoded_bytes(s)[i] == before[i]);
            } else {
                assert(encoded_bytes(s)[i] == encoded_byte(b)[i - before.len()]);
            }
        }
    }
}

/// A name is of the most lines that it mentions; without any it is what was
/// filmed in a cinema where it says so, and plain otherwise.
pub proof fn the_most_lines_named_count(t: Seq<char>)
    ensures
        ({
            let q = quality_named(t);
            let eight = text::holds(t, "4320p"@) || has_word(t, "8k"@);
            let four = text::holds(t, "2160p"@) || has_word(t, "4k"@) || text::holds(t, "uhd"@);
            let full = text::holds(t, "1080p"@);
            let half = text::holds(t, "720p"@);
            let low = text::holds(t, "480p"@);
            let filmed = has_word(t, "cam"@) || has_word(t, "hdcam"@) || has_word(t, "ts"@)
                || has_word(t, "hdts"@) || has_word(t, "telesync"@);
            &&& q is P4320 <==> eight
            &&& q is P2160 <==> four && !eight
            &&& q is P1080 <==> full && !four && !eight
            &&& q is P720 <==> half && !full && !four && !eight
            &&& q is P480 <==> low && !half && !full && !four && !eight
            &&& q is Cam <==> filmed && !low && !half && !full && !four && !eight
            &&& q is Sd ==> !filmed && !low && !half && !full && !four && !eight
        }),
{
}

/// What a tier is called can be asked for as the highest to be had, in capitals
/// or not.
pub proof fn labels_name_their_tiers(q: Quality)
    requires
        !(q is Cam),
    ensures
        cap_named(text::lower(quality_label(q))) == Some(q),
{
    reveal_strlit("SD");
    reveal_strlit("480p");
    reveal_strlit("720p");
    reveal_strlit("1080p");
    reveal_strlit("4K");
    reveal_strlit("8K");
    reveal_strlit("sd");
    reveal_strlit("4k");
    reveal_strlit("8k");
    reveal_strlit("4320");
    reveal_strlit("4320p");
    reveal_strlit("2160");
    reveal_strlit("2160p");
    reveal_strlit("uhd");
    reveal_strlit("1080");
    reveal_strlit("fhd");
    reveal_strlit("720");
    reveal_strlit("hd");
    reveal_strlit("480");
    assert(text::lower("SD"@) =~= "sd"@);
    assert(text::lower("480p"@) =~= "480p"@);
    assert(text::lower("720p"@) =~= "720p"@);
    assert(text::lower("1080p"@) =~= "1080p"@);
    assert(text::lower("4K"@) =~= "4k"@);
    assert(text::lower("8K"@) =~= "8k"@);
    assert("sd"@[0] == 's' && "hd"@[0] == 'h' && "4k"@[0] == '4' && "8k"@[0] == '8');
    assert("480p"@[1] == '8' && "720p"@[1] == '2' && "1080p"@[1] == '0');
    assert("4320"@[1] == '3' && "2160"@[1] == '1');
    assert("1080p"@[0] == '1' && "4320p"@[0] == '4' && "2160p"@[0] == '2');
    assert("480p"@[0] == '4' && "720p"@[0] == '7' && "2160"@[0] == '2');
}

/// A bitrate is the bits of the size spread over the running time, rounded
/// down; without a size or a running time there is none.
pub proof fn bits_are_spread_over_the_running_time(size: u64, secs: u32)
    ensures
        bitrate(None, secs) is None,
        bitrate(Some(size), 0) is None,
        secs > 0 && size <= u64::MAX / 8 ==> ({
            let r = bitrate(Some(size), secs);
            r is Some && r->0 * secs <= size * 8 && size * 8 < (r->0 + 1) * secs
        }),
{
    if secs > 0 && size <= u64::MAX / 8 {
        let n = size * 8;
        let d = secs as int;
        let q = n / d;
        assert(q * d <= n && n < (q + 1) * d) by (nonlinear_arith)
            requires
                q == n / d,
                d > 0,
        ;
        assert(0 <= q <= n) by (nonlinear_arith)
            requires
                q == n / d,
                d > 0,
                n >= 0,
        ;
    }
}

/// A stream without a hash is no release. Any other is one: its title is the
/// name of its file where the stream gives one; its quality and its languages are
/// read from its name and its title together, its size and its seeders from its
/// title; and its magnet is made of its hash, its title and its trackers.
pub proof fn streams_are_releases(s: RawStream)
    ensures
        ({
            let r = release_of(s);
            let said = text::or_empty(s.name) + "\n"@ + text::or_empty(s.title);
            &&& r is Some <==> s.info_hash is Some && (s.info_hash->0)@.len() > 0
            &&& r is Some ==> {
                &&& (r->0).file_idx == s.file_idx
                &&& (r->0).quality == quality_named(text::lower(said))
                &&& (r->0).audio.hindi <==> audio::heard_in_flags(said).hindi
                    || audio::heard_in_name(said).hindi
                &&& (r->0).audio.english <==> audio::heard_in_flags(said).english
                    || audio::heard_in_name(said).english
                &&& (r->0).audio.multi_marker <==> audio::heard_in_flags(said).multi_marker
                    || audio::heard_in_name(said).multi_marker
                &&& (r->0).size_bytes == size_named(text::or_empty(s.title))
                &&& seeders_named(text::or_empty(s.title)) is None ==> (r->0).seeders == 0
                &&& text::begins(
                    (r->0).magnet,
                    "magnet:?xt=urn:btih:"@ + (s.info_hash->0)@ + "&dn="@ + encoded((r->0).title),
                )
                &&& s.behavior_hints is Some && (s.behavior_hints->0).filename is Some
                    && text::trim(((s.behavior_hints->0).filename->0)@).len() > 0 ==> (r->0).title
                    == text::trim(((s.behavior_hints->0).filename->0)@)
            }
        }),
{
    let r = release_of(s);
    if r is Some {
        let head = "magnet:?xt=urn:btih:"@ + (s.info_hash->0)@ + "&dn="@ + encoded((r->0).title);
        assert((r->0).magnet.subrange(0, head.len() as int) =~= head);
    }
}

/// The number of seeders stands behind its mark.
pub proof fn seeders_stand_behind_their_mark(before: Seq<char>, digits: Seq<char>, rest: Seq<char>)
    requires
        !before.contains('\u{1F464}'),
        digits.len() > 0,
        forall|i: int| 0 <= i < digits.len() ==> text::is_digit(#[trigger] digits[i]),
        rest.len() > 0 ==> !text::is_digit(rest[0]),
    ensures
        seeders_named(before.push('\u{1F464}').push(' ') + digits + rest) == text::parse_number(
            digits,
            u32::MAX as nat,
        ),
        seeders_named(before) is None,
{
    let mark = '\u{1F464}';
    let s = before.push(mark).push(' ') + digits + rest;
    lemma_place(before, mark, seq![' '] + digits + rest);
    lemma_no_place(before, mark);
    assert(before.push(mark) + (seq![' '] + digits + rest) =~= s);
    let tail = s.skip(before.len() as int + 1);
    assert(tail =~= seq![' '] + digits + rest);
    assert(tail.drop_first() =~= digits + rest);
    let found = digits + rest;
    assert(found[0] == digits[0]);
    reveal_with_fuel(text::trim_start, 2);
    assert(text::trim_start(tail) == found);
    lemma_run(digits, rest);
    assert(found.take(digits.len() as int) =~= digits);
}

/// A character that is not before a place is found there first.
pub proof fn lemma_place(before: Seq<char>, c: char, after: Seq<char>)
    requires
        !before.contains(c),
    ensures
        text::place_of(before.push(c) + after, c) == Some(before.len() as int),
    decreases before.len(),
{
    let s = before.push(c) + after;
    if before.len() > 0 {
        assert(before.contains(before[0]));
        let t = before.drop_first();
        assert forall|i: int| 0 <= i < t.len() implies t[i] != c by {
            assert(before.contains(before[i + 1]));
        }
        lemma_place(t, c, after);
        assert(s.drop_first() =~= t.push(c) + after);
        assert(s[0] == before[0]);
    } else {
        assert(s[0] == c);
    }
}

/// A character that is not in a text is not found.
pub proof fn lemma_no_place(s: Seq<char>, c: char)
    requires
        !s.contains(c),
    ensures
        text::place_of(s, c) is None,
    decreases s.len(),
{
    if s.len() > 0 {
        assert(s.contains(s[0]));
        let t = s.drop_first();
        assert forall|i: int| 0 <= i < t.len() implies t[i] != c by {
            assert(s.contains(s[i + 1]));
        }
        lemma_no_place(t, c);
    }
}

proof fn lemma_run(digits: Seq<char>, rest: Seq<char>)
    requires
        forall|i: int| 0 <= i < digits.len() ==> text::is_digit(#[trigger] digits[i]),
        rest.len() > 0 ==> !text::is_digit(rest[0]),
    ensures
        run_length(digits + rest, false) == digits.len(),
    decreases digits.len(),
{
    let s = digits + rest;
    if digits.len() > 0 {
        assert(s[0] == digits[0]);
        let t = digits.drop_first();
        assert forall|i: int| 0 <= i < t.len() implies text::is_digit(#[trigger] t[i]) by {
            assert(text::is_digit(digits[i + 1]));
        }
        lemma_run(t, rest);
        assert(s.drop_first() =~= t + rest);
    } else {
        assert(s =~= rest);
    }
}

/// The trackers that a stream brings come first, in their order; each public one
/// follows that was not among them, up to twenty in all.
pub proof fn own_trackers_come_first(sources: Seq<Seq<char>>)
    ensures
        ({
            let own = own_trackers(sources);
            let r = trackers(sources);
            &&& r.len() <= 20
            &&& forall|i: int| 0 <= i < own.len() && i < 20 ==> i < r.len() && r[i] == #[trigger] own[i]
            &&& own.len() <= 14 ==> {
                &&& r.contains("udp://tracker.opentrackr.org:1337/announce"@)
                &&& r.contains("udp://open.stealth.si:80/announce"@)
                &&& r.contains("udp://tracker.torrent.eu.org:451/announce"@)
                &&& r.contains("udp://open.demonii.com:1337/announce"@)
                &&& r.contains("udp://exodus.desync.com:6969/announce"@)
                &&& r.contains("udp://tracker.openbittorrent.com:6969/announce"@)
            }
        }),
        forall|t: Seq<char>|
            #![trigger own_trackers(sources.push("tracker:"@ + t))]
            own_trackers(sources.push("tracker:"@ + t)) == own_trackers(sources).push(t),
        forall|t: Seq<char>|
            #![trigger own_trackers(sources.push(t))]
            !text::begins(t, "tracker:"@) ==> own_trackers(sources.push(t)) == own_trackers(
                sources,
            ),
        own_trackers(Seq::empty()) == Seq::<Seq<char>>::empty(),
{
    let l0 = own_trackers(sources);
    let l1 = with_tracker(l0, "udp://tracker.opentrackr.org:1337/announce"@);
    let l2 = with_tracker(l1, "udp://open.stealth.si:80/announce"@);
    let l3 = with_tracker(l2, "udp://tracker.torrent.eu.org:451/announce"@);
    let l4 = with_tracker(l3, "udp://open.demonii.com:1337/announce"@);
    let l5 = with_tracker(l4, "udp://exodus.desync.com:6969/announce"@);
    let l6 = with_tracker(l5, "udp://tracker.openbittorrent.com:6969/announce"@);
    assert(l0.take(l0.len() as int) =~= l0);
    lemma_with_tracker(l0, l0, "udp://tracker.opentrackr.org:1337/announce"@);
    lemma_with_tracker(l0, l1, "udp://open.stealth.si:80/announce"@);
    lemma_with_tracker(l0, l2, "udp://tracker.torrent.eu.org:451/announce"@);
    lemma_with_tracker(l0, l3, "udp://open.demonii.com:1337/announce"@);
    lemma_with_tracker(l0, l4, "udp://exodus.desync.com:6969/announce"@);
    lemma_with_tracker(l0, l5, "udp://tracker.openbittorrent.com:6969/announce"@);
    let r = trackers(sources);
    assert forall|i: int| 0 <= i < l0.len() && i < 20 implies i < r.len() && r[i]
        == #[trigger] l0[i] by {
        assert(l6.take(l0.len() as int)[i] == l6[i]);
    }
    assert forall|t: Seq<char>|
        #![trigger own_trackers(sources.push("tracker:"@ + t))]
        own_trackers(sources.push("tracker:"@ + t)) == own_trackers(sources).push(t) by {
        let x = "tracker:"@ + t;
        let more = sources.push(x);
        assert(more.drop_last() =~= sources);
        assert(x.subrange(0, "tracker:"@.len() as int) =~= "tracker:"@);
        assert(x.skip("tracker:"@.len() as int) =~= t);
    }
    assert forall|t: Seq<char>|
        #![trigger own_trackers(sources.push(t))]
        !text::begins(t, "tracker:"@) implies own_trackers(sources.push(t)) == own_trackers(
        sources,
    ) by {
        assert(sources.push(t).drop_last() =~= sources);
    }
}

proof fn lemma_with_tracker(own: Seq<Seq<char>>, l: Seq<Seq<char>>, t: Seq<char>)
    requires
        own.len() <= l.len(),
        l.take(own.len() as int) == own,
    ensures
        with_tracker(l, t).contains(t),
        with_tracker(l, t).len() <= l.len() + 1,
        own.len() <= with_tracker(l, t).len(),
        with_tracker(l, t).take(own.len() as int) == own,
        forall|x: Seq<char>| #[trigger] l.contains(x) ==> with_tracker(l, t).contains(x),
{
    if !l.contains(t) {
        let m = l.push(t);
        assert(m[m.len() - 1] == t);
        assert(m.take(own.len() as int) =~= l.take(own.len() as int));
        assert forall|x: Seq<char>| #[trigger] l.contains(x) implies m.contains(x) by {
            let k = choose|k: int| 0 <= k < l.len() && l[k] == x;
            assert(m[k] == x);
        }
    }
}

/// The value of a hexadecimal digit in capitals.
pub open spec fn sixteenths(c: char) -> int {
    if '0' <= c <= '9' {
        c as int - '0' as int
    } else if 'A' <= c <= 'F' {
        c as int - 'A' as int + 10
    } else {
        -1
    }
}

/// An unreserved byte is encoded as itself, and any other as a percent sign and
/// the two digits that give it back.
pub proof fn encoded_bytes_can_be_read_back(b: u8)
    ensures
        text::is_alnum(b as char) || b as char == '-' || b as char == '_' || b as char == '.'
            || b as char == '~' ==> encoded_byte(b) == seq![b as char],
        !(text::is_alnum(b as char) || b as char == '-' || b as char == '_' || b as char == '.'
            || b as char == '~') ==> encoded_byte(b).len() == 3 && encoded_byte(b)[0] == '%'
            && sixteenths(encoded_byte(b)[1]) >= 0 && sixteenths(encoded_byte(b)[2]) >= 0
            && sixteenths(encoded_byte(b)[1]) * 16 + sixteenths(encoded_byte(b)[2]) == b,
{
}

/// A stream that does not name its file is called by the first line of its title
/// that is not blank and does not begin with the mark of its seeders, its size, its
/// indexer or a flag.
pub proof fn titles_are_first_lines(s: RawStream, i: int)
    requires
        hinted_name(s).len() == 0,
        0 <= i < trimmed_lines(text::or_empty(s.title)).len(),
        ({
            let l = trimmed_lines(text::or_empty(s.title));
            &&& l[i].len() > 0 && l[i][0] != '\u{1F464}' && l[i][0] != '\u{1F4BE}' && l[i][0]
                != '\u{2699}' && l[i][0] != '\u{1F1EC}'
            &&& forall|k: int|
                0 <= k < i ==> (#[trigger] l[k]).len() == 0 || l[k][0] == '\u{1F464}' || l[k][0]
                    == '\u{1F4BE}' || l[k][0] == '\u{2699}' || l[k][0] == '\u{1F1EC}'
        }),
    ensures
        title_shown(s) == trimmed_lines(text::or_empty(s.title))[i],
{
    let l = trimmed_lines(text::or_empty(s.title));
    let p = |x: Seq<char>| is_name_line(x);
    lemma_first_line(l, p, i);
}

proof fn lemma_first_line(lines: Seq<Seq<char>>, p: spec_fn(Seq<char>) -> bool, i: int)
    requires
        0 <= i < lines.len(),
        p(lines[i]),
        forall|k: int| 0 <= k < i ==> !p(#[trigger] lines[k]),
    ensures
        first_line(lines, p) == Some(lines[i]),
    decreases lines.len(),
{
    if i > 0 {
        assert(!p(lines[0]));
        let t = lines.drop_first();
        assert forall|k: int| 0 <= k < i - 1 implies !p(#[trigger] t[k]) by {
            assert(!p(lines[k + 1]));
        }
        assert(t[i - 1] == lines[i]);
        lemma_first_line(t, p, i - 1);
    }
}

/// The size stands behind its mark: a numeral and its unit, in capitals or not,
/// each unit 1024 of the one before it.
#[verifier::spinoff_prover]
pub proof fn sizes_stand_behind_their_mark(
    before: Seq<char>,
    numeral: Seq<char>,
    unit: Seq<char>,
    rest: Seq<char>,
)
    requires
        !before.contains('\u{1F4BE}'),
        numeral.len() > 0,
        forall|i: int|
            0 <= i < numeral.len() ==> text::is_digit(#[trigger] numeral[i]) || numeral[i] == '.',
        decimal::is_numeral(numeral),
        unit.len() == 2,
        !text::is_space(unit[0]),
    ensures
        ({
            let s = before.push('\u{1F4BE}').push(' ') + numeral + (seq![' '] + unit + rest);
            &&& text::upper(unit) == "KB"@ ==> size_named(s) == Some(
                decimal::scaled_integer(numeral, 10),
            )
            &&& text::upper(unit) == "MB"@ ==> size_named(s) == Some(
                decimal::scaled_integer(numeral, 20),
            )
            &&& text::upper(unit) == "GB"@ ==> size_named(s) == Some(
                decimal::scaled_integer(numeral, 30),
            )
            &&& text::upper(unit) == "TB"@ ==> size_named(s) == Some(
                decimal::scaled_integer(numeral, 40),
            )
        }),
        size_named(before) is None,
{
    let mark = '\u{1F4BE}';
    let behind = seq![' '] + unit + rest;
    let s = before.push(mark).push(' ') + numeral + behind;
    lemma_place(before, mark, seq![' '] + numeral + behind);
    lemma_no_place(before, mark);
    assert(before.push(mark) + (seq![' '] + numeral + behind) =~= s);
    let tail = s.skip(before.len() as int + 1);
    assert(tail =~= seq![' '] + numeral + behind);
    let found = numeral + behind;
    assert(tail.drop_first() =~= found);
    assert(found[0] == numeral[0]);
    reveal_with_fuel(text::trim_start, 2);
    assert(text::trim_start(tail) == found);
    lemma_points(numeral, behind);
    assert(found.take(numeral.len() as int) =~= numeral);
    assert(found.skip(numeral.len() as int) =~= behind);
    assert(behind.drop_first() =~= unit + rest);
    assert((unit + rest)[0] == unit[0]);
    assert(text::trim_start(behind) == unit + rest);
    assert(list::first(unit + rest, 2) =~= unit);
    let u = text::upper(unit);
    assert(size_named(s) == (match unit_shift(u) {
        Some(shift) => Some(decimal::scaled_integer(numeral, shift)),
        None => None,
    }));
    reveal_strlit("KB");
    reveal_strlit("MB");
    reveal_strlit("GB");
    reveal_strlit("TB");
    assert("KB"@[0] == 'K' && "MB"@[0] == 'M' && "GB"@[0] == 'G' && "TB"@[0] == 'T');
    assert(u == "KB"@ ==> unit_shift(u) == Some(10int));
    assert(u == "MB"@ ==> unit_shift(u) == Some(20int));
    assert(u == "GB"@ ==> unit_shift(u) == Some(30int));
    assert(u == "TB"@ ==> unit_shift(u) == Some(40int));
}

proof fn lemma_points(numeral: Seq<char>, rest: Seq<char>)
    requires
        forall|i: int|
            0 <= i < numeral.len() ==> text::is_digit(#[trigger] numeral[i]) || numeral[i] == '.',
        rest.len() > 0,
        rest[0] == ' ',
    ensures
        run_length(numeral + rest, true) == numeral.len(),
    decreases numeral.len(),
{
    let s = numeral + rest;
    if numeral.len() > 0 {
        assert(s[0] == numeral[0]);
        let t = numeral.drop_first();
        assert forall|i: int| 0 <= i < t.len() implies text::is_digit(#[trigger] t[i]) || t[i]
            == '.' by {
            assert(t[i] == numeral[i + 1]);
        }
        lemma_points(t, rest);
        assert(s.drop_first() =~= t + rest);
    } else {
        assert(s =~= rest);
    }
}

/// A rate is shown in tenths of a megabit a second, the nearest to it but for a
/// hundred-millionth of rounding.
pub proof fn rates_are_shown_to_the_nearest_tenth(bps: u64)
    ensures
        exists|t: nat|
            bps_text(bps) == (#[trigger] tenths_text(t)) + " Mbps"@ && 100000000real * (200000real * (t as real)
                - 100000real) <= 100000001real * (2real * (bps as real)) && 100000000real * (
            200000real * (t as real) + 100000real) >= 99999999real * (2real * (bps as real)),
{
    let n = binary64::of_int(bps as nat);
    let million = binary64::of_int(1_000_000);
    let q = binary64::quotient(n, million);
    let s = values::short();
    let o = values::over();
    let b = bps as real;
    let g = 1000000real;
    values::lemma_int_value(bps as nat);
    values::lemma_int_value(1_000_000);
    assert(million.m > 0) by {
        if million.m == 0 {
            let w = values::scale(million.e);
            assert(0real * w == 0real) by (nonlinear_arith);
        }
    }
    values::lemma_quotient_value(n, million);
    values::lemma_over(values::value(n), b, values::value(million), g, s, o, s, o);
    let x = b / g;
    values::lemma_through(
        values::value(q),
        values::value(n) / values::value(million),
        x,
        s,
        o,
        s / o,
        o / s,
    );
    values::lemma_scaled_value(q, 10);
    let t = binary64::scaled(q, 10);
    let tr = t as real;
    let v = values::value(q);
    let least = s * (s / o);
    let most = o * (o / s);
    assert(99999999real <= 100000000real * least && 100000000real * most <= 100000001real)
        by (nonlinear_arith)
        requires
            least == (999999999real / 1000000000real) * ((999999999real / 1000000000real) / (
            1000000001real / 1000000000real)),
            most == (1000000001real / 1000000000real) * ((1000000001real / 1000000000real) / (
            999999999real / 1000000000real)),
    ;
    assert(100000000real * (v * 1000000real) <= 100000001real * b && 100000000real * (v
        * 1000000real) >= 99999999real * b) by (nonlinear_arith)
        requires
            least * x <= v,
            v <= most * x,
            x == b / g,
            g == 1000000real,
            b >= 0real,
            99999999real <= 100000000real * least,
            100000000real * most <= 100000001real,
    ;
    assert(bps_text(bps) == tenths_text(t) + " Mbps"@);
}

/// A size below a kilobyte is shown in bytes. Any other is shown in the greatest
/// unit that it fills, to the nearest one from ten of them on, and below to the
/// nearest tenth.
pub proof fn sizes_are_shown_in_their_unit(bytes: u64)
    requires
        bytes < 0x20_0000_0000_0000,
    ensures
        bytes < 1024 ==> bytes_text(bytes) == text::decimal(bytes as nat) + " "@ + "B"@,
        shown_in(bytes, 1024, 1024 * 1024, "KB"@),
        shown_in(bytes, 1024 * 1024, 1024 * 1024 * 1024, "MB"@),
        shown_in(bytes, 1024 * 1024 * 1024, 1024 * 1024 * 1024 * 1024, "GB"@),
        shown_in(bytes, 1024 * 1024 * 1024 * 1024, 0x20_0000_0000_0000, "TB"@),
{
    binary64::lemma_two_values();
    binary64::lemma_two_add(10, 10);
    binary64::lemma_two_add(20, 10);
    binary64::lemma_two_add(30, 10);
    reveal_with_fuel(binary64::two, 11);
    assert(binary64::two(0) == 1);
    assert(binary64::two(10) == 1024);
    assert(binary64::two(20) == 1024 * 1024);
    assert(binary64::two(30) == 1024 * 1024 * 1024);
    assert(binary64::two(40) == 1024 * 1024 * 1024 * 1024);
    let k = binary64::lemma_int_exact(bytes as nat);
    binary64::lemma_two_pos(k);
    let w = binary64::two(k);
    assert((bytes as nat * w) / w == bytes) by (nonlinear_arith)
        requires
            w > 0,
    ;
    assert((bytes as nat * w) / 1 == bytes as nat * w);
    assert(binary64::floor(binary64::of_int(bytes as nat)) == bytes) by {
        if k == 0 {
            assert(bytes as nat * 1 == bytes);
        }
    }
    let n = bytes as nat;
    assert(10 * 0 == 0 && 10 * 1 == 10 && 10 * 2 == 20 && 10 * 3 == 30 && 10 * 4 == 40);
    assert(n / 1 == n && n % 1 == 0);
    lemma_shown(bytes, 1, 1024, 1024 * 1024, "KB"@);
    lemma_shown(bytes, 2, 1024 * 1024, 1024 * 1024 * 1024, "MB"@);
    lemma_shown(bytes, 3, 1024 * 1024 * 1024, 1024 * 1024 * 1024 * 1024, "GB"@);
    lemma_shown(bytes, 4, 1024 * 1024 * 1024 * 1024, 0x20_0000_0000_0000, "TB"@);
}

proof fn lemma_shown(bytes: u64, i: nat, unit: nat, next: nat, name: Seq<char>)
    requires
        binary64::floor(binary64::of_int(bytes as nat)) == bytes,
        unit_size(i) == unit,
        unit > 0,
        i > 0,
        unit_name(i) == name,
        unit <= bytes < next ==> unit_of(bytes as nat) == i,
        next >= unit * 10,
    ensures
        shown_in(bytes, unit, next, name),
{
    let n = bytes as nat;
    lemma_nearest(n, unit);
    lemma_nearest(10 * n, unit);
    if unit * 10 <= bytes && bytes < next {
        let k = binary64::half_even(n, unit);
        assert(bytes_text(bytes) == text::decimal(k) + " "@ + name);
    }
    if unit <= bytes && bytes < unit * 10 {
        let k = binary64::half_even(10 * n, unit);
        assert(bytes_text(bytes) == tenths_text(k) + " "@ + name);
    }
}

/// Of the sizes from one unit to the next, those of ten units and more are shown by
/// the nearest number of units, and the others by the nearest number of tenths.
pub open spec fn shown_in(bytes: u64, unit: nat, next: nat, name: Seq<char>) -> bool {
    &&& unit * 10 <= bytes && bytes < next ==> exists|k: nat|
        bytes_text(bytes) == (#[trigger] text::decimal(k)) + " "@ + name && 2 * (k * unit - bytes) <= unit && 2
            * (bytes - k * unit) <= unit
    &&& unit <= bytes && bytes < unit * 10 ==> exists|k: nat|
        bytes_text(bytes) == (#[trigger] tenths_text(k)) + " "@ + name && 2 * (k * unit - 10 * bytes) <= unit
            && 2 * (10 * bytes - k * unit) <= unit
}

proof fn lemma_nearest(n: nat, d: nat)
    requires
        d > 0,
    ensures
        2 * (binary64::half_even(n, d) * d - n) <= d,
        2 * (n - binary64::half_even(n, d) * d) <= d,
{
    let q = n / d;
    let r = n % d;
    assert(q * d + r == n && (q + 1) * d == q * d + d) by (nonlinear_arith)
        requires
            q == n / d,
            r == n % d,
            d > 0,
    ;
    assert((q + q % 2) == q || (q + q % 2) == q + 1);
}

/// A ceiling is named by its lines, with a p behind them or not, and by what such
/// pictures are called; nothing else names one.
pub proof fn ceilings_are_named_by_their_lines(t: Seq<char>)
    ensures
        t == "4320"@ || t == "4320p"@ || t == "8k"@ ==> cap_named(t) == Some(Quality::P4320),
        t == "2160"@ || t == "2160p"@ || t == "4k"@ || t == "uhd"@ ==> cap_named(t) == Some(
            Quality::P2160,
        ),
        t == "1080"@ || t == "1080p"@ || t == "fhd"@ ==> cap_named(t) == Some(Quality::P1080),
        t == "720"@ || t == "720p"@ || t == "hd"@ ==> cap_named(t) == Some(Quality::P720),
        t == "480"@ || t == "480p"@ ==> cap_named(t) == Some(Quality::P480),
        t == "sd"@ ==> cap_named(t) == Some(Quality::Sd),
        cap_named(t) is Some ==> {
            ||| t == "4320"@ || t == "4320p"@ || t == "8k"@
            ||| t == "2160"@ || t == "2160p"@ || t == "4k"@ || t == "uhd"@
            ||| t == "1080"@ || t == "1080p"@ || t == "fhd"@
            ||| t == "720"@ || t == "720p"@ || t == "hd"@
            ||| t == "480"@ || t == "480p"@ || t == "sd"@
        },
{
    reveal_strlit("480p");
    reveal_strlit("720p");
    reveal_strlit("1080p");
    reveal_strlit("sd");
    reveal_strlit("4k");
    reveal_strlit("8k");
    reveal_strlit("4320");
    reveal_strlit("4320p");
    reveal_strlit("2160");
    reveal_strlit("2160p");
    reveal_strlit("uhd");
    reveal_strlit("1080");
    reveal_strlit("fhd");
    reveal_strlit("720");
    reveal_strlit("hd");
    reveal_strlit("480");
    assert("8k"@[0] == '8' && "4k"@[0] == '4' && "hd"@[0] == 'h' && "sd"@[0] == 's');
    assert("uhd"@[0] == 'u' && "fhd"@[0] == 'f' && "720"@[0] == '7' && "480"@[0] == '4');
    assert("4320"@[0] == '4' && "2160"@[0] == '2' && "1080"@[0] == '1' && "720p"@[0] == '7');
    assert("480p"@[0] == '4' && "480p"@[1] == '8' && "4320"@[1] == '3');
    assert("4320p"@[0] == '4' && "2160p"@[0] == '2' && "1080p"@[0] == '1');
    assert("4k"@.len() == 2 && "8k"@.len() == 2 && "4320"@.len() == 4 && "4320p"@.len() == 5);
    assert("480"@.len() == 3 && "480p"@.len() == 4 && "uhd"@.len() == 3 && "fhd"@.len() == 3);
    assert("4320p"@[1] == '3' && "480"@[1] == '8');
}

/// A tier of more lines takes no less, and what it typically takes is 8 Mbps at
/// 1080 lines, half of that at 720, twice at 2160, and 45 at 4320.
pub proof fn more_lines_take_more(a: Quality, b: Quality)
    ensures
        a.level() <= b.level() ==> typical_bps(a) <= typical_bps(b),
        a is P1080 ==> typical_bps(a) == 8_000_000,
        a is P720 ==> typical_bps(a) * 2 == 8_000_000,
        a is P2160 ==> typical_bps(a) == 2 * 8_000_000,
        a is P4320 ==> typical_bps(a) == 45_000_000,
        a is Cam || a is Sd || a is P480 ==> typical_bps(a) == 2_500_000,
{
}

} // verus!
