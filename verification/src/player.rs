//! mpv launch and control.
//!
//! Two jobs: start mpv with a buffer big enough that a torrent's uneven
//! delivery never reaches the decoder, and speak its JSON IPC so the next
//! episode can be appended to the playlist while the current one plays.
//!
//! The cache flags are the second half of the smoothness story (the first is
//! `engine`'s throughput gate). mpv keeps its own readahead on top of whatever
//! the torrent has on disk, and `--cache-pause-initial` makes it fill that
//! before showing a frame, so a brief swarm stall is absorbed silently instead
//! of pausing playback.

use crate::binary64;
use crate::binary64::{Binary, Dyadic};
use crate::json;
use crate::json::{Fields, Json, Number, Tree};
use crate::pick::DualPreference;
use crate::text;
use crate::values;
use vstd::prelude::*;
use vstd::string::*;

verus! {

/// Seconds of audio/video mpv keeps buffered ahead of the playhead.
pub const CACHE_SECS: u32 = 300;

/// Seconds mpv rebuffers before resuming after an underrun. Generous on
/// purpose: one longer pause beats repeated micro-stutters.
pub const CACHE_PAUSE_WAIT: u32 = 15;

/// Bounds on the demuxer's in-memory buffer. The lower bound keeps a low-bitrate
/// release from getting a uselessly small cache; the upper bound keeps a 4K
/// remux from trying to hold several GB of RAM.
pub const DEMUXER_MIN_BYTES: u64 = 256 * 1024 * 1024;

pub const DEMUXER_MAX_BYTES: u64 = 2 * 1024 * 1024 * 1024;

/// An mpv event we care about.
#[derive(Debug)]
pub enum Event {
    /// A new playlist entry started playing.
    StartFile,
    /// A playlist entry finished. `reason` is mpv's own wording.
    EndFile { reason: String },
    /// mpv ran out of playlist and went idle.
    Idle,
}

impl Clone for Event {
    fn clone(&self) -> (r: Event)
        ensures
            r == *self,
    {
        match self {
            Event::StartFile => Event::StartFile,
            Event::EndFile { reason } => Event::EndFile { reason: reason.clone() },
            Event::Idle => Event::Idle,
        }
    }
}

/// The event that a message of mpv stands for; others are of no interest.
pub fn event_of(event: Option<&str>, reason: Option<String>) -> (r: Option<Event>)
    ensures
        match event {
            Some(name) => if name@ == "start-file"@ {
                r == Some(Event::StartFile)
            } else if name@ == "end-file"@ {
                r matches Some(Event::EndFile { reason: said }) && said@ == (match reason {
                    Some(why) => why@,
                    None => "unknown"@,
                })
            } else if name@ == "idle"@ {
                r == Some(Event::Idle)
            } else {
                r is None
            },
            None => r is None,
        },
{
    match event {
        Some(name) => {
            if text::same_str(name, "start-file") {
                Some(Event::StartFile)
            } else if text::same_str(name, "end-file") {
                let said: String = match reason {
                    Some(why) => why,
                    None => "unknown".to_string(),
                };
                Some(Event::EndFile { reason: said })
            } else if text::same_str(name, "idle") {
                Some(Event::Idle)
            } else {
                None
            }
        },
        None => None,
    }
}

/// When a series starts on the following episode. On a thin pipe that steals
/// bandwidth from the one on screen.
#[derive(Clone, Copy, PartialEq, Eq, Debug, Structural)]
pub enum QueueWhen {
    /// Once the current file is on disk, or playback is halfway through it.
    Auto,
    /// As soon as the current one starts.
    Immediate,
    /// When playback has come so many percent of the way.
    At(u32),
}

/// The moment that a word stands for: `auto`, `immediate`, or a percentage like
/// `50%`.
pub open spec fn moment_named(t: Seq<char>) -> Option<QueueWhen> {
    if t == "auto"@ {
        Some(QueueWhen::Auto)
    } else if t == "immediate"@ {
        Some(QueueWhen::Immediate)
    } else if t.len() > 0 && t.last() == '%' {
        match text::parse_number(t.drop_last(), 100) {
            Some(n) => Some(QueueWhen::At(n as u32)),
            None => None,
        }
    } else {
        None
    }
}

/// The part of a file that so many percent are.
pub open spec fn percentage(n: u32) -> Dyadic {
    binary64::quotient(binary64::of_int(n as nat), binary64::of_int(100))
}

/// The time has come to queue the next episode, when playback is that far
/// through the current one.
pub open spec fn time_has_come(when: QueueWhen, played: Option<Dyadic>, on_disk: bool) -> bool {
    match when {
        QueueWhen::Auto => on_disk || (played is Some && binary64::at_least(
            played->0,
            percentage(50),
        )),
        QueueWhen::Immediate => true,
        QueueWhen::At(n) => played is Some && binary64::at_least(played->0, percentage(n)),
    }
}

impl QueueWhen {
    /// `None` is the caller's cue to explain what the accepted words are.
    pub fn parse(s: &str) -> (r: Option<QueueWhen>)
        ensures
            r == moment_named(text::lower(text::trim(s@))),
    {
        let all = text::chars_of(s);
        let inner = text::trimmed(all.as_slice());
        let low = text::lowered(inner.as_slice());
        let t = low.as_slice();
        let n = t.len();
        if text::is_str(t, "auto") {
            Some(QueueWhen::Auto)
        } else if text::is_str(t, "immediate") {
            Some(QueueWhen::Immediate)
        } else if n > 0 && t[n - 1] == '%' {
            let digits = text::slice_of(t, 0, n - 1);
            assert(digits@ =~= t@.drop_last());
            match text::read_number(digits.as_slice(), 100) {
                Some(k) => Some(QueueWhen::At(k as u32)),
                None => None,
            }
        } else {
            None
        }
    }

    /// Whether to queue the next episode, when playback is `played` through the
    /// current one and its file is, or is not, on disk in full.
    pub fn is_due(self, played: Option<Binary>, on_disk: bool) -> (r: bool)
        requires
            played is Some ==> played->0.small(),
        ensures
            r == time_has_come(
                self,
                match played {
                    Some(f) => Some(f@),
                    None => None,
                },
                on_disk,
            ),
    {
        let mark: u32 = match self {
            QueueWhen::Immediate => {
                return true;
            },
            QueueWhen::Auto => {
                if on_disk {
                    return true;
                }
                50
            },
            QueueWhen::At(n) => n,
        };
        match played {
            Some(f) => {
                let part = binary64::over(
                    binary64::from_u64(mark as u64),
                    binary64::from_u64(100),
                );
                binary64::ge(f, part)
            },
            None => false,
        }
    }
}

/// What the demuxer would hold of a stream, before the bounds.
pub open spec fn demuxer_wanted(bitrate_bps: Option<u64>) -> int {
    (match bitrate_bps {
        Some(bps) => bps as int,
        None => 10_000_000,
    }) / 8 * CACHE_SECS
}

/// The size of the demuxer's buffer.
pub open spec fn demuxer_bytes(bitrate_bps: Option<u64>) -> u64 {
    let n = demuxer_wanted(bitrate_bps);
    if n < DEMUXER_MIN_BYTES {
        DEMUXER_MIN_BYTES
    } else if n > DEMUXER_MAX_BYTES {
        DEMUXER_MAX_BYTES
    } else {
        n as u64
    }
}

/// Size mpv's demuxer cache from the stream's bitrate, clamped both ways.
pub fn demuxer_bytes_for(bitrate_bps: Option<u64>) -> (r: u64)
    requires
        demuxer_wanted(bitrate_bps) <= u64::MAX,
    ensures
        r == demuxer_bytes(bitrate_bps),
{
    let bps: u64 = match bitrate_bps {
        Some(bps) => bps,
        None => 10_000_000,
    };
    let wanted: u64 = bps / 8 * CACHE_SECS as u64;
    if wanted < DEMUXER_MIN_BYTES {
        DEMUXER_MIN_BYTES
    } else if wanted > DEMUXER_MAX_BYTES {
        DEMUXER_MAX_BYTES
    } else {
        wanted
    }
}

fn flag(name: &str, value: &str) -> (r: String)
    ensures
        r@ == name@ + value@,
{
    let mut out = text::chars_of(name);
    text::push_str(&mut out, value);
    text::string_of(out.as_slice())
}

fn number_flag(name: &str, value: u64) -> (r: String)
    ensures
        r@ == name@ + text::decimal(value as nat),
{
    let mut out = text::chars_of(name);
    text::push_decimal(&mut out, value);
    text::string_of(out.as_slice())
}

/// The arguments that mpv is launched with.
pub open spec fn mpv_arguments(
    url: Seq<char>,
    title: Seq<char>,
    socket: Seq<char>,
    demuxer: u64,
) -> Seq<Seq<char>> {
    seq![
        url,
        "--force-media-title="@ + title,
        "--input-ipc-server="@ + socket,
        "--cache=yes"@,
        "--cache-secs="@ + text::decimal(CACHE_SECS as nat),
        "--demuxer-max-bytes="@ + text::decimal(demuxer as nat),
        "--demuxer-readahead-secs="@ + text::decimal(CACHE_SECS as nat),
        "--cache-pause=yes"@,
        "--cache-pause-wait="@ + text::decimal(CACHE_PAUSE_WAIT as nat),
        "--cache-pause-initial=yes"@,
        "--idle=yes"@,
        "--keep-open=no"@,
    ]
}

/// The arguments to launch mpv with on `url`, sized for a stream of
/// `bitrate_bps`.
pub fn launch(url: &str, title: &str, socket: &str, bitrate_bps: Option<u64>) -> (r: Vec<String>)
    requires
        demuxer_wanted(bitrate_bps) <= u64::MAX,
    ensures
        text::string_texts(r@) == mpv_arguments(
            url@,
            title@,
            socket@,
            demuxer_bytes(bitrate_bps),
        ),
{
    let demuxer = demuxer_bytes_for(bitrate_bps);
    let mut args: Vec<String> = Vec::new();
    args.push(url.to_string());
    args.push(flag("--force-media-title=", title));
    args.push(flag("--input-ipc-server=", socket));
    args.push("--cache=yes".to_string());
    args.push(number_flag("--cache-secs=", CACHE_SECS as u64));
    args.push(number_flag("--demuxer-max-bytes=", demuxer));
    args.push(number_flag("--demuxer-readahead-secs=", CACHE_SECS as u64));
    args.push("--cache-pause=yes".to_string());
    args.push(number_flag("--cache-pause-wait=", CACHE_PAUSE_WAIT as u64));
    args.push("--cache-pause-initial=yes".to_string());
    // Keep the playlist alive between episodes so appending works.
    args.push("--idle=yes".to_string());
    args.push("--keep-open=no".to_string());
    assert(text::string_texts(args@) =~= mpv_arguments(url@, title@, socket@, demuxer));
    args
}

/// Opens a file on its Hindi track rather than on its default one.
pub const HINDI_FIRST: &'static str = "--alang=hin,hi";

/// What a run's dual-audio preference asks of mpv.
pub fn track_argument(dual: DualPreference) -> (r: Option<&'static str>)
    ensures
        r == (if dual == DualPreference::Ignore {
            None
        } else {
            Some(HINDI_FIRST)
        }),
{
    match dual {
        DualPreference::Ignore => None,
        _ => Some(HINDI_FIRST),
    }
}

/// The player client that YouTube still serves. mpv's own choice is refused with
/// a 403 before a frame is drawn; when trailers start failing again, this is
/// what to test anew.
pub const YTDL_OPTION: &'static str =
    "--ytdl-raw-options=extractor-args=youtube:player_client=web_embedded";

/// The arguments that mpv is launched with on a trailer: straight from YouTube,
/// with no torrent and no playlist.
pub fn trailer(url: &str, title: &str) -> (r: Vec<String>)
    ensures
        text::string_texts(r@) == seq![url@, "--force-media-title="@ + title@, YTDL_OPTION@],
{
    let mut args: Vec<String> = Vec::new();
    args.push(url.to_string());
    args.push(flag("--force-media-title=", title));
    args.push(YTDL_OPTION.to_string());
    assert(text::string_texts(args@) =~= seq![
        url@,
        "--force-media-title="@ + title@,
        YTDL_OPTION@,
    ]);
    args
}

/// The option that titles an appended file: mpv takes the length in bytes first.
pub open spec fn title_option(title: Seq<char>) -> Seq<char> {
    "force-media-title=%"@ + text::decimal(vstd::utf8::encode_utf8(title).len()) + "%"@ + title
}

/// The command that appends a file to mpv's playlist.
pub open spec fn append_command(url: Seq<char>, title: Seq<char>) -> Tree {
    json::object(
        seq![
            (
                "command"@,
                Tree::List(
                    seq![
                        Tree::Text("loadfile"@),
                        Tree::Text(url),
                        Tree::Text("append"@),
                        Tree::Number(Number::Negative((-1) as i64)),
                        Tree::Text(title_option(title)),
                    ],
                ),
            ),
        ],
    )
}

/// Append a file to mpv's playlist. mpv advances to it automatically at EOF,
/// which is what makes the episode change seamless.
pub fn append(url: &str, title: &str) -> (r: Json)
    ensures
        r@ == append_command(url@, title@),
{
    let mut option = text::chars_of("force-media-title=%");
    let bytes = title.as_bytes();
    text::push_decimal(&mut option, bytes.len() as u64);
    text::push_str(&mut option, "%");
    text::push_str(&mut option, title);
    let option = text::string_of(option.as_slice());
    let mut words: Vec<Json> = Vec::new();
    words.push(json::string("loadfile"));
    words.push(json::string(url));
    words.push(json::string("append"));
    words.push(Json::Number(Number::Negative(-1)));
    words.push(json::string(option.as_str()));
    assert(json::values(words@) =~= seq![
        Tree::Text("loadfile"@),
        Tree::Text(url@),
        Tree::Text("append"@),
        Tree::Number(Number::Negative((-1) as i64)),
        Tree::Text(title_option(title@)),
    ]);
    let ghost list = json::values(words@);
    let mut f = Fields::new();
    f.put("command", json::array(words));
    assert(f@ =~= seq![("command"@, Tree::List(list))]);
    f.finish()
}

/// The demuxer's buffer never leaves its bounds.
pub proof fn demuxer_stays_in_bounds(bitrate_bps: Option<u64>)
    ensures
        DEMUXER_MIN_BYTES <= demuxer_bytes(bitrate_bps) <= DEMUXER_MAX_BYTES,
{
}

/// The next episode is queued at once, when the file on screen is all there or
/// half played, or when it is played as far as was asked for.
pub proof fn the_time_to_queue(played: Option<Dyadic>, on_disk: bool, n: u32)
    ensures
        time_has_come(QueueWhen::Immediate, played, on_disk),
        on_disk ==> time_has_come(QueueWhen::Auto, played, on_disk),
        played is None && !on_disk ==> !time_has_come(QueueWhen::Auto, played, on_disk),
        played is None ==> !time_has_come(QueueWhen::At(n), played, on_disk),
        played is Some && !on_disk ==> {
            &&& values::value(played->0) >= 500001real / 1000000real ==> time_has_come(
                QueueWhen::Auto,
                played,
                on_disk,
            )
            &&& values::value(played->0) <= 499999real / 1000000real ==> !time_has_come(
                QueueWhen::Auto,
                played,
                on_disk,
            )
        },
        played is Some && n <= 100 ==> {
            &&& values::value(played->0) >= (n as real / 100real) + 1real / 1000000real
                ==> time_has_come(QueueWhen::At(n), played, on_disk)
            &&& values::value(played->0) <= (n as real / 100real) - 1real / 1000000real
                ==> !time_has_come(QueueWhen::At(n), played, on_disk)
        },
{
    if played is Some {
        lemma_percentage(50);
        values::lemma_at_least_value(played->0, percentage(50));
        if n <= 100 {
            lemma_percentage(n);
            values::lemma_at_least_value(played->0, percentage(n));
        }
    }
}

proof fn lemma_percentage(n: u32)
    requires
        n <= 100,
    ensures
        (n as real / 100real) - 1real / 1000000real < values::value(percentage(n)) < (n as real
            / 100real) + 1real / 1000000real,
{
    let a = binary64::of_int(n as nat);
    let b = binary64::of_int(100);
    assert(b.m > 0) by {
        binary64::lemma_two_values();
        binary64::lemma_two_add(46, 6);
        reveal_with_fuel(binary64::two, 7);
        binary64::lemma_exact(100, 46);
    }
    values::lemma_int_value(n as nat);
    values::lemma_int_value(100);
    values::lemma_quotient_value(a, b);
    let s = values::short();
    let o = values::over();
    let x = n as real;
    values::lemma_over(values::value(a), x, values::value(b), 100real, s, o, s, o);
    values::lemma_through(
        values::value(percentage(n)),
        values::value(a) / values::value(b),
        x / 100real,
        s,
        o,
        s / o,
        o / s,
    );
    assert(s * (s / o) >= 999999real / 1000000real);
    assert(o * (o / s) <= 1000001real / 1000000real);
    values::lemma_wider(
        values::value(percentage(n)),
        x / 100real,
        s * (s / o),
        o * (o / s),
        999999real / 1000000real,
        1000001real / 1000000real,
    );
}

/// The demuxer holds five minutes of the stream, of ten megabits a second where
/// its bitrate is unknown, between 256 MiB and 2 GiB.
pub proof fn the_demuxer_holds_five_minutes(bitrate: Option<u64>)
    ensures
        ({
            let n = (match bitrate {
                Some(bps) => bps as int,
                None => 10_000_000,
            }) / 8 * 300;
            demuxer_bytes(bitrate) == (if n < 268_435_456 {
                268_435_456
            } else if n > 2_147_483_648 {
                2_147_483_648
            } else {
                n
            })
        }),
{
}

/// A moment is named by a percentage of up to a hundred, or by the words for as
/// soon as it is sensible and for at once; nothing else names one.
pub proof fn moments_are_named_by_percentages(digits: Seq<char>)
    ensures
        moment_named("auto"@) == Some(QueueWhen::Auto),
        moment_named("immediate"@) == Some(QueueWhen::Immediate),
        ({
            let n = text::parse_number(digits, u32::MAX as nat);
            let r = moment_named(digits.push('%'));
            &&& n is Some && n->0 <= 100 ==> r == Some(QueueWhen::At(n->0 as u32))
            &&& n is None || n->0 > 100 ==> r is None
        }),
        digits != "auto"@ && digits != "immediate"@ && (digits.len() == 0 || digits.last() != '%')
            ==> moment_named(digits) is None,
{
    reveal_strlit("auto");
    reveal_strlit("immediate");
    let t = digits.push('%');
    assert(t.drop_last() =~= digits);
    assert(t.last() == '%');
    assert("auto"@.last() == 'o');
    assert("immediate"@.last() == 'e');
    assert("auto"@.len() == 4 && "immediate"@.len() == 9);
}

} // verus!
