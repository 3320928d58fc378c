//! Watch history: what you were in the middle of, and where you were in it.
//!
//! One entry per *title*, not per episode. The question anything reading this
//! asks is "what do I continue?", and the answer is "Breaking Bad, S2E5", not
//! a list of every episode ever started. So finishing an episode rewrites the
//! entry to point at the next one, and "Continue" always names something worth
//! clicking.

use crate::binary64;
use crate::binary64::{Binary, Dyadic};
use crate::json;
use crate::json::{Fields, Json, Tree};
use crate::list;
use crate::list::{Condition, Order};
use crate::text;
use crate::values;
use crate::xdg;
use crate::xdg::Environment;
use vstd::prelude::*;

verus! {

/// Bumped only if the shape changes in a way an older dekho cannot read.
pub const VERSION: u32 = 1;

/// Entries kept, dropping the least recently updated. A rail shows twenty; the
/// rest is history nobody scrolls to, and the whole file is rewritten on every
/// save.
pub const MAX_ENTRIES: usize = 100;

/// Never resume inside this much of the end. Reopening a title 30 seconds
/// before the credits is never what anyone meant by "continue".
pub const RESUME_TAIL_SECS: u64 = 60;

/// Floor on how often playback progress reaches the disk, in nanoseconds. mpv
/// volunteers a position roughly every second and none of them are worth a
/// write.
pub const WRITE_EVERY: u64 = 10_000_000_000;

/// Fraction watched at which a title counts as finished, the number nearest to
/// nine tenths. Credits, and the "skip to the next episode" card, live in the
/// last tenth.
pub open spec fn finished_fraction() -> Dyadic {
    Dyadic { m: 0x1C_CCCC_CCCC_CCCD, e: -53 }
}

/// One.
pub open spec fn whole() -> Dyadic {
    Dyadic { m: 0x10_0000_0000_0000, e: -52 }
}

/// How far through a title a position is, at most one; zero when the duration
/// is unknown.
pub open spec fn watched(position: u64, duration: u64) -> Dyadic {
    if duration == 0 {
        Dyadic { m: 0, e: 0 }
    } else {
        let q = binary64::quotient(
            binary64::of_int(position as nat),
            binary64::of_int(duration as nat),
        );
        if binary64::at_least(q, whole()) {
            whole()
        } else {
            q
        }
    }
}

/// The title counts as finished at a position.
pub open spec fn is_finished(position: u64, duration: u64) -> bool {
    duration > 0 && binary64::at_least(
        binary64::of_int(position as nat),
        binary64::product(binary64::of_int(duration as nat), finished_fraction()),
    )
}

fn fraction(position: u64, duration: u64) -> (r: Binary)
    requires
        duration > 0,
    ensures
        r@ == watched(position, duration),
        r.m == 0 || binary64::B52 <= r.m <= binary64::B53,
        -200 <= r.e <= 100,
{
    let q = binary64::over(binary64::from_u64(position), binary64::from_u64(duration));
    let one = Binary { m: 0x10_0000_0000_0000, e: -52 };
    // mpv occasionally reports a position past a container's declared
    // duration, which would otherwise read as 103% watched.
    if binary64::ge(q, one) {
        one
    } else {
        q
    }
}

fn finished(position: u64, duration: u64) -> (r: bool)
    ensures
        r == is_finished(position, duration),
{
    if duration == 0 {
        return false;
    }
    let part = Binary { m: 0x1C_CCCC_CCCC_CCCD, e: -53 };
    let mark = binary64::times(binary64::from_u64(duration), part);
    binary64::ge(binary64::from_u64(position), mark)
}

/// Unix seconds, for `updated`: `std::time::SystemTime::now`, counted from
/// `std::time::UNIX_EPOCH` in whole seconds, 0 where the clock stands before
/// that. Nothing is claimed of the time it tells.
#[verifier::external_body]
pub fn now() -> (r: u64) {
    std::time::SystemTime::now().duration_since(std::time::UNIX_EPOCH).map_or(0, |d| d.as_secs())
}

/// Where the history is kept.
pub fn path(env: &Environment) -> (r: String)
    ensures
        r@ == xdg::own_file(
            xdg::base_dir(env.xdg_state_home, env.home, ".local/state"@, env.temp_dir@),
            "history.json"@,
        ),
{
    let base = xdg::state_home(env);
    xdg::dekho_file(base.as_str(), "history.json")
}

/// One title you have watched some of.
#[derive(Debug)]
pub struct Entry {
    pub id: u32,
    /// `movie` or `tv`.
    pub kind: String,
    pub title: String,
    pub year: String,
    pub poster: String,
    pub backdrop: String,
    /// All three are null for a movie.
    pub season: Option<u32>,
    pub episode: Option<u32>,
    pub episode_name: Option<String>,
    /// Seconds into the title, and its length. Duration is 0 when mpv never
    /// reported one.
    pub position: u64,
    pub duration: u64,
    pub finished: bool,
    /// Unix seconds.
    pub updated: u64,
}

/// What an entry says.
#[verifier::ext_equal]
pub struct Record {
    pub id: u32,
    pub kind: Seq<char>,
    pub title: Seq<char>,
    pub year: Seq<char>,
    pub poster: Seq<char>,
    pub backdrop: Seq<char>,
    pub season: Option<u32>,
    pub episode: Option<u32>,
    pub episode_name: Option<Seq<char>>,
    pub position: u64,
    pub duration: u64,
    pub finished: bool,
    pub updated: u64,
}

/// The text of an optional string.
pub open spec fn name_of(s: Option<String>) -> Option<Seq<char>> {
    match s {
        Some(t) => Some(t@),
        None => None,
    }
}

impl View for Entry {
    type V = Record;

    open spec fn view(&self) -> Record {
        Record {
            id: self.id,
            kind: self.kind@,
            title: self.title@,
            year: self.year@,
            poster: self.poster@,
            backdrop: self.backdrop@,
            season: self.season,
            episode: self.episode,
            episode_name: name_of(self.episode_name),
            position: self.position,
            duration: self.duration,
            finished: self.finished,
            updated: self.updated,
        }
    }
}

fn copy_name(s: &Option<String>) -> (r: Option<String>)
    ensures
        r == *s,
{
    match s {
        Some(t) => Some(t.clone()),
        None => None,
    }
}

impl Clone for Entry {
    fn clone(&self) -> (r: Entry)
        ensures
            r == *self,
    {
        Entry {
            id: self.id,
            kind: self.kind.clone(),
            title: self.title.clone(),
            year: self.year.clone(),
            poster: self.poster.clone(),
            backdrop: self.backdrop.clone(),
            season: self.season,
            episode: self.episode,
            episode_name: copy_name(&self.episode_name),
            position: self.position,
            duration: self.duration,
            finished: self.finished,
            updated: self.updated,
        }
    }
}

/// Where a title resumes: not at its start, and not in its last minute.
pub open spec fn resume_at(position: u64, duration: u64) -> Option<u64> {
    if position == 0 || (duration > 0 && position + RESUME_TAIL_SECS >= duration) {
        None
    } else {
        Some(position)
    }
}

/// An entry as a caller sees it.
pub open spec fn entry_fields(e: Record) -> Seq<(Seq<char>, Tree)> {
    seq![
        ("id"@, json::number(e.id as u64)),
        ("kind"@, Tree::Text(e.kind)),
        ("title"@, Tree::Text(e.title)),
        ("year"@, Tree::Text(e.year)),
        ("poster"@, Tree::Text(e.poster)),
        ("backdrop"@, Tree::Text(e.backdrop)),
        ("season"@, json::maybe_number(e.season)),
        ("episode"@, json::maybe_number(e.episode)),
        ("episode_name"@, json::maybe_text(e.episode_name)),
        ("position"@, json::number(e.position)),
        ("duration"@, json::number(e.duration)),
        ("finished"@, Tree::Bool(e.finished)),
        ("updated"@, json::number(e.updated)),
        (
            "progress"@,
            json::float_number(binary64::format_bits(watched(e.position, e.duration)) as u64),
        ),
    ]
}

impl Entry {
    /// How far through, zero when the duration is unknown.
    pub fn progress(&self) -> (r: Binary)
        ensures
            r@ == watched(self.position, self.duration),
            r.m == 0 || binary64::B52 <= r.m <= binary64::B53,
            -200 <= r.e <= 100,
    {
        if self.duration == 0 {
            return Binary { m: 0, e: 0 };
        }
        fraction(self.position, self.duration)
    }

    /// The entry as a caller sees it, progress included.
    pub fn json(&self) -> (r: Json)
        ensures
            r@ == json::object(entry_fields(self@)),
    {
        let mut f = Fields::new();
        f.put("id", json::unsigned(self.id as u64));
        f.put("kind", json::string(self.kind.as_str()));
        f.put("title", json::string(self.title.as_str()));
        f.put("year", json::string(self.year.as_str()));
        f.put("poster", json::string(self.poster.as_str()));
        f.put("backdrop", json::string(self.backdrop.as_str()));
        f.put("season", json::maybe_unsigned(self.season));
        f.put("episode", json::maybe_unsigned(self.episode));
        f.put("episode_name", json::maybe_string(&self.episode_name));
        f.put("position", json::unsigned(self.position));
        f.put("duration", json::unsigned(self.duration));
        f.put("finished", Json::Bool(self.finished));
        f.put("updated", json::unsigned(self.updated));
        f.put("progress", json::binary(self.progress().bits()));
        assert(f@ =~= entry_fields(self@));
        f.finish()
    }

    /// Where `--resume` should start this, if anywhere.
    pub fn resume_position(&self) -> (r: Option<u64>)
        requires
            self.duration > 0 ==> self.position + RESUME_TAIL_SECS <= u64::MAX,
        ensures
            r == resume_at(self.position, self.duration),
    {
        if self.position == 0 {
            return None;
        }
        if self.duration > 0 && self.position + RESUME_TAIL_SECS >= self.duration {
            return None;
        }
        Some(self.position)
    }
}

/// What is on screen right now, as the store needs it described.
#[derive(Debug)]
pub struct Watch {
    pub id: u32,
    pub kind: &'static str,
    pub title: String,
    pub year: String,
    pub poster: String,
    pub backdrop: String,
    pub season: Option<u32>,
    pub episode: Option<u32>,
    pub episode_name: Option<String>,
    /// The episode after this one in the same season, so finishing can advance
    /// to it. `None` for a movie and for the last episode of a season.
    pub next: Option<(u32, String)>,
}

impl Clone for Watch {
    fn clone(&self) -> (r: Watch)
        ensures
            r == *self,
    {
        Watch {
            id: self.id,
            kind: self.kind,
            title: self.title.clone(),
            year: self.year.clone(),
            poster: self.poster.clone(),
            backdrop: self.backdrop.clone(),
            season: self.season,
            episode: self.episode,
            episode_name: copy_name(&self.episode_name),
            next: match &self.next {
                Some((number, name)) => Some((*number, name.clone())),
                None => None,
            },
        }
    }
}

/// The entry of a title at a position. A finished episode becomes the next one,
/// so "Continue" points at what you would actually watch rather than at
/// something you just watched. The last episode of a season has nowhere to go
/// and stays finished.
pub open spec fn record_of(w: Watch, position: u64, duration: u64, now: u64) -> Record {
    let done = is_finished(position, duration);
    let on = done && w.next is Some;
    Record {
        id: w.id,
        kind: w.kind@,
        title: w.title@,
        year: w.year@,
        poster: w.poster@,
        backdrop: w.backdrop@,
        season: w.season,
        episode: if on {
            Some((w.next->0).0)
        } else {
            w.episode
        },
        episode_name: if on {
            Some((w.next->0).1@)
        } else {
            name_of(w.episode_name)
        },
        position: if on {
            0
        } else {
            position
        },
        duration: if on {
            0
        } else {
            duration
        },
        finished: done && !on,
        updated: now,
    }
}

#[derive(Debug)]
pub struct History {
    pub version: u32,
    pub items: Vec<Entry>,
}

impl View for History {
    type V = Seq<Record>;

    open spec fn view(&self) -> Seq<Record> {
        self.items@.map_values(|e: Entry| e@)
    }
}

/// The one entry was updated after the other.
pub open spec fn newer(a: Record, b: Record) -> bool {
    a.updated > b.updated
}

/// The entries of other titles.
pub open spec fn other_titles(s: Seq<Record>, id: u32, kind: Seq<char>) -> Seq<Record> {
    s.filter(|r: Record| !(r.id == id && r.kind == kind))
}

/// The entries once one is recorded: it takes the place of its title's earlier
/// one, the newest come first, and the oldest make room.
pub open spec fn recording(s: Seq<Record>, r: Record) -> Seq<Record> {
    list::first(
        list::stable_sort(
            seq![r] + other_titles(s, r.id, r.kind),
            |a: Record, b: Record| newer(a, b),
        ),
        MAX_ENTRIES as nat,
    )
}

/// The entry of a title.
pub open spec fn entry_of(s: Seq<Record>, id: u32, kind: Seq<char>) -> Option<Record>
    decreases s.len(),
{
    if s.len() == 0 {
        None
    } else if s[0].id == id && s[0].kind == kind {
        Some(s[0])
    } else {
        entry_of(s.drop_first(), id, kind)
    }
}

struct OtherTitle<'a> {
    id: u32,
    kind: &'a str,
}

impl<'a> Condition<Entry> for OtherTitle<'a> {
    closed spec fn passes(&self, e: Entry) -> bool {
        !(e@.id == self.id && e@.kind == self.kind@)
    }

    fn check(&self, e: &Entry) -> (r: bool) {
        !(e.id == self.id && text::same_str(e.kind.as_str(), self.kind))
    }
}

struct NewestFirst;

impl Order<Entry> for NewestFirst {
    open spec fn before(&self, a: Entry, b: Entry) -> bool {
        newer(a@, b@)
    }

    fn less(&self, a: &Entry, b: &Entry) -> (r: bool) {
        a.updated > b.updated
    }
}

impl<'a> Order<&'a Entry> for NewestFirst {
    open spec fn before(&self, a: &'a Entry, b: &'a Entry) -> bool {
        newer(a@, b@)
    }

    fn less(&self, a: &&'a Entry, b: &&'a Entry) -> (r: bool) {
        a.updated > b.updated
    }
}

impl History {
    pub fn empty() -> (r: History)
        ensures
            r.version == VERSION,
            r@ == Seq::<Record>::empty(),
    {
        let r = History { version: VERSION, items: Vec::new() };
        assert(r@ =~= Seq::empty());
        r
    }

    pub fn entry(&self, id: u32, kind: &str) -> (r: Option<&Entry>)
        ensures
            match r {
                Some(e) => entry_of(self@, id, kind@) == Some(e@),
                None => entry_of(self@, id, kind@) is None,
            },
    {
        let mut i: usize = 0;
        assert(self@.skip(0) =~= self@);
        while i < self.items.len()
            invariant
                i <= self.items.len(),
                entry_of(self@, id, kind@) == entry_of(self@.skip(i as int), id, kind@),
            decreases self.items.len() - i,
        {
            assert(self@.skip(i as int)[0] == self.items@[i as int]@);
            if self.items[i].id == id && text::same_str(self.items[i].kind.as_str(), kind) {
                return Some(&self.items[i]);
            }
            assert(self@.skip(i as int).drop_first() =~= self@.skip(i + 1));
            i += 1;
        }
        None
    }

    /// Newest first, capped. Sorted here rather than trusted from the file, so
    /// a store written by another process still comes back in order.
    pub fn recent(&self, limit: usize) -> (r: Vec<&Entry>)
        ensures
            r@.map_values(|e: &Entry| e@) == list::first(
                list::stable_sort(self@, |a: Record, b: Record| newer(a, b)),
                limit as nat,
            ),
    {
        let mut items: Vec<&Entry> = Vec::new();
        let mut i: usize = 0;
        while i < self.items.len()
            invariant
                i <= self.items.len(),
                items@.len() == i,
                forall|k: int| 0 <= k < i ==> *(#[trigger] items@[k]) == self.items@[k],
            decreases self.items.len() - i,
        {
            items.push(&self.items[i]);
            i += 1;
        }
        let ghost seen = |e: &Entry| e@;
        let ghost all = items@;
        assert(all.map_values(seen) =~= self@);
        let order = NewestFirst;
        let sorted = list::sorted(items, &order);
        let ghost s = sorted@;
        let r = list::cut(sorted, limit);
        proof {
            list::lemma_sort_maps(
                all,
                seen,
                |a: &Entry, b: &Entry| order.before(a, b),
                |a: Record, b: Record| newer(a, b),
            );
            assert(r@.map_values(seen) =~= list::first(s.map_values(seen), limit as nat));
        }
        r
    }

    /// Record where playback has reached, applying the finished rules.
    pub fn record(&mut self, watch: &Watch, position: u64, duration: u64, now: u64)
        ensures
            final(self)@ == recording(old(self)@, record_of(*watch, position, duration, now)),
            final(self).version == old(self).version,
    {
        let done = finished(position, duration);
        let mut entry = Entry {
            id: watch.id,
            kind: watch.kind.to_string(),
            title: watch.title.clone(),
            year: watch.year.clone(),
            poster: watch.poster.clone(),
            backdrop: watch.backdrop.clone(),
            season: watch.season,
            episode: watch.episode,
            episode_name: copy_name(&watch.episode_name),
            position,
            duration,
            finished: done,
            updated: now,
        };
        if done {
            if let Some((number, name)) = &watch.next {
                entry.episode = Some(*number);
                entry.episode_name = Some(name.clone());
                entry.position = 0;
                // Unknown until mpv opens it.
                entry.duration = 0;
                entry.finished = false;
            }
        }
        let ghost r = record_of(*watch, position, duration, now);
        assert(entry@ =~= r);
        let ghost before = self.items@;
        let ghost seen = |e: Entry| e@;
        let mut items: Vec<Entry> = Vec::new();
        std::mem::swap(&mut items, &mut self.items);
        let test = OtherTitle { id: watch.id, kind: watch.kind };
        let mut kept = list::kept(items, &test);
        let ghost rest = kept@;
        kept.insert(0, entry);
        let ghost all = kept@;
        // Stable, so the entry just inserted stays ahead of anything sharing
        // its timestamp.
        let order = NewestFirst;
        let sorted = list::sorted(kept, &order);
        let ghost ordered = sorted@;
        self.items = list::cut(sorted, MAX_ENTRIES);
        proof {
            list::lemma_filter_maps(
                before,
                seen,
                |e: Entry| test.passes(e),
                |x: Record| !(x.id == r.id && x.kind == r.kind),
            );
            assert(all.map_values(seen) =~= seq![r] + rest.map_values(seen));
            list::lemma_sort_maps(
                all,
                seen,
                |a: Entry, b: Entry| order.before(a, b),
                |a: Record, b: Record| newer(a, b),
            );
            assert(self@ =~= list::first(ordered.map_values(seen), MAX_ENTRIES as nat));
        }
    }
}

// --- recording while something plays ----------------------------------------------

/// Keeps the store in step with what mpv is doing.
///
/// Playback goes on whatever the filesystem does: each method says whether the
/// store has changed and is worth writing, and the caller writes it.
pub struct Recorder {
    pub history: History,
    pub current: Option<Watch>,
    pub position: u64,
    pub duration: u64,
    /// Set once mpv has reported a real position, so quitting before playback
    /// starts does not invent an entry.
    pub seen: bool,
    /// When the store last changed, in nanoseconds on the caller's clock.
    pub last_write: Option<u64>,
}

/// The store's entries once the current position is recorded, if there is one.
pub open spec fn persisted(r: Recorder, now: u64) -> Seq<Record> {
    if r.current is Some && r.seen {
        recording(r.history@, record_of(r.current->0, r.position, r.duration, now))
    } else {
        r.history@
    }
}

/// The last change is recent enough for another to wait.
pub open spec fn too_soon(last: Option<u64>, clock: u64) -> bool {
    last is Some && (clock - last->0) < WRITE_EVERY
}

impl Recorder {
    pub fn new(history: History) -> (r: Recorder)
        ensures
            r.history == history,
            r.current is None,
            r.position == 0 && r.duration == 0 && !r.seen && r.last_write is None,
    {
        Recorder { history, current: None, position: 0, duration: 0, seen: false, last_write: None }
    }

    /// What is playing now. Recording starts here and stops at the next flush.
    pub fn set_current(&mut self, watch: Watch)
        ensures
            final(self).history == old(self).history,
            final(self).current == Some(watch),
            final(self).position == 0 && final(self).duration == 0 && !final(self).seen,
            final(self).last_write is None,
    {
        self.current = Some(watch);
        self.position = 0;
        self.duration = 0;
        self.seen = false;
        self.last_write = None;
    }

    /// The stored entry for a title, for `--resume`.
    pub fn entry(&self, id: u32, kind: &str) -> (r: Option<Entry>)
        ensures
            match r {
                Some(e) => entry_of(self.history@, id, kind@) == Some(e@),
                None => entry_of(self.history@, id, kind@) is None,
            },
    {
        match self.history.entry(id, kind) {
            Some(e) => Some(e.clone()),
            None => None,
        }
    }

    /// How far through the current file playback is, when mpv has reported
    /// both a position and a duration. Feeds the queue-next trigger.
    pub fn playing_fraction(&self) -> (r: Option<Binary>)
        ensures
            match r {
                Some(f) => self.seen && self.duration > 0 && f@ == watched(
                    self.position,
                    self.duration,
                ) && f.small(),
                None => !(self.seen && self.duration > 0),
            },
    {
        if self.seen && self.duration > 0 {
            Some(fraction(self.position, self.duration))
        } else {
            None
        }
    }

    fn persist(&mut self, now: u64, clock: u64) -> (r: bool)
        ensures
            final(self).history@ == persisted(*old(self), now),
            final(self).history.version == old(self).history.version,
            final(self).current == old(self).current,
            final(self).position == old(self).position,
            final(self).duration == old(self).duration,
            final(self).seen == old(self).seen,
            r == (old(self).current is Some && old(self).seen),
            final(self).last_write == (if r {
                Some(clock)
            } else {
                old(self).last_write
            }),
    {
        if !self.seen {
            return false;
        }
        match &self.current {
            Some(watch) => {
                self.history.record(watch, self.position, self.duration, now);
                self.last_write = Some(clock);
                true
            },
            None => false,
        }
    }

    /// A position arrived, at `now` Unix seconds and `clock` nanoseconds.
    /// Returns whether the store is worth writing.
    pub fn progress(&mut self, position: u64, duration: u64, now: u64, clock: u64) -> (r: bool)
        ensures
            final(self).position == position,
            final(self).duration == duration,
            final(self).seen,
            final(self).current == old(self).current,
            r == (old(self).current is Some && !too_soon(old(self).last_write, clock)),
            final(self).history@ == (if r {
                recording(
                    old(self).history@,
                    record_of(old(self).current->0, position, duration, now),
                )
            } else {
                old(self).history@
            }),
            final(self).history.version == old(self).history.version,
            final(self).last_write == (if r {
                Some(clock)
            } else {
                old(self).last_write
            }),
    {
        self.position = position;
        self.duration = duration;
        self.seen = true;
        if let Some(last) = self.last_write {
            if clock < last || clock - last < WRITE_EVERY {
                return false;
            }
        }
        self.persist(now, clock)
    }

    /// Playback of the file ended. Returns whether the store is worth writing.
    ///
    /// Whatever plays next gets its own `set_current`; without this, the first
    /// position of the next episode would be written against the one that just
    /// ended and undo the advance.
    pub fn flush(&mut self, now: u64, clock: u64) -> (r: bool)
        ensures
            final(self).history@ == persisted(*old(self), now),
            final(self).history.version == old(self).history.version,
            r == (old(self).current is Some && old(self).seen),
            final(self).current is None,
            final(self).position == old(self).position,
            final(self).duration == old(self).duration,
            final(self).seen == old(self).seen,
            final(self).last_write == (if r {
                Some(clock)
            } else {
                old(self).last_write
            }),
    {
        let r = self.persist(now, clock);
        self.current = None;
        r
    }
}

// --- what holds of the history ----------------------------------------------------

/// The history keeps one entry per title, newest first, and no more than it has
/// room for.
pub proof fn history_stays_tidy(s: Seq<Record>, r: Record)
    requires
        list::distinct(s, |x: Record| (x.id, x.kind)),
    ensures
        list::distinct(recording(s, r), |x: Record| (x.id, x.kind)),
        recording(s, r).len() <= MAX_ENTRIES,
        forall|i: int, j: int|
            0 <= i < j < recording(s, r).len() ==> (#[trigger] recording(s, r)[i]).updated
                >= (#[trigger] recording(s, r)[j]).updated,
{
    let key = |x: Record| (x.id, x.kind);
    let p = |x: Record| !(x.id == r.id && x.kind == r.kind);
    let lt = |a: Record, b: Record| newer(a, b);
    let rest = other_titles(s, r.id, r.kind);
    let all = seq![r] + rest;
    list::lemma_distinct_filter(s, key, p);
    assert forall|i: int| 0 <= i < rest.len() implies key(#[trigger] rest[i]) != key(r) by {
        s.lemma_filter_contains_rev(p, rest[i]);
    }
    list::lemma_distinct_leader(r, rest, key);
    assert(list::is_order(lt));
    list::sorting_orders(all, lt);
    list::lemma_distinct_sort(all, key, lt);
    let sorted = list::stable_sort(all, lt);
    let cut = recording(s, r);
    assert forall|i: int, j: int| 0 <= i < j < cut.len() implies (#[trigger] cut[i]).updated >= (
    #[trigger] cut[j]).updated by {
        assert(cut[i] == sorted[i] && cut[j] == sorted[j]);
        assert(!lt(sorted[j], sorted[i]));
    }
}

/// What is recorded is what the title continues at, as long as the clock has
/// not gone back.
pub proof fn recorded_is_found(s: Seq<Record>, r: Record)
    requires
        forall|i: int| 0 <= i < s.len() ==> (#[trigger] s[i]).updated <= r.updated,
    ensures
        entry_of(recording(s, r), r.id, r.kind) == Some(r),
{
    let p = |x: Record| !(x.id == r.id && x.kind == r.kind);
    let lt = |a: Record, b: Record| newer(a, b);
    let rest = other_titles(s, r.id, r.kind);
    assert forall|i: int| 0 <= i < rest.len() implies !lt(#[trigger] rest[i], r) by {
        s.lemma_filter_contains_rev(p, rest[i]);
        let k = choose|k: int| 0 <= k < s.len() && s[k] == rest[i];
        assert(s[k].updated <= r.updated);
    }
    list::lemma_leader_stays(r, rest, lt);
    assert(recording(s, r)[0] == r);
}

/// Finishing an episode that has a next one continues at the start of that one,
/// which has not been watched.
pub proof fn finishing_advances(w: Watch, position: u64, duration: u64, now: u64)
    requires
        w.next is Some,
        is_finished(position, duration),
    ensures
        ({
            let r = record_of(w, position, duration, now);
            &&& r.episode == Some((w.next->0).0)
            &&& r.position == 0 && r.duration == 0 && !r.finished
            &&& resume_at(r.position, r.duration) is None
        }),
{
}

/// A title that counts as finished at a position does so at every later one.
pub proof fn finished_stays_finished(position: u64, later: u64, duration: u64)
    requires
        position <= later,
        is_finished(position, duration),
    ensures
        is_finished(later, duration),
{
    binary64::lemma_int_grows(position as nat, later as nat);
    binary64::lemma_at_least_through(
        binary64::of_int(later as nat),
        binary64::of_int(position as nat),
        binary64::product(binary64::of_int(duration as nat), finished_fraction()),
    );
}

/// Resuming never lands in the last minute of a title.
pub proof fn resuming_spares_the_end(position: u64, duration: u64)
    requires
        duration > 0,
        resume_at(position, duration) is Some,
    ensures
        resume_at(position, duration)->0 == position,
        position + RESUME_TAIL_SECS < duration,
{
}

/// A title is finished past nine tenths of its length, and not before.
pub proof fn nine_tenths_are_finished(position: u64, duration: u64)
    requires
        duration < 1_000_000,
        position < 1_000_000,
    ensures
        duration > 0 && 10 * position > 9 * duration ==> is_finished(position, duration),
        10 * position < 9 * duration ==> !is_finished(position, duration),
        duration == 0 ==> !is_finished(position, duration),
{
    if duration > 0 {
        let p = binary64::of_int(position as nat);
        let d = binary64::of_int(duration as nat);
        let mark = binary64::product(d, finished_fraction());
        values::lemma_int_value(position as nat);
        values::lemma_int_value(duration as nat);
        values::lemma_product_value(d, finished_fraction());
        values::lemma_at_least_value(p, mark);
        binary64::lemma_two_values();
        assert(values::scale(-53) == 1real / 9007199254740992real);
        let part = values::value(finished_fraction());
        assert(part == 8106479329266893real * (1real / 9007199254740992real));
        let s = 999999999real / 1000000000real;
        let o = 1000000001real / 1000000000real;
        let lo = 899999999real / 1000000000real;
        let hi = 900000001real / 1000000000real;
        assert(lo <= part <= hi);
        let x = duration as real;
        let y = position as real;
        let v = values::value(d);
        let m = values::value(mark);
        let w = v * part;
        assert(lo * v <= w <= hi * v) by (nonlinear_arith)
            requires
                w == v * part,
                lo <= part <= hi,
                v >= 0real,
        ;
        assert(s * x <= v <= o * x);
        assert(s * w <= m <= o * w);
        assert(s * y <= values::value(p) <= o * y);
        assert(m <= (90000001real / 100000000real) * x);
        assert(m >= (89999999real / 100000000real) * x);
    }
}

/// What is recorded short of the end is what was played: the position, the
/// length, the season and the episode, whether or not an episode comes after it,
/// and it is not finished. Past the start and short of the last minute, that is
/// where it resumes.
pub proof fn unfinished_titles_keep_their_place(
    s: Seq<Record>,
    w: Watch,
    position: u64,
    duration: u64,
    now: u64,
)
    requires
        10 * position < 9 * duration || duration == 0,
        duration < 1_000_000,
        position < 1_000_000,
        forall|i: int| 0 <= i < s.len() ==> (#[trigger] s[i]).updated <= now,
    ensures
        ({
            let found = entry_of(
                recording(s, record_of(w, position, duration, now)),
                w.id,
                w.kind@,
            );
            let e = found->0;
            &&& found is Some
            &&& e.id == w.id && e.kind == w.kind@ && e.title == w.title@ && e.year == w.year@
            &&& e.poster == w.poster@ && e.backdrop == w.backdrop@
            &&& e.season == w.season && e.episode == w.episode
            &&& match w.episode_name {
                Some(n) => e.episode_name == Some(n@),
                None => e.episode_name is None,
            }
            &&& e.position == position && e.duration == duration && !e.finished
            &&& e.updated == now
            &&& position > 0 && (duration == 0 || position + 60 < duration) ==> resume_at(
                e.position,
                e.duration,
            ) == Some(position)
        }),
{
    nine_tenths_are_finished(position, duration);
    recorded_is_found(s, record_of(w, position, duration, now));
}

/// What is recorded past nine tenths is finished: where an episode comes after it,
/// the title goes on at the start of that one, and otherwise it stays, finished.
pub proof fn finished_titles_move_on(
    s: Seq<Record>,
    w: Watch,
    position: u64,
    duration: u64,
    now: u64,
)
    requires
        duration > 0,
        10 * position > 9 * duration,
        duration < 1_000_000,
        position < 1_000_000,
        forall|i: int| 0 <= i < s.len() ==> (#[trigger] s[i]).updated <= now,
    ensures
        ({
            let found = entry_of(
                recording(s, record_of(w, position, duration, now)),
                w.id,
                w.kind@,
            );
            let e = found->0;
            &&& found is Some
            &&& e.id == w.id && e.kind == w.kind@ && e.title == w.title@ && e.season == w.season
            &&& e.updated == now
            &&& match w.next {
                Some((number, name)) => e.episode == Some(number) && e.episode_name == Some(name@)
                    && e.position == 0 && e.duration == 0 && !e.finished,
                None => e.episode == w.episode && e.position == position && e.duration == duration
                    && e.finished,
            }
        }),
{
    nine_tenths_are_finished(position, duration);
    recorded_is_found(s, record_of(w, position, duration, now));
}

/// A title resumes where it was left, but not at its very start, and not in its
/// last minute.
pub proof fn titles_resume_where_they_were_left(position: u64, duration: u64)
    ensures
        position == 0 ==> resume_at(position, duration) is None,
        duration > 0 && position + 60 >= duration ==> resume_at(position, duration) is None,
        position > 0 && (duration == 0 || position + 60 < duration) ==> resume_at(
            position,
            duration,
        ) == Some(position),
{
}

/// Recording a title leaves the entries of the others as they are, as long as
/// there is room for a hundred; and never more than that are kept.
pub proof fn other_titles_stay(s: Seq<Record>, r: Record, x: Record)
    ensures
        recording(s, r).len() <= 100,
        s.len() < 100 && s.contains(x) && !(x.id == r.id && x.kind == r.kind) ==> recording(
            s,
            r,
        ).contains(x),
        recording(s, r).contains(x) ==> x == r || (s.contains(x) && !(x.id == r.id && x.kind
            == r.kind)),
        s.len() < 100 ==> recording(s, r).contains(r),
{
    broadcast use vstd::seq_lib::group_to_multiset_ensures;

    let p = |y: Record| !(y.id == r.id && y.kind == r.kind);
    let lt = |a: Record, b: Record| newer(a, b);
    let rest = other_titles(s, r.id, r.kind);
    let all = seq![r] + rest;
    list::sorting_orders(all, lt);
    let sorted = list::stable_sort(all, lt);
    s.lemma_filter_len(p);
    assert(all.to_multiset().count(x) == sorted.to_multiset().count(x));
    assert(all.to_multiset().count(r) == sorted.to_multiset().count(r));
    assert(all[0] == r);
    assert(all.contains(r));
    if s.contains(x) && p(x) {
        let i = choose|i: int| 0 <= i < s.len() && s[i] == x;
        s.lemma_filter_contains(p, i);
        let k = choose|k: int| 0 <= k < rest.len() && rest[k] == x;
        assert(all[k + 1] == x);
        assert(all.contains(x));
    }
    if recording(s, r).contains(x) {
        let k = choose|k: int| 0 <= k < recording(s, r).len() && recording(s, r)[k] == x;
        assert(sorted[k] == x);
        assert(sorted.contains(x));
        assert(all.contains(x));
        let j = choose|j: int| 0 <= j < all.len() && all[j] == x;
        if j > 0 {
            assert(rest[j - 1] == x);
            s.lemma_filter_contains_rev(p, x);
        }
    }
}

/// The history is written at once for what has just come on, and then every ten
/// seconds. What was never seen playing is not recorded at all.
pub proof fn writes_are_ten_seconds_apart(r: Recorder, now: u64, clock: u64)
    ensures
        !too_soon(None, clock),
        r.last_write is Some ==> (too_soon(r.last_write, clock) <==> clock < r.last_write->0
            + 10_000_000_000),
        !r.seen ==> persisted(r, now) == r.history@,
        r.current is None ==> persisted(r, now) == r.history@,
        r.seen && r.current is Some && (forall|i: int|
            0 <= i < r.history@.len() ==> (#[trigger] r.history@[i]).updated <= now) ==> ({
            let w = r.current->0;
            entry_of(persisted(r, now), w.id, w.kind@) == Some(
                record_of(w, r.position, r.duration, now),
            )
        }),
{
    if r.seen && r.current is Some && (forall|i: int|
        0 <= i < r.history@.len() ==> (#[trigger] r.history@[i]).updated <= now) {
        recorded_is_found(r.history@, record_of(r.current->0, r.position, r.duration, now));
    }
}

/// The progress shown is the share that was watched, but for rounding, and never
/// more than the whole; a title of no length has none.
pub proof fn progress_is_the_share_watched(position: u64, duration: u64)
    ensures
        values::value(watched(position, 0)) == 0real,
        duration > 0 ==> values::value(watched(position, duration)) <= 1real,
        duration > 0 && position <= duration ==> ({
            let x = values::value(watched(position, duration)) * (duration as real);
            &&& 99999999real * (position as real) <= 100000000real * x
            &&& 100000000real * x <= 100000001real * (position as real)
        }),
        duration > 0 && position > duration ==> 100000000real * values::value(
            watched(position, duration),
        ) >= 99999999real,
{
    let zero = Dyadic { m: 0, e: 0 };
    values::lemma_scales(0, 0);
    assert(values::value(zero) == 0real) by {
        assert(0real * 1real == 0real) by (nonlinear_arith);
    }
    if duration > 0 {
        let p = binary64::of_int(position as nat);
        let d = binary64::of_int(duration as nat);
        let q = binary64::quotient(p, d);
        let s = values::short();
        let o = values::over();
        let pr = position as real;
        let dr = duration as real;
        values::lemma_int_value(position as nat);
        values::lemma_int_value(duration as nat);
        assert(d.m > 0) by {
            if d.m == 0 {
                let w = values::scale(d.e);
                assert(0real * w == 0real) by (nonlinear_arith);
            }
        }
        values::lemma_quotient_value(p, d);
        values::lemma_over(values::value(p), pr, values::value(d), dr, s, o, s, o);
        let x = pr / dr;
        values::lemma_through(
            values::value(q),
            values::value(p) / values::value(d),
            x,
            s,
            o,
            s / o,
            o / s,
        );
        let v = values::value(q);
        assert(x * dr == pr && x >= 0real) by (nonlinear_arith)
            requires
                x == pr / dr,
                dr > 0real,
                pr >= 0real,
        ;
        let least = s * (s / o);
        let most = o * (o / s);
        assert(99999999real <= 100000000real * least && 100000000real * most <= 100000001real)
            by (nonlinear_arith)
            requires
                least == (999999999real / 1000000000real) * ((999999999real / 1000000000real) / (
                1000000001real / 1000000000real)),
                most == (1000000001real / 1000000000real) * ((1000000001real / 1000000000real) / (
                999999999real / 1000000000real)),
        ;
        let y = v * dr;
        assert(99999999real * pr <= 100000000real * y && 100000000real * y <= 100000001real * pr)
            by (nonlinear_arith)
            requires
                least * x <= v,
                v <= most * x,
                x * dr == pr,
                y == v * dr,
                dr > 0real,
                pr >= 0real,
                99999999real <= 100000000real * least,
                100000000real * most <= 100000001real,
        ;
        binary64::lemma_two_values();
        assert(values::value(whole()) == 1real) by {
            assert(values::scale(-52) == 1real / 4503599627370496real);
            assert(4503599627370496real * (1real / 4503599627370496real) == 1real)
                by (nonlinear_arith);
        }
        values::lemma_at_least_value(q, whole());
        if binary64::at_least(q, whole()) {
            assert(1real * dr == dr) by (nonlinear_arith);
            assert(y >= dr) by (nonlinear_arith)
                requires
                    y == v * dr,
                    v >= 1real,
                    dr > 0real,
            ;
        } else if position > duration {
            assert(99999999real * dr <= 99999999real * pr);
            assert(100000000real * v >= 99999999real) by (nonlinear_arith)
                requires
                    99999999real * dr <= 100000000real * y,
                    y == v * dr,
                    dr > 0real,
            ;
        }
    }
}

/// An entry's answer holds what was recorded, each under its own name.
pub proof fn entries_hold_what_was_recorded(e: Record)
    ensures
        ({
            let s = entry_fields(e);
            &&& s.contains(("id"@, json::number(e.id as u64)))
            &&& s.contains(("kind"@, Tree::Text(e.kind)))
            &&& s.contains(("title"@, Tree::Text(e.title)))
            &&& s.contains(("year"@, Tree::Text(e.year)))
            &&& s.contains(("poster"@, Tree::Text(e.poster)))
            &&& s.contains(("backdrop"@, Tree::Text(e.backdrop)))
            &&& s.contains(("season"@, json::maybe_number(e.season)))
            &&& s.contains(("episode"@, json::maybe_number(e.episode)))
            &&& s.contains(("episode_name"@, json::maybe_text(e.episode_name)))
            &&& s.contains(("position"@, json::number(e.position)))
            &&& s.contains(("duration"@, json::number(e.duration)))
            &&& s.contains(("finished"@, Tree::Bool(e.finished)))
            &&& s.contains(("updated"@, json::number(e.updated)))
        }),
{
    let s = entry_fields(e);
    assert(s.contains(s[0]) && s.contains(s[1]) && s.contains(s[2]) && s.contains(s[3]));
    assert(s.contains(s[4]) && s.contains(s[5]) && s.contains(s[6]) && s.contains(s[7]));
    assert(s.contains(s[8]) && s.contains(s[9]) && s.contains(s[10]) && s.contains(s[11]));
    assert(s.contains(s[12]));
}

} // verus!
