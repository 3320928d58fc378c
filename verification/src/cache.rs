//! The piece cache: a size budget, and eviction that knows what you watched.
//!
//! The download dir gets a budget (`cache_max_gb` in the config,
//! `--cache-max-gb` to override, 20 GiB by default) and is pruned at sensible
//! moments: when a playback run starts, and after it ends. Never on a timer: an
//! idle dekho touches nothing.
//!
//! Eviction is least-recently-used, refined by the history store: titles
//! already marked finished go first, titles nobody has heard of next, and
//! anything part-watched last, since those pieces are exactly what makes
//! resuming instant. What is being played right now is never touched: every
//! engine mirrors its live torrents' cache entries to a
//! `.dekho-active-<pid>.json` lock file in the download dir, so one dekho's
//! pruner leaves another's stream alone. A lock whose pid is dead is garbage
//! from a killed run and is ignored and removed.

use crate::history;
use crate::history::History;
use crate::json;
use crate::json::{Fields, Json, Tree};
use crate::list;
use crate::list::Order;
use crate::text;
use crate::text::Separator;
use std::path::PathBuf;
use vstd::prelude::*;

verus! {

/// `std::path::PathBuf`, carried through unread: where an entry lies on disk.
#[verifier::external_type_specification]
#[verifier::external_body]
pub struct ExPathBuf(PathBuf);

/// The `clone` of `std::path::PathBuf`: the copy is the same path.
pub assume_specification[ <PathBuf as Clone>::clone ](path: &PathBuf) -> (r: PathBuf)
    ensures
        r == *path,
;

/// GiB the piece cache may hold before pruning starts evicting. 0 disables.
pub const DEFAULT_BUDGET_GB: u64 = 20;

/// Directory of last-used marker files, one per cache entry.
pub const LRU_DIR: &'static str = ".dekho-lru";

/// Live-session lock files: `.dekho-active-<pid>.json`.
pub const ACTIVE_PREFIX: &'static str = ".dekho-active-";

/// One top-level entry in the download dir: a torrent's directory, or a
/// single-file torrent's file.
#[derive(Debug)]
pub struct Entry {
    pub name: String,
    pub path: PathBuf,
    pub bytes: u64,
    /// Unix seconds of last use: the LRU marker when one exists, otherwise
    /// the newest mtime found in the data.
    pub last_used: u64,
}

impl Clone for Entry {
    fn clone(&self) -> (r: Entry)
        ensures
            r == *self,
    {
        Entry {
            name: self.name.clone(),
            path: self.path.clone(),
            bytes: self.bytes,
            last_used: self.last_used,
        }
    }
}

/// What the history store says about a cache entry.
#[derive(Clone, Copy, Debug, PartialEq, Eq, PartialOrd, Ord, Structural)]
pub enum WatchState {
    /// Watched to the end (or an episode the viewer has moved past). Evict
    /// these first: the pieces have done their job.
    Finished,
    /// Nothing in history matches. Middle priority.
    Unknown,
    /// Matches a title someone is in the middle of. Evict last: these pieces
    /// are what makes resuming instant.
    PartWatched,
}

pub open spec fn state_label(s: WatchState) -> Seq<char> {
    match s {
        WatchState::Finished => "finished"@,
        WatchState::Unknown => "unknown"@,
        WatchState::PartWatched => "part-watched"@,
    }
}

impl WatchState {
    /// The place of a state in the order of eviction, first to go first.
    pub open spec fn level(self) -> nat {
        match self {
            WatchState::Finished => 0,
            WatchState::Unknown => 1,
            WatchState::PartWatched => 2,
        }
    }

    /// The place of a state in the order of eviction, first to go first.
    pub fn rank(self) -> (r: u8)
        ensures
            r == self.level(),
    {
        match self {
            WatchState::Finished => 0,
            WatchState::Unknown => 1,
            WatchState::PartWatched => 2,
        }
    }

    pub fn label(self) -> (r: &'static str)
        ensures
            r@ == state_label(self),
    {
        match self {
            WatchState::Finished => "finished",
            WatchState::Unknown => "unknown",
            WatchState::PartWatched => "part-watched",
        }
    }
}

/// A number of GiB in bytes, or the greatest 64-bit number where that is less.
pub open spec fn gib(n: u64) -> u64 {
    if n * 0x4000_0000 > u64::MAX {
        u64::MAX
    } else {
        (n * 0x4000_0000) as u64
    }
}

/// The budget in bytes: flag beats config beats default. 0 means unlimited.
pub fn budget_bytes(flag_gb: Option<u64>, config_gb: Option<u64>) -> (r: u64)
    ensures
        r == gib(
            match (flag_gb, config_gb) {
                (Some(n), _) => n,
                (None, Some(n)) => n,
                (None, None) => DEFAULT_BUDGET_GB,
            },
        ),
{
    let gb: u64 = match flag_gb {
        Some(n) => n,
        None => match config_gb {
            Some(n) => n,
            None => DEFAULT_BUDGET_GB,
        },
    };
    if gb > 0x3_ffff_ffff {
        u64::MAX
    } else {
        gb * 0x4000_0000
    }
}

/// The first component of a relative path, without the space round it.
pub open spec fn first_component(relative: Seq<char>) -> Seq<char> {
    text::trim(text::split(relative, Separator::Slash)[0])
}

/// The first path component of a relative file path: the cache entry a
/// torrent file lives under. A single-file torrent's entry is the file itself.
pub fn top_component(relative: &str) -> (r: Option<String>)
    ensures
        match r {
            Some(s) => s@ == first_component(relative@) && s@.len() > 0,
            None => first_component(relative@).len() == 0,
        },
{
    let s = text::chars_of(relative);
    let parts = text::split_on(s.as_slice(), Separator::Slash);
    proof {
        text::lemma_split_some(s@, Separator::Slash);
        assert(text::texts(parts@)[0] == parts@[0]@);
    }
    let first = text::trimmed(parts[0].as_slice());
    if first.len() == 0 {
        None
    } else {
        Some(text::string_of(first.as_slice()))
    }
}

/// The name is that of torrent data: not hidden, and neither the image cache
/// nor the api cache, which live beside the pieces.
pub open spec fn is_data(name: Seq<char>) -> bool {
    !(name.len() > 0 && name[0] == '.') && name != "img"@ && name != "api"@
}

/// Whether an item of the download dir is torrent data.
pub fn holds_data(name: &str) -> (r: bool)
    ensures
        r == is_data(name@),
{
    let s = text::chars_of(name);
    !(s.len() > 0 && s[0] == '.') && !text::is_str(s.as_slice(), "img") && !text::is_str(
        s.as_slice(),
        "api",
    )
}

/// When an entry was last used: at its marker's time, or its data's.
pub fn last_used(marker: Option<u64>, newest_mtime: u64) -> (r: u64)
    ensures
        r == (match marker {
            Some(t) => t,
            None => newest_mtime,
        }),
{
    match marker {
        Some(t) => t,
        None => newest_mtime,
    }
}

/// How old the data of a directory is: as old as the newest inside it. An empty
/// one has only its own time to go by. One that holds anything must not use it:
/// creating the directory is "now" forever, and would mask how old the data
/// inside actually is.
pub fn newest_mtime(inside: u64, own: Option<u64>) -> (r: u64)
    ensures
        r == (if inside > 0 {
            inside
        } else {
            match own {
                Some(t) => t,
                None => 0,
            }
        }),
{
    if inside > 0 {
        inside
    } else {
        match own {
            Some(t) => t,
            None => 0,
        }
    }
}

// --- lock files -------------------------------------------------------------------

/// The file name of a process's lock.
pub fn active_name(pid: u32) -> (r: String)
    ensures
        r@ == ACTIVE_PREFIX@ + text::decimal(pid as nat) + ".json"@,
{
    let mut out = text::chars_of(ACTIVE_PREFIX);
    text::push_decimal(&mut out, pid as u64);
    text::push_str(&mut out, ".json");
    text::string_of(out.as_slice())
}

/// Whether a file is a lock, by its name.
pub fn is_lock_name(file_name: &str) -> (r: bool)
    ensures
        r == (text::begins(file_name@, ACTIVE_PREFIX@) && text::finishes(file_name@, ".json"@)),
{
    let s = text::chars_of(file_name);
    text::starts_with_str(s.as_slice(), ACTIVE_PREFIX) && text::ends_with_str(
        s.as_slice(),
        ".json",
    )
}

/// A session's lock: who holds it, and what it streams from.
pub struct Lock {
    pub pid: u64,
    pub names: Vec<String>,
}

/// What a lock file says.
pub open spec fn lock_value(pid: u32, names: Seq<Seq<char>>) -> Tree {
    json::object(
        seq![("pid"@, json::number(pid as u64)), ("names"@, json::text_list(names))],
    )
}

/// The content of a process's lock.
pub fn lock_json(pid: u32, names: &Vec<String>) -> (r: Json)
    ensures
        r@ == lock_value(pid, text::string_texts(names@)),
{
    let mut f = Fields::new();
    f.put("pid", json::unsigned(pid as u64));
    f.put("names", json::strings(names));
    assert(f@ =~= seq![
        ("pid"@, json::number(pid as u64)),
        ("names"@, json::text_list(text::string_texts(names@))),
    ]);
    f.finish()
}

/// The process that a lock names, 0 where it names none.
pub open spec fn lock_pid(v: Tree) -> u64 {
    match json::field(v, "pid"@) {
        Some(p) => match json::as_unsigned(p) {
            Some(n) => n,
            None => 0,
        },
        None => 0,
    }
}

/// The entries that a lock names.
pub open spec fn lock_names(v: Tree) -> Seq<Seq<char>> {
    match json::field(v, "names"@) {
        Some(l) => json::texts_of(l),
        None => Seq::empty(),
    }
}

/// Reads a lock.
pub fn lock_of(value: &Json) -> (r: Lock)
    ensures
        r.pid == lock_pid(value@),
        text::string_texts(r.names@) == lock_names(value@),
{
    let pid: u64 = match value.get("pid") {
        Some(p) => match p.as_u64() {
            Some(n) => n,
            None => 0,
        },
        None => 0,
    };
    let names: Vec<String> = match value.get("names") {
        Some(l) => l.texts(),
        None => Vec::new(),
    };
    assert(text::string_texts(names@) =~= lock_names(value@));
    Lock { pid, names }
}

/// Reads the lock in a file; none where the file holds no JSON.
pub fn lock_in(text: &str) -> (r: Option<Lock>)
    ensures
        match json::read_value(text@) {
            Some(v) => r is Some && r->0.pid == lock_pid(v) && text::string_texts(r->0.names@)
                == lock_names(v),
            None => r is None,
        },
{
    match json::parse(text) {
        Some(v) => Some(lock_of(&v)),
        None => None,
    }
}

/// What is written to a lock is what is read from it.
pub proof fn locks_read_back(pid: u32, names: Seq<Seq<char>>)
    ensures
        lock_pid(lock_value(pid, names)) == pid,
        lock_names(lock_value(pid, names)) == names,
{
    reveal_strlit("pid");
    reveal_strlit("names");
    let s = seq![("pid"@, json::number(pid as u64)), ("names"@, json::text_list(names))];
    reveal_with_fuel(json::fields, 3);
    assert(s.drop_last() =~= seq![("pid"@, json::number(pid as u64))]);
    assert(s.drop_last().drop_last() =~= Seq::empty());
    assert("pid"@ != "names"@) by {
        assert("pid"@.len() != "names"@.len());
    }
    lemma_texts_back(names);
}

proof fn lemma_texts_back(names: Seq<Seq<char>>)
    ensures
        json::list_texts(names.map_values(|t: Seq<char>| Tree::Text(t))) == names,
    decreases names.len(),
{
    let v = names.map_values(|t: Seq<char>| Tree::Text(t));
    if names.len() > 0 {
        lemma_texts_back(names.drop_last());
        assert(v.drop_last() =~= names.drop_last().map_values(|t: Seq<char>| Tree::Text(t)));
        assert(names =~= names.drop_last().push(names.last()));
    } else {
        assert(names =~= Seq::empty());
    }
}

// --- what was watched -------------------------------------------------------------

/// Lowercased alphanumeric words of a name, for fuzzy matching against history
/// titles.
pub open spec fn name_words(s: Seq<char>) -> Seq<Seq<char>> {
    text::words(text::lower(s), Separator::Punctuation)
}

fn words(s: &str) -> (r: Vec<Vec<char>>)
    ensures
        text::texts(r@) == name_words(s@),
{
    let c = text::chars_of(s);
    let low = text::lowered(c.as_slice());
    text::words_on(low.as_slice(), Separator::Punctuation)
}

/// How many digits stand from a place on.
pub open spec fn digits_at(s: Seq<char>, i: int) -> nat
    decreases s.len() - i,
{
    if 0 <= i < s.len() && text::is_digit(s[i]) {
        1 + digits_at(s, i + 1)
    } else {
        0
    }
}

/// The number that `n` digits from a place on stand for.
pub open spec fn number_at(s: Seq<char>, i: int, n: nat) -> u32 {
    text::digits_value(s.subrange(i, i + n)) as u32
}

/// The season and episode that `sNNeNN` at a place names: one or two digits,
/// then one to three.
pub open spec fn marker_at(s: Seq<char>, i: int) -> Option<(u32, u32)> {
    let a = digits_at(s, i + 1);
    let e = i + 1 + a;
    let b = digits_at(s, e + 1);
    if s[i] == 's' && 1 <= a <= 2 && e < s.len() && s[e] == 'e' && 1 <= b <= 3 {
        Some((number_at(s, i + 1, a), number_at(s, e + 1, b)))
    } else {
        None
    }
}

/// The season and episode that `NxNN` at a place names: one or two digits, then
/// two, neither part of a longer number.
pub open spec fn cross_at(s: Seq<char>, i: int) -> Option<(u32, u32)> {
    let a = digits_at(s, i);
    let x = i + a;
    let b = digits_at(s, x + 1);
    if !(i > 0 && text::is_digit(s[i - 1])) && 1 <= a <= 2 && x < s.len() && s[x] == 'x' && b == 2 {
        Some((number_at(s, i, a), number_at(s, x + 1, b)))
    } else {
        None
    }
}

/// The first marker of a form at or behind a place.
pub open spec fn marker_from(s: Seq<char>, i: int, crossed: bool) -> Option<(u32, u32)>
    decreases s.len() - i,
{
    if i < 0 || i >= s.len() {
        None
    } else {
        let here = if crossed {
            cross_at(s, i)
        } else {
            marker_at(s, i)
        };
        if here is Some {
            here
        } else {
            marker_from(s, i + 1, crossed)
        }
    }
}

/// The episode that a name carries.
pub open spec fn episode_named(name: Seq<char>) -> Option<(u32, u32)> {
    let s = text::lower(name);
    match marker_from(s, 0, false) {
        Some(e) => Some(e),
        None => marker_from(s, 0, true),
    }
}

fn count_digits(s: &[char], i: usize) -> (r: usize)
    requires
        i <= s@.len(),
    ensures
        r == digits_at(s@, i as int),
        i + r <= s@.len(),
        text::all_digits(s@.subrange(i as int, i + r)),
{
    let mut n: usize = 0;
    let end = s.len();
    while i + n < end && text::digit(s[i + n])
        invariant
            end == s@.len(),
            i + n <= s@.len(),
            digits_at(s@, i as int) == n + digits_at(s@, i + n),
            forall|k: int| i <= k < i + n ==> text::is_digit(#[trigger] s@[k]),
        decreases s@.len() - i - n,
    {
        n += 1;
    }
    n
}

fn read_digits(s: &[char], i: usize, n: usize) -> (r: u32)
    requires
        i + n <= s@.len(),
        1 <= n <= 3,
        text::all_digits(s@.subrange(i as int, i + n)),
    ensures
        r == number_at(s@, i as int, n as nat),
{
    let end = s.len();
    let d = text::slice_of(s, i, i + n);
    assert(d@.len() <= end);
    proof {
        let t = d@;
        assert(t[0] == s@[i as int]);
        assert(text::is_digit(t[0]));
        if n >= 2 {
            assert(text::is_digit(t[1]));
        }
        if n >= 3 {
            assert(text::is_digit(t[2]));
        }
        reveal_with_fuel(text::digits_value, 4);
        assert(text::digits_value(t) <= 999);
    }
    match text::read_number(d.as_slice(), 0xffff_ffff) {
        Some(v) => v as u32,
        None => 0,
    }
}

fn find_marker(s: &[char], crossed: bool) -> (r: Option<(u32, u32)>)
    ensures
        r == marker_from(s@, 0, crossed),
{
    let mut i: usize = 0;
    let n = s.len();
    while i < n
        invariant
            i <= n,
            n == s@.len(),
            marker_from(s@, 0, crossed) == marker_from(s@, i as int, crossed),
        decreases n - i,
    {
        if crossed {
            if !(i > 0 && text::digit(s[i - 1])) {
                let a = count_digits(s, i);
                if 1 <= a && a <= 2 && i + a < n && s[i + a] == 'x' {
                    let b = count_digits(s, i + a + 1);
                    if b == 2 {
                        return Some((read_digits(s, i, a), read_digits(s, i + a + 1, b)));
                    }
                }
            }
        } else if s[i] == 's' {
            let a = count_digits(s, i + 1);
            if 1 <= a && a <= 2 && i + 1 + a < n && s[i + 1 + a] == 'e' {
                let b = count_digits(s, i + 1 + a + 1);
                if 1 <= b && b <= 3 {
                    return Some((read_digits(s, i + 1, a), read_digits(s, i + 1 + a + 1, b)));
                }
            }
        }
        i += 1;
    }
    None
}

/// The `SxxExx` (or `2x05`) an entry name carries, if any.
pub fn episode_of(name: &str) -> (r: Option<(u32, u32)>)
    ensures
        r == episode_named(name@),
{
    let c = text::chars_of(name);
    let low = text::lowered(c.as_slice());
    match find_marker(low.as_slice(), false) {
        Some(e) => Some(e),
        None => find_marker(low.as_slice(), true),
    }
}

/// A word that reads as a year.
pub open spec fn is_year(w: Seq<char>) -> bool {
    w.len() == 4 && (text::begins(w, "19"@) || text::begins(w, "20"@))
}

/// Every word of the title stands in the name, and where both know a year they
/// agree.
pub open spec fn is_about(name: Seq<Seq<char>>, r: history::Record) -> bool {
    let title = name_words(r.title);
    &&& title.len() > 0
    &&& forall|i: int| 0 <= i < title.len() ==> name.contains(#[trigger] title[i])
    &&& r.year.len() > 0 && (exists|i: int| 0 <= i < name.len() && is_year(#[trigger] name[i]))
        ==> name.contains(r.year)
}

/// What a record says of an entry that is about it. An episode the viewer has
/// moved past counts as finished even though the title as a whole is not.
pub open spec fn state_by(name: Seq<char>, r: history::Record) -> WatchState {
    let past = r.kind != "movie"@ && match (episode_named(name), r.season, r.episode) {
        (Some((s, e)), Some(es), Some(ee)) => s < es || (s == es && e < ee),
        _ => false,
    };
    if r.finished || past {
        WatchState::Finished
    } else {
        WatchState::PartWatched
    }
}

/// What the history says of an entry: what its first record about it says.
pub open spec fn classified(name: Seq<char>, s: Seq<history::Record>) -> WatchState
    decreases s.len(),
{
    if s.len() == 0 {
        WatchState::Unknown
    } else if is_about(name_words(name), s[0]) {
        state_by(name, s[0])
    } else {
        classified(name, s.drop_first())
    }
}

fn about(name: &Vec<Vec<char>>, e: &history::Entry) -> (r: bool)
    ensures
        r == is_about(text::texts(name@), e@),
{
    let ghost all = text::texts(name@);
    let title = words(e.title.as_str());
    let ghost t = text::texts(title@);
    if title.len() == 0 {
        assert(t.len() == 0);
        return false;
    }
    assert(t.len() > 0);
    let mut i: usize = 0;
    while i < title.len()
        invariant
            i <= title.len(),
            t == text::texts(title@),
            t == name_words(e.title@),
            all == text::texts(name@),
            forall|k: int| 0 <= k < i ==> all.contains(#[trigger] t[k]),
        decreases title.len() - i,
    {
        assert(t[i as int] == title@[i as int]@);
        if !text::has_text(name, title[i].as_slice()) {
            return false;
        }
        i += 1;
    }
    let year = text::chars_of(e.year.as_str());
    if year.len() == 0 {
        return true;
    }
    let mut dated: bool = false;
    let mut j: usize = 0;
    while j < name.len()
        invariant
            j <= name.len(),
            all == text::texts(name@),
            dated == (exists|k: int| 0 <= k < j && is_year(#[trigger] all[k])),
        decreases name.len() - j,
    {
        assert(all[j as int] == name@[j as int]@);
        let w = name[j].as_slice();
        if w.len() == 4 && (text::starts_with_str(w, "19") || text::starts_with_str(w, "20")) {
            assert(is_year(all[j as int]));
            dated = true;
        }
        j += 1;
    }
    !dated || text::has_text(name, year.as_slice())
}

/// Classify a cache entry against the history store.
///
/// Matching is fuzzy on purpose: a release name is
/// `Fight.Club.1999.1080p.WEB` and the history entry says `Fight Club` (1999).
/// Every word of the title must appear in the name, and when both sides know a
/// year they must agree. TV entries refine further: an episode the viewer has
/// moved past counts as finished even though the title as a whole is not.
pub fn classify(entry_name: &str, history: &History) -> (r: WatchState)
    ensures
        r == classified(entry_name@, history@),
{
    let name = words(entry_name);
    let ghost all = history@;
    let mut i: usize = 0;
    assert(all.skip(0) =~= all);
    while i < history.items.len()
        invariant
            i <= history.items.len(),
            all == history@,
            text::texts(name@) == name_words(entry_name@),
            classified(entry_name@, all) == classified(entry_name@, all.skip(i as int)),
        decreases history.items.len() - i,
    {
        let e = &history.items[i];
        assert(all.skip(i as int)[0] == e@);
        if about(&name, e) {
            let movie = text::same_str(e.kind.as_str(), "movie");
            let past = !movie && match (episode_of(entry_name), e.season, e.episode) {
                (Some((s, n)), Some(es), Some(ee)) => s < es || (s == es && n < ee),
                _ => false,
            };
            return if e.finished || past {
                WatchState::Finished
            } else {
                WatchState::PartWatched
            };
        }
        assert(all.skip(i as int).drop_first() =~= all.skip(i + 1));
        i += 1;
    }
    WatchState::Unknown
}

// --- eviction ---------------------------------------------------------------------

/// The entry is not among the names.
pub open spec fn unprotected(e: Entry, protected: Seq<String>) -> bool {
    !text::string_texts(protected).contains(e.name@)
}

/// The one entry goes before the other: by what was watched, then by how long
/// ago it was used.
pub open spec fn goes_before(a: Entry, b: Entry, h: Seq<history::Record>) -> bool {
    let x = classified(a.name@, h).level();
    let y = classified(b.name@, h).level();
    x < y || (x == y && a.last_used < b.last_used)
}

/// The entries that may go, in the order in which they do.
pub open spec fn evictable(
    entries: Seq<Entry>,
    h: Seq<history::Record>,
    protected: Seq<String>,
) -> Seq<Entry> {
    list::stable_sort(
        entries.filter(|e: Entry| unprotected(e, protected)),
        |a: Entry, b: Entry| goes_before(a, b, h),
    )
}

/// A list of references as what they refer to.
pub open spec fn referred(v: Seq<&Entry>) -> Seq<Entry> {
    v.map_values(|e: &Entry| *e)
}

fn is_listed(names: &[String], name: &str) -> (r: bool)
    ensures
        r == text::string_texts(names@).contains(name@),
{
    let ghost all = text::string_texts(names@);
    let mut i: usize = 0;
    while i < names.len()
        invariant
            i <= names.len(),
            all == text::string_texts(names@),
            forall|k: int| 0 <= k < i ==> #[trigger] all[k] != name@,
        decreases names.len() - i,
    {
        assert(all[i as int] == names@[i as int]@);
        if text::same_str(names[i].as_str(), name) {
            return true;
        }
        i += 1;
    }
    false
}

/// An entry with the place of its state.
struct Ranked<'a> {
    rank: u8,
    entry: &'a Entry,
}

struct FirstToGo;

impl<'a> Order<Ranked<'a>> for FirstToGo {
    closed spec fn before(&self, a: Ranked<'a>, b: Ranked<'a>) -> bool {
        a.rank < b.rank || (a.rank == b.rank && a.entry.last_used < b.entry.last_used)
    }

    fn less(&self, a: &Ranked<'a>, b: &Ranked<'a>) -> (r: bool) {
        a.rank < b.rank || (a.rank == b.rank && a.entry.last_used < b.entry.last_used)
    }
}

/// A ranked entry's rank is what the history makes it.
spec fn ranked_by(v: Seq<Ranked>, h: Seq<history::Record>) -> bool {
    forall|i: int|
        0 <= i < v.len() ==> (#[trigger] v[i]).rank == classified(v[i].entry.name@, h).level()
}

spec fn bare(v: Seq<Ranked>) -> Seq<Entry> {
    v.map_values(|r: Ranked| *r.entry)
}

proof fn lemma_place_ranked(s: Seq<Ranked>, x: Ranked, h: Seq<history::Record>)
    requires
        ranked_by(s, h),
        x.rank == classified(x.entry.name@, h).level(),
    ensures
        bare(list::placed(s, x, |a: Ranked, b: Ranked| FirstToGo.before(a, b))) == list::placed(
            bare(s),
            *x.entry,
            |a: Entry, b: Entry| goes_before(a, b, h),
        ),
        ranked_by(list::placed(s, x, |a: Ranked, b: Ranked| FirstToGo.before(a, b)), h),
    decreases s.len(),
{
    let lt = |a: Ranked, b: Ranked| FirstToGo.before(a, b);
    let seen = |a: Entry, b: Entry| goes_before(a, b, h);
    if s.len() > 0 {
        assert(s.last() == s[s.len() - 1]);
        assert(lt(x, s.last()) == seen(*x.entry, *s.last().entry));
        assert(bare(s).last() == *s.last().entry);
    }
    if s.len() > 0 && lt(x, s.last()) {
        let t = s.drop_last();
        assert forall|i: int| 0 <= i < t.len() implies (#[trigger] t[i]).rank == classified(
            t[i].entry.name@,
            h,
        ).level() by {
            assert(t[i] == s[i]);
        }
        lemma_place_ranked(t, x, h);
        assert(bare(s).drop_last() =~= bare(t));
        let p = list::placed(t, x, lt);
        assert(bare(p.push(s.last())) =~= bare(p).push(*s.last().entry));
        assert(ranked_by(p.push(s.last()), h));
    } else {
        assert(bare(s.push(x)) =~= bare(s).push(*x.entry));
        assert(ranked_by(s.push(x), h));
    }
}

proof fn lemma_sort_ranked(s: Seq<Ranked>, h: Seq<history::Record>)
    requires
        ranked_by(s, h),
    ensures
        bare(list::stable_sort(s, |a: Ranked, b: Ranked| FirstToGo.before(a, b)))
            == list::stable_sort(bare(s), |a: Entry, b: Entry| goes_before(a, b, h)),
        ranked_by(list::stable_sort(s, |a: Ranked, b: Ranked| FirstToGo.before(a, b)), h),
    decreases s.len(),
{
    let lt = |a: Ranked, b: Ranked| FirstToGo.before(a, b);
    if s.len() > 0 {
        let t = s.drop_last();
        assert forall|i: int| 0 <= i < t.len() implies (#[trigger] t[i]).rank == classified(
            t[i].entry.name@,
            h,
        ).level() by {
            assert(t[i] == s[i]);
        }
        lemma_sort_ranked(t, h);
        assert(s.last() == s[s.len() - 1]);
        lemma_place_ranked(list::stable_sort(t, lt), s.last(), h);
        assert(bare(s).drop_last() =~= bare(t));
        assert(bare(s).last() == *s.last().entry);
    } else {
        assert(bare(s) =~= Seq::empty());
    }
}

/// Eviction order: finished first, unknown next, part-watched last, LRU within
/// each class. Protected entries are simply absent.
pub fn eviction_order<'a>(
    entries: &'a [Entry],
    history: &History,
    protected: &[String],
) -> (r: Vec<&'a Entry>)
    ensures
        referred(r@) == evictable(entries@, history@, protected@),
{
    let ghost p = |e: Entry| unprotected(e, protected@);
    let ghost h = history@;
    let mut ranked: Vec<Ranked<'a>> = Vec::new();
    let mut i: usize = 0;
    proof {
        reveal(Seq::filter);
        assert(bare(ranked@) =~= entries@.take(0).filter(p));
    }
    while i < entries.len()
        invariant
            i <= entries.len(),
            p == (|e: Entry| unprotected(e, protected@)),
            h == history@,
            bare(ranked@) == entries@.take(i as int).filter(p),
            ranked_by(ranked@, h),
        decreases entries.len() - i,
    {
        let e = &entries[i];
        proof {
            text::lemma_filter_push(entries@.take(i as int), p, *e);
            assert(entries@.take(i + 1) =~= entries@.take(i as int).push(*e));
        }
        if !is_listed(protected, e.name.as_str()) {
            let ghost before = ranked@;
            let r = Ranked { rank: classify(e.name.as_str(), history).rank(), entry: e };
            ranked.push(r);
            assert(bare(ranked@) =~= bare(before).push(*e));
            assert(ranked_by(ranked@, h));
        }
        i += 1;
    }
    assert(entries@.take(entries@.len() as int) =~= entries@);
    let order = FirstToGo;
    let ghost all = ranked@;
    let sorted = list::sorted(ranked, &order);
    proof {
        lemma_sort_ranked(all, h);
    }
    let ghost done = sorted@;
    let mut out: Vec<&'a Entry> = Vec::new();
    let mut k: usize = 0;
    while k < sorted.len()
        invariant
            k <= sorted.len(),
            out@.len() == k,
            forall|j: int| 0 <= j < k ==> *(#[trigger] out@[j]) == *sorted@[j].entry,
        decreases sorted.len() - k,
    {
        out.push(sorted[k].entry);
        k += 1;
    }
    assert(referred(out@) =~= bare(done));
    out
}

/// The bytes of a list of entries.
pub open spec fn total(s: Seq<Entry>) -> nat
    decreases s.len(),
{
    if s.len() == 0 {
        0
    } else {
        total(s.drop_last()) + s.last().bytes as nat
    }
}

/// What is left of a number of bytes, nothing where more is taken.
pub open spec fn less(used: nat, bytes: nat) -> nat {
    if used > bytes {
        (used - bytes) as nat
    } else {
        0
    }
}

/// The entries to evict: the first of the order, until the budget is met.
pub open spec fn evictions(order: Seq<Entry>, used: nat, budget: nat) -> Seq<Entry>
    decreases order.len(),
{
    if order.len() == 0 || used <= budget {
        Seq::empty()
    } else {
        seq![order[0]] + evictions(
            order.drop_first(),
            less(used, order[0].bytes as nat),
            budget,
        )
    }
}

proof fn lemma_total_grows(s: Seq<Entry>, i: int)
    requires
        0 <= i <= s.len(),
    ensures
        total(s.take(i)) <= total(s),
    decreases s.len(),
{
    if i < s.len() {
        lemma_total_grows(s.drop_last(), i);
        assert(s.drop_last().take(i) =~= s.take(i));
    } else {
        assert(s.take(i) =~= s);
    }
}

fn used_bytes(entries: &[Entry]) -> (r: u64)
    requires
        total(entries@) <= u64::MAX,
    ensures
        r == total(entries@),
{
    let mut n: u64 = 0;
    let mut i: usize = 0;
    assert(entries@.take(0) =~= Seq::empty());
    while i < entries.len()
        invariant
            i <= entries.len(),
            total(entries@) <= u64::MAX,
            n == total(entries@.take(i as int)),
        decreases entries.len() - i,
    {
        proof {
            assert(entries@.take(i + 1).drop_last() =~= entries@.take(i as int));
            lemma_total_grows(entries@, i + 1);
        }
        n = n + entries[i].bytes;
        i += 1;
    }
    assert(entries@.take(entries@.len() as int) =~= entries@);
    n
}

/// Which entries to evict to bring the cache under budget. `entries` is the
/// full scan (protected included: their bytes still count against the budget);
/// `order` is `eviction_order`'s output.
pub fn plan<'a>(entries: &[Entry], order: &[&'a Entry], budget: u64) -> (r: Vec<&'a Entry>)
    requires
        total(entries@) <= u64::MAX,
    ensures
        referred(r@) == evictions(referred(order@), total(entries@), budget as nat),
{
    let mut used: u64 = used_bytes(entries);
    let ghost all = referred(order@);
    let ghost whole = evictions(all, total(entries@), budget as nat);
    let mut evict: Vec<&'a Entry> = Vec::new();
    let mut i: usize = 0;
    assert(all.skip(0) =~= all);
    assert(referred(evict@) =~= Seq::empty());
    assert(Seq::<Entry>::empty() + whole =~= whole);
    while i < order.len() && used > budget
        invariant
            i <= order.len(),
            all == referred(order@),
            whole == referred(evict@) + evictions(
                all.skip(i as int),
                used as nat,
                budget as nat,
            ),
        decreases order.len() - i,
    {
        let e = order[i];
        let ghost rest = all.skip(i as int);
        assert(rest[0] == *e);
        assert(rest.drop_first() =~= all.skip(i + 1));
        let ghost before = referred(evict@);
        let ghost was = used;
        used = if used > e.bytes {
            used - e.bytes
        } else {
            0
        };
        evict.push(e);
        assert(referred(evict@) =~= before.push(*e));
        assert(before + (seq![*e] + evictions(rest.drop_first(), used as nat, budget as nat))
            =~= before.push(*e) + evictions(rest.drop_first(), used as nat, budget as nat));
        i += 1;
    }
    assert(evictions(all.skip(i as int), used as nat, budget as nat) =~= Seq::empty());
    assert(referred(evict@) + Seq::<Entry>::empty() =~= referred(evict@));
    evict
}

/// What a prune did, for reporting.
#[derive(Debug)]
pub struct PruneReport {
    pub evicted: Vec<(String, u64)>,
    pub freed: u64,
    pub used_after: u64,
}

impl Default for PruneReport {
    fn default() -> (r: PruneReport)
        ensures
            r.evicted@.len() == 0,
            r.freed == 0,
            r.used_after == 0,
    {
        PruneReport { evicted: Vec::new(), freed: 0, used_after: 0 }
    }
}

/// The entries to evict from a cache, none where the budget is unlimited.
/// `extra_protected` is what the calling process itself is streaming; what the
/// lock files of other processes name is honoured on top.
pub fn prune<'a>(
    entries: &'a [Entry],
    budget: u64,
    history: &History,
    locked: &[String],
    extra_protected: &[String],
) -> (r: Vec<&'a Entry>)
    requires
        total(entries@) <= u64::MAX,
    ensures
        referred(r@) == (if budget == 0 {
            Seq::empty()
        } else {
            evictions(
                evictable(entries@, history@, locked@ + extra_protected@),
                total(entries@),
                budget as nat,
            )
        }),
{
    if budget == 0 {
        let r: Vec<&'a Entry> = Vec::new();
        assert(referred(r@) =~= Seq::empty());
        return r;
    }
    let mut protected: Vec<String> = Vec::new();
    let mut i: usize = 0;
    while i < locked.len()
        invariant
            i <= locked.len(),
            protected@ == locked@.take(i as int),
        decreases locked.len() - i,
    {
        protected.push(locked[i].clone());
        assert(protected@ =~= locked@.take(i + 1));
        i += 1;
    }
    assert(locked@.take(locked@.len() as int) =~= locked@);
    let mut j: usize = 0;
    assert(protected@ =~= locked@ + extra_protected@.take(0));
    while j < extra_protected.len()
        invariant
            j <= extra_protected.len(),
            protected@ == locked@ + extra_protected@.take(j as int),
        decreases extra_protected.len() - j,
    {
        protected.push(extra_protected[j].clone());
        assert(protected@ =~= locked@ + extra_protected@.take(j + 1));
        j += 1;
    }
    assert(extra_protected@.take(extra_protected@.len() as int) =~= extra_protected@);
    let order = eviction_order(entries, history, protected.as_slice());
    plan(entries, order.as_slice(), budget)
}

/// The entries to remove when the cache is cleared: every one that no live
/// session holds, whatever the budget.
pub fn clear<'a>(entries: &'a [Entry], locked: &[String]) -> (r: Vec<&'a Entry>)
    ensures
        referred(r@) == entries@.filter(|e: Entry| unprotected(e, locked@)),
{
    let ghost p = |e: Entry| unprotected(e, locked@);
    let mut out: Vec<&'a Entry> = Vec::new();
    let mut i: usize = 0;
    proof {
        reveal(Seq::filter);
        assert(referred(out@) =~= entries@.take(0).filter(p));
    }
    while i < entries.len()
        invariant
            i <= entries.len(),
            p == (|e: Entry| unprotected(e, locked@)),
            referred(out@) == entries@.take(i as int).filter(p),
        decreases entries.len() - i,
    {
        let e = &entries[i];
        proof {
            text::lemma_filter_push(entries@.take(i as int), p, *e);
            assert(entries@.take(i + 1) =~= entries@.take(i as int).push(*e));
        }
        let ghost before = referred(out@);
        if !is_listed(locked, e.name.as_str()) {
            out.push(e);
            assert(referred(out@) =~= before.push(*e));
        }
        i += 1;
    }
    assert(entries@.take(entries@.len() as int) =~= entries@);
    out
}

/// The entries at the places marked `true`.
pub open spec fn removed_of(s: Seq<Entry>, removed: Seq<bool>) -> Seq<Entry>
    decreases s.len(),
{
    if s.len() == 0 {
        s
    } else if removed[s.len() - 1] {
        removed_of(s.drop_last(), removed).push(s.last())
    } else {
        removed_of(s.drop_last(), removed)
    }
}

/// The names and sizes of a report.
pub open spec fn evicted_of(v: Seq<(String, u64)>) -> Seq<(Seq<char>, u64)> {
    v.map_values(|e: (String, u64)| (e.0@, e.1))
}

/// The report on a removal: `removed` says of each entry of the plan whether it
/// could be removed.
pub fn report(entries: &[Entry], evict: &[&Entry], removed: &[bool]) -> (r: PruneReport)
    requires
        total(entries@) <= u64::MAX,
        total(referred(evict@)) <= u64::MAX,
        removed@.len() == evict@.len(),
    ensures
        evicted_of(r.evicted@) == removed_of(referred(evict@), removed@).map_values(
            |e: Entry| (e.name@, e.bytes),
        ),
        r.freed == total(removed_of(referred(evict@), removed@)),
        r.used_after == less(total(entries@), r.freed as nat),
{
    let ghost all = referred(evict@);
    let ghost f = |e: Entry| (e.name@, e.bytes);
    let mut out: Vec<(String, u64)> = Vec::new();
    let mut freed: u64 = 0;
    let mut i: usize = 0;
    assert(all.take(0) =~= Seq::empty());
    assert(evicted_of(out@) =~= removed_of(all.take(0), removed@).map_values(f));
    while i < evict.len()
        invariant
            i <= evict.len(),
            removed@.len() == evict@.len(),
            all == referred(evict@),
            f == (|e: Entry| (e.name@, e.bytes)),
            total(all) <= u64::MAX,
            evicted_of(out@) == removed_of(all.take(i as int), removed@).map_values(f),
            freed == total(removed_of(all.take(i as int), removed@)),
            freed <= total(all.take(i as int)),
        decreases evict.len() - i,
    {
        let e = evict[i];
        proof {
            assert(all[i as int] == *e);
            assert(all.take(i + 1).drop_last() =~= all.take(i as int));
            lemma_total_grows(all, i + 1);
        }
        let ghost gone = removed_of(all.take(i as int), removed@);
        let ghost before = evicted_of(out@);
        if removed[i] {
            freed = freed + e.bytes;
            out.push((e.name.clone(), e.bytes));
            proof {
                assert(evicted_of(out@) =~= before.push((e.name@, e.bytes)));
                assert(gone.push(*e).map_values(f) =~= gone.map_values(f).push(f(*e)));
                assert(gone.push(*e).drop_last() =~= gone);
            }
        }
        i += 1;
    }
    assert(all.take(all.len() as int) =~= all);
    let used = used_bytes(entries);
    PruneReport {
        evicted: out,
        freed,
        used_after: if used > freed {
            used - freed
        } else {
            0
        },
    }
}

// --- what holds of eviction -------------------------------------------------------

/// Eviction never touches a protected entry, and takes only what is there.
pub proof fn protected_entries_stay(
    entries: Seq<Entry>,
    h: Seq<history::Record>,
    protected: Seq<String>,
    used: nat,
    budget: nat,
    i: int,
)
    requires
        0 <= i < evictions(evictable(entries, h, protected), used, budget).len(),
    ensures
        unprotected(evictions(evictable(entries, h, protected), used, budget)[i], protected),
        entries.contains(evictions(evictable(entries, h, protected), used, budget)[i]),
{
    broadcast use vstd::seq_lib::group_to_multiset_ensures;

    let order = evictable(entries, h, protected);
    let p = |e: Entry| unprotected(e, protected);
    let kept = entries.filter(p);
    let lt = |a: Entry, b: Entry| goes_before(a, b, h);
    lemma_evictions_prefix(order, used, budget);
    let e = evictions(order, used, budget)[i];
    assert(order[i] == e);
    assert(list::is_order(lt));
    list::sorting_orders(kept, lt);
    assert(order.contains(e));
    assert(order.to_multiset().count(e) > 0);
    assert(kept.to_multiset().count(e) > 0);
    assert(kept.contains(e));
    entries.lemma_filter_contains_rev(p, e);
}

/// What is evicted is the start of the order.
proof fn lemma_evictions_prefix(order: Seq<Entry>, used: nat, budget: nat)
    ensures
        evictions(order, used, budget).len() <= order.len(),
        forall|i: int|
            0 <= i < evictions(order, used, budget).len() ==> (#[trigger] evictions(
                order,
                used,
                budget,
            )[i]) == order[i],
    decreases order.len(),
{
    if order.len() > 0 && used > budget {
        let rest = order.drop_first();
        let left = less(used, order[0].bytes as nat);
        lemma_evictions_prefix(rest, left, budget);
        let r = evictions(rest, left, budget);
        assert forall|i: int| 0 <= i < evictions(order, used, budget).len() implies (
        #[trigger] evictions(order, used, budget)[i]) == order[i] by {
            if i > 0 {
                assert(evictions(order, used, budget)[i] == r[i - 1]);
                assert(rest[i - 1] == order[i]);
            }
        }
    }
}

/// What is left of a number of bytes once a list of entries is gone.
pub open spec fn left_after(used: nat, gone: Seq<Entry>) -> nat
    decreases gone.len(),
{
    if gone.len() == 0 {
        used
    } else {
        left_after(less(used, gone[0].bytes as nat), gone.drop_first())
    }
}

/// A plan meets the budget, or evicts everything that may go; and nothing is
/// evicted that need not be.
pub proof fn plan_meets_the_budget(order: Seq<Entry>, used: nat, budget: nat)
    ensures
        ({
            let e = evictions(order, used, budget);
            &&& left_after(used, e) <= budget || e == order
            &&& e.len() > 0 ==> left_after(used, e.drop_last()) > budget
        }),
    decreases order.len(),
{
    let e = evictions(order, used, budget);
    if order.len() == 0 {
        assert(e =~= order);
    } else if used > budget {
        let rest = order.drop_first();
        let left = less(used, order[0].bytes as nat);
        plan_meets_the_budget(rest, left, budget);
        let r = evictions(rest, left, budget);
        assert(e[0] == order[0]);
        assert(e.drop_first() =~= r);
        if r == rest {
            assert(e =~= order);
        }
        if r.len() > 0 {
            let d = e.drop_last();
            assert(d[0] == order[0]);
            assert(d.drop_first() =~= r.drop_last());
        } else {
            assert(e.drop_last() =~= Seq::empty());
        }
    }
}

/// Finished entries go before unknown ones, those before part-watched ones, and
/// within a class the one used longest ago goes first.
pub proof fn eviction_spares_what_is_being_watched(
    entries: Seq<Entry>,
    h: Seq<history::Record>,
    protected: Seq<String>,
    i: int,
    j: int,
)
    requires
        0 <= i < j < evictable(entries, h, protected).len(),
    ensures
        ({
            let a = evictable(entries, h, protected)[i];
            let b = evictable(entries, h, protected)[j];
            let x = classified(a.name@, h).level();
            let y = classified(b.name@, h).level();
            x < y || (x == y && a.last_used <= b.last_used)
        }),
{
    let p = |e: Entry| unprotected(e, protected);
    let lt = |a: Entry, b: Entry| goes_before(a, b, h);
    assert(list::is_order(lt));
    list::sorting_orders(entries.filter(p), lt);
    let r = evictable(entries, h, protected);
    assert(!lt(r[j], r[i]));
}

/// Finished entries are those of a record that is finished, and of a series the
/// episodes before the one it goes on at; others that a record is about are
/// part-watched, and an entry that none is about is unknown. The first record that
/// is about an entry decides.
pub proof fn the_first_record_decides(name: Seq<char>, s: Seq<history::Record>, i: int)
    requires
        0 <= i < s.len(),
        is_about(name_words(name), s[i]),
        forall|j: int| 0 <= j < i ==> !is_about(name_words(name), #[trigger] s[j]),
    ensures
        ({
            let r = s[i];
            let past = r.kind != "movie"@ && match episode_named(name) {
                Some((season, episode)) => r.season is Some && r.episode is Some && (season
                    < r.season->0 || (season == r.season->0 && episode < r.episode->0)),
                None => false,
            };
            &&& r.finished || past ==> classified(name, s) == WatchState::Finished
            &&& !r.finished && !past ==> classified(name, s) == WatchState::PartWatched
        }),
    decreases s.len(),
{
    if i > 0 {
        assert(!is_about(name_words(name), s[0]));
        let t = s.drop_first();
        assert forall|j: int| 0 <= j < i - 1 implies !is_about(name_words(name), #[trigger] t[j]) by {
            assert(t[j] == s[j + 1]);
        }
        the_first_record_decides(name, t, i - 1);
    }
}

/// An entry that no record is about is unknown.
pub proof fn strangers_are_unknown(name: Seq<char>, s: Seq<history::Record>)
    requires
        forall|j: int| 0 <= j < s.len() ==> !is_about(name_words(name), #[trigger] s[j]),
    ensures
        classified(name, s) == WatchState::Unknown,
    decreases s.len(),
{
    if s.len() > 0 {
        let t = s.drop_first();
        assert forall|j: int| 0 <= j < t.len() implies !is_about(name_words(name), #[trigger] t[j]) by {
            assert(t[j] == s[j + 1]);
        }
        strangers_are_unknown(name, t);
    }
}

/// A record is about an entry whose name holds every word of its title, and where
/// the record knows a year and the name holds one, that year.
pub proof fn titles_and_years_must_agree(words: Seq<Seq<char>>, r: history::Record)
    ensures
        ({
            let title = name_words(r.title);
            let dated = exists|i: int|
                0 <= i < words.len() && (#[trigger] words[i]).len() == 4 && ((words[i][0] == '1'
                    && words[i][1] == '9') || (words[i][0] == '2' && words[i][1] == '0'));
            is_about(words, r) <==> title.len() > 0 && (forall|i: int|
                0 <= i < title.len() ==> words.contains(#[trigger] title[i])) && (r.year.len() > 0
                && dated ==> words.contains(r.year))
        }),
{
    reveal_strlit("19");
    reveal_strlit("20");
    assert forall|w: Seq<char>| #[trigger] is_year(w) <==> w.len() == 4 && ((w[0] == '1' && w[1]
        == '9') || (w[0] == '2' && w[1] == '0')) by {
        if w.len() == 4 {
            assert(text::begins(w, "19"@) <==> w[0] == '1' && w[1] == '9') by {
                if w[0] == '1' && w[1] == '9' {
                    assert(w.take(2) =~= "19"@);
                } else {
                    assert(w.take(2)[0] == w[0] && w.take(2)[1] == w[1]);
                }
            }
            assert(text::begins(w, "20"@) <==> w[0] == '2' && w[1] == '0') by {
                if w[0] == '2' && w[1] == '0' {
                    assert(w.take(2) =~= "20"@);
                } else {
                    assert(w.take(2)[0] == w[0] && w.take(2)[1] == w[1]);
                }
            }
        }
    }
    if exists|i: int|
        0 <= i < words.len() && (#[trigger] words[i]).len() == 4 && ((words[i][0] == '1'
            && words[i][1] == '9') || (words[i][0] == '2' && words[i][1] == '0')) {
        let i = choose|i: int|
            0 <= i < words.len() && (#[trigger] words[i]).len() == 4 && ((words[i][0] == '1'
                && words[i][1] == '9') || (words[i][0] == '2' && words[i][1] == '0'));
        assert(is_year(words[i]));
    }
}

/// What may go is every entry that no name protects, and nothing else; finished
/// ones go before unknown ones, those before part-watched ones, and within each
/// the one used longest ago goes first.
pub proof fn whatever_is_unprotected_may_go(
    entries: Seq<Entry>,
    h: Seq<history::Record>,
    protected: Seq<String>,
    x: Entry,
)
    ensures
        ({
            let r = evictable(entries, h, protected);
            let named = exists|k: int|
                0 <= k < protected.len() && (#[trigger] protected[k])@ == x.name@;
            &&& r.contains(x) <==> entries.contains(x) && !named
            &&& forall|i: int, j: int|
                #![trigger r[i], r[j]]
                0 <= i < j < r.len() ==> {
                    let a = classified(r[i].name@, h);
                    let b = classified(r[j].name@, h);
                    &&& b == WatchState::Finished ==> a == WatchState::Finished
                    &&& a == WatchState::PartWatched ==> b == WatchState::PartWatched
                    &&& a == b ==> r[i].last_used <= r[j].last_used
                }
        }),
{
    broadcast use vstd::seq_lib::group_to_multiset_ensures;

    let p = |e: Entry| unprotected(e, protected);
    let lt = |a: Entry, b: Entry| goes_before(a, b, h);
    let kept = entries.filter(p);
    let r = evictable(entries, h, protected);
    assert(list::is_order(lt));
    list::sorting_orders(kept, lt);
    assert(r.to_multiset().count(x) == kept.to_multiset().count(x));
    let names = text::string_texts(protected);
    if kept.contains(x) {
        entries.lemma_filter_contains_rev(p, x);
        assert forall|k: int| 0 <= k < protected.len() implies (#[trigger] protected[k])@ != x.name@ by {
            assert(names[k] == protected[k]@);
        }
    }
    if entries.contains(x) && !(exists|k: int|
        0 <= k < protected.len() && (#[trigger] protected[k])@ == x.name@) {
        if names.contains(x.name@) {
            let k = choose|k: int| 0 <= k < names.len() && names[k] == x.name@;
            assert(protected[k]@ == x.name@);
        }
        let i = choose|i: int| 0 <= i < entries.len() && entries[i] == x;
        entries.lemma_filter_contains(p, i);
    }
    assert forall|i: int, j: int|
        #![trigger r[i], r[j]]
        0 <= i < j < r.len() implies ({
        let a = classified(r[i].name@, h);
        let b = classified(r[j].name@, h);
        &&& b == WatchState::Finished ==> a == WatchState::Finished
        &&& a == WatchState::PartWatched ==> b == WatchState::PartWatched
        &&& a == b ==> r[i].last_used <= r[j].last_used
    }) by {
        eviction_spares_what_is_being_watched(entries, h, protected, i, j);
    }
}

proof fn lemma_total_front(a: Entry, s: Seq<Entry>)
    ensures
        total(seq![a] + s) == a.bytes + total(s),
    decreases s.len(),
{
    let all = seq![a] + s;
    if s.len() > 0 {
        lemma_total_front(a, s.drop_last());
        assert(all.drop_last() =~= seq![a] + s.drop_last());
    } else {
        assert(all.drop_last() =~= Seq::empty());
        assert(total(all.drop_last()) == 0);
    }
}

proof fn lemma_total_placed(s: Seq<Entry>, x: Entry, lt: spec_fn(Entry, Entry) -> bool)
    ensures
        total(list::placed(s, x, lt)) == total(s) + x.bytes,
    decreases s.len(),
{
    if s.len() > 0 && lt(x, s.last()) {
        lemma_total_placed(s.drop_last(), x, lt);
        assert(list::placed(s.drop_last(), x, lt).push(s.last()).drop_last() =~= list::placed(
            s.drop_last(),
            x,
            lt,
        ));
    } else {
        assert(s.push(x).drop_last() =~= s);
    }
}

proof fn lemma_total_sorted(s: Seq<Entry>, lt: spec_fn(Entry, Entry) -> bool)
    ensures
        total(list::stable_sort(s, lt)) == total(s),
    decreases s.len(),
{
    if s.len() > 0 {
        lemma_total_sorted(s.drop_last(), lt);
        lemma_total_placed(list::stable_sort(s.drop_last(), lt), s.last(), lt);
    }
}

proof fn lemma_total_filtered(s: Seq<Entry>, p: spec_fn(Entry) -> bool)
    ensures
        total(s.filter(p)) <= total(s),
    decreases s.len(),
{
    if s.len() > 0 {
        let t = s.drop_last();
        lemma_total_filtered(t, p);
        assert(s =~= t.push(s.last()));
        text::lemma_filter_push(t, p, s.last());
        if p(s.last()) {
            assert(t.filter(p).push(s.last()).drop_last() =~= t.filter(p));
        }
    } else {
        reveal(Seq::filter);
    }
}

proof fn lemma_left_is_difference(used: nat, gone: Seq<Entry>)
    requires
        total(gone) <= used,
    ensures
        left_after(used, gone) == used - total(gone),
    decreases gone.len(),
{
    if gone.len() > 0 {
        let rest = gone.drop_first();
        assert(gone =~= seq![gone[0]] + rest);
        lemma_total_front(gone[0], rest);
        lemma_left_is_difference(less(used, gone[0].bytes as nat), rest);
    }
}

/// Pruning frees what it must and no more: what is left of the cache fits the
/// budget, or everything that may go is gone; and with the last of the evicted
/// still there it would not fit. They are the first of what may go.
pub proof fn pruning_frees_just_enough(
    entries: Seq<Entry>,
    h: Seq<history::Record>,
    protected: Seq<String>,
    budget: nat,
)
    ensures
        ({
            let order = evictable(entries, h, protected);
            let gone = evictions(order, total(entries), budget);
            &&& gone.len() <= order.len()
            &&& gone == order.take(gone.len() as int)
            &&& total(gone) <= total(entries)
            &&& total(entries) - total(gone) <= budget || gone.len() == order.len()
            &&& gone.len() > 0 ==> total(entries) - total(gone.drop_last()) > budget
            &&& total(entries) <= budget ==> gone.len() == 0
        }),
{
    let order = evictable(entries, h, protected);
    let used = total(entries);
    let gone = evictions(order, used, budget);
    let p = |e: Entry| unprotected(e, protected);
    let lt = |a: Entry, b: Entry| goes_before(a, b, h);
    lemma_evictions_prefix(order, used, budget);
    assert(gone =~= order.take(gone.len() as int));
    lemma_total_sorted(entries.filter(p), lt);
    lemma_total_filtered(entries, p);
    lemma_total_grows(order, gone.len() as int);
    plan_meets_the_budget(order, used, budget);
    lemma_left_is_difference(used, gone);
    if gone.len() > 0 {
        assert(gone.drop_last() =~= order.take(gone.len() - 1));
        lemma_total_grows(order, gone.len() - 1);
        lemma_left_is_difference(used, gone.drop_last());
    }
}

/// The bytes of entries add up.
pub proof fn bytes_add_up(s: Seq<Entry>, e: Entry)
    ensures
        total(Seq::empty()) == 0,
        total(s.push(e)) == total(s) + e.bytes,
{
    assert(s.push(e).drop_last() =~= s);
}

/// A name that says `S02E05` is of that episode, in two digits each, where no
/// other `S` stands before it.
pub proof fn two_digits_name_the_episode(name: Seq<char>, i: int)
    requires
        ({
            let s = text::lower(name);
            &&& 0 <= i && i + 6 <= s.len()
            &&& s[i] == 's' && s[i + 3] == 'e'
            &&& text::is_digit(s[i + 1]) && text::is_digit(s[i + 2])
            &&& text::is_digit(s[i + 4]) && text::is_digit(s[i + 5])
            &&& i + 6 < s.len() ==> !text::is_digit(s[i + 6])
            &&& forall|j: int| 0 <= j < i ==> s[j] != 's'
        }),
    ensures
        ({
            let s = text::lower(name);
            let d = |k: int| s[k] as int - '0' as int;
            episode_named(name) == Some(
                ((10 * d(i + 1) + d(i + 2)) as u32, (10 * d(i + 4) + d(i + 5)) as u32),
            )
        }),
{
    let s = text::lower(name);
    reveal_with_fuel(digits_at, 4);
    assert(digits_at(s, i + 1) == 2);
    assert(digits_at(s, i + 4) == 2);
    lemma_pair_value(s, i + 1);
    lemma_pair_value(s, i + 4);
    assert(marker_at(s, i) is Some);
    lemma_marker_reaches(s, 0, i);
}

proof fn lemma_pair_value(s: Seq<char>, i: int)
    requires
        0 <= i,
        i + 2 <= s.len(),
        text::is_digit(s[i]),
        text::is_digit(s[i + 1]),
    ensures
        number_at(s, i, 2) == 10 * (s[i] as int - '0' as int) + (s[i + 1] as int - '0' as int),
{
    let t = s.subrange(i, i + 2);
    reveal_with_fuel(text::digits_value, 3);
    assert(t.drop_last() =~= seq![s[i]]);
    assert(t.drop_last().drop_last() =~= Seq::empty());
}

proof fn lemma_marker_reaches(s: Seq<char>, j: int, i: int)
    requires
        0 <= j <= i < s.len(),
        marker_at(s, i) is Some,
        forall|k: int| 0 <= k < i ==> s[k] != 's',
    ensures
        marker_from(s, j, false) == marker_at(s, i),
    decreases i - j,
{
    if j < i {
        assert(s[j] != 's');
        lemma_marker_reaches(s, j + 1, i);
    }
}

/// A name without an `S` that says `2x05` is of that episode: a digit, a cross and
/// two digits, none of them part of a longer number, where no other cross stands
/// before it.
pub proof fn crosses_name_the_episode(name: Seq<char>, i: int)
    requires
        ({
            let s = text::lower(name);
            &&& 0 <= i && i + 4 <= s.len()
            &&& text::is_digit(s[i]) && s[i + 1] == 'x'
            &&& text::is_digit(s[i + 2]) && text::is_digit(s[i + 3])
            &&& i + 4 < s.len() ==> !text::is_digit(s[i + 4])
            &&& i > 0 ==> !text::is_digit(s[i - 1])
            &&& forall|j: int| 0 <= j < s.len() ==> s[j] != 's'
            &&& forall|j: int| 0 <= j < i ==> s[j] != 'x'
        }),
    ensures
        ({
            let s = text::lower(name);
            let d = |k: int| s[k] as int - '0' as int;
            episode_named(name) == Some((d(i) as u32, (10 * d(i + 2) + d(i + 3)) as u32))
        }),
{
    let s = text::lower(name);
    reveal_with_fuel(digits_at, 4);
    assert(digits_at(s, i) == 1);
    assert(digits_at(s, i + 2) == 2);
    lemma_pair_value(s, i + 2);
    let t = s.subrange(i, i + 1);
    reveal_with_fuel(text::digits_value, 2);
    assert(t.drop_last() =~= Seq::empty());
    assert(cross_at(s, i) is Some);
    lemma_no_marker(s, 0);
    lemma_cross_reaches(s, 0, i);
}

proof fn lemma_no_marker(s: Seq<char>, i: int)
    requires
        0 <= i,
        forall|j: int| 0 <= j < s.len() ==> s[j] != 's',
    ensures
        marker_from(s, i, false) is None,
    decreases s.len() - i,
{
    if i < s.len() {
        assert(s[i] != 's');
        lemma_no_marker(s, i + 1);
    }
}

proof fn lemma_cross_reaches(s: Seq<char>, j: int, i: int)
    requires
        0 <= j <= i,
        i + 1 < s.len(),
        cross_at(s, i) is Some,
        s[i + 1] == 'x',
        i > 0 ==> !text::is_digit(s[i - 1]),
        forall|k: int| 0 <= k < i ==> s[k] != 'x',
        text::is_digit(s[i]),
    ensures
        marker_from(s, j, true) == cross_at(s, i),
    decreases i - j,
{
    if j < i {
        reveal_with_fuel(digits_at, 3);
        assert(s[j] != 'x');
        assert(cross_at(s, j) is None) by {
            let x = j + digits_at(s, j);
            if cross_at(s, j) is Some {
                assert(s[x] == 'x');
                assert(x > i);
            }
        }
        lemma_cross_reaches(s, j + 1, i);
    }
}

// --- the cache as a report --------------------------------------------------------

/// One entry of the status.
pub open spec fn status_entry(e: Entry, h: Seq<history::Record>, active: Seq<String>) -> Tree {
    json::object(
        seq![
            ("name"@, Tree::Text(e.name@)),
            ("bytes"@, json::number(e.bytes)),
            ("last_used"@, json::number(e.last_used)),
            ("state"@, Tree::Text(state_label(classified(e.name@, h)))),
            ("active"@, Tree::Bool(!unprotected(e, active))),
        ],
    )
}

/// The one entry was used after the other.
pub open spec fn used_later(a: Entry, b: Entry) -> bool {
    a.last_used > b.last_used
}

struct LastUsedFirst;

impl<'a> Order<&'a Entry> for LastUsedFirst {
    closed spec fn before(&self, a: &'a Entry, b: &'a Entry) -> bool {
        used_later(*a, *b)
    }

    fn less(&self, a: &&'a Entry, b: &&'a Entry) -> (r: bool) {
        a.last_used > b.last_used
    }
}

/// The cache as JSON: the entries last used first, with what they hold.
pub fn status_value(
    dir: &str,
    entries: &[Entry],
    budget: u64,
    history: &History,
    active: &[String],
) -> (r: Json)
    requires
        total(entries@) <= u64::MAX,
    ensures
        r@ == json::object(
            seq![
                ("dir"@, Tree::Text(dir@)),
                ("budget_bytes"@, json::number(budget)),
                ("used_bytes"@, json::number(total(entries@) as u64)),
                (
                    "entries"@,
                    Tree::List(
                        list::stable_sort(
                            entries@,
                            |a: Entry, b: Entry| used_later(a, b),
                        ).map_values(|e: Entry| status_entry(e, history@, active@)),
                    ),
                ),
            ],
        ),
{
    let mut refs: Vec<&Entry> = Vec::new();
    let mut i: usize = 0;
    while i < entries.len()
        invariant
            i <= entries.len(),
            refs@.len() == i,
            forall|k: int| 0 <= k < i ==> *(#[trigger] refs@[k]) == entries@[k],
        decreases entries.len() - i,
    {
        refs.push(&entries[i]);
        i += 1;
    }
    let ghost all = refs@;
    assert(referred(all) =~= entries@);
    let order = LastUsedFirst;
    let sorted = list::sorted(refs, &order);
    proof {
        list::lemma_sort_maps(
            all,
            |e: &Entry| *e,
            |a: &Entry, b: &Entry| order.before(a, b),
            |a: Entry, b: Entry| used_later(a, b),
        );
    }
    let ghost done = referred(sorted@);
    let mut items: Vec<Json> = Vec::new();
    let mut k: usize = 0;
    while k < sorted.len()
        invariant
            k <= sorted.len(),
            items@.len() == k,
            forall|j: int|
                0 <= j < k ==> (#[trigger] items@[j])@ == status_entry(
                    *sorted@[j],
                    history@,
                    active@,
                ),
        decreases sorted.len() - k,
    {
        let e = sorted[k];
        let mut f = Fields::new();
        f.put("name", json::string(e.name.as_str()));
        f.put("bytes", json::unsigned(e.bytes));
        f.put("last_used", json::unsigned(e.last_used));
        f.put("state", json::string(classify(e.name.as_str(), history).label()));
        f.put("active", Json::Bool(is_listed(active, e.name.as_str())));
        assert(f@ =~= seq![
            ("name"@, Tree::Text(e.name@)),
            ("bytes"@, json::number(e.bytes)),
            ("last_used"@, json::number(e.last_used)),
            ("state"@, Tree::Text(state_label(classified(e.name@, history@)))),
            ("active"@, Tree::Bool(!unprotected(*e, active@))),
        ]);
        items.push(f.finish());
        k += 1;
    }
    let ghost h = history@;
    let ghost locked = active@;
    assert(json::values(items@) =~= done.map_values(|e: Entry| status_entry(e, h, locked)));
    let used = used_bytes(entries);
    let mut f = Fields::new();
    f.put("dir", json::string(dir));
    f.put("budget_bytes", json::unsigned(budget));
    f.put("used_bytes", json::unsigned(used));
    f.put("entries", json::array(items));
    assert(f@ =~= seq![
        ("dir"@, Tree::Text(dir@)),
        ("budget_bytes"@, json::number(budget)),
        ("used_bytes"@, json::number(total(entries@) as u64)),
        ("entries"@, Tree::List(done.map_values(|e: Entry| status_entry(e, h, locked)))),
    ]);
    f.finish()
}

/// The status lists every entry, the last used first.
pub proof fn the_status_lists_the_last_used_first(entries: Seq<Entry>)
    ensures
        ({
            let r = list::stable_sort(entries, |a: Entry, b: Entry| used_later(a, b));
            &&& r.to_multiset() == entries.to_multiset()
            &&& forall|i: int, j: int|
                0 <= i < j < r.len() ==> (#[trigger] r[i]).last_used >= (#[trigger] r[j]).last_used
        }),
{
    let lt = |a: Entry, b: Entry| used_later(a, b);
    assert(list::is_order(lt));
    list::sorting_orders(entries, lt);
    let r = list::stable_sort(entries, lt);
    assert forall|i: int, j: int| 0 <= i < j < r.len() implies (#[trigger] r[i]).last_used >= (
    #[trigger] r[j]).last_used by {
        assert(!lt(r[j], r[i]));
    }
}

/// An entry can be read back from the status, with what the history says of it
/// and whether it is being streamed from.
pub proof fn the_status_reads_back(e: Entry, h: Seq<history::Record>, active: Seq<String>)
    ensures
        ({
            let t = status_entry(e, h, active);
            let streamed = exists|k: int|
                0 <= k < active.len() && (#[trigger] active[k])@ == e.name@;
            &&& json::field(t, "name"@) == Some(Tree::Text(e.name@))
            &&& json::field(t, "bytes"@) == Some(json::number(e.bytes))
            &&& json::field(t, "last_used"@) == Some(json::number(e.last_used))
            &&& json::field(t, "state"@) == Some(
                Tree::Text(
                    match classified(e.name@, h) {
                        WatchState::Finished => "finished"@,
                        WatchState::Unknown => "unknown"@,
                        WatchState::PartWatched => "part-watched"@,
                    },
                ),
            )
            &&& json::field(t, "active"@) == Some(Tree::Bool(streamed))
        }),
{
    let s = seq![
        ("name"@, Tree::Text(e.name@)),
        ("bytes"@, json::number(e.bytes)),
        ("last_used"@, json::number(e.last_used)),
        ("state"@, Tree::Text(state_label(classified(e.name@, h)))),
        ("active"@, Tree::Bool(!unprotected(e, active))),
    ];
    assert(status_entry(e, h, active) == json::object(s));
    reveal_strlit("name");
    reveal_strlit("bytes");
    reveal_strlit("last_used");
    reveal_strlit("state");
    reveal_strlit("active");
    assert("name"@[0] == 'n' && "bytes"@[0] == 'b' && "last_used"@[0] == 'l');
    assert("state"@[0] == 's' && "active"@[0] == 'a');
    json::lemma_field_at(s, 0);
    json::lemma_field_at(s, 1);
    json::lemma_field_at(s, 2);
    json::lemma_field_at(s, 3);
    json::lemma_field_at(s, 4);
    let names = text::string_texts(active);
    if names.contains(e.name@) {
        let k = choose|k: int| 0 <= k < names.len() && names[k] == e.name@;
        assert(active[k]@ == e.name@);
    }
    if exists|k: int| 0 <= k < active.len() && (#[trigger] active[k])@ == e.name@ {
        let k = choose|k: int| 0 <= k < active.len() && (#[trigger] active[k])@ == e.name@;
        assert(names[k] == e.name@);
    }
}

/// What is hidden is no data, and neither are the images and the answers that are
/// kept beside it; all else is. A budget is counted in 1024 times 1024 times 1024
/// bytes.
pub proof fn hidden_names_are_no_data(name: Seq<char>, n: u64)
    ensures
        name.len() > 0 && name[0] == '.' ==> !is_data(name),
        !is_data("img"@),
        !is_data("api"@),
        name != "img"@ && name != "api"@ && (name.len() == 0 || name[0] != '.') ==> is_data(name),
        n <= 17_179_869_183 ==> gib(n) == n * 1024 * 1024 * 1024,
        n > 17_179_869_183 ==> gib(n) == u64::MAX,
{
}

} // verus!
