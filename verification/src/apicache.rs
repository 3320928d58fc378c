//! Disk cache for `dekho api` answers, so the panel opens without waiting on
//! TMDB.
//!
//! Each verb's finished JSON object is cached under
//! `$XDG_CACHE_HOME/dekho/api/`, keyed by the verb and its arguments, with a
//! TTL per verb: hours for a title's details, minutes for a search.
//!
//! Two rules make it useful rather than just fast:
//!
//! - **Stale beats an error.** When the network fails, an expired entry is
//!   served instead of an error: a hub showing yesterday's trending beats a hub
//!   showing a red line. The payload says so (`"stale": true`), so a caller
//!   that cares can tell.
//! - **Cache answers are marked.** Anything served from disk carries
//!   `"cached": true` and `"age_secs"`. Fresh network answers carry neither.
//!
//! `--refresh` skips the fresh-cache read (the answer is still written back,
//! and still falls back to stale if the network refuses).

use crate::json;
use crate::json::{Fields, Json, Tree};
use crate::text;
use crate::xdg;
use crate::xdg::Environment;
use vstd::prelude::*;

verus! {

/// Where cached answers live, beside the image cache.
pub fn dir(env: &Environment) -> (r: String)
    ensures
        r@ == xdg::own_file(
            xdg::base_dir(env.xdg_cache_home, env.home, ".cache"@, env.temp_dir@),
            "api"@,
        ),
{
    let base = xdg::cache_home(env);
    xdg::dekho_file(base.as_str(), "api")
}

/// How long the answer to a verb holds, in seconds.
pub open spec fn time_to_live(verb: Seq<char>) -> Option<u64> {
    if verb == "search"@ {
        Some(900)
    } else if verb == "trending"@ || verb == "discover"@ {
        Some(3_600)
    } else if verb == "title"@ || verb == "videos"@ {
        Some(86_400)
    } else if verb == "episodes"@ {
        Some(21_600)
    } else if verb == "person"@ {
        Some(259_200)
    } else {
        None
    }
}

/// Per-verb time-to-live, in seconds.
///
/// The figures follow how fast each answer actually goes stale: a title's
/// details survive a day, a search a quarter hour. `genres` and `languages`
/// never reach the network, so they need no entry. The people-shaped answers
/// last longest, because they change slowest.
pub fn ttl_secs(verb: &str) -> (r: Option<u64>)
    ensures
        r == time_to_live(verb@),
{
    if text::same_str(verb, "search") {
        Some(900)
    } else if text::same_str(verb, "trending") || text::same_str(verb, "discover") {
        Some(3_600)
    } else if text::same_str(verb, "title") || text::same_str(verb, "videos") {
        Some(86_400)
    } else if text::same_str(verb, "episodes") {
        Some(21_600)
    } else if text::same_str(verb, "person") {
        Some(259_200)
    } else {
        None
    }
}

// --- keys -------------------------------------------------------------------------

/// FNV-1a over a list of bytes.
pub open spec fn fnv(bytes: Seq<u8>) -> u64
    decreases bytes.len(),
{
    if bytes.len() == 0 {
        0xcbf2_9ce4_8422_2325
    } else {
        let mixed = fnv(bytes.drop_last()) ^ (bytes.last() as u64);
        ((mixed * 0x0000_0100_0000_01b3) % 0x1_0000_0000_0000_0000) as u64
    }
}

/// A hexadecimal digit in lower case.
pub open spec fn hex_digit(d: nat) -> char {
    if d < 10 {
        ('0' as u32 + d) as char
    } else {
        ('a' as u32 + (d - 10)) as char
    }
}

/// The last `places` hexadecimal digits of a number.
pub open spec fn hex(n: nat, places: nat) -> Seq<char>
    decreases places,
{
    if places == 0 {
        Seq::empty()
    } else {
        hex(n / 16, (places - 1) as nat).push(hex_digit(n % 16))
    }
}

/// The key of a list of parts: the first of them, so that the file names stay
/// legible, and the hash of them all.
pub open spec fn key_of(parts: Seq<Seq<char>>) -> Seq<char> {
    (if parts.len() > 0 {
        parts[0]
    } else {
        "v"@
    }) + "-"@ + hex(
        fnv(vstd::utf8::encode_utf8(text::join(parts, "\u{1f}"@))) as nat,
        16,
    )
}

fn hash(bytes: &[u8]) -> (r: u64)
    ensures
        r == fnv(bytes@),
{
    let mut h: u64 = 0xcbf2_9ce4_8422_2325;
    let mut i: usize = 0;
    assert(bytes@.take(0) =~= Seq::empty());
    while i < bytes.len()
        invariant
            i <= bytes.len(),
            h == fnv(bytes@.take(i as int)),
        decreases bytes.len() - i,
    {
        assert(bytes@.take(i + 1).drop_last() =~= bytes@.take(i as int));
        let mixed: u64 = h ^ (bytes[i] as u64);
        h = ((mixed as u128 * 0x0000_0100_0000_01b3) % 0x1_0000_0000_0000_0000) as u64;
        i += 1;
    }
    assert(bytes@.take(bytes@.len() as int) =~= bytes@);
    h
}

fn write_hex(n: u64, places: u32) -> (r: Vec<char>)
    ensures
        r@ == hex(n as nat, places as nat),
    decreases places,
{
    if places == 0 {
        return Vec::new();
    }
    let mut out = write_hex(n / 16, places - 1);
    let d: u8 = (n % 16) as u8;
    out.push(
        if d < 10 {
            (48 + d) as char
        } else {
            (87 + d) as char
        },
    );
    out
}

/// A cache key from the verb and its arguments.
pub fn key(parts: &[&str]) -> (r: String)
    ensures
        r@ == key_of(text::str_texts(parts@)),
{
    let mut pieces: Vec<Vec<char>> = Vec::new();
    let mut i: usize = 0;
    while i < parts.len()
        invariant
            i <= parts.len(),
            pieces@.len() == i,
            forall|k: int| 0 <= k < i ==> (#[trigger] pieces@[k])@ == parts@[k]@,
        decreases parts.len() - i,
    {
        pieces.push(text::chars_of(parts[i]));
        i += 1;
    }
    assert(text::texts(pieces@) =~= text::str_texts(parts@));
    let joined = text::joined(&pieces, "\u{1f}");
    let whole = text::string_of(joined.as_slice());
    let h = hash(whole.as_str().as_bytes());
    let mut out = if parts.len() > 0 {
        text::chars_of(parts[0])
    } else {
        text::chars_of("v")
    };
    assert(parts@.len() > 0 ==> out@ == text::str_texts(parts@)[0]);
    text::push_str(&mut out, "-");
    let digits = write_hex(h, 16);
    text::push_all(&mut out, digits.as_slice());
    text::string_of(out.as_slice())
}

/// The file that an answer is kept in.
pub fn file_name(key: &str) -> (r: String)
    ensures
        r@ == key@ + ".json"@,
{
    let mut out = text::chars_of(key);
    text::push_str(&mut out, ".json");
    text::string_of(out.as_slice())
}

// --- answers ----------------------------------------------------------------------

/// A cached answer and how old it is.
pub struct Cached {
    pub value: Json,
    pub age_secs: u64,
}

/// Whether an entry of `age_secs` still answers for a verb with `ttl`.
pub fn is_fresh(age_secs: u64, ttl_secs: u64) -> (r: bool)
    ensures
        r == (age_secs <= ttl_secs),
{
    age_secs <= ttl_secs
}

/// An answer as it is kept: with the time it was saved at.
pub open spec fn stored_value(value: Tree, now: u64) -> Tree {
    json::object(seq![("saved"@, json::number(now)), ("value"@, value)])
}

/// An answer as it is kept.
pub fn stored(value: Json, now: u64) -> (r: Json)
    ensures
        r@ == stored_value(value@, now),
{
    let mut f = Fields::new();
    f.put("saved", json::unsigned(now));
    f.put("value", value);
    assert(f@ =~= seq![("saved"@, json::number(now)), ("value"@, value@)]);
    f.finish()
}

/// How old something saved at one time is at another.
pub open spec fn age(saved: u64, now: u64) -> u64 {
    if now > saved {
        (now - saved) as u64
    } else {
        0
    }
}

/// What a kept answer holds, and how old it is.
pub open spec fn kept_answer(stored: Tree, now: u64) -> Option<(Tree, u64)> {
    match (json::field(stored, "saved"@), json::field(stored, "value"@)) {
        (Some(s), Some(v)) => match json::as_unsigned(s) {
            Some(saved) => Some((v, age(saved, now))),
            None => None,
        },
        _ => None,
    }
}

/// Reads the file of a kept answer; none where it holds no JSON, or no answer.
pub fn read(raw: &str, now: u64) -> (r: Option<Cached>)
    ensures
        match json::read_value(raw@) {
            Some(stored) => match r {
                Some(c) => kept_answer(stored, now) == Some((c.value@, c.age_secs)),
                None => kept_answer(stored, now) is None,
            },
            None => r is None,
        },
{
    match json::parse(raw) {
        Some(stored) => unpack(stored, now),
        None => None,
    }
}

/// What a kept answer holds, and how old it is.
pub fn unpack(stored: Json, now: u64) -> (r: Option<Cached>)
    ensures
        match r {
            Some(c) => kept_answer(stored@, now) == Some((c.value@, c.age_secs)),
            None => kept_answer(stored@, now) is None,
        },
{
    let saved: u64 = match stored.get("saved") {
        Some(s) => match s.as_u64() {
            Some(n) => n,
            None => {
                return None;
            },
        },
        None => {
            return None;
        },
    };
    let age_secs: u64 = if now > saved {
        now - saved
    } else {
        0
    };
    match stored.take("value") {
        Some(value) => Some(Cached { value, age_secs }),
        None => None,
    }
}

/// An answer marked as served from disk.
pub open spec fn marked(value: Tree, age_secs: u64, stale: bool) -> Tree {
    let v = json::with_field(
        json::with_field(value, "cached"@, Tree::Bool(true)),
        "age_secs"@,
        json::number(age_secs),
    );
    if stale {
        json::with_field(v, "stale"@, Tree::Bool(true))
    } else {
        v
    }
}

/// Mark an answer as served from disk. `stale` means it had expired and is
/// only being served because the network failed.
pub fn mark(value: Json, age_secs: u64, stale: bool) -> (r: Json)
    ensures
        r@ == marked(value@, age_secs, stale),
{
    let v = value.with("cached", Json::Bool(true)).with("age_secs", json::unsigned(age_secs));
    if stale {
        v.with("stale", Json::Bool(true))
    } else {
        v
    }
}

/// The answer without the network: a fresh entry, unless a refresh is asked
/// for. `ttl` of `None` is a verb that must stay live.
pub fn serve(ttl: Option<u64>, refresh: bool, hit: Option<Cached>) -> (r: Option<Json>)
    ensures
        match (ttl, hit) {
            (Some(t), Some(c)) => if !refresh && c.age_secs <= t {
                r is Some && r->0@ == marked(c.value@, c.age_secs, false)
            } else {
                r is None
            },
            _ => r is None,
        },
{
    if refresh {
        return None;
    }
    match (ttl, hit) {
        (Some(t), Some(c)) => {
            if is_fresh(c.age_secs, t) {
                Some(mark(c.value, c.age_secs, false))
            } else {
                None
            }
        },
        _ => None,
    }
}

/// The answer when the network failed: an entry of whatever age rather than an
/// error, for a verb that is kept at all.
pub fn serve_stale(ttl: Option<u64>, hit: Option<Cached>) -> (r: Option<Json>)
    ensures
        match (ttl, hit) {
            (Some(_), Some(c)) => r is Some && r->0@ == marked(c.value@, c.age_secs, true),
            _ => r is None,
        },
{
    match (ttl, hit) {
        (Some(_), Some(c)) => Some(mark(c.value, c.age_secs, true)),
        _ => None,
    }
}

/// What becomes of an answer that the network gave: it is handed on as it came,
/// and for a verb that is kept at all, written down as it is kept.
pub fn fetched(ttl: Option<u64>, value: Json, now: u64) -> (r: (Json, Option<Json>))
    ensures
        r.0@ == value@,
        match r.1 {
            Some(kept) => ttl is Some && kept@ == stored_value(value@, now),
            None => ttl is None,
        },
{
    match ttl {
        Some(_) => {
            let kept = stored(value.clone(), now);
            (value, Some(kept))
        },
        None => (value, None),
    }
}

/// What a request that went to the network comes to: what the network gave, and
/// what of it to write down; or where it failed, what was kept, of whatever age,
/// and only where nothing was, the failure.
pub fn settle<E>(
    ttl: Option<u64>,
    got: Result<Json, E>,
    hit: Option<Cached>,
    now: u64,
) -> (r: (Result<Json, E>, Option<Json>))
    ensures
        match got {
            Ok(value) => {
                &&& r.0 is Ok && r.0->Ok_0@ == value@
                &&& match r.1 {
                    Some(kept) => ttl is Some && kept@ == stored_value(value@, now),
                    None => ttl is None,
                }
            },
            Err(e) => {
                &&& r.1 is None
                &&& match (ttl, hit) {
                    (Some(_), Some(c)) => r.0 is Ok && r.0->Ok_0@ == marked(
                        c.value@,
                        c.age_secs,
                        true,
                    ),
                    _ => r.0 == Err::<Json, E>(e),
                }
            },
        },
{
    match got {
        Ok(value) => {
            let (given, kept) = fetched(ttl, value, now);
            (Ok(given), kept)
        },
        Err(e) => match serve_stale(ttl, hit) {
            Some(answer) => (Ok(answer), None),
            None => (Err(e), None),
        },
    }
}

// --- what holds of the cache ------------------------------------------------------

/// What is kept is what is read back, with the time that has passed since.
pub proof fn kept_answers_read_back(value: Tree, saved: u64, now: u64)
    ensures
        kept_answer(stored_value(value, saved), now) == Some((value, age(saved, now))),
{
    let s = seq![("saved"@, json::number(saved)), ("value"@, value)];
    reveal_strlit("saved");
    reveal_strlit("value");
    assert("saved"@ != "value"@) by {
        assert("saved"@[0] != "value"@[0]);
    }
    reveal_with_fuel(json::fields, 3);
    assert(s.drop_last() =~= seq![("saved"@, json::number(saved))]);
    assert(s.drop_last().drop_last() =~= Seq::empty());
}

/// Marking leaves every other field of an answer alone.
pub proof fn marking_touches_nothing_else(
    m: Map<Seq<char>, Tree>,
    age_secs: u64,
    stale: bool,
    name: Seq<char>,
)
    requires
        name != "cached"@,
        name != "age_secs"@,
        name != "stale"@,
    ensures
        json::field(marked(Tree::Object(m), age_secs, stale), name) == json::field(
            Tree::Object(m),
            name,
        ),
{
}

/// A marked answer says that it comes from disk, how old it is, and whether it
/// had expired; only a stale one carries that mark where the answer had none.
pub proof fn marks_can_be_read(m: Map<Seq<char>, Tree>, age_secs: u64, stale: bool)
    requires
        !m.contains_key("stale"@),
    ensures
        ({
            let v = marked(Tree::Object(m), age_secs, stale);
            &&& json::field(v, "cached"@) == Some(Tree::Bool(true))
            &&& json::field(v, "age_secs"@) == Some(json::number(age_secs))
            &&& json::field(v, "stale"@) == (if stale {
                Some(Tree::Bool(true))
            } else {
                None
            })
        }),
{
    reveal_strlit("cached");
    reveal_strlit("age_secs");
    reveal_strlit("stale");
    assert("cached"@.len() == 6 && "age_secs"@.len() == 8 && "stale"@.len() == 5);
}

/// An answer is as old as the seconds since it was saved, and new where the
/// clock has gone back; it is kept the shorter the sooner it changes, and what
/// must stay live is not kept at all.
pub proof fn answers_age_by_the_clock(saved: u64, now: u64, verb: Seq<char>)
    ensures
        now >= saved ==> age(saved, now) == now - saved,
        now < saved ==> age(saved, now) == 0,
        time_to_live(verb) is Some ==> 15 * 60 <= time_to_live(verb)->0 <= 3 * 24 * 60 * 60,
        verb == "search"@ ==> time_to_live(verb) == Some((15 * 60) as u64),
        verb == "trending"@ || verb == "discover"@ ==> time_to_live(verb) == Some(
            (60 * 60) as u64,
        ),
        verb == "episodes"@ ==> time_to_live(verb) == Some((6 * 60 * 60) as u64),
        verb == "title"@ || verb == "videos"@ ==> time_to_live(verb) == Some(
            (24 * 60 * 60) as u64,
        ),
        verb == "person"@ ==> time_to_live(verb) == Some((3 * 24 * 60 * 60) as u64),
        verb != "search"@ && verb != "trending"@ && verb != "discover"@ && verb != "episodes"@
            && verb != "title"@ && verb != "videos"@ && verb != "person"@ ==> time_to_live(verb)
            is None,
{
    reveal_strlit("search");
    reveal_strlit("trending");
    reveal_strlit("discover");
    reveal_strlit("episodes");
    reveal_strlit("title");
    reveal_strlit("videos");
    reveal_strlit("person");
    assert("search"@[0] == 's' && "trending"@[0] == 't' && "discover"@[0] == 'd');
    assert("episodes"@[0] == 'e' && "title"@[1] == 'i' && "videos"@[0] == 'v');
    assert("person"@[0] == 'p' && "trending"@[1] == 'r' && "title"@[0] == 't');
}

/// A key is the verb it is for, a hyphen, and sixteen hexadecimal digits in small
/// letters; without a verb a letter stands for it.
pub proof fn keys_name_their_verb(parts: Seq<Seq<char>>)
    ensures
        parts.len() > 0 ==> key_of(parts).len() == parts[0].len() + 17 && key_of(parts).take(
            parts[0].len() as int + 1,
        ) == parts[0] + "-"@,
        parts.len() == 0 ==> key_of(parts).len() == 18 && key_of(parts).take(2) == "v"@ + "-"@,
        forall|i: int|
            key_of(parts).len() - 16 <= i < key_of(parts).len() ==> ('0' <= #[trigger] key_of(
                parts,
            )[i] <= '9' || 'a' <= key_of(parts)[i] <= 'f'),
{
    reveal_strlit("-");
    reveal_strlit("v");
    let n = fnv(vstd::utf8::encode_utf8(text::join(parts, "\u{1f}"@))) as nat;
    lemma_hex(n, 16);
    let verb = if parts.len() > 0 {
        parts[0]
    } else {
        "v"@
    };
    let k = key_of(parts);
    assert(k =~= verb + "-"@ + hex(n, 16));
    assert(k.take(verb.len() as int + 1) =~= verb + "-"@);
    assert forall|i: int| k.len() - 16 <= i < k.len() implies ('0' <= #[trigger] k[i] <= '9' || 'a'
        <= k[i] <= 'f') by {
        assert(k[i] == hex(n, 16)[i - (k.len() - 16)]);
    }
}

/// The value of a hexadecimal digit in small letters.
pub open spec fn sixteenths(c: char) -> int {
    if '0' <= c <= '9' {
        c as int - '0' as int
    } else if 'a' <= c <= 'f' {
        c as int - 'a' as int + 10
    } else {
        -1
    }
}

/// The last hexadecimal digit of a number is what sixteen leaves of it, and those
/// before it are of the number by sixteen.
pub proof fn digits_are_sixteenths(n: nat, places: nat)
    requires
        places > 0,
    ensures
        hex(n, places).len() == places,
        sixteenths(hex(n, places).last()) == n % 16,
        hex(n, places).drop_last() == hex(n / 16, (places - 1) as nat),
{
    lemma_hex(n, places);
    let before = hex(n / 16, (places - 1) as nat);
    assert(hex(n, places) == before.push(hex_digit(n % 16)));
    assert(hex(n, places).drop_last() =~= before);
}

proof fn lemma_hex(n: nat, places: nat)
    ensures
        hex(n, places).len() == places,
        forall|i: int|
            0 <= i < places ==> ('0' <= #[trigger] hex(n, places)[i] <= '9' || 'a' <= hex(
                n,
                places,
            )[i] <= 'f'),
    decreases places,
{
    if places > 0 {
        lemma_hex(n / 16, (places - 1) as nat);
        let before = hex(n / 16, (places - 1) as nat);
        assert forall|i: int| 0 <= i < places implies ('0' <= #[trigger] hex(n, places)[i] <= '9'
            || 'a' <= hex(n, places)[i] <= 'f') by {
            if i < places - 1 {
                assert(hex(n, places)[i] == before[i]);
            }
        }
    }
}

} // verus!
