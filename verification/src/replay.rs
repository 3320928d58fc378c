//! Which release played last time, so re-watching and resuming start from the
//! pieces already on disk.
//!
//! The resolution walk is not stable enough to promise that resuming a film
//! lands on the same release whose pieces are cached. Remembering the winner's
//! info hash per title lets it be tried *first*, where the probe's
//! instant-start path can recognise the cached slab and skip straight to the
//! player.
//!
//! Deliberately only a hint: the remembered release is promoted within the
//! shortlist, not exempted from it. A release the adapted bitrate ceiling now
//! rejects stays rejected: a cached head does not make the remaining hour of
//! an over-heavy stream sustainable.

use crate::history;
use crate::list;
use crate::list::{Condition, Order};
use crate::pick;
use crate::sources;
use crate::text;
use crate::torrentio::Candidate;
use crate::xdg;
use crate::xdg::Environment;
use vstd::prelude::*;

verus! {

/// Bumped only if the shape changes in a way an older dekho cannot read.
pub const VERSION: u32 = 1;

/// Entries kept, dropping the least recently updated: the whole file is
/// rewritten on every save.
pub const MAX_ENTRIES: usize = 200;

/// One remembered winner. The key is Torrentio's stream id, `tt123` for a
/// movie, `tt123:2:5` for an episode, because that is exactly the identity
/// candidates are looked up by.
#[derive(Debug)]
pub struct Remembered {
    pub key: String,
    /// Lowercased btih info hash.
    pub info_hash: String,
    pub updated: u64,
}

/// What an entry says.
#[verifier::ext_equal]
pub struct Memory {
    pub key: Seq<char>,
    pub info_hash: Seq<char>,
    pub updated: u64,
}

impl View for Remembered {
    type V = Memory;

    open spec fn view(&self) -> Memory {
        Memory { key: self.key@, info_hash: self.info_hash@, updated: self.updated }
    }
}

impl Clone for Remembered {
    fn clone(&self) -> (r: Remembered)
        ensures
            r == *self,
    {
        Remembered {
            key: self.key.clone(),
            info_hash: self.info_hash.clone(),
            updated: self.updated,
        }
    }
}

#[derive(Debug)]
pub struct Replay {
    pub version: u32,
    pub items: Vec<Remembered>,
}

impl View for Replay {
    type V = Seq<Memory>;

    open spec fn view(&self) -> Seq<Memory> {
        self.items@.map_values(|r: Remembered| r@)
    }
}

/// The hash remembered for a key.
pub open spec fn recalled(s: Seq<Memory>, key: Seq<char>) -> Option<Seq<char>>
    decreases s.len(),
{
    if s.len() == 0 {
        None
    } else if s[0].key == key {
        Some(s[0].info_hash)
    } else {
        recalled(s.drop_first(), key)
    }
}

/// The one entry was updated after the other.
pub open spec fn newer(a: Memory, b: Memory) -> bool {
    a.updated > b.updated
}

/// The entries of other keys.
pub open spec fn others(s: Seq<Memory>, key: Seq<char>) -> Seq<Memory> {
    s.filter(|x: Memory| x.key != key)
}

/// The entries once a winner is remembered: it takes the place of an earlier
/// one of its key, the newest come first, and the oldest make room.
pub open spec fn remembering(s: Seq<Memory>, m: Memory) -> Seq<Memory> {
    list::first(
        list::stable_sort(
            seq![m] + others(s, m.key),
            |a: Memory, b: Memory| newer(a, b),
        ),
        MAX_ENTRIES as nat,
    )
}

struct OtherKey<'a> {
    key: &'a str,
}

impl<'a> Condition<Remembered> for OtherKey<'a> {
    closed spec fn passes(&self, r: Remembered) -> bool {
        r@.key != self.key@
    }

    fn check(&self, r: &Remembered) -> (b: bool) {
        !text::same_str(r.key.as_str(), self.key)
    }
}

struct NewestFirst;

impl Order<Remembered> for NewestFirst {
    open spec fn before(&self, a: Remembered, b: Remembered) -> bool {
        newer(a@, b@)
    }

    fn less(&self, a: &Remembered, b: &Remembered) -> (r: bool) {
        a.updated > b.updated
    }
}

impl Replay {
    pub fn empty() -> (r: Replay)
        ensures
            r.version == VERSION,
            r@ == Seq::<Memory>::empty(),
    {
        let r = Replay { version: VERSION, items: Vec::new() };
        assert(r@ =~= Seq::empty());
        r
    }

    pub fn recall(&self, key: &str) -> (r: Option<&str>)
        ensures
            match r {
                Some(h) => recalled(self@, key@) == Some(h@),
                None => recalled(self@, key@) is None,
            },
    {
        let mut i: usize = 0;
        assert(self@.skip(0) =~= self@);
        while i < self.items.len()
            invariant
                i <= self.items.len(),
                recalled(self@, key@) == recalled(self@.skip(i as int), key@),
            decreases self.items.len() - i,
        {
            assert(self@.skip(i as int)[0] == self.items@[i as int]@);
            if text::same_str(self.items[i].key.as_str(), key) {
                return Some(self.items[i].info_hash.as_str());
            }
            assert(self@.skip(i as int).drop_first() =~= self@.skip(i + 1));
            i += 1;
        }
        None
    }

    pub fn remember(&mut self, key: &str, info_hash: &str, now: u64)
        ensures
            final(self)@ == remembering(
                old(self)@,
                (Memory { key: key@, info_hash: text::lower(info_hash@), updated: now }),
            ),
            final(self).version == old(self).version,
    {
        let ghost before = self.items@;
        let ghost seen = |r: Remembered| r@;
        let mut items: Vec<Remembered> = Vec::new();
        std::mem::swap(&mut items, &mut self.items);
        let test = OtherKey { key };
        let mut kept = list::kept(items, &test);
        let hash = text::chars_of(info_hash);
        let low = text::lowered(hash.as_slice());
        let new = Remembered {
            key: key.to_string(),
            info_hash: text::string_of(low.as_slice()),
            updated: now,
        };
        let ghost m = new@;
        let ghost rest = kept@;
        kept.insert(0, new);
        let ghost all = kept@;
        let order = NewestFirst;
        let sorted = list::sorted(kept, &order);
        let ghost ordered = sorted@;
        self.items = list::cut(sorted, MAX_ENTRIES);
        proof {
            list::lemma_filter_maps(
                before,
                seen,
                |r: Remembered| test.passes(r),
                |x: Memory| x.key != m.key,
            );
            assert(all.map_values(seen) =~= seq![m] + rest.map_values(seen));
            list::lemma_sort_maps(
                all,
                seen,
                |a: Remembered, b: Remembered| order.before(a, b),
                |a: Memory, b: Memory| newer(a, b),
            );
            assert(self@ =~= list::first(ordered.map_values(seen), MAX_ENTRIES as nat));
        }
    }
}

/// The place of the first release with a hash.
pub open spec fn place(order: Seq<Candidate>, hash: Seq<char>) -> Option<int>
    decreases order.len(),
{
    if order.len() == 0 {
        None
    } else if sources::hash_of(order[0].magnet@) == hash {
        Some(0)
    } else {
        match place(order.drop_first(), hash) {
            Some(i) => Some(i + 1),
            None => None,
        }
    }
}

/// The order with the release of a hash moved to the front.
pub open spec fn promoted(order: Seq<Candidate>, hash: Option<Seq<char>>) -> Seq<Candidate> {
    match hash {
        Some(h) => match place(order, h) {
            Some(i) => seq![order[i]] + order.remove(i),
            None => order,
        },
        None => order,
    }
}

/// Where the first release with a hash stands.
pub fn position(order: &Vec<&Candidate>, hash: &str) -> (r: Option<usize>)
    ensures
        match r {
            Some(i) => place(pick::referred(order@), hash@) == Some(i as int),
            None => place(pick::referred(order@), hash@) is None,
        },
{
    let ghost all = pick::referred(order@);
    let mut i: usize = 0;
    assert(all.skip(0) =~= all);
    while i < order.len()
        invariant
            i <= order.len(),
            all == pick::referred(order@),
            match place(all.skip(i as int), hash@) {
                Some(k) => place(all, hash@) == Some(k + i),
                None => place(all, hash@) is None,
            },
        decreases order.len() - i,
    {
        let h = sources::info_hash_of(order[i].magnet.as_str());
        assert(all.skip(i as int)[0] == *order@[i as int]);
        if text::same_str(h.as_str(), hash) {
            assert(place(all, hash@) == Some(i as int));
            return Some(i);
        }
        assert(all.skip(i as int).drop_first() =~= all.skip(i + 1));
        i += 1;
    }
    None
}

/// Move the remembered release to the front of the attempt order, if it is
/// still in it. Order among the rest is preserved.
pub fn promote<'a>(order: Vec<&'a Candidate>, info_hash: Option<&str>) -> (r: Vec<&'a Candidate>)
    ensures
        pick::referred(r@) == promoted(
            pick::referred(order@),
            match info_hash {
                Some(h) => Some(h@),
                None => None,
            },
        ),
{
    let hash: &str = match info_hash {
        Some(h) => h,
        None => {
            return order;
        },
    };
    let ghost all = pick::referred(order@);
    match position(&order, hash) {
        Some(i) => {
            proof {
                lemma_place(all, hash@);
            }
            let mut moved = order;
            let chosen = moved.remove(i);
            moved.insert(0, chosen);
            assert(pick::referred(moved@) =~= seq![all[i as int]] + all.remove(i as int));
            moved
        },
        None => order,
    }
}

// --- what holds of the memory -----------------------------------------------------

/// What is remembered is recalled, as long as the clock has not gone back.
pub proof fn remembered_is_recalled(s: Seq<Memory>, m: Memory)
    requires
        forall|i: int| 0 <= i < s.len() ==> (#[trigger] s[i]).updated <= m.updated,
    ensures
        recalled(remembering(s, m), m.key) == Some(m.info_hash),
{
    let p = |x: Memory| x.key != m.key;
    let lt = |a: Memory, b: Memory| newer(a, b);
    let rest = others(s, m.key);
    assert forall|i: int| 0 <= i < rest.len() implies !lt(#[trigger] rest[i], m) by {
        s.lemma_filter_contains_rev(p, rest[i]);
        let k = choose|k: int| 0 <= k < s.len() && s[k] == rest[i];
        assert(s[k].updated <= m.updated);
    }
    list::lemma_leader_stays(m, rest, lt);
    assert(remembering(s, m)[0] == m);
}

/// The memory keeps one entry per key, newest first, and no more than it has
/// room for.
pub proof fn memory_stays_tidy(s: Seq<Memory>, m: Memory)
    requires
        list::distinct(s, |x: Memory| x.key),
    ensures
        list::distinct(remembering(s, m), |x: Memory| x.key),
        remembering(s, m).len() <= MAX_ENTRIES,
        forall|i: int, j: int|
            0 <= i < j < remembering(s, m).len() ==> (#[trigger] remembering(s, m)[i]).updated
                >= (#[trigger] remembering(s, m)[j]).updated,
{
    let key = |x: Memory| x.key;
    let p = |x: Memory| x.key != m.key;
    let lt = |a: Memory, b: Memory| newer(a, b);
    let rest = others(s, m.key);
    let all = seq![m] + rest;
    list::lemma_distinct_filter(s, key, p);
    assert forall|i: int| 0 <= i < rest.len() implies key(#[trigger] rest[i]) != key(m) by {
        s.lemma_filter_contains_rev(p, rest[i]);
    }
    list::lemma_distinct_leader(m, rest, key);
    assert(list::is_order(lt));
    list::sorting_orders(all, lt);
    list::lemma_distinct_sort(all, key, lt);
    let r = list::stable_sort(all, lt);
    let cut = remembering(s, m);
    assert forall|i: int, j: int| 0 <= i < j < cut.len() implies (#[trigger] cut[i]).updated >= (
    #[trigger] cut[j]).updated by {
        assert(cut[i] == r[i] && cut[j] == r[j]);
        assert(!lt(r[j], r[i]));
    }
}

/// Promoting reorders the attempts: none is lost, none is added.
pub proof fn promoting_reorders(order: Seq<Candidate>, hash: Option<Seq<char>>)
    ensures
        promoted(order, hash).to_multiset() == order.to_multiset(),
        promoted(order, hash).len() == order.len(),
{
    broadcast use vstd::seq_lib::group_to_multiset_ensures;

    if hash is Some {
        lemma_place(order, hash->0);
        if place(order, hash->0) is Some {
            let i = place(order, hash->0)->0;
            let a = seq![order[i]];
            let b = order.remove(i);
            vstd::seq_lib::lemma_multiset_commutative(a, b);
            assert(Seq::<Candidate>::empty().push(order[i]) =~= a);
            assert((a + b).to_multiset() =~= order.to_multiset());
        }
    }
}

/// The place of a hash holds a release of it, and there is one where any release
/// has the hash.
pub proof fn lemma_place(order: Seq<Candidate>, hash: Seq<char>)
    ensures
        place(order, hash) is Some ==> 0 <= place(order, hash)->0 < order.len()
            && sources::hash_of(order[place(order, hash)->0].magnet@) == hash,
        place(order, hash) is None ==> forall|i: int|
            0 <= i < order.len() ==> sources::hash_of((#[trigger] order[i]).magnet@) != hash,
    decreases order.len(),
{
    if order.len() > 0 {
        let rest = order.drop_first();
        lemma_place(rest, hash);
        assert forall|i: int|
            place(order, hash) is None && 0 <= i < order.len() implies sources::hash_of(
            (#[trigger] order[i]).magnet@,
        ) != hash by {
            if i > 0 {
                assert(order[i] == rest[i - 1]);
            }
        }
    }
}

// --- the store --------------------------------------------------------------------

/// Where the memory is kept.
pub fn path(env: &Environment) -> (r: String)
    ensures
        r@ == xdg::own_file(
            xdg::base_dir(env.xdg_state_home, env.home, ".local/state"@, env.temp_dir@),
            "releases.json"@,
        ),
{
    let base = xdg::state_home(env);
    xdg::dekho_file(base.as_str(), "releases.json")
}

/// The memory as a run holds it, with the file it is kept in; the caller
/// writes it down whenever something is remembered.
pub struct ReplayStore {
    pub path: String,
    pub replay: Replay,
}

impl ReplayStore {
    pub fn open(path: String, replay: Replay) -> (r: ReplayStore)
        ensures
            r.path == path,
            r.replay == replay,
    {
        ReplayStore { path, replay }
    }

    pub fn recall(&self, key: &str) -> (r: Option<String>)
        ensures
            match r {
                Some(h) => recalled(self.replay@, key@) == Some(h@),
                None => recalled(self.replay@, key@) is None,
            },
    {
        match self.replay.recall(key) {
            Some(h) => Some(h.to_string()),
            None => None,
        }
    }

    /// Remember a winner, now.
    pub fn remember(&mut self, key: &str, info_hash: &str)
        ensures
            exists|m: Memory|
                m.key == key@ && m.info_hash == text::lower(info_hash@) && final(self).replay@
                    == #[trigger] remembering(old(self).replay@, m),
            final(self).replay.version == old(self).replay.version,
            final(self).path == old(self).path,
    {
        let now = history::now();
        self.remember_at(key, info_hash, now);
    }

    /// Remember the winner of a time.
    pub fn remember_at(&mut self, key: &str, info_hash: &str, now: u64)
        ensures
            final(self).replay@ == remembering(
                old(self).replay@,
                (Memory { key: key@, info_hash: text::lower(info_hash@), updated: now }),
            ),
            final(self).replay.version == old(self).replay.version,
            final(self).path == old(self).path,
    {
        self.replay.remember(key, info_hash, now);
    }
}

/// What is recalled for a key is the hash of an entry of that key; where no entry
/// is of it, nothing is.
pub proof fn keys_are_told_apart(s: Seq<Memory>, key: Seq<char>)
    ensures
        match recalled(s, key) {
            Some(hash) => exists|i: int|
                0 <= i < s.len() && (#[trigger] s[i]).key == key && s[i].info_hash == hash
                    && forall|j: int| 0 <= j < i ==> (#[trigger] s[j]).key != key,
            None => forall|i: int| 0 <= i < s.len() ==> (#[trigger] s[i]).key != key,
        },
    decreases s.len(),
{
    if s.len() > 0 && s[0].key != key {
        let t = s.drop_first();
        keys_are_told_apart(t, key);
        match recalled(t, key) {
            Some(hash) => {
                let i = choose|i: int|
                    0 <= i < t.len() && (#[trigger] t[i]).key == key && t[i].info_hash == hash
                        && forall|j: int| 0 <= j < i ==> (#[trigger] t[j]).key != key;
                assert(s[i + 1] == t[i]);
                assert forall|j: int| 0 <= j < i + 1 implies (#[trigger] s[j]).key != key by {
                    if j > 0 {
                        assert(t[j - 1] == s[j]);
                    }
                }
            },
            None => {
                assert forall|i: int| 0 <= i < s.len() implies (#[trigger] s[i]).key != key by {
                    if i > 0 {
                        assert(t[i - 1] == s[i]);
                    }
                }
            },
        }
    }
}

/// Remembering one title leaves the others as they are, as long as there is room
/// for two hundred; and never more than that are kept.
pub proof fn other_memories_stay(s: Seq<Memory>, m: Memory, x: Memory)
    ensures
        remembering(s, m).len() <= 200,
        s.len() < 200 && s.contains(x) && x.key != m.key ==> remembering(s, m).contains(x),
        s.len() < 200 ==> remembering(s, m).contains(m),
        remembering(s, m).contains(x) ==> x == m || (s.contains(x) && x.key != m.key),
{
    broadcast use vstd::seq_lib::group_to_multiset_ensures;

    let p = |y: Memory| y.key != m.key;
    let lt = |a: Memory, b: Memory| newer(a, b);
    let rest = others(s, m.key);
    let all = seq![m] + rest;
    list::sorting_orders(all, lt);
    let sorted = list::stable_sort(all, lt);
    s.lemma_filter_len(p);
    assert(all.to_multiset().count(x) == sorted.to_multiset().count(x));
    assert(all.to_multiset().count(m) == sorted.to_multiset().count(m));
    assert(all[0] == m);
    assert(all.contains(m));
    if s.contains(x) && p(x) {
        let i = choose|i: int| 0 <= i < s.len() && s[i] == x;
        s.lemma_filter_contains(p, i);
        let k = choose|k: int| 0 <= k < rest.len() && rest[k] == x;
        assert(all[k + 1] == x);
        assert(all.contains(x));
    }
    if remembering(s, m).contains(x) {
        let k = choose|k: int| 0 <= k < remembering(s, m).len() && remembering(s, m)[k] == x;
        assert(sorted[k] == x);
        assert(sorted.contains(x));
        assert(all.contains(x));
        let j = choose|j: int| 0 <= j < all.len() && all[j] == x;
        if j > 0 {
            assert(rest[j - 1] == x);
            s.lemma_filter_contains_rev(p, x);
        }
    }
}

/// Promoting puts the first release of the hash at the front and leaves the order
/// of the others; without one, or without a hash, it changes nothing.
pub proof fn promoting_moves_one(order: Seq<Candidate>, hash: Seq<char>)
    ensures
        promoted(order, None) == order,
        ({
            let p = promoted(order, Some(hash));
            if exists|i: int|
                0 <= i < order.len() && sources::hash_of((#[trigger] order[i]).magnet@) == hash {
                exists|i: int|
                    0 <= i < order.len() && sources::hash_of((#[trigger] order[i]).magnet@) == hash
                        && p == seq![order[i]] + order.take(i) + order.skip(i + 1) && forall|j: int|
                        0 <= j < i ==> sources::hash_of((#[trigger] order[j]).magnet@) != hash
            } else {
                p == order
            }
        }),
{
    lemma_place(order, hash);
    lemma_place_first(order, hash);
    match place(order, hash) {
        Some(i) => {
            assert(promoted(order, Some(hash)) =~= seq![order[i]] + order.take(i) + order.skip(
                i + 1,
            ));
            assert(sources::hash_of(order[i].magnet@) == hash);
        },
        None => {},
    }
}

proof fn lemma_place_first(order: Seq<Candidate>, hash: Seq<char>)
    ensures
        place(order, hash) is Some ==> forall|j: int|
            0 <= j < place(order, hash)->0 ==> sources::hash_of((#[trigger] order[j]).magnet@)
                != hash,
    decreases order.len(),
{
    if order.len() > 0 {
        let t = order.drop_first();
        lemma_place_first(t, hash);
        lemma_place(order, hash);
        if place(order, hash) is Some {
            assert forall|j: int| 0 <= j < place(order, hash)->0 implies sources::hash_of(
                (#[trigger] order[j]).magnet@,
            ) != hash by {
                if j > 0 {
                    assert(t[j - 1] == order[j]);
                }
            }
        }
    }
}

} // verus!
