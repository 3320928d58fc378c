//! Every indexer we ask, merged into one candidate list.
//!
//! The two indexers are queried concurrently and merged on info hash. Neither
//! is allowed to fail the lookup: an indexer that is down, rate-limiting or
//! reshaping its JSON costs us its results, not the whole search.

use crate::audio;
use crate::text;
use crate::torrentio;
use crate::torrentio::{Candidate, Release};
use vstd::prelude::*;

verus! {

/// Where a candidate came from, and how many each contributed.
#[derive(Clone, Copy, Debug)]
pub struct SourceCounts {
    pub torrentio: usize,
    pub apibay: usize,
    /// Present in both, counted once in the merged list.
    pub shared: usize,
}

impl Default for SourceCounts {
    fn default() -> (r: SourceCounts)
        ensures
            r.torrentio == 0 && r.apibay == 0 && r.shared == 0,
    {
        SourceCounts { torrentio: 0, apibay: 0, shared: 0 }
    }
}

pub struct Lookup {
    pub candidates: Vec<Candidate>,
    pub counts: SourceCounts,
    /// Indexers that errored, for a one-line warning rather than a failure.
    pub failed: Vec<&'static str>,
}

/// The `btih` hash of a magnet in lower case; the whole text where it has none.
pub open spec fn hash_of(magnet: Seq<char>) -> Seq<char> {
    let mark = "xt=urn:btih:"@;
    text::lower(
        match text::first_place(magnet, mark) {
            Some(i) => text::until(text::before_text(magnet.skip(i + mark.len()), mark), '&'),
            None => magnet,
        },
    )
}

/// The `btih` hash out of a magnet, lowercased so the two indexers' casing
/// does not defeat deduplication: Torrentio emits lowercase, apibay uppercase.
pub fn info_hash_of(magnet: &str) -> (r: String)
    ensures
        r@ == hash_of(magnet@),
{
    let m = text::chars_of(magnet);
    let mark = text::chars_of("xt=urn:btih:");
    let end = m.len();
    let low = match text::find_text(m.as_slice(), mark.as_slice()) {
        Some(i) => {
            let rest = text::slice_of(m.as_slice(), i + mark.len(), end);
            assert(rest@ =~= m@.skip(i + mark@.len()));
            let part = text::text_before_text(rest.as_slice(), mark.as_slice());
            let hash = text::text_until(part.as_slice(), '&');
            text::lowered(hash.as_slice())
        },
        None => text::lowered(m.as_slice()),
    };
    text::string_of(low.as_slice())
}

/// The place of the release with a hash.
pub open spec fn place(m: Seq<Release>, hash: Seq<char>) -> Option<int>
    decreases m.len(),
{
    if m.len() == 0 {
        None
    } else if hash_of(m[0].magnet) == hash {
        Some(0)
    } else {
        match place(m.drop_first(), hash) {
            Some(i) => Some(i + 1),
            None => None,
        }
    }
}

/// Torrentio's copy put in: in the place of an earlier one, or at the end.
pub open spec fn with_torrentio(m: Seq<Release>, r: Release) -> Seq<Release> {
    match place(m, hash_of(r.magnet)) {
        Some(i) => m.update(i, r),
        None => m.push(r),
    }
}

/// What two copies of a release say together. The languages are united; apibay
/// reports exact byte counts, where Torrentio rounds, so its size wins.
pub open spec fn united(kept: Release, other: Release) -> Release {
    Release {
        audio: audio::both(kept.audio, other.audio),
        size_bytes: if other.size_bytes is Some {
            other.size_bytes
        } else {
            kept.size_bytes
        },
        seeders: if other.seeders > kept.seeders {
            other.seeders
        } else {
            kept.seeders
        },
        ..kept
    }
}

/// apibay's copy put in: united with the one there, or at the end.
pub open spec fn with_apibay(m: Seq<Release>, r: Release) -> Seq<Release> {
    match place(m, hash_of(r.magnet)) {
        Some(i) => m.update(i, united(m[i], r)),
        None => m.push(r),
    }
}

pub open spec fn all_torrentio(s: Seq<Release>) -> Seq<Release>
    decreases s.len(),
{
    if s.len() == 0 {
        s
    } else {
        with_torrentio(all_torrentio(s.drop_last()), s.last())
    }
}

/// The merged list, and how many releases of apibay were there already.
pub open spec fn merged(t: Seq<Release>, a: Seq<Release>) -> (Seq<Release>, nat)
    decreases a.len(),
{
    if a.len() == 0 {
        (all_torrentio(t), 0)
    } else {
        let (m, shared) = merged(t, a.drop_last());
        (
            with_apibay(m, a.last()),
            if place(m, hash_of(a.last().magnet)) is Some {
                shared + 1
            } else {
                shared
            },
        )
    }
}

/// The hashes of a list of candidates.
spec fn hashes(v: Seq<Candidate>) -> Seq<Seq<char>> {
    v.map_values(|c: Candidate| hash_of(c.magnet@))
}

fn place_of(keys: &Vec<String>, m: &Vec<Candidate>, key: &str) -> (r: Option<usize>)
    requires
        text::string_texts(keys@) == hashes(m@),
    ensures
        match r {
            Some(i) => i < m@.len() && place(torrentio::releases(m@), key@) == Some(i as int),
            None => place(torrentio::releases(m@), key@) is None,
        },
{
    let ghost all = torrentio::releases(m@);
    let mut i: usize = 0;
    assert(all.skip(0) =~= all);
    assert(keys@.len() == text::string_texts(keys@).len());
    assert(m@.len() == hashes(m@).len());
    while i < keys.len()
        invariant
            i <= keys.len(),
            keys@.len() == m@.len(),
            text::string_texts(keys@) == hashes(m@),
            all == torrentio::releases(m@),
            match place(all.skip(i as int), key@) {
                Some(k) => place(all, key@) == Some(k + i),
                None => place(all, key@) is None,
            },
        decreases keys.len() - i,
    {
        assert(text::string_texts(keys@)[i as int] == keys@[i as int]@);
        assert(hashes(m@)[i as int] == hash_of(m@[i as int].magnet@));
        assert(all.skip(i as int)[0] == m@[i as int]@);
        if text::same_str(keys[i].as_str(), key) {
            return Some(i);
        }
        assert(all.skip(i as int).drop_first() =~= all.skip(i + 1));
        i += 1;
    }
    None
}

fn unite(kept: Candidate, other: &Candidate) -> (r: Candidate)
    ensures
        r@ == united(kept@, other@),
        r.magnet == kept.magnet,
{
    let mut kept = kept;
    kept.audio.hindi = kept.audio.hindi || other.audio.hindi;
    kept.audio.english = kept.audio.english || other.audio.english;
    kept.audio.multi_marker = kept.audio.multi_marker || other.audio.multi_marker;
    kept.audio.others.extend(&other.audio.others);
    if other.size_bytes.is_some() {
        kept.size_bytes = other.size_bytes;
    }
    if other.seeders > kept.seeders {
        kept.seeders = other.seeders;
    }
    kept
}

/// Merge two candidate lists on info hash, preferring Torrentio's copy.
///
/// Torrentio wins ties because its metadata is richer: it carries `fileIdx`
/// (which is how a season pack resolves to one episode without guessing) and
/// language flags. Where apibay knows a language Torrentio did not, that is
/// folded in rather than dropped: the two describe the same torrent, so the
/// union is more accurate than either.
pub fn merge(torrentio: Vec<Candidate>, apibay: Vec<Candidate>) -> (r: (Vec<Candidate>, usize))
    ensures
        (torrentio::releases(r.0@), r.1 as nat) == merged(
            torrentio::releases(torrentio@),
            torrentio::releases(apibay@),
        ),
{
    let ghost t = torrentio::releases(torrentio@);
    let ghost ts = torrentio@;
    let mut out: Vec<Candidate> = Vec::new();
    let mut keys: Vec<String> = Vec::new();
    assert(torrentio::releases(out@) =~= all_torrentio(t.take(0)));
    assert(text::string_texts(keys@) =~= hashes(out@));
    for c in it: torrentio
        invariant
            it.seq() == ts,
            t == torrentio::releases(ts),
            torrentio::releases(out@) == all_torrentio(t.take(it.index())),
            text::string_texts(keys@) == hashes(out@),
    {
        let ghost i = it.index();
        assert(t[i] == c@);
        assert(t.take(i + 1).drop_last() =~= t.take(i));
        assert(t.take(i + 1).last() == c@);
        let key = info_hash_of(c.magnet.as_str());
        let ghost before = torrentio::releases(out@);
        let ghost names = hashes(out@);
        let ghost was = out@;
        match place_of(&keys, &out, key.as_str()) {
            Some(k) => {
                proof {
                    lemma_place(before, key@);
                    assert(names[k as int] == key@);
                }
                out.set(k, c);
                assert(torrentio::releases(out@) =~= before.update(k as int, c@));
                assert(hashes(out@) =~= names);
            },
            None => {
                out.push(c);
                assert(torrentio::releases(out@) =~= before.push(c@));
                let ghost k0 = text::string_texts(keys@);
                keys.push(key);
                assert(text::string_texts(keys@) =~= k0.push(key@));
                assert(hashes(out@) =~= names.push(key@));
            },
        }
    }
    assert(t.take(t.len() as int) =~= t);
    let ghost a = torrentio::releases(apibay@);
    let ghost asq = apibay@;
    let mut shared: usize = 0;
    let most = apibay.len();
    assert(a.take(0) =~= Seq::empty());
    for c in it: apibay
        invariant
            it.seq() == asq,
            a == torrentio::releases(asq),
            asq.len() == most,
            shared <= it.index(),
            (torrentio::releases(out@), shared as nat) == merged(t, a.take(it.index())),
            text::string_texts(keys@) == hashes(out@),
    {
        let ghost i = it.index();
        assert(a[i] == c@);
        assert(a.take(i + 1).drop_last() =~= a.take(i));
        assert(a.take(i + 1).last() == c@);
        let key = info_hash_of(c.magnet.as_str());
        let ghost before = torrentio::releases(out@);
        let ghost names = hashes(out@);
        match place_of(&keys, &out, key.as_str()) {
            Some(k) => {
                shared += 1;
                let kept = out.remove(k);
                assert(kept@ == before[k as int]);
                let both = unite(kept, &c);
                proof {
                    assert(names[k as int] == hash_of(kept.magnet@));
                }
                out.insert(k, both);
                assert(torrentio::releases(out@) =~= before.update(k as int, both@));
                assert(hashes(out@) =~= names);
            },
            None => {
                out.push(c);
                assert(torrentio::releases(out@) =~= before.push(c@));
                let ghost k0 = text::string_texts(keys@);
                keys.push(key);
                assert(text::string_texts(keys@) =~= k0.push(key@));
                assert(hashes(out@) =~= names.push(key@));
            },
        }
    }
    assert(a.take(a.len() as int) =~= a);
    (out, shared)
}

/// What a lookup found, given each indexer's answer; `None` is one that failed.
pub fn combine(torrentio: Option<Vec<Candidate>>, apibay: Option<Vec<Candidate>>) -> (r: Lookup)
    ensures
        (torrentio::releases(r.candidates@), r.counts.shared as nat) == merged(
            answered(torrentio),
            answered(apibay),
        ),
        r.counts.torrentio == answered(torrentio).len(),
        r.counts.apibay == answered(apibay).len(),
        text::str_texts(r.failed@) == (if torrentio is None {
            seq!["Torrentio"@]
        } else {
            Seq::empty()
        }) + (if apibay is None {
            seq!["apibay"@]
        } else {
            Seq::empty()
        }),
{
    let mut failed: Vec<&'static str> = Vec::new();
    let ghost t0 = torrentio;
    let ghost a0 = apibay;
    let t: Vec<Candidate> = match torrentio {
        Some(t) => t,
        None => {
            failed.push("Torrentio");
            Vec::new()
        },
    };
    let a: Vec<Candidate> = match apibay {
        Some(a) => a,
        None => {
            failed.push("apibay");
            Vec::new()
        },
    };
    assert(torrentio::releases(t@) =~= answered(t0));
    assert(torrentio::releases(a@) =~= answered(a0));
    let nt = t.len();
    let na = a.len();
    let (candidates, shared) = merge(t, a);
    let r = Lookup {
        candidates,
        counts: SourceCounts { torrentio: nt, apibay: na, shared },
        failed,
    };
    assert(text::str_texts(r.failed@) =~= (if t0 is None {
        seq!["Torrentio"@]
    } else {
        Seq::empty()
    }) + (if a0 is None {
        seq!["apibay"@]
    } else {
        Seq::empty()
    }));
    r
}

/// The releases of an answer, none where there was no answer.
pub open spec fn answered(v: Option<Vec<Candidate>>) -> Seq<Release> {
    match v {
        Some(l) => torrentio::releases(l@),
        None => Seq::empty(),
    }
}

// --- what merging gives -----------------------------------------------------------

proof fn lemma_place(m: Seq<Release>, hash: Seq<char>)
    ensures
        match place(m, hash) {
            Some(i) => 0 <= i < m.len() && hash_of(m[i].magnet) == hash,
            None => forall|k: int| 0 <= k < m.len() ==> hash_of((#[trigger] m[k]).magnet) != hash,
        },
    decreases m.len(),
{
    if m.len() > 0 {
        let t = m.drop_first();
        lemma_place(t, hash);
        if place(m, hash) is None {
            assert forall|k: int| 0 <= k < m.len() implies hash_of((#[trigger] m[k]).magnet)
                != hash by {
                if k > 0 {
                    assert(m[k] == t[k - 1]);
                }
            }
        }
    }
}

/// No two releases share a hash.
pub open spec fn all_different(m: Seq<Release>) -> bool {
    forall|i: int, j: int|
        0 <= i < j < m.len() ==> hash_of((#[trigger] m[i]).magnet) != hash_of(
            (#[trigger] m[j]).magnet,
        )
}

/// The list has a release with the hash.
pub open spec fn lists(m: Seq<Release>, hash: Seq<char>) -> bool {
    exists|i: int| 0 <= i < m.len() && hash_of((#[trigger] m[i]).magnet) == hash
}

proof fn lemma_put(m: Seq<Release>, r: Release, hash: Seq<char>)
    requires
        all_different(m),
    ensures
        all_different(with_torrentio(m, r)),
        all_different(with_apibay(m, r)),
        lists(with_torrentio(m, r), hash) == (lists(m, hash) || hash == hash_of(r.magnet)),
        lists(with_apibay(m, r), hash) == (lists(m, hash) || hash == hash_of(r.magnet)),
{
    let h = hash_of(r.magnet);
    lemma_place(m, h);
    match place(m, h) {
        Some(i) => {
            let x = m.update(i, r);
            let y = m.update(i, united(m[i], r));
            assert(hash_of(x[i].magnet) == h && hash_of(y[i].magnet) == h);
            if lists(m, hash) {
                let k = choose|k: int| 0 <= k < m.len() && hash_of((#[trigger] m[k]).magnet) == hash;
                assert(hash_of(x[k].magnet) == hash);
                assert(hash_of(y[k].magnet) == hash);
            }
            if lists(x, hash) {
                let k = choose|k: int| 0 <= k < x.len() && hash_of((#[trigger] x[k]).magnet) == hash;
                assert(hash_of(m[k].magnet) == hash);
            }
            if lists(y, hash) {
                let k = choose|k: int| 0 <= k < y.len() && hash_of((#[trigger] y[k]).magnet) == hash;
                assert(hash_of(m[k].magnet) == hash);
            }
        },
        None => {
            let x = m.push(r);
            assert(x[m.len() as int] == r);
            if lists(m, hash) {
                let k = choose|k: int| 0 <= k < m.len() && hash_of((#[trigger] m[k]).magnet) == hash;
                assert(x[k] == m[k]);
            }
            if lists(x, hash) {
                let k = choose|k: int| 0 <= k < x.len() && hash_of((#[trigger] x[k]).magnet) == hash;
                if k < m.len() {
                    assert(m[k] == x[k]);
                }
            }
        },
    }
}

proof fn lemma_all_torrentio(t: Seq<Release>, hash: Seq<char>)
    ensures
        all_different(all_torrentio(t)),
        lists(all_torrentio(t), hash) == lists(t, hash),
    decreases t.len(),
{
    if t.len() > 0 {
        let s = t.drop_last();
        lemma_all_torrentio(s, hash);
        lemma_put(all_torrentio(s), t.last(), hash);
        lemma_lists_last(t, hash);
    }
}

proof fn lemma_lists_last(t: Seq<Release>, hash: Seq<char>)
    requires
        t.len() > 0,
    ensures
        lists(t, hash) == (lists(t.drop_last(), hash) || hash_of(t.last().magnet) == hash),
{
    let s = t.drop_last();
    if lists(s, hash) {
        let k = choose|k: int| 0 <= k < s.len() && hash_of((#[trigger] s[k]).magnet) == hash;
        assert(t[k] == s[k]);
    }
    if hash_of(t.last().magnet) == hash {
        assert(hash_of(t[t.len() - 1].magnet) == hash);
    }
    if lists(t, hash) {
        let k = choose|k: int| 0 <= k < t.len() && hash_of((#[trigger] t[k]).magnet) == hash;
        if k < s.len() {
            assert(s[k] == t[k]);
        }
    }
}

/// A merged list names every torrent that either indexer named, and each of
/// them once.
pub proof fn merging_deduplicates(t: Seq<Release>, a: Seq<Release>, hash: Seq<char>)
    ensures
        all_different(merged(t, a).0),
        lists(merged(t, a).0, hash) == (lists(t, hash) || lists(a, hash)),
    decreases a.len(),
{
    if a.len() == 0 {
        lemma_all_torrentio(t, hash);
    } else {
        let s = a.drop_last();
        merging_deduplicates(t, s, hash);
        lemma_put(merged(t, s).0, a.last(), hash);
        lemma_lists_last(a, hash);
    }
}

/// One more release of apibay is put behind the others, or where its torrent is
/// there already, united with that one: what is there keeps its tier, title, file
/// and magnet; the size is apibay's where it knows one, the seeders are the
/// greater number, and the languages are those of both. Only then is it counted
/// as shared.
pub proof fn apibay_adds_or_unites(t: Seq<Release>, a: Seq<Release>, r: Release)
    ensures
        ({
            let (m, shared) = merged(t, a);
            let (n, now) = merged(t, a.push(r));
            if exists|k: int|
                0 <= k < m.len() && hash_of((#[trigger] m[k]).magnet) == hash_of(r.magnet) {
                exists|k: int|
                    0 <= k < m.len() && hash_of((#[trigger] m[k]).magnet) == hash_of(r.magnet)
                        && n.len() == m.len() && now == shared + 1 && (forall|i: int|
                        0 <= i < m.len() && i != k ==> #[trigger] n[i] == m[i]) && n[k].quality
                        == m[k].quality && n[k].title == m[k].title && n[k].file_idx
                        == m[k].file_idx && n[k].magnet == m[k].magnet && n[k].size_bytes == (
                    if r.size_bytes is Some {
                        r.size_bytes
                    } else {
                        m[k].size_bytes
                    }) && n[k].seeders >= r.seeders && n[k].seeders >= m[k].seeders && (n[k].seeders
                        == r.seeders || n[k].seeders == m[k].seeders) && n[k].audio.hindi == (
                    m[k].audio.hindi || r.audio.hindi) && n[k].audio.english == (m[k].audio.english
                        || r.audio.english) && n[k].audio.multi_marker == (m[k].audio.multi_marker
                        || r.audio.multi_marker) && n[k].audio.others == m[k].audio.others.union(
                        r.audio.others,
                    )
            } else {
                n == m.push(r) && now == shared
            }
        }),
{
    let (m, shared) = merged(t, a);
    let (n, now) = merged(t, a.push(r));
    assert(a.push(r).drop_last() =~= a);
    let h = hash_of(r.magnet);
    lemma_place(m, h);
    match place(m, h) {
        Some(k) => {
            assert(hash_of(m[k].magnet) == h);
            assert(n[k] == united(m[k], r));
        },
        None => {},
    }
}

/// One more release of Torrentio is put behind the others, or takes the place of
/// the one of its torrent. Without any release there is none.
pub proof fn torrentio_adds_or_replaces(t: Seq<Release>, r: Release)
    ensures
        merged(Seq::empty(), Seq::empty()) == (Seq::<Release>::empty(), 0nat),
        ({
            let m = merged(t, Seq::empty()).0;
            let n = merged(t.push(r), Seq::empty()).0;
            &&& merged(t, Seq::empty()).1 == 0
            &&& if exists|k: int|
                0 <= k < m.len() && hash_of((#[trigger] m[k]).magnet) == hash_of(r.magnet) {
                exists|k: int|
                    0 <= k < m.len() && hash_of((#[trigger] m[k]).magnet) == hash_of(r.magnet) && n
                        == m.update(k, r)
            } else {
                n == m.push(r)
            }
        }),
{
    let m = merged(t, Seq::empty()).0;
    assert(t.push(r).drop_last() =~= t);
    let h = hash_of(r.magnet);
    lemma_place(m, h);
    match place(m, h) {
        Some(k) => {
            assert(hash_of(m[k].magnet) == h);
        },
        None => {},
    }
}

proof fn lemma_place_from(s: Seq<char>, p: Seq<char>, from: int, i: int)
    requires
        0 <= from <= i,
        text::stands_at(s, p, i),
        forall|j: int| from <= j < i ==> !#[trigger] text::stands_at(s, p, j),
    ensures
        text::place_from(s, p, from) == Some(i),
    decreases i - from,
{
    if from < i {
        assert(!text::stands_at(s, p, from));
        lemma_place_from(s, p, from + 1, i);
    }
}

proof fn lemma_place_stands(s: Seq<char>, p: Seq<char>, from: int)
    requires
        0 <= from,
    ensures
        text::place_from(s, p, from) is Some ==> text::stands_at(
            s,
            p,
            text::place_from(s, p, from)->0,
        ),
    decreases s.len() + 1 - from,
{
    if from <= s.len() && !text::stands_at(s, p, from) {
        lemma_place_stands(s, p, from + 1);
    }
}

/// The hash that a magnet was made of is the one that it is known by, in lower
/// case: what one indexer writes in capitals and the other does not is one release.
pub proof fn magnets_are_known_by_their_hash(
    hash: Seq<char>,
    name: Seq<char>,
    trackers: Seq<Seq<char>>,
)
    requires
        forall|i: int| 0 <= i < hash.len() ==> text::is_alnum(#[trigger] hash[i]),
    ensures
        hash_of(torrentio::magnet_text(hash, name, trackers)) == text::lower(hash),
{
    let mark = "xt=urn:btih:"@;
    let m = torrentio::magnet_text(hash, name, trackers);
    reveal_strlit("xt=urn:btih:");
    reveal_strlit("magnet:?xt=urn:btih:");
    reveal_strlit("&dn=");
    let tail = torrentio::encoded(name) + torrentio::tracker_parameters(
        torrentio::trackers(trackers),
    );
    let rest = hash + "&dn="@ + tail;
    assert(m =~= "magnet:?xt=urn:btih:"@ + rest);
    assert(m.subrange(8, 20) =~= mark);
    assert(text::stands_at(m, mark, 8));
    assert forall|j: int| 0 <= j < 8 implies !#[trigger] text::stands_at(m, mark, j) by {
        if text::stands_at(m, mark, j) {
            assert(m.subrange(j, j + 12)[0] == m[j]);
            assert(mark[0] == 'x');
            assert(m[j] == "magnet:?xt=urn:btih:"@[j]);
        }
    }
    lemma_place_from(m, mark, 0, 8);
    assert(m.skip(20) =~= rest);
    lemma_place_stands(rest, mark, 0);
    let shown = text::before_text(rest, mark);
    match text::first_place(rest, mark) {
        Some(k) => {
            let found = rest.subrange(k, k + 12);
            assert(found == mark);
            assert(found[0] == rest[k] && found[1] == rest[k + 1] && found[2] == rest[k + 2]);
            assert(mark[0] == 'x' && mark[1] == 't' && mark[2] == '=');
            if k <= hash.len() {
                assert(rest[hash.len() as int] == '&');
                if k + 2 < hash.len() {
                    assert(rest[k + 2] == hash[k + 2]);
                }
                assert(false);
            }
            let more = rest.subrange(hash.len() as int + 1, k);
            assert(shown =~= hash.push('&') + more);
            lemma_clean(hash);
            torrentio::lemma_place(hash, '&', more);
        },
        None => {
            let more = rest.skip(hash.len() as int + 1);
            assert(shown =~= hash.push('&') + more);
            lemma_clean(hash);
            torrentio::lemma_place(hash, '&', more);
        },
    }
    assert(shown.take(hash.len() as int) =~= hash);
}

proof fn lemma_clean(hash: Seq<char>)
    requires
        forall|i: int| 0 <= i < hash.len() ==> text::is_alnum(#[trigger] hash[i]),
    ensures
        !hash.contains('&'),
{
    if hash.contains('&') {
        let i = choose|i: int| 0 <= i < hash.len() && hash[i] == '&';
        assert(text::is_alnum(hash[i]));
    }
}

} // verus!
