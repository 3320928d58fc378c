//! apibay, The Pirate Bay's public JSON API, used as a second indexer.
//!
//! Torrentio is curated and deduplicated, which is usually a virtue and is a
//! problem for dual-audio hunting: the Hindi/English releases are mostly in the
//! tail it drops.
//!
//! Queried by IMDB id, not by title. apibay stores an `imdb` field per torrent
//! and matches on it, so results are exact; a text search returns strangers
//! near the top, and auto-playing one would be worse than finding nothing.
//!
//! The catch is that TV has no episode granularity here: a series id returns
//! season packs and loose episodes together, so the caller's season/episode is
//! matched against the release name.

use crate::audio;
use crate::engine;
use crate::text;
use crate::torrentio;
use crate::torrentio::{Candidate, Release};
use vstd::prelude::*;

verus! {

pub const BASE: &'static str = "https://apibay.org";

/// apibay signals "nothing found" with a single row rather than an empty list,
/// and that row carries an all-zero hash.
pub const EMPTY_HASH: &'static str = "0000000000000000000000000000000000000000";

/// One row of apibay's answer, as it comes.
pub struct RawTorrent {
    pub name: String,
    pub info_hash: String,
    pub seeders: String,
    pub size: String,
    pub imdb: String,
}

/// Where apibay lists the torrents of a title.
pub fn search_url(imdb_id: &str) -> (r: String)
    ensures
        r@ == BASE@ + "/q.php?q="@ + imdb_id@,
{
    let mut out = text::chars_of(BASE);
    text::push_str(&mut out, "/q.php?q=");
    text::push_str(&mut out, imdb_id);
    text::string_of(out.as_slice())
}

/// The framed name holds a range of seasons from the first on that spans
/// season `s`, as "s01 s05" does.
pub open spec fn spans(framed: Seq<char>, s: u32) -> bool {
    let mark = " s01 s"@;
    match text::first_place(framed, mark) {
        Some(i) => {
            let from = i + mark.len();
            from + 2 <= framed.len() && match text::parse_number(
                framed.subrange(from, from + 2),
                u32::MAX as nat,
            ) {
                Some(end) => 1 <= s <= end,
                None => false,
            }
        },
        None => false,
    }
}

/// The words of a name, in lower case.
pub open spec fn name_words(name: Seq<char>) -> Seq<Seq<char>> {
    text::words(text::flattened(name), text::Separator::Space)
}

/// The season that a word of one or two digits numbers. A longer number is a
/// year or a height, not a season.
pub open spec fn season_number(w: Seq<char>) -> Option<nat> {
    if w.len() <= 2 {
        text::parse_number(w, u32::MAX as nat)
    } else {
        None
    }
}

/// The season that a word such as "s04" numbers.
pub open spec fn season_tag(w: Seq<char>) -> Option<nat> {
    if w.len() > 0 && w[0] == 's' {
        season_number(w.skip(1))
    } else {
        None
    }
}

/// A word that may stand between the seasons of a range, as in "season 1 to 5".
pub open spec fn is_link(w: Seq<char>) -> bool {
    w == "season"@ || w == "to"@ || w == "thru"@ || w == "through"@ || w == "and"@
}

/// The last season of a range, read from a place on, `last` being the last one
/// before it. It goes on as long as the seasons do not fall.
pub open spec fn range_end(words: Seq<Seq<char>>, i: int, last: nat) -> nat
    decreases words.len() - i,
{
    if i < 0 || i >= words.len() {
        last
    } else {
        let w = words[i];
        let n = if season_number(w) is Some {
            season_number(w)
        } else {
            season_tag(w)
        };
        if n is Some && n->0 >= last {
            range_end(words, i + 1, n->0)
        } else if n is None && is_link(w) {
            range_end(words, i + 1, last)
        } else {
            last
        }
    }
}

/// The seasons, from the first to the last, that the name says at a place to
/// hold: "season 4" and "s04" say one, "season 1 5" and "s02 s05" a range.
pub open spec fn claim_at(words: Seq<Seq<char>>, i: int) -> Option<(nat, nat)> {
    if season_tag(words[i]) is Some {
        let a = season_tag(words[i])->0;
        Some((a, range_end(words, i + 1, a)))
    } else if words[i] == "season"@ && i + 1 < words.len() && season_number(words[i + 1]) is Some {
        let a = season_number(words[i + 1])->0;
        Some((a, range_end(words, i + 2, a)))
    } else {
        None
    }
}

/// The name says at a place to hold season `s`, or to hold others only.
pub open spec fn claims(words: Seq<Seq<char>>, i: int, s: u32, held: bool) -> bool {
    match claim_at(words, i) {
        Some((from, to)) => held == (from <= s <= to),
        None => false,
    }
}

/// Somewhere the name says so.
pub open spec fn somewhere(words: Seq<Seq<char>>, s: u32, held: bool) -> bool {
    exists|i: int| 0 <= i < words.len() && #[trigger] claims(words, i, s, held)
}

/// The name clearly is of other seasons than `s`: it says which it holds, and
/// never that `s` is among them.
pub open spec fn is_of_others(words: Seq<Seq<char>>, s: u32) -> bool {
    somewhere(words, s, false) && !somewhere(words, s, true)
}

/// The name is that of a pack with the season in it. One of a complete season is
/// taken to be, unless it clearly is of others.
pub open spec fn is_pack_of(name: Seq<char>, s: u32) -> bool {
    let framed = text::framed(name);
    ||| text::has_words(name, "season "@ + engine::one(s))
    ||| text::has_words(name, "s"@ + engine::two(s))
    ||| text::has_words(name, "s"@ + engine::one(s))
    ||| text::holds(framed, "complete series"@)
    ||| text::holds(framed, "complete season"@) && !is_of_others(name_words(name), s)
    ||| spans(framed, s)
}

fn number_in(w: &[char]) -> (r: Option<u64>)
    ensures
        match r {
            Some(n) => season_number(w@) == Some(n as nat),
            None => season_number(w@) is None,
        },
{
    if w.len() <= 2 {
        text::read_number(w, 0xffff_ffff)
    } else {
        None
    }
}

fn tag_in(w: &[char]) -> (r: Option<u64>)
    ensures
        match r {
            Some(n) => season_tag(w@) == Some(n as nat),
            None => season_tag(w@) is None,
        },
{
    if w.len() > 0 && w[0] == 's' {
        let rest = text::slice_of(w, 1, w.len());
        assert(rest@ =~= w@.skip(1));
        number_in(rest.as_slice())
    } else {
        None
    }
}

fn links(w: &[char]) -> (r: bool)
    ensures
        r == is_link(w@),
{
    text::is_str(w, "season") || text::is_str(w, "to") || text::is_str(w, "thru") || text::is_str(
        w,
        "through",
    ) || text::is_str(w, "and")
}

fn end_of_range(words: &Vec<Vec<char>>, from: usize, first: u64) -> (r: u64)
    ensures
        r == range_end(text::texts(words@), from as int, first as nat),
{
    let ghost all = text::texts(words@);
    let mut i = from;
    let mut last = first;
    while i < words.len()
        invariant
            all == text::texts(words@),
            all.len() == words@.len(),
            range_end(all, i as int, last as nat) == range_end(all, from as int, first as nat),
        decreases words.len() - i,
    {
        let w = words[i].as_slice();
        assert(all[i as int] == w@);
        let n = match number_in(w) {
            Some(n) => Some(n),
            None => tag_in(w),
        };
        match n {
            Some(n) => {
                if n < last {
                    return last;
                }
                last = n;
            },
            None => {
                if !links(w) {
                    return last;
                }
            },
        }
        i += 1;
    }
    last
}

fn read_claim(words: &Vec<Vec<char>>, i: usize) -> (r: Option<(u64, u64)>)
    requires
        i < words@.len(),
    ensures
        match r {
            Some((a, b)) => claim_at(text::texts(words@), i as int) == Some((a as nat, b as nat)),
            None => claim_at(text::texts(words@), i as int) is None,
        },
{
    let ghost all = text::texts(words@);
    let w = words[i].as_slice();
    assert(all[i as int] == w@);
    let n = words.len();
    if let Some(a) = tag_in(w) {
        return Some((a, end_of_range(words, i + 1, a)));
    }
    if i < n - 1 && text::is_str(w, "season") {
        assert(all[i + 1] == words@[i + 1]@);
        if let Some(a) = number_in(words[i + 1].as_slice()) {
            return Some((a, end_of_range(words, i + 2, a)));
        }
    }
    None
}

fn of_other_seasons(name: &[char], s: u32) -> (r: bool)
    ensures
        r == is_of_others(name_words(name@), s),
{
    let flat = text::flatten(name);
    let words = text::words_on(flat.as_slice(), text::Separator::Space);
    let ghost all = name_words(name@);
    assert(text::texts(words@) == all);
    let n = words.len();
    let mut others = false;
    let mut i: usize = 0;
    while i < n
        invariant
            i <= n == words@.len(),
            text::texts(words@) == all,
            all == name_words(name@),
            all.len() == n,
            others == exists|k: int| 0 <= k < i && #[trigger] claims(all, k, s, false),
            forall|k: int| 0 <= k < i ==> !#[trigger] claims(all, k, s, true),
        decreases n - i,
    {
        if let Some((from, to)) = read_claim(&words, i) {
            if from <= s as u64 && s as u64 <= to {
                assert(claims(all, i as int, s, true));
                return false;
            }
            assert(claims(all, i as int, s, false));
            others = true;
        }
        i += 1;
    }
    others
}

/// The release can hold the episode that was asked for, if any was.
pub open spec fn offers(name: Seq<char>, season: Option<u32>, episode: Option<u32>) -> bool {
    match (season, episode) {
        (Some(s), Some(e)) => engine::names_episode(
            text::lower(name),
            text::spaced(name),
            s,
            e,
        ) || is_pack_of(name, s),
        _ => true,
    }
}

fn framed_spans(framed: &[char], s: u32) -> (r: bool)
    ensures
        r == spans(framed@, s),
{
    let mark = text::chars_of(" s01 s");
    let end = framed.len();
    match text::find_text(framed, mark.as_slice()) {
        Some(i) => {
            let from = i + mark.len();
            if end - from < 2 {
                return false;
            }
            let number = text::slice_of(framed, from, from + 2);
            match text::read_number(number.as_slice(), 0xffff_ffff) {
                Some(n) => 1 <= s && s as u64 <= n,
                None => false,
            }
        },
        None => false,
    }
}

/// Whether a release is worth considering for the requested episode.
///
/// Keeps anything naming the episode, plus season packs for that season, plus
/// complete-series packs. Rejects releases that clearly belong to a different
/// season, which is what stops a `Season 4` pack being offered for `S02E01`.
pub fn keeps_episode(name: &str, season: Option<u32>, episode: Option<u32>) -> (r: bool)
    ensures
        r == offers(name@, season, episode),
{
    match (season, episode) {
        (Some(s), Some(e)) => {
            if engine::matches_episode(name, s, e) {
                return true;
            }
            let chars = text::chars_of(name);
            let framed = text::frame(chars.as_slice());
            let f = framed.as_slice();
            let s1 = text::write_decimal(s as u64);
            let s2 = text::write_padded(s as u64, 2);
            let mut spelled = text::chars_of("season ");
            text::push_all(&mut spelled, s1.as_slice());
            let mut padded = text::chars_of("s");
            text::push_all(&mut padded, s2.as_slice());
            let mut plain = text::chars_of("s");
            text::push_all(&mut plain, s1.as_slice());
            text::framed_has(f, spelled.as_slice()) || text::framed_has(f, padded.as_slice())
                || text::framed_has(f, plain.as_slice()) || text::contains_str(
                f,
                "complete series",
            ) || (text::contains_str(f, "complete season") && !of_other_seasons(
                chars.as_slice(),
                s,
            )) || framed_spans(f, s)
        },
        _ => true,
    }
}

/// A row that names a torrent of the title, and can hold the episode.
pub open spec fn row_fits(
    r: RawTorrent,
    imdb_id: Seq<char>,
    season: Option<u32>,
    episode: Option<u32>,
) -> bool {
    &&& r.info_hash@.len() > 0
    &&& r.info_hash@ != EMPTY_HASH@
    &&& r.imdb@.len() == 0 || text::same_ignoring_case(r.imdb@, imdb_id)
    &&& offers(r.name@, season, episode)
}

/// The release that a row stands for.
pub open spec fn row_release(r: RawTorrent) -> Release {
    Release {
        quality: torrentio::quality_named(text::lower(r.name@)),
        title: r.name@,
        size_bytes: match text::parse_number(r.size@, u64::MAX as nat) {
            Some(n) => if n > 0 {
                Some(n as u64)
            } else {
                None
            },
            None => None,
        },
        seeders: match text::parse_number(r.seeders@, u32::MAX as nat) {
            Some(n) => n as u32,
            None => 0,
        },
        file_idx: None,
        magnet: torrentio::magnet_text(r.info_hash@, r.name@, Seq::empty()),
        audio: audio::both(audio::heard_in_flags(r.name@), audio::heard_in_name(r.name@)),
    }
}

/// The releases of the rows that fit, in their order.
pub open spec fn row_releases(
    rows: Seq<RawTorrent>,
    imdb_id: Seq<char>,
    season: Option<u32>,
    episode: Option<u32>,
) -> Seq<Release> {
    rows.filter(|r: RawTorrent| row_fits(r, imdb_id, season, episode)).map_values(
        |r: RawTorrent| row_release(r),
    )
}

fn fits(row: &RawTorrent, imdb_id: &str, season: Option<u32>, episode: Option<u32>) -> (r: bool)
    ensures
        r == row_fits(*row, imdb_id@, season, episode),
{
    if row.info_hash.as_str().is_empty() || text::same_str(row.info_hash.as_str(), EMPTY_HASH) {
        return false;
    }
    // apibay matches loosely enough that a stray title can come back; insist
    // the row is actually tagged with the id we asked for.
    if !row.imdb.as_str().is_empty() {
        let a = text::chars_of(row.imdb.as_str());
        let b = text::chars_of(imdb_id);
        let x = text::lowered(a.as_slice());
        let y = text::lowered(b.as_slice());
        if !text::same(x.as_slice(), y.as_slice()) {
            return false;
        }
    }
    keeps_episode(row.name.as_str(), season, episode)
}

fn candidate(row: RawTorrent) -> (r: Candidate)
    ensures
        r@ == row_release(row),
{
    let audio = audio::detect(row.name.as_str());
    let size = text::chars_of(row.size.as_str());
    let size_bytes: Option<u64> = match text::read_number(size.as_slice(), u64::MAX) {
        Some(n) => if n > 0 {
            Some(n)
        } else {
            None
        },
        None => None,
    };
    let count = text::chars_of(row.seeders.as_str());
    let seeders: u32 = match text::read_number(count.as_slice(), 0xffff_ffff) {
        Some(n) => n as u32,
        None => 0,
    };
    let quality = torrentio::parse_quality(row.name.as_str());
    let magnet = torrentio::build_magnet(row.info_hash.as_str(), row.name.as_str(), None);
    Candidate {
        quality,
        size_bytes,
        seeders,
        // apibay has no per-file index, so a season pack is resolved by
        // filename once the torrent's metadata arrives.
        file_idx: None,
        magnet,
        audio,
        title: row.name,
    }
}

/// The candidates of apibay's answer. For TV, `season`/`episode` filter the
/// rows by name, keeping season packs (which contain the episode) as well as
/// single-episode releases.
pub fn parse_rows(
    rows: Vec<RawTorrent>,
    imdb_id: &str,
    season: Option<u32>,
    episode: Option<u32>,
) -> (r: Vec<Candidate>)
    ensures
        torrentio::releases(r@) == row_releases(rows@, imdb_id@, season, episode),
{
    let ghost all = rows@;
    let ghost p = |r: RawTorrent| row_fits(r, imdb_id@, season, episode);
    let ghost f = |r: RawTorrent| row_release(r);
    let mut out: Vec<Candidate> = Vec::new();
    proof {
        reveal(Seq::filter);
        assert(torrentio::releases(out@) =~= all.take(0).filter(p).map_values(f));
    }
    for row in it: rows
        invariant
            it.seq() == all,
            p == (|r: RawTorrent| row_fits(r, imdb_id@, season, episode)),
            f == (|r: RawTorrent| row_release(r)),
            torrentio::releases(out@) == all.take(it.index()).filter(p).map_values(f),
    {
        let ghost i = it.index();
        proof {
            text::lemma_filter_push(all.take(i), p, row);
            assert(all.take(i + 1) =~= all.take(i).push(row));
        }
        let ghost before = torrentio::releases(out@);
        if fits(&row, imdb_id, season, episode) {
            let c = candidate(row);
            out.push(c);
            assert(torrentio::releases(out@) =~= before.push(c@));
            assert(all.take(i).filter(p).push(row).map_values(f) =~= all.take(i).filter(
                p,
            ).map_values(f).push(f(row)));
        }
    }
    assert(all.take(all.len() as int) =~= all);
    out
}

/// A pack that clearly is of other seasons is not offered: it is kept only where
/// it names the episode or this season too, or holds the whole series.
pub proof fn packs_of_other_seasons_are_refused(name: Seq<char>, s: u32, e: u32)
    requires
        is_of_others(name_words(name), s),
        offers(name, Some(s), Some(e)),
    ensures
        ({
            ||| engine::names_episode(text::lower(name), text::spaced(name), s, e)
            ||| text::has_words(name, "season "@ + engine::one(s))
            ||| text::has_words(name, "s"@ + engine::two(s))
            ||| text::has_words(name, "s"@ + engine::one(s))
            ||| text::holds(text::framed(name), "complete series"@)
            ||| spans(text::framed(name), s)
        }),
{
}

/// A complete season is offered for every season that it does not rule out:
/// where it says none, and where a season or a range that it says reaches the
/// one asked for.
pub proof fn complete_seasons_are_offered(name: Seq<char>, s: u32, e: u32)
    requires
        text::holds(text::framed(name), "complete season"@),
        somewhere(name_words(name), s, false) ==> somewhere(name_words(name), s, true),
    ensures
        offers(name, Some(s), Some(e)),
{
}

/// A row is offered where it has a hash that is not all noughts, its IMDB id is
/// missing or the one asked for in either case of letters, and its name holds
/// what was asked for. It becomes a release under its own name, with the seeders
/// and the size that it gives, and nought and no size where it gives none.
pub proof fn rows_become_releases(
    r: RawTorrent,
    imdb_id: Seq<char>,
    season: Option<u32>,
    episode: Option<u32>,
)
    ensures
        row_fits(r, imdb_id, season, episode) ==> r.info_hash@.len() > 0 && r.info_hash@
            != "0000000000000000000000000000000000000000"@ && offers(r.name@, season, episode) && (
        r.imdb@.len() == 0 || text::lower(r.imdb@) == text::lower(imdb_id)),
        r.info_hash@.len() > 0 && r.info_hash@ != "0000000000000000000000000000000000000000"@
            && r.imdb@.len() == 0 && (season is None || episode is None) ==> row_fits(
            r,
            imdb_id,
            season,
            episode,
        ),
        r.info_hash@.len() > 0 && r.info_hash@ != "0000000000000000000000000000000000000000"@ && (
        r.imdb@.len() == 0 || text::lower(r.imdb@) == text::lower(imdb_id)) && offers(
            r.name@,
            season,
            episode,
        ) ==> row_fits(r, imdb_id, season, episode),
        row_release(r).title == r.name@,
        row_release(r).file_idx is None,
        ({
            let n = text::parse_number(r.seeders@, u32::MAX as nat);
            &&& n is Some ==> row_release(r).seeders == n->0
            &&& n is None ==> row_release(r).seeders == 0
        }),
        ({
            let n = text::parse_number(r.size@, u64::MAX as nat);
            &&& n is Some && n->0 > 0 ==> row_release(r).size_bytes is Some && row_release(
                r,
            ).size_bytes->0 == n->0
            &&& n is None || n->0 == 0 ==> row_release(r).size_bytes is None
        }),
        row_release(r).quality == torrentio::quality_named(text::lower(r.name@)),
        row_release(r).audio.hindi <==> audio::heard_in_flags(r.name@).hindi
            || audio::heard_in_name(r.name@).hindi,
        row_release(r).audio.english <==> audio::heard_in_flags(r.name@).english
            || audio::heard_in_name(r.name@).english,
{
}

/// A film takes any row, and so does a series without an episode; an episode
/// takes the rows that name it and the packs of its season: by the season's
/// number, written out or short, with a nought before it or not, and by a whole
/// series.
pub proof fn packs_hold_their_season(name: Seq<char>, s: u32, e: u32)
    ensures
        offers(name, None, None),
        offers(name, Some(s), None),
        offers(name, None, Some(e)),
        engine::names_episode(text::lower(name), text::spaced(name), s, e) ==> offers(
            name,
            Some(s),
            Some(e),
        ),
        text::has_words(name, "season "@ + text::decimal(s as nat)) ==> offers(
            name,
            Some(s),
            Some(e),
        ),
        text::has_words(name, "s"@ + text::decimal(s as nat)) ==> offers(name, Some(s), Some(e)),
        text::has_words(name, "s"@ + text::two_digits(s as nat)) ==> offers(
            name,
            Some(s),
            Some(e),
        ),
        text::holds(text::framed(name), "complete series"@) ==> offers(name, Some(s), Some(e)),
{
}

/// A name that spans seasons from the first on holds every season up to the last
/// that it gives, and no later one.
pub proof fn spans_reach_their_last_season(framed: Seq<char>, i: int, s: u32)
    requires
        text::first_place(framed, " s01 s"@) == Some(i),
        0 <= i,
        i + 8 <= framed.len(),
        text::is_digit(framed[i + 6]),
        text::is_digit(framed[i + 7]),
    ensures
        spans(framed, s) <==> 1 <= s <= (framed[i + 6] as int - '0' as int) * 10 + (framed[i
            + 7] as int - '0' as int),
{
    reveal_strlit(" s01 s");
    let d = framed.subrange(i + 6, i + 8);
    assert(d[0] == framed[i + 6] && d[1] == framed[i + 7]);
    lemma_two_places(d);
}

proof fn lemma_two_places(d: Seq<char>)
    requires
        d.len() == 2,
        text::is_digit(d[0]),
        text::is_digit(d[1]),
    ensures
        text::parse_number(d, u32::MAX as nat) == Some(
            ((d[0] as int - '0' as int) * 10 + (d[1] as int - '0' as int)) as nat,
        ),
{
    let t = d.drop_last();
    assert(t.last() == d[0]);
    assert(t.drop_last() =~= Seq::<char>::empty());
    assert(text::digits_value(t.drop_last()) == 0);
    assert(text::digits_value(t) == d[0] as int - '0' as int);
    assert(text::digits_value(d) == text::digits_value(t) * 10 + (d[1] as int - '0' as int));
    assert(text::all_digits(d));
}

/// A word of two digits is a season's number, and with an s before it a season's
/// tag; a word of more than two characters is no number.
pub proof fn seasons_have_two_places(w: Seq<char>)
    ensures
        w.len() == 2 && text::is_digit(w[0]) && text::is_digit(w[1]) ==> season_number(w) == Some(
            ((w[0] as int - '0' as int) * 10 + (w[1] as int - '0' as int)) as nat,
        ),
        w.len() > 2 ==> season_number(w) is None,
        season_tag(seq!['s'] + w) == season_number(w),
        w.len() > 0 && w[0] != 's' ==> season_tag(w) is None,
{
    if w.len() == 2 && text::is_digit(w[0]) && text::is_digit(w[1]) {
        lemma_two_places(w);
    }
    assert((seq!['s'] + w).skip(1) =~= w);
}

/// A range of seasons runs from its first to its last, with `to`, `thru`,
/// `through` or `and` between them or nothing; a later number after the last
/// carries it on, and any other word ends it.
pub proof fn ranges_run_to_their_last(words: Seq<Seq<char>>, i: int, a: nat, b: nat)
    requires
        0 <= i,
        i + 3 < words.len(),
        words[i] == "season"@,
        season_number(words[i + 1]) == Some(a),
        words[i + 2] == "to"@ || words[i + 2] == "thru"@ || words[i + 2] == "through"@ || words[i
            + 2] == "and"@,
        season_number(words[i + 3]) == Some(b),
        a <= b,
        i + 4 < words.len() ==> season_number(words[i + 4]) is None && season_tag(words[i + 4])
            is None && !is_link(words[i + 4]),
    ensures
        claim_at(words, i) == Some((a, b)),
        forall|s: u32| a <= s <= b ==> #[trigger] claims(words, i, s, true),
        forall|s: u32| s < a || s > b ==> #[trigger] claims(words, i, s, false),
{
    reveal_strlit("season");
    assert("season"@.skip(1).len() == 5);
    reveal_strlit("to");
    reveal_strlit("thru");
    reveal_strlit("through");
    reveal_strlit("and");
    let w = words[i + 2];
    assert("to"@[0] == 't' && "thru"@[0] == 't' && "through"@[0] == 't' && "and"@[0] == 'a');
    assert(!text::is_digit(w[0]) && w[0] != '+' && w[0] != 's');
    assert(!text::all_digits(w));
    assert(season_number(w) is None && season_tag(w) is None);
    reveal_with_fuel(range_end, 4);
}

} // verus!
