//! Torrent engine: choose the right file of a torrent, and prove the swarm can
//! actually sustain playback before anything is handed to the player.

use crate::binary64;
use crate::binary64::{Binary, Dyadic};
use crate::cache;
use crate::text;
use crate::values;
use crate::xdg;
use crate::xdg::Environment;
use vstd::prelude::*;

verus! {

// --- files ------------------------------------------------------------------------

/// A file inside a torrent.
#[derive(Debug)]
pub struct TorrentFile {
    pub idx: usize,
    pub name: String,
    pub len: u64,
}

impl Clone for TorrentFile {
    fn clone(&self) -> (r: TorrentFile)
        ensures
            r == *self,
    {
        TorrentFile { idx: self.idx, name: self.name.clone(), len: self.len }
    }
}

/// The name ends in a point and an extension that videos have; `l` is the name
/// in lower case.
pub open spec fn names_video(l: Seq<char>) -> bool {
    ||| text::finishes(l, ".mkv"@)
    ||| text::finishes(l, ".mp4"@)
    ||| text::finishes(l, ".avi"@)
    ||| text::finishes(l, ".m4v"@)
    ||| text::finishes(l, ".mov"@)
    ||| text::finishes(l, ".ts"@)
    ||| text::finishes(l, ".webm"@)
    ||| text::finishes(l, ".mpg"@)
    ||| text::finishes(l, ".mpeg"@)
    ||| text::finishes(l, ".wmv"@)
    ||| text::finishes(l, ".flv"@)
}

impl TorrentFile {
    pub open spec fn video(self) -> bool {
        names_video(text::lower(self.name@))
    }

    pub fn is_video(&self) -> (r: bool)
        ensures
            r == self.video(),
    {
        let name = text::chars_of(self.name.as_str());
        let low = text::lowered(name.as_slice());
        let l = low.as_slice();
        text::ends_with_str(l, ".mkv") || text::ends_with_str(l, ".mp4") || text::ends_with_str(
            l,
            ".avi",
        ) || text::ends_with_str(l, ".m4v") || text::ends_with_str(l, ".mov")
            || text::ends_with_str(l, ".ts") || text::ends_with_str(l, ".webm")
            || text::ends_with_str(l, ".mpg") || text::ends_with_str(l, ".mpeg")
            || text::ends_with_str(l, ".wmv") || text::ends_with_str(l, ".flv")
    }
}

/// A number in decimal with at least two digits.
pub open spec fn two(n: u32) -> Seq<char> {
    text::two_digits(n as nat)
}

pub open spec fn one(n: u32) -> Seq<char> {
    text::decimal(n as nat)
}

/// The text or its spaced form names the episode. `low` is the name in lower
/// case, `flat` the name with its separators collapsed.
pub open spec fn names_episode(low: Seq<char>, flat: Seq<char>, s: u32, e: u32) -> bool {
    let padded = "s"@ + two(s) + "e"@ + two(e);
    let plain = "s"@ + one(s) + "e"@ + one(e);
    let crossed = one(s) + "x"@ + two(e);
    let spelled = "season "@ + one(s) + " episode "@ + one(e);
    ||| text::holds(low, padded)
    ||| text::holds(flat, padded)
    ||| text::holds(low, plain)
    ||| text::holds(flat, plain)
    ||| text::holds(low, crossed)
    ||| text::holds(flat, crossed)
    ||| text::holds(low, spelled)
    ||| text::holds(flat, spelled)
    ||| text::holds(flat, "s"@ + two(s) + " e"@ + two(e))
    ||| text::holds(flat, "s"@ + one(s) + " e"@ + one(e))
}

/// Whether a filename names a specific episode.
///
/// Covers the three forms release groups actually use: `S02E05`, `2x05`, and a
/// spelled-out `Season 2 Episode 5`. Matching is done on a lowercased copy with
/// separators collapsed, so `S02.E05` and `S02 E05` both hit.
pub fn matches_episode(filename: &str, season: u32, episode: u32) -> (r: bool)
    ensures
        r == names_episode(text::lower(filename@), text::spaced(filename@), season, episode),
{
    let name = text::chars_of(filename);
    let low = text::lowered(name.as_slice());
    let flat = text::space_out(name.as_slice());
    let s2 = text::write_padded(season as u64, 2);
    let e2 = text::write_padded(episode as u64, 2);
    let s1 = text::write_decimal(season as u64);
    let e1 = text::write_decimal(episode as u64);
    let padded = text::four("s", s2.as_slice(), "e", e2.as_slice());
    let plain = text::four("s", s1.as_slice(), "e", e1.as_slice());
    let crossed = text::four("", s1.as_slice(), "x", e2.as_slice());
    let spelled = text::four("season ", s1.as_slice(), " episode ", e1.as_slice());
    let padded_apart = text::four("s", s2.as_slice(), " e", e2.as_slice());
    let plain_apart = text::four("s", s1.as_slice(), " e", e1.as_slice());
    proof {
        reveal_strlit("");
        assert(""@ + s1@ =~= s1@);
    }
    let l = low.as_slice();
    let f = flat.as_slice();
    // The compact forms can appear glued to other text, so the raw lowercase
    // string counts too, not just the whitespace-separated one.
    text::contains(l, padded.as_slice()) || text::contains(f, padded.as_slice())
        || text::contains(l, plain.as_slice()) || text::contains(f, plain.as_slice())
        || text::contains(l, crossed.as_slice()) || text::contains(f, crossed.as_slice())
        || text::contains(l, spelled.as_slice()) || text::contains(f, spelled.as_slice())
        || text::contains(f, padded_apart.as_slice()) || text::contains(f, plain_apart.as_slice())
}

/// Why no file of a torrent could be chosen.
#[derive(Clone, Copy, Debug, PartialEq, Eq, Structural)]
pub enum FileError {
    /// The torrent contains no files.
    NoFiles,
}

impl FileError {
    pub fn message(self) -> (r: &'static str)
        ensures
            r@ == "the torrent contains no files"@,
    {
        "the torrent contains no files"
    }
}

/// The longest file, the last of equally long ones.
pub open spec fn longest(files: Seq<TorrentFile>) -> Option<TorrentFile>
    decreases files.len(),
{
    if files.len() == 0 {
        None
    } else {
        match longest(files.drop_last()) {
            Some(f) => if f.len > files.last().len {
                Some(f)
            } else {
                Some(files.last())
            },
            None => Some(files.last()),
        }
    }
}

pub open spec fn videos(files: Seq<TorrentFile>) -> Seq<TorrentFile> {
    files.filter(|f: TorrentFile| f.video())
}

/// The first video that names the episode.
pub open spec fn episode_file(files: Seq<TorrentFile>, s: u32, e: u32) -> Option<TorrentFile>
    decreases files.len(),
{
    if files.len() == 0 {
        None
    } else {
        let name = files[0].name@;
        if files[0].video() && names_episode(text::lower(name), text::spaced(name), s, e) {
            Some(files[0])
        } else {
            episode_file(files.drop_first(), s, e)
        }
    }
}

/// The file to play: the hinted one where there is such a file, else the one
/// that names the episode, else the longest video, else the longest file.
pub open spec fn chosen(
    files: Seq<TorrentFile>,
    hint: Option<usize>,
    season: Option<u32>,
    episode: Option<u32>,
) -> Option<usize> {
    let named = match (season, episode) {
        (Some(s), Some(e)) => episode_file(files, s, e),
        _ => None,
    };
    if hint is Some && exists|i: int| 0 <= i < files.len() && (#[trigger] files[i]).idx == hint->0 {
        hint
    } else if named is Some {
        Some(named->0.idx)
    } else if longest(videos(files)) is Some {
        Some(longest(videos(files))->0.idx)
    } else if longest(files) is Some {
        Some(longest(files)->0.idx)
    } else {
        None
    }
}

fn find_episode_file(files: &[TorrentFile], s: u32, e: u32) -> (r: Option<usize>)
    ensures
        match r {
            Some(idx) => episode_file(files@, s, e) is Some && episode_file(files@, s, e)->0.idx
                == idx,
            None => episode_file(files@, s, e) is None,
        },
{
    let mut i: usize = 0;
    assert(files@.skip(0) =~= files@);
    while i < files.len()
        invariant
            i <= files.len(),
            episode_file(files@, s, e) == episode_file(files@.skip(i as int), s, e),
        decreases files.len() - i,
    {
        if files[i].is_video() && matches_episode(files[i].name.as_str(), s, e) {
            return Some(files[i].idx);
        }
        assert(files@.skip(i as int).drop_first() =~= files@.skip(i + 1));
        i += 1;
    }
    None
}

/// The place of the longest file, or of the longest video.
fn find_longest(files: &[TorrentFile], only_videos: bool) -> (r: Option<usize>)
    ensures
        ({
            let all = if only_videos {
                videos(files@)
            } else {
                files@
            };
            match r {
                Some(k) => k < files@.len() && longest(all) == Some(files@[k as int]),
                None => longest(all) is None,
            }
        }),
{
    let mut best: Option<usize> = None;
    let mut i: usize = 0;
    proof {
        reveal(Seq::filter);
        assert(videos(files@.take(0)) =~= Seq::empty());
        assert(files@.take(0) =~= Seq::empty());
    }
    while i < files.len()
        invariant
            i <= files.len(),
            ({
                let all = if only_videos {
                    videos(files@.take(i as int))
                } else {
                    files@.take(i as int)
                };
                match best {
                    Some(k) => k < i && longest(all) == Some(files@[k as int]),
                    None => longest(all) is None,
                }
            }),
        decreases files.len() - i,
    {
        let ghost before = if only_videos {
            videos(files@.take(i as int))
        } else {
            files@.take(i as int)
        };
        let ghost after = if only_videos {
            videos(files@.take(i + 1))
        } else {
            files@.take(i + 1)
        };
        proof {
            assert(files@.take(i + 1) =~= files@.take(i as int).push(files@[i as int]));
            text::lemma_filter_push(
                files@.take(i as int),
                |f: TorrentFile| f.video(),
                files@[i as int],
            );
        }
        if !only_videos || files[i].is_video() {
            assert(after =~= before.push(files@[i as int]));
            assert(after.drop_last() =~= before);
            best = match best {
                Some(k) => if files[k].len > files[i].len {
                    Some(k)
                } else {
                    Some(i)
                },
                None => Some(i),
            };
        }
        i += 1;
    }
    assert(files@.take(files@.len() as int) =~= files@);
    best
}

/// Choose which file inside a torrent to play.
///
/// Torrentio's `fileIdx` is authoritative when present: it is how season packs
/// point at one episode. Without it we match `SxxExx` in the filename, and fall
/// back to the largest video file, which is right for single-movie torrents and
/// avoids sample/extras files.
pub fn choose_file(
    files: &[TorrentFile],
    hint: Option<usize>,
    season: Option<u32>,
    episode: Option<u32>,
) -> (r: Result<usize, FileError>)
    ensures
        match r {
            Ok(idx) => chosen(files@, hint, season, episode) == Some(idx),
            Err(e) => files@.len() == 0,
        },
        files@.len() == 0 ==> r is Err,
{
    if files.len() == 0 {
        return Err(FileError::NoFiles);
    }
    if let Some(idx) = hint {
        let mut i: usize = 0;
        while i < files.len()
            invariant
                i <= files.len(),
                hint == Some(idx),
                forall|j: int| 0 <= j < i ==> (#[trigger] files@[j]).idx != idx,
            decreases files.len() - i,
        {
            if files[i].idx == idx {
                return Ok(idx);
            }
            i += 1;
        }
    }
    if let (Some(s), Some(e)) = (season, episode) {
        if let Some(idx) = find_episode_file(files, s, e) {
            return Ok(idx);
        }
    }
    if let Some(k) = find_longest(files, true) {
        return Ok(files[k].idx);
    }
    match find_longest(files, false) {
        Some(k) => Ok(files[k].idx),
        None => {
            assert(longest(files@) is Some);
            Err(FileError::NoFiles)
        },
    }
}

/// A torrent with files always yields one of them.
pub proof fn some_file_is_chosen(
    files: Seq<TorrentFile>,
    hint: Option<usize>,
    season: Option<u32>,
    episode: Option<u32>,
)
    requires
        files.len() > 0,
    ensures
        chosen(files, hint, season, episode) is Some,
        exists|i: int|
            0 <= i < files.len() && (#[trigger] files[i]).idx == chosen(
                files,
                hint,
                season,
                episode,
            )->0,
{
    lemma_longest_is_there(files);
    lemma_longest_is_there(videos(files));
    if longest(videos(files)) is Some {
        let f = longest(videos(files))->0;
        lemma_filter_keeps(files, |f: TorrentFile| f.video(), f);
    }
    if season is Some && episode is Some {
        lemma_episode_is_there(files, season->0, episode->0);
    }
}

/// A video whose name names the episode.
pub open spec fn is_episode(f: TorrentFile, s: u32, e: u32) -> bool {
    f.video() && names_episode(text::lower(f.name@), text::spaced(f.name@), s, e)
}

/// Torrentio's index is authoritative: where some file has it, that is the file,
/// whatever the season and the episode.
pub proof fn the_hint_is_authoritative(
    files: Seq<TorrentFile>,
    idx: usize,
    season: Option<u32>,
    episode: Option<u32>,
    i: int,
)
    requires
        0 <= i < files.len(),
        files[i].idx == idx,
    ensures
        chosen(files, Some(idx), season, episode) == Some(idx),
{
}

/// Where no file has the hinted index, the first video that names the episode is
/// played; without one, the longest video; and without any video, the longest
/// file.
pub proof fn names_and_sizes_stand_in_for_the_hint(
    files: Seq<TorrentFile>,
    hint: Option<usize>,
    season: Option<u32>,
    episode: Option<u32>,
)
    requires
        hint is Some ==> forall|i: int| 0 <= i < files.len() ==> (#[trigger] files[i]).idx
            != hint->0,
    ensures
        ({
            let c = chosen(files, hint, season, episode);
            if season is Some && episode is Some && exists|i: int|
                0 <= i < files.len() && is_episode(#[trigger] files[i], season->0, episode->0) {
                exists|i: int|
                    0 <= i < files.len() && is_episode(
                        #[trigger] files[i],
                        season->0,
                        episode->0,
                    ) && c == Some(files[i].idx) && forall|j: int|
                        0 <= j < i ==> !is_episode(#[trigger] files[j], season->0, episode->0)
            } else if exists|i: int| 0 <= i < files.len() && (#[trigger] files[i]).video() {
                exists|i: int|
                    0 <= i < files.len() && (#[trigger] files[i]).video() && c == Some(files[i].idx)
                        && forall|j: int|
                        0 <= j < files.len() && (#[trigger] files[j]).video() ==> files[j].len
                            <= files[i].len
            } else if files.len() > 0 {
                exists|i: int|
                    0 <= i < files.len() && c == Some((#[trigger] files[i]).idx) && forall|j: int|
                        0 <= j < files.len() ==> (#[trigger] files[j]).len <= files[i].len
            } else {
                c is None
            }
        }),
{
    let c = chosen(files, hint, season, episode);
    if season is Some && episode is Some {
        lemma_first_episode(files, season->0, episode->0);
    }
    if season is Some && episode is Some && exists|i: int|
        0 <= i < files.len() && is_episode(#[trigger] files[i], season->0, episode->0) {
        let s = season->0;
        let e = episode->0;
        let i = choose|i: int|
            0 <= i < files.len() && episode_file(files, s, e) == Some(#[trigger] files[i])
                && is_episode(files[i], s, e) && forall|j: int|
                0 <= j < i ==> !is_episode(#[trigger] files[j], s, e);
        assert(c == Some(files[i].idx));
    } else {
        let p = |f: TorrentFile| f.video();
        lemma_longest_is_longest(files);
        lemma_longest_is_longest(videos(files));
        lemma_longest_is_there(files);
        lemma_longest_is_there(videos(files));
        assert forall|j: int| 0 <= j < files.len() && (#[trigger] files[j]).video() implies (
        exists|k: int| 0 <= k < videos(files).len() && videos(files)[k] == files[j]) by {
            files.lemma_filter_contains(p, j);
            assert(videos(files).contains(files[j]));
        }
        if longest(videos(files)) is Some {
            let f = longest(videos(files))->0;
            lemma_filter_keeps(files, p, f);
            files.lemma_filter_contains_rev(p, f);
            let i = choose|i: int| 0 <= i < files.len() && files[i] == f;
            assert(files[i].video() && c == Some(files[i].idx));
        } else {
            assert forall|j: int| 0 <= j < files.len() implies !(#[trigger] files[j]).video() by {}
            if files.len() > 0 {
                let f = longest(files)->0;
                let i = choose|i: int| 0 <= i < files.len() && files[i] == f;
                assert(c == Some(files[i].idx));
            }
        }
    }
}

proof fn lemma_first_episode(files: Seq<TorrentFile>, s: u32, e: u32)
    ensures
        match episode_file(files, s, e) {
            Some(f) => exists|i: int|
                0 <= i < files.len() && episode_file(files, s, e) == Some(#[trigger] files[i])
                    && is_episode(files[i], s, e) && forall|j: int|
                    0 <= j < i ==> !is_episode(#[trigger] files[j], s, e),
            None => forall|i: int|
                0 <= i < files.len() ==> !is_episode(#[trigger] files[i], s, e),
        },
    decreases files.len(),
{
    if files.len() > 0 {
        let t = files.drop_first();
        lemma_first_episode(t, s, e);
        if is_episode(files[0], s, e) {
            assert(episode_file(files, s, e) == Some(files[0]));
        } else {
            match episode_file(t, s, e) {
                Some(f) => {
                    let i = choose|i: int|
                        0 <= i < t.len() && episode_file(t, s, e) == Some(#[trigger] t[i])
                            && is_episode(t[i], s, e) && forall|j: int|
                            0 <= j < i ==> !is_episode(#[trigger] t[j], s, e);
                    assert(files[i + 1] == t[i]);
                    assert forall|j: int| 0 <= j < i + 1 implies !is_episode(
                        #[trigger] files[j],
                        s,
                        e,
                    ) by {
                        if j > 0 {
                            assert(t[j - 1] == files[j]);
                        }
                    }
                },
                None => {
                    assert forall|j: int| 0 <= j < files.len() implies !is_episode(
                        #[trigger] files[j],
                        s,
                        e,
                    ) by {
                        if j > 0 {
                            assert(t[j - 1] == files[j]);
                        }
                    }
                },
            }
        }
    }
}

proof fn lemma_longest_is_longest(files: Seq<TorrentFile>)
    ensures
        longest(files) is Some ==> forall|j: int|
            0 <= j < files.len() ==> (#[trigger] files[j]).len <= longest(files)->0.len,
        longest(files) is None ==> files.len() == 0,
    decreases files.len(),
{
    if files.len() > 0 {
        let t = files.drop_last();
        lemma_longest_is_longest(t);
        assert forall|j: int| 0 <= j < files.len() implies (#[trigger] files[j]).len <= longest(
            files,
        )->0.len by {
            if j < t.len() {
                assert(t[j] == files[j]);
            }
        }
    }
}

/// A video is a file whose name ends, in any case, in one of the extensions that
/// videos have.
pub proof fn videos_end_like_videos(f: TorrentFile)
    ensures
        ({
            let l = text::lower(f.name@);
            let ends = |e: Seq<char>| l.len() >= e.len() && l.skip(l.len() - e.len()) == e;
            f.video() <==> ends(".mkv"@) || ends(".mp4"@) || ends(".avi"@) || ends(".m4v"@)
                || ends(".mov"@) || ends(".ts"@) || ends(".webm"@) || ends(".mpg"@) || ends(
                ".mpeg"@,
            ) || ends(".wmv"@) || ends(".flv"@)
        }),
{
}

/// A name that holds one of the ways to write an episode names it: `S02E05`, also
/// with its parts apart, `2x05` and `Season 2 Episode 5`. One that holds none of
/// them does not.
pub proof fn episodes_are_named_in_four_ways(name: Seq<char>, s: u32, e: u32)
    ensures
        ({
            let low = text::lower(name);
            let flat = text::spaced(name);
            let one_s = text::decimal(s as nat);
            let one_e = text::decimal(e as nat);
            let two_s = if s < 10 {
                seq!['0'] + one_s
            } else {
                one_s
            };
            let two_e = if e < 10 {
                seq!['0'] + one_e
            } else {
                one_e
            };
            let says = |form: Seq<char>|
                (exists|i: int|
                    0 <= i <= low.len() - form.len() && #[trigger] low.subrange(i, i + form.len())
                        == form) || (exists|i: int|
                    0 <= i <= flat.len() - form.len() && #[trigger] flat.subrange(
                        i,
                        i + form.len(),
                    ) == form);
            let apart = |form: Seq<char>|
                exists|i: int|
                    0 <= i <= flat.len() - form.len() && #[trigger] flat.subrange(
                        i,
                        i + form.len(),
                    ) == form;
            names_episode(low, flat, s, e) <==> says("s"@ + two_s + "e"@ + two_e) || says(
                "s"@ + one_s + "e"@ + one_e,
            ) || says(one_s + "x"@ + two_e) || says("season "@ + one_s + " episode "@ + one_e)
                || apart("s"@ + two_s + " e"@ + two_e) || apart("s"@ + one_s + " e"@ + one_e)
        }),
{
    let low = text::lower(name);
    let flat = text::spaced(name);
    text::lemma_two_digits(s as nat);
    text::lemma_two_digits(e as nat);
    assert forall|t: Seq<char>, form: Seq<char>| #[trigger] text::holds(t, form) <==> exists|i: int|
        0 <= i <= t.len() - form.len() && #[trigger] t.subrange(i, i + form.len()) == form by {
        if text::holds(t, form) {
            let i = choose|i: int| text::stands_at(t, form, i);
            assert(t.subrange(i, i + form.len()) == form);
        }
        if exists|i: int|
            0 <= i <= t.len() - form.len() && #[trigger] t.subrange(i, i + form.len()) == form {
            let i = choose|i: int|
                0 <= i <= t.len() - form.len() && #[trigger] t.subrange(i, i + form.len()) == form;
            assert(text::stands_at(t, form, i));
        }
    }
}

proof fn lemma_longest_is_there(files: Seq<TorrentFile>)
    ensures
        files.len() > 0 ==> longest(files) is Some,
        longest(files) is Some ==> files.contains(longest(files)->0),
    decreases files.len(),
{
    if files.len() > 0 {
        lemma_longest_is_there(files.drop_last());
        if longest(files) == longest(files.drop_last()) {
            let f = longest(files)->0;
            let k = choose|k: int| 0 <= k < files.drop_last().len() && files.drop_last()[k] == f;
            assert(files[k] == f);
        } else {
            assert(files[files.len() - 1] == longest(files)->0);
        }
    }
}

proof fn lemma_filter_keeps(files: Seq<TorrentFile>, p: spec_fn(TorrentFile) -> bool, f: TorrentFile)
    requires
        files.filter(p).contains(f),
    ensures
        files.contains(f),
    decreases files.len(),
{
    if files.len() == 0 {
        reveal(Seq::filter);
    } else {
        let t = files.drop_last();
        assert(files =~= t.push(files.last()));
        text::lemma_filter_push(t, p, files.last());
        let k = choose|k: int| 0 <= k < files.filter(p).len() && files.filter(p)[k] == f;
        if k < t.filter(p).len() {
            assert(t.filter(p)[k] == f);
            lemma_filter_keeps(t, p, f);
            let j = choose|j: int| 0 <= j < t.len() && t[j] == f;
            assert(files[j] == f);
        } else {
            assert(files[files.len() - 1] == f);
        }
    }
}

proof fn lemma_episode_is_there(files: Seq<TorrentFile>, s: u32, e: u32)
    ensures
        episode_file(files, s, e) is Some ==> files.contains(episode_file(files, s, e)->0),
    decreases files.len(),
{
    if files.len() > 0 {
        let t = files.drop_first();
        lemma_episode_is_there(t, s, e);
        if episode_file(files, s, e) is Some {
            if episode_file(files, s, e) == Some(files[0]) {
            } else {
                let f = episode_file(t, s, e)->0;
                let k = choose|k: int| 0 <= k < t.len() && t[k] == f;
                assert(files[k + 1] == f);
            }
        }
    }
}

// --- how much to buffer, and how long to wait -------------------------------------

/// One second, in nanoseconds.
pub const SECOND: u64 = 1_000_000_000;

/// Seconds of video buffered before mpv is launched, when the swarm has
/// comfortable headroom. mpv keeps buffering after this, so it is a floor on
/// the head start, not the total cushion.
pub const PREBUFFER_SECS: u64 = 45;

/// Seconds buffered when a release only just fits the link. One long wait up
/// front beats repeated rebuffering.
pub const PREBUFFER_MAX_SECS: u64 = 240;

/// Smallest useful pre-buffer, for releases whose bitrate is tiny or unknown.
pub const PREBUFFER_MIN_BYTES: u64 = 8 * 1024 * 1024;

/// Hard ceiling on the pre-buffer, so a 4K remux does not make us wait minutes.
pub const PREBUFFER_MAX_BYTES: u64 = 512 * 1024 * 1024;

/// How long a candidate gets to prove its *rate*, in nanoseconds. Peer
/// discovery over DHT and trackers is not instant, so this has to be patient,
/// but the probe exits the moment the threshold is cleared, so a healthy swarm costs
/// only a second or two. When the pre-buffer was scaled up for thin headroom, a
/// release whose rate has already cleared the threshold gets extra time to fill the
/// slab (see `probe_budget`); one that has not is still cut off here.
pub const PROBE_BUDGET: u64 = 45_000_000_000;

/// Ceiling on the extended slab-filling budget, however thin the headroom.
pub const PROBE_BUDGET_MAX: u64 = 360_000_000_000;

/// How long a candidate gets before a clearly-hopeless rate ends it early.
/// Long enough for DHT and tracker announces to have produced peers.
pub const EARLY_ABANDON_AFTER: u64 = 12_000_000_000;

/// Minimum time spent watching network throughput before a release can be
/// declared playable, however much of it is already cached on disk.
pub const MIN_PROBE_SECS: u64 = 6_000_000_000;

/// Window the sustained rate is measured over. Cumulative-since-start would be
/// dragged down by the seconds before any peer connected.
pub const RATE_WINDOW: u64 = 5_000_000_000;

/// How often progress is reported.
pub const REPORT_EVERY: u64 = 400_000_000;

/// How much headroom over the release's own bitrate the swarm must show before
/// we commit: 1.25. It absorbs the normal sawtooth of peer churn without being
/// so strict that good releases get rejected.
pub open spec fn safety_factor() -> Dyadic {
    Dyadic { m: 0x14_0000_0000_0000, e: -52 }
}

/// Headroom (link estimate by release bitrate) at and above which the base
/// pre-buffer is enough: 2. Below it the buffer grows toward the maximum.
pub open spec fn comfortable_headroom() -> Dyadic {
    Dyadic { m: 0x10_0000_0000_0000, e: -51 }
}

/// The comfortable headroom less the safety factor: 0.75.
pub open spec fn headroom_range() -> Dyadic {
    Dyadic { m: 0x18_0000_0000_0000, e: -53 }
}

pub open spec fn eight() -> Dyadic {
    Dyadic { m: 0x10_0000_0000_0000, e: -49 }
}

/// 1.5.
pub open spec fn half_again() -> Dyadic {
    Dyadic { m: 0x18_0000_0000_0000, e: -52 }
}

/// 0.5.
pub open spec fn half() -> Dyadic {
    Dyadic { m: 0x10_0000_0000_0000, e: -53 }
}

/// Seconds of video to buffer at a headroom between the safety factor and the
/// comfortable one: the base at the comfortable end, growing linearly to the
/// maximum at the other.
pub open spec fn scaled_secs(headroom: Dyadic) -> u64 {
    let thin = binary64::quotient(
        binary64::difference(comfortable_headroom(), headroom),
        headroom_range(),
    );
    binary64::to_u64(
        binary64::sum(
            binary64::of_int(PREBUFFER_SECS as nat),
            binary64::product(
                thin,
                binary64::of_int((PREBUFFER_MAX_SECS - PREBUFFER_SECS) as nat),
            ),
        ),
    )
}

/// Seconds of video to buffer.
pub open spec fn secs_to_buffer(required_bps: Option<u64>, link_bps: Option<u64>) -> u64 {
    match (required_bps, link_bps) {
        (Some(need), Some(link)) => {
            let headroom = binary64::quotient(
                binary64::of_int(link as nat),
                binary64::of_int(need as nat),
            );
            if need == 0 || binary64::at_least(headroom, comfortable_headroom()) {
                PREBUFFER_SECS
            } else if binary64::at_least(safety_factor(), headroom) {
                PREBUFFER_MAX_SECS
            } else {
                scaled_secs(headroom)
            }
        },
        _ => PREBUFFER_SECS,
    }
}

/// Bytes to buffer, before the limits: the release's bitrate over the seconds,
/// or a middling bitrate over the base.
pub open spec fn slab(required_bps: Option<u64>, link_bps: Option<u64>) -> int {
    match required_bps {
        Some(bps) => (bps as int / 8) * secs_to_buffer(required_bps, link_bps),
        None => 8_000_000int / 8 * PREBUFFER_SECS,
    }
}

/// Bytes to buffer before launching mpv.
pub open spec fn bytes_to_buffer(required_bps: Option<u64>, link_bps: Option<u64>) -> u64 {
    let n = slab(required_bps, link_bps);
    if n < PREBUFFER_MIN_BYTES {
        PREBUFFER_MIN_BYTES
    } else if n > PREBUFFER_MAX_BYTES {
        PREBUFFER_MAX_BYTES
    } else {
        n as u64
    }
}

/// The rate that a release's bitrate asks of the swarm.
pub open spec fn gate_bps(bps: u64) -> Dyadic {
    binary64::product(binary64::of_int(bps as nat), safety_factor())
}

/// Seconds that fetching a number of bytes at the threshold rate takes, and half
/// again.
pub open spec fn fetch_secs(target_bytes: u64, bps: u64) -> Dyadic {
    binary64::product(
        binary64::quotient(
            binary64::product(binary64::of_int(target_bytes as nat), eight()),
            gate_bps(bps),
        ),
        half_again(),
    )
}

/// A number of seconds as a budget in nanoseconds, within its limits.
pub open spec fn budget_of(secs: Dyadic) -> u64 {
    if binary64::at_least(binary64::of_int(45), secs) {
        PROBE_BUDGET
    } else if binary64::at_least(secs, binary64::of_int(360)) {
        PROBE_BUDGET_MAX
    } else if binary64::scaled(secs, SECOND as nat) > PROBE_BUDGET_MAX {
        PROBE_BUDGET_MAX
    } else {
        binary64::scaled(secs, SECOND as nat) as u64
    }
}

/// How long the probe may run in total, in nanoseconds.
pub open spec fn budget_for(target_bytes: u64, required_bps: Option<u64>) -> u64 {
    match required_bps {
        Some(bps) => if bps > 0 {
            budget_of(fetch_secs(target_bytes, bps))
        } else {
            PROBE_BUDGET
        },
        None => PROBE_BUDGET,
    }
}

proof fn lemma_exponent_of(n: u64, e: int, p: nat)
    requires
        binary64::fits(n as nat, 1, e),
        binary64::two(p) <= n < binary64::two(p + 1),
    ensures
        e == p - 52,
{
    binary64::lemma_exponent_from(n as nat, e, p);
    binary64::lemma_exponent_upto(n as nat, e, p + 1);
}

fn thin_secs(headroom: Binary) -> (r: u64)
    requires
        binary64::B52 <= headroom.m <= binary64::B53,
        -200 <= headroom.e <= 200,
        !binary64::at_least(headroom@, comfortable_headroom()),
        !binary64::at_least(safety_factor(), headroom@),
    ensures
        r == scaled_secs(headroom@),
{
    let comfortable = Binary { m: 0x10_0000_0000_0000, e: -51 };
    let gate = Binary { m: 0x14_0000_0000_0000, e: -52 };
    proof {
        assert(comfortable@ == comfortable_headroom());
        assert(gate@ == safety_factor());
        binary64::lemma_exponents_follow(comfortable, headroom);
        binary64::lemma_exponents_follow(headroom, gate);
    }
    let left = binary64::minus(comfortable, headroom);
    proof {
        if left.m > 0 {
            binary64::lemma_difference_reach(comfortable, headroom, left);
        }
    }
    let range = Binary { m: 0x18_0000_0000_0000, e: -53 };
    let thin = binary64::over(left, range);
    let base = binary64::from_u64(45);
    let span = binary64::from_u64(195);
    proof {
        reveal_with_fuel(binary64::two, 9);
        lemma_exponent_of(45, base.e as int, 5);
        lemma_exponent_of(195, span.e as int, 7);
    }
    let more = binary64::times(thin, span);
    binary64::truncated(binary64::plus(base, more))
}

/// Seconds of video to buffer, scaled against the headroom between what the
/// link is remembered to deliver and what the release needs.
///
/// Comfortable headroom (2x or more) gets the base 45 s. As headroom thins
/// toward the 1.25x gate the buffer grows linearly toward 240 s: a release
/// that only just fits WILL fall behind during peer churn, and the choice is
/// between absorbing that in a big head start or pausing mid-scene. Without a
/// trusted link estimate there is nothing to scale against, so the base holds.
pub fn prebuffer_secs(required_bps: Option<u64>, link_bps: Option<u64>) -> (r: u64)
    ensures
        r == secs_to_buffer(required_bps, link_bps),
{
    match (required_bps, link_bps) {
        (Some(need), Some(link)) => {
            if need == 0 {
                return PREBUFFER_SECS;
            }
            let headroom = binary64::over(binary64::from_u64(link), binary64::from_u64(need));
            let comfortable = Binary { m: 0x10_0000_0000_0000, e: -51 };
            let gate = Binary { m: 0x14_0000_0000_0000, e: -52 };
            if binary64::ge(headroom, comfortable) {
                return PREBUFFER_SECS;
            }
            if binary64::ge(gate, headroom) {
                return PREBUFFER_MAX_SECS;
            }
            proof {
                if headroom.m == 0 {
                    assert(0 * binary64::two(
                        (headroom.e - binary64::low(headroom@, gate@)) as nat,
                    ) == 0);
                }
            }
            thin_secs(headroom)
        },
        _ => PREBUFFER_SECS,
    }
}

/// How many bytes to buffer before launching mpv.
pub fn prebuffer_target(required_bps: Option<u64>, link_bps: Option<u64>) -> (r: u64)
    requires
        slab(required_bps, link_bps) <= u64::MAX,
    ensures
        r == bytes_to_buffer(required_bps, link_bps),
{
    let secs = prebuffer_secs(required_bps, link_bps);
    let n: u64 = match required_bps {
        Some(bps) => {
            assert((bps / 8) * secs >= 0) by (nonlinear_arith);
            bps / 8 * secs
        },
        // No size from Torrentio: assume a middling 1080p bitrate so the slab
        // is still a sane size rather than unbounded.
        None => 8_000_000 / 8 * PREBUFFER_SECS,
    };
    if n < PREBUFFER_MIN_BYTES {
        PREBUFFER_MIN_BYTES
    } else if n > PREBUFFER_MAX_BYTES {
        PREBUFFER_MAX_BYTES
    } else {
        n
    }
}

fn fetch_time(target_bytes: u64, bps: u64) -> (r: Binary)
    requires
        bps > 0,
    ensures
        r@ == fetch_secs(target_bytes, bps),
        r.m == 0 || binary64::B52 <= r.m <= binary64::B53,
        -700 <= r.e <= 700,
{
    let gate = binary64::times(
        binary64::from_u64(bps),
        Binary { m: 0x14_0000_0000_0000, e: -52 },
    );
    let bits = binary64::times(
        binary64::from_u64(target_bytes),
        Binary { m: 0x10_0000_0000_0000, e: -49 },
    );
    let fetch = binary64::over(bits, gate);
    binary64::times(fetch, Binary { m: 0x18_0000_0000_0000, e: -52 })
}

fn budget_from(secs: Binary) -> (r: u64)
    requires
        secs.m == 0 || binary64::B52 <= secs.m <= binary64::B53,
        -700 <= secs.e <= 700,
    ensures
        r == budget_of(secs@),
{
    let least = binary64::from_u64(45);
    let most = binary64::from_u64(360);
    if binary64::ge(least, secs) {
        return PROBE_BUDGET;
    }
    if binary64::ge(secs, most) {
        return PROBE_BUDGET_MAX;
    }
    proof {
        if secs.m == 0 {
            assert(0 * binary64::two((secs.e - binary64::low(secs@, least@)) as nat) == 0);
        }
        binary64::lemma_exponents_follow(secs, least);
        binary64::lemma_exponents_follow(most, secs);
    }
    let ns = binary64::nearest_multiple(secs, SECOND);
    if ns > PROBE_BUDGET_MAX as u128 {
        PROBE_BUDGET_MAX
    } else {
        ns as u64
    }
}

/// How long the probe may run in total, in nanoseconds.
///
/// The base budget is enough to prove a rate. When the slab was scaled up for
/// thin headroom, filling it at roughly the threshold rate takes longer than the
/// base, so the budget covers fetching the whole target at the threshold rate with
/// half again to spare, capped. The base-budget rate check of the probe still
/// cuts off a release that never clears the threshold.
pub fn probe_budget(target_bytes: u64, required_bps: Option<u64>) -> (r: u64)
    ensures
        r == budget_for(target_bytes, required_bps),
{
    match required_bps {
        Some(bps) => {
            if bps == 0 {
                return PROBE_BUDGET;
            }
            budget_from(fetch_time(target_bytes, bps))
        },
        None => PROBE_BUDGET,
    }
}

proof fn lemma_forty_five()
    ensures
        binary64::of_int(45) == (Dyadic { m: 45 * 0x8000_0000_0000, e: -47 }),
        binary64::two(47) == 0x8000_0000_0000,
{
    binary64::lemma_two_values();
    binary64::lemma_two_add(47, 5);
    reveal_with_fuel(binary64::two, 6);
    binary64::lemma_exact(45, 47);
}

/// The budget never leaves its limits.
pub proof fn budget_stays_in_bounds(target_bytes: u64, required_bps: Option<u64>)
    ensures
        PROBE_BUDGET <= budget_for(target_bytes, required_bps) <= PROBE_BUDGET_MAX,
{
    if required_bps is Some && required_bps->0 > 0 {
        lemma_forty_five();
        let secs = fetch_secs(target_bytes, required_bps->0);
        let base = binary64::of_int(45);
        if !binary64::at_least(base, secs) {
            lemma_more_than_base(secs);
        }
    }
}

/// More than 45 seconds are more than 45 seconds in nanoseconds.
proof fn lemma_more_than_base(secs: Dyadic)
    requires
        !binary64::at_least(binary64::of_int(45), secs),
    ensures
        binary64::scaled(secs, SECOND as nat) >= PROBE_BUDGET,
{
    lemma_forty_five();
    binary64::lemma_two_values();
    let n = SECOND as nat;
    let m = secs.m;
    let c: nat = 45 * 0x8000_0000_0000;
    if secs.e >= -47 {
        let t = binary64::two((secs.e + 47) as nat);
        assert(c * binary64::two(0) == c);
        assert(c < m * t);
        if secs.e >= 0 {
            let p = binary64::two(secs.e as nat);
            binary64::lemma_two_add(secs.e as nat, 47);
            assert(m * p > 45) by (nonlinear_arith)
                requires
                    c < m * t,
                    t == p * 0x8000_0000_0000,
                    c == 45 * 0x8000_0000_0000,
            ;
            assert(m * n * p >= 45 * n) by (nonlinear_arith)
                requires
                    m * p > 45,
            ;
            assert((45 * n) * 1 == 45 * n);
            binary64::lemma_half_even_from(m * n * p, 1, 45 * n);
        } else {
            let d = binary64::two((-secs.e) as nat);
            binary64::lemma_two_add((secs.e + 47) as nat, (-secs.e) as nat);
            binary64::lemma_two_pos((-secs.e) as nat);
            assert(m >= 45 * d) by (nonlinear_arith)
                requires
                    c < m * t,
                    t * d == 0x8000_0000_0000,
                    c == 45 * 0x8000_0000_0000,
                    d >= 1,
            ;
            assert(m * n * 1 >= (45 * n) * d) by (nonlinear_arith)
                requires
                    m >= 45 * d,
            ;
            binary64::lemma_half_even_from(m * n * 1, d, 45 * n);
        }
    } else {
        let t = binary64::two((-47 - secs.e) as nat);
        let d = binary64::two((-secs.e) as nat);
        binary64::lemma_two_add(47, (-47 - secs.e) as nat);
        binary64::lemma_two_pos((-secs.e) as nat);
        assert(m * binary64::two(0) == m);
        assert(c * t < m);
        assert(m >= 45 * d) by (nonlinear_arith)
            requires
                c * t < m,
                d == 0x8000_0000_0000 * t,
                c == 45 * 0x8000_0000_0000,
        ;
        assert(m * n * 1 >= (45 * n) * d) by (nonlinear_arith)
            requires
                m >= 45 * d,
        ;
        binary64::lemma_half_even_from(m * n * 1, d, 45 * n);
    }
}

/// However thin the headroom, the seconds to buffer lie between the base and
/// the maximum.
pub proof fn seconds_stay_in_bounds(required_bps: Option<u64>, link_bps: Option<u64>)
    ensures
        PREBUFFER_SECS <= secs_to_buffer(required_bps, link_bps) <= PREBUFFER_MAX_SECS,
{
    if required_bps is Some && link_bps is Some && required_bps->0 > 0 {
        let headroom = binary64::quotient(
            binary64::of_int(link_bps->0 as nat),
            binary64::of_int(required_bps->0 as nat),
        );
        if !binary64::at_least(headroom, comfortable_headroom()) && !binary64::at_least(
            safety_factor(),
            headroom,
        ) {
            lemma_scaled_secs(headroom);
        }
    }
}

/// The headroom lacking, of at most three quarters.
proof fn lemma_lacking(headroom: Dyadic)
    requires
        !binary64::at_least(headroom, comfortable_headroom()),
        !binary64::at_least(safety_factor(), headroom),
    ensures
        ({
            let d = binary64::difference(comfortable_headroom(), headroom);
            binary64::upto(d, 3, 2) && d.m >= binary64::B52
        }),
{
    binary64::lemma_two_values();
    reveal_with_fuel(binary64::two, 4);
    let two = comfortable_headroom();
    let g = safety_factor();
    let h = headroom;
    let e = binary64::low(two, h);
    let p = binary64::two((-e) as nat);
    let x = binary64::aligned(two, h);
    let y = binary64::aligned(h, two);
    assert(x > y);
    // 2 is 2^52 * 2^-51, so that x is 2 * 2^-e.
    assert(x == 2 * p) by {
        let t = binary64::two((-51 - e) as nat);
        binary64::lemma_two_add((-51 - e) as nat, 51);
        binary64::lemma_two_add(51, 1);
        assert(0x10_0000_0000_0000 * t == 2 * p) by (nonlinear_arith)
            requires
                p == t * 0x8_0000_0000_0000,
        ;
    }
    // The headroom is more than 5 * 2^50 * 2^-52.
    assert(4 * y >= 5 * p) by {
        let f = binary64::low(g, h);
        let u = binary64::aligned(g, h);
        let v = binary64::aligned(h, g);
        assert(u < v);
        if h.e >= -51 {
            // Aligned at -52 and at -51.
            let a = binary64::two((h.e + 52) as nat);
            let b = binary64::two((h.e + 51) as nat);
            assert(a == 2 * b);
            assert(0x14_0000_0000_0000 * binary64::two(0) == 0x14_0000_0000_0000);
            assert(h.m * a == 2 * (h.m * b)) by (nonlinear_arith)
                requires
                    a == 2 * b,
            ;
            assert(e == -51 && f == -52);
            binary64::lemma_two_add(51, 1);
        } else if h.e == -52 {
            let t = binary64::two(0);
            assert(h.m * t == h.m);
            assert(0x14_0000_0000_0000 * t == 0x14_0000_0000_0000);
        } else {
            let t = binary64::two((-52 - h.e) as nat);
            binary64::lemma_two_add((-52 - h.e) as nat, 52);
            assert(h.m * binary64::two(0) == h.m);
            assert(4 * h.m >= 5 * p) by (nonlinear_arith)
                requires
                    0x14_0000_0000_0000 * t < h.m,
                    p == t * 0x10_0000_0000_0000,
            ;
        }
    }
    let n = (x - y) as nat;
    assert(n * 4 <= 3 * p * 1);
    assert(binary64::two(2) == 4);
    binary64::lemma_round_upto(n, 1, e, 3, 2);
}

proof fn lemma_scaled_secs(headroom: Dyadic)
    requires
        !binary64::at_least(headroom, comfortable_headroom()),
        !binary64::at_least(safety_factor(), headroom),
    ensures
        PREBUFFER_SECS <= scaled_secs(headroom) <= PREBUFFER_MAX_SECS,
{
    lemma_lacking(headroom);
    lemma_forty_five();
    binary64::lemma_two_values();
    reveal_with_fuel(binary64::two, 6);
    let lacking = binary64::difference(comfortable_headroom(), headroom);
    let range = headroom_range();
    // At least 53 binary places, as many as the range has.
    assert(lacking.e <= -53) by {
        if lacking.e > -53 {
            binary64::lemma_two_grows((-lacking.e) as nat, 52);
            assert(lacking.m * 4 <= 3 * 0x10_0000_0000_0000);
        }
    }
    // The share of the range is at most one.
    let thin = binary64::quotient(lacking, range);
    assert(binary64::upto(thin, 1, 0) && thin.m >= binary64::B52) by {
        let t = binary64::two((-53 - lacking.e) as nat);
        binary64::lemma_two_add((-53 - lacking.e) as nat, 53);
        assert(lacking.m * 1 <= 1 * t * 0x18_0000_0000_0000) by (nonlinear_arith)
            requires
                lacking.m * 4 <= 3 * binary64::two((-lacking.e) as nat),
                binary64::two((-lacking.e) as nat) == t * 0x20_0000_0000_0000,
        ;
        binary64::lemma_round_upto(lacking.m, range.m, lacking.e - range.e, 1, 0);
    }
    // What is added is at most 195.
    assert(binary64::of_int(195) == (Dyadic { m: 195 * 0x2000_0000_0000, e: -45 })) by {
        binary64::lemma_two_add(45, 7);
        reveal_with_fuel(binary64::two, 8);
        binary64::lemma_exact(195, 45);
    }
    binary64::lemma_two_add(45, 2);
    let span = binary64::of_int(195);
    let more = binary64::product(thin, span);
    assert(binary64::upto(more, 195, 0)) by {
        let t = binary64::two((-thin.e) as nat);
        binary64::lemma_two_add((-thin.e) as nat, 45);
        assert(thin.m * span.m > 0) by (nonlinear_arith)
            requires
                thin.m >= binary64::B52,
                span.m > 0,
        ;
        assert(thin.m * span.m * 1 <= 195 * (t * 0x2000_0000_0000) * 1) by (nonlinear_arith)
            requires
                thin.m <= t,
                span.m == 195 * 0x2000_0000_0000,
        ;
        assert(thin.m * 1 <= 1 * t);
        binary64::lemma_round_upto(thin.m * span.m, 1, thin.e + span.e, 195, 0);
    }
    // The sum lies between 45 and 240.
    let base = binary64::of_int(45);
    let e = binary64::low(base, more);
    let p = binary64::two((-e) as nat);
    let a = binary64::aligned(base, more);
    let b = binary64::aligned(more, base);
    assert(a == 45 * p) by {
        let t = binary64::two((-47 - e) as nat);
        binary64::lemma_two_add(47, (-47 - e) as nat);
        assert((45 * 0x8000_0000_0000) * t == 45 * p) by (nonlinear_arith)
            requires
                p == 0x8000_0000_0000 * t,
        ;
    }
    assert(b <= 195 * p) by {
        let t = binary64::two((more.e - e) as nat);
        binary64::lemma_two_add((-more.e) as nat, (more.e - e) as nat);
        assert(more.m * t <= 195 * p) by (nonlinear_arith)
            requires
                more.m * 1 <= 195 * binary64::two((-more.e) as nat),
                p == binary64::two((-more.e) as nat) * t,
        ;
    }
    let n = a + b;
    binary64::lemma_two_pos((-e) as nat);
    binary64::lemma_round_from(n, e, 45);
    assert(n * 1 <= 240 * p * 1);
    binary64::lemma_round_upto(n, 1, e, 240, 0);
    let total = binary64::sum(base, more);
    assert(binary64::floor(total) <= 240) by {
        let d = binary64::two((-total.e) as nat);
        binary64::lemma_two_pos((-total.e) as nat);
        if total.e < 0 {
            assert(total.m / d <= 240) by (nonlinear_arith)
                requires
                    total.m <= 240 * d,
                    d >= 1,
            ;
        } else {
            assert(total.m * binary64::two(0) == total.m);
        }
    }
}

/// The slab never leaves its limits.
pub proof fn slab_stays_in_bounds(required_bps: Option<u64>, link_bps: Option<u64>)
    ensures
        PREBUFFER_MIN_BYTES <= bytes_to_buffer(required_bps, link_bps) <= PREBUFFER_MAX_BYTES,
{
}

/// The slab is the bytes of so many seconds of the release, and of 45 seconds of
/// eight megabits where its bitrate is unknown, between 8 MiB and 512 MiB.
pub proof fn the_slab_is_so_many_seconds(required_bps: Option<u64>, link_bps: Option<u64>)
    ensures
        ({
            let n = match required_bps {
                Some(bps) => bps as int / 8 * secs_to_buffer(required_bps, link_bps),
                None => 45_000_000,
            };
            bytes_to_buffer(required_bps, link_bps) == (if n < 8_388_608 {
                8_388_608
            } else if n > 536_870_912 {
                536_870_912
            } else {
                n
            })
        }),
        45 <= secs_to_buffer(required_bps, link_bps) <= 240,
{
    seconds_stay_in_bounds(required_bps, link_bps);
}

/// Between the ends the seconds fall in proportion to the headroom: what it lacks
/// of two, as a share of three quarters, is the share that they are of the way from
/// 45 to 240, in whole seconds and rounding aside.
pub proof fn the_seconds_fall_with_headroom(need: u64, link: u64)
    requires
        0 < need < 0x10_0000_0000_0000,
        link < 0x10_0000_0000_0000,
        5 * need < 4 * link,
        link < 2 * need,
    ensures
        // 45 + 195 * (2 - link / need) / 0.75, in whole seconds.
        need * secs_to_buffer(Some(need), Some(link)) <= 45 * need + 260 * (2 * need - link) + need
            / 1000 + 1,
        need * (secs_to_buffer(Some(need), Some(link)) + 1) >= 45 * need + 260 * (2 * need - link)
            - need / 1000 - 1,
{
    let n = binary64::of_int(need as nat);
    let l = binary64::of_int(link as nat);
    let h = binary64::quotient(l, n);
    let two = comfortable_headroom();
    let c = binary64::difference(two, h);
    let t = binary64::quotient(c, headroom_range());
    let span = binary64::of_int(195);
    let base = binary64::of_int(45);
    let p = binary64::product(t, span);
    let sum = binary64::sum(base, p);
    lemma_some_significand(need);
    binary64::lemma_two_values();
    values::lemma_int_value(need as nat);
    values::lemma_int_value(link as nat);
    values::lemma_quotient_value(l, n);
    values::lemma_at_least_value(h, two);
    values::lemma_at_least_value(safety_factor(), h);
    binary64::lemma_two_add(51, 1);
    reveal_with_fuel(binary64::two, 2);
    assert(binary64::two(51) == 0x8_0000_0000_0000);
    assert(values::value(two) == 2real) by {
        assert(values::scale(-51) == 1real / 2251799813685248real);
        assert(4503599627370496real * (1real / 2251799813685248real) == 2real) by (nonlinear_arith);
    }
    assert(values::value(safety_factor()) == 5real / 4real) by {
        assert(values::scale(-52) == 1real / 4503599627370496real);
        assert(5629499534213120real * (1real / 4503599627370496real) == 5real / 4real) by (nonlinear_arith);
    }
    assert(values::value(headroom_range()) == 3real / 4real) by {
        assert(values::scale(-53) == 1real / 9007199254740992real);
        assert(6755399441055744real * (1real / 9007199254740992real) == 3real / 4real) by (nonlinear_arith);
    }
    let s = values::short();
    let o = values::over();
    let x = link as real / need as real;
    let hv = values::value(h);
    lemma_shares();
    values::lemma_over(values::value(l), link as real, values::value(n), need as real, s, o, s, o);
    values::lemma_through(hv, values::value(l) / values::value(n), x, s, o, s / o, o / s);
    let lo = 99999999real / 100000000real;
    let hi = 100000001real / 100000000real;
    let nr = need as real;
    let lr = link as real;
    assert(x * nr == lr) by (nonlinear_arith)
        requires
            x == lr / nr,
            nr > 0real,
    ;
    assert(5real / 4real < x < 2real) by (nonlinear_arith)
        requires
            x * nr == lr,
            nr > 0real,
            5real * nr < 4real * lr,
            lr < 2real * nr,
    ;
    values::lemma_wider(hv, x, s * (s / o), o * (o / s), lo, hi);
    let e = 1real / 10000000real;
    assert(x - e <= hv <= x + e);
    let secs = secs_to_buffer(Some(need), Some(link));
    // At the very ends the seconds are those of the ends.
    let v: real = if binary64::at_least(h, two) {
        45real
    } else if binary64::at_least(safety_factor(), h) {
        240real
    } else {
        values::value(sum)
    };
    if binary64::at_least(h, two) {
        assert(x >= 2real - e);
    } else if binary64::at_least(safety_factor(), h) {
        assert(x <= 5real / 4real + e);
    } else {
        values::lemma_difference_value(two, h);
        values::lemma_quotient_value(c, headroom_range());
        values::lemma_int_value(195);
        values::lemma_int_value(45);
        values::lemma_product_value(t, span);
        values::lemma_sum_value(base, p);
        values::lemma_floor_value(sum);
        lemma_scaled_secs(h);
        let cv = values::value(c);
        let tv = values::value(t);
        let sv = values::value(span);
        let pv = values::value(p);
        let d = 2real - hv;
        assert(0real <= d <= 3real / 4real);
        assert(d - e <= cv <= d + e);
        let q = cv / (3real / 4real);
        assert(q == cv * 4real / 3real) by (nonlinear_arith)
            requires
                q == cv / (3real / 4real),
        ;
        assert(q - 2real * e <= tv <= q + 2real * e);
        assert(195real - 195real * e <= sv <= 195real + 195real * e);
        let m = tv * sv;
        assert(tv * 195real - 400real * e <= m <= tv * 195real + 400real * e) by (nonlinear_arith)
            requires
                m == tv * sv,
                0real <= tv <= 2real,
                195real - 195real * e <= sv <= 195real + 195real * e,
                e > 0real,
        ;
        assert(m - 400real * e <= pv <= m + 400real * e);
        assert(v >= 45real + 260real * (2real - x) - 5000real * e);
        assert(v <= 45real + 260real * (2real - x) + 5000real * e);
    }
    assert(45real + 260real * (2real - x) - 5000real * e <= v <= 45real + 260real * (2real - x)
        + 5000real * e);
    let k = secs as real;
    assert(k <= v < k + 1real);
    let r = 45real * nr + 260real * (2real * nr - lr);
    assert((45real + 260real * (2real - x)) * nr == r) by (nonlinear_arith)
        requires
            x * nr == lr,
            r == 45real * nr + 260real * (2real * nr - lr),
    ;
    assert(k * nr <= r + nr / 2000real && (k + 1real) * nr >= r - nr / 2000real)
        by (nonlinear_arith)
        requires
            (45real + 260real * (2real - x)) * nr == r,
            k <= v < k + 1real,
            45real + 260real * (2real - x) - 5000real * e <= v <= 45real + 260real * (2real - x)
                + 5000real * e,
            e == 1real / 10000000real,
            nr > 0real,
    ;
    assert((need * secs) as real == k * nr && (need * (secs + 1)) as real == (k + 1real) * nr)
        by (nonlinear_arith)
        requires
            k == secs as real,
            nr == need as real,
    ;
    let w = need / 1000;
    assert(w as real + 1real >= nr / 1000real);
}

/// Thin headroom buys a bigger buffer: the less the link is known to deliver, the
/// more of a release is buffered before it plays.
pub proof fn thin_headroom_buys_a_bigger_buffer(need: u64, link: u64, better: u64)
    requires
        link <= better,
    ensures
        secs_to_buffer(Some(need), Some(link)) >= secs_to_buffer(Some(need), Some(better)),
        bytes_to_buffer(Some(need), Some(link)) >= bytes_to_buffer(Some(need), Some(better)),
{
    let thin = secs_to_buffer(Some(need), Some(link));
    let wide = secs_to_buffer(Some(need), Some(better));
    assert(thin >= wide) by {
        if need > 0 {
            let n = binary64::of_int(need as nat);
            let h = binary64::quotient(binary64::of_int(link as nat), n);
            let g = binary64::quotient(binary64::of_int(better as nat), n);
            lemma_some_significand(need);
            binary64::lemma_int_grows(link as nat, better as nat);
            binary64::lemma_quotient_grows(
                binary64::of_int(link as nat),
                binary64::of_int(better as nat),
                n,
            );
            seconds_stay_in_bounds(Some(need), Some(link));
            seconds_stay_in_bounds(Some(need), Some(better));
            if binary64::at_least(h, comfortable_headroom()) {
                binary64::lemma_at_least_through(g, h, comfortable_headroom());
            } else if !binary64::at_least(g, comfortable_headroom()) && !binary64::at_least(
                safety_factor(),
                h,
            ) {
                if binary64::at_least(safety_factor(), g) {
                    binary64::lemma_at_least_through(safety_factor(), g, h);
                }
                lemma_scaled_secs_shrink(h, g);
            }
        }
    }
    assert((need as int / 8) * thin >= (need as int / 8) * wide) by (nonlinear_arith)
        requires
            thin >= wide,
            need >= 0,
    ;
}

/// Twice a number.
pub open spec fn doubled(a: Dyadic) -> Dyadic {
    Dyadic { m: a.m, e: a.e + 1 }
}

/// A number and a quarter of it.
pub open spec fn and_a_quarter(a: Dyadic) -> Dyadic {
    Dyadic { m: 5 * a.m, e: a.e - 2 }
}

/// Headroom decides the seconds: without a bitrate, or without an estimate of the
/// link, and at twice the bitrate or more, it is the base; at the bitrate and a
/// quarter or less, it is the maximum. The latter goes by the doubles nearest to
/// the two rates, which are the rates themselves below `2^53`; above it, rounding
/// may cost one second and no more.
pub proof fn headroom_decides(need: u64, link: u64)
    ensures
        secs_to_buffer(None, Some(link)) == PREBUFFER_SECS,
        secs_to_buffer(Some(need), None) == PREBUFFER_SECS,
        secs_to_buffer(None, None) == PREBUFFER_SECS,
        link >= 2 * need ==> secs_to_buffer(Some(need), Some(link)) == PREBUFFER_SECS,
        need > 0 && binary64::at_least(
            and_a_quarter(binary64::of_int(need as nat)),
            binary64::of_int(link as nat),
        ) ==> secs_to_buffer(Some(need), Some(link)) == PREBUFFER_MAX_SECS,
        0 < need < binary64::B53 && link < binary64::B53 && 4 * link <= 5 * need
            ==> secs_to_buffer(Some(need), Some(link)) == PREBUFFER_MAX_SECS,
        need > 0 && 4 * link <= 5 * need ==> PREBUFFER_MAX_SECS - 1 <= secs_to_buffer(
            Some(need),
            Some(link),
        ) <= PREBUFFER_MAX_SECS,
{
    seconds_stay_in_bounds(Some(need), Some(link));
    if need > 0 && 4 * link <= 5 * need {
        lemma_about_a_quarter(need, link);
    }
    if need > 0 {
        let n = binary64::of_int(need as nat);
        let l = binary64::of_int(link as nat);
        let h = binary64::quotient(l, n);
        lemma_some_significand(need);
        binary64::lemma_two_values();
        reveal_with_fuel(binary64::two, 4);
        binary64::lemma_two_add(50, 2);
        // Twice the bitrate, by the bitrate, is exactly two.
        assert(binary64::quotient(doubled(n), n) == comfortable_headroom()) by {
            binary64::lemma_quotient_of_multiple(n.m, 1, 1, 52);
        }
        assert(binary64::quotient(and_a_quarter(n), n) == safety_factor()) by {
            binary64::lemma_quotient_of_multiple(n.m, 5, -2, 50);
        }
        if link >= 2 * need {
            let twice = (2 * need) as nat;
            assert(binary64::of_int(twice) == doubled(n)) by {
                binary64::lemma_round_shift(need as nat, 1, 1);
                assert(binary64::two(1) == 2);
                assert(need as nat * binary64::two(1) == twice) by (nonlinear_arith)
                    requires
                        binary64::two(1) == 2,
                        twice == 2 * need,
                ;
            }
            binary64::lemma_int_grows(twice, link as nat);
            binary64::lemma_quotient_grows(doubled(n), l, n);
        }
        if need < binary64::B53 && link < binary64::B53 && 4 * link <= 5 * need {
            lemma_quarter_exact(need, link);
        }
        if binary64::at_least(and_a_quarter(n), l) {
            binary64::lemma_quotient_grows(l, and_a_quarter(n), n);
            if binary64::at_least(h, comfortable_headroom()) {
                binary64::lemma_at_least_through(safety_factor(), h, comfortable_headroom());
                assert(!binary64::at_least(safety_factor(), comfortable_headroom()));
            }
        }
    }
}

/// A headroom just above the safety factor, at which a second less is buffered:
/// 1283 / 1024.
spec fn a_second_less() -> Dyadic {
    Dyadic { m: 1283 * 0x400_0000_0000, e: -52 }
}

proof fn lemma_a_second_less()
    ensures
        scaled_secs(a_second_less()) == PREBUFFER_MAX_SECS - 1,
        binary64::at_least(comfortable_headroom(), a_second_less()),
        !binary64::at_least(a_second_less(), comfortable_headroom()),
{
    let h = a_second_less();
    let c = comfortable_headroom();
    lemma_forty_five();
    binary64::lemma_two_values();
    reveal_with_fuel(binary64::two, 10);
    binary64::lemma_two_add(37, 2);
    binary64::lemma_two_add(37, 8);
    binary64::lemma_two_add(42, 1);
    binary64::lemma_two_add(42, 10);
    binary64::lemma_two_add(45, 7);
    binary64::lemma_two_add(45, 8);
    binary64::lemma_two_add(43, 10);
    binary64::lemma_two_add(45, 45);
    assert(binary64::two(8) == 256 && binary64::two(9) == 512 && binary64::two(7) == 128);
    assert(binary64::two(10) == 1024);
    assert(binary64::two(42) == 0x400_0000_0000);
    assert(binary64::two(43) == 0x800_0000_0000);
    assert(binary64::two(45) == 0x2000_0000_0000);
    assert(binary64::two(37) == 0x20_0000_0000);
    assert(binary64::two(39) == 0x80_0000_0000);
    assert(binary64::two(0) == 1 && binary64::two(1) == 2 && binary64::two(2) == 4);
    assert(binary64::aligned(c, h) == 0x20_0000_0000_0000);
    assert(binary64::low(h, c) == -52);
    assert(binary64::aligned(h, c) == h.m * 1);
    // 765 / 1024 are lacking.
    let lacking = binary64::difference(c, h);
    assert(lacking == (Dyadic { m: 765 * 0x800_0000_0000, e: -53 })) by {
        binary64::lemma_round_short(765, 42, -52, 43);
    }
    // They are 255 / 256 of the range.
    let thin = binary64::quotient(lacking, headroom_range());
    assert(thin == (Dyadic { m: 255 * 0x2000_0000_0000, e: -53 })) by {
        let num: nat = 765 * 0x800_0000_0000;
        let den: nat = 0x18_0000_0000_0000;
        assert(binary64::down(-53) == binary64::B53 && binary64::up(-53) == 1);
        assert(num * binary64::B53 == 255 * 0x2000_0000_0000 * den);
        binary64::lemma_round_at(num, den, 0, -53);
        assert(binary64::half_even(num * binary64::B53 as nat, den * 1)
            == 255 * 0x2000_0000_0000nat);
    }
    assert(binary64::of_int(195) == (Dyadic { m: 195 * 0x2000_0000_0000, e: -45 })) by {
        binary64::lemma_exact(195, 45);
    }
    let more = binary64::product(thin, binary64::of_int(195));
    assert(more == (Dyadic { m: 49_725 * 0x20_0000_0000, e: -45 })) by {
        assert((255 * 0x2000_0000_0000nat) * (195 * 0x2000_0000_0000nat) == 49_725 * (
        0x2000_0000_0000nat * 0x2000_0000_0000nat));
        binary64::lemma_round_short(49_725, 90, -98, 37);
    }
    let all = binary64::sum(binary64::of_int(45), more);
    assert(all == (Dyadic { m: 61_245 * 0x20_0000_0000, e: -45 })) by {
        let base = binary64::of_int(45);
        assert(binary64::aligned(base, more) == base.m * 1);
        assert(binary64::aligned(more, base) == more.m * 4);
        assert(binary64::low(base, more) == -47);
        assert(base.m * 1 == base.m) by (nonlinear_arith);
        assert(binary64::aligned(base, more) + binary64::aligned(more, base) == 61_245
            * binary64::two(39));
        binary64::lemma_round_short(61_245, 39, -47, 37);
    }
    assert(binary64::floor(all) == all.m / binary64::two(45));
}

proof fn lemma_about_a_quarter(need: u64, link: u64)
    requires
        need > 0,
        4 * link <= 5 * need,
    ensures
        secs_to_buffer(Some(need), Some(link)) >= PREBUFFER_MAX_SECS - 1,
{
    let n = binary64::of_int(need as nat);
    let l = binary64::of_int(link as nat);
    let h = binary64::quotient(l, n);
    let top = a_second_less();
    let c = comfortable_headroom();
    let limit = Dyadic { m: 1283 * n.m, e: n.e - 10 };
    lemma_some_significand(need);
    lemma_a_second_less();
    binary64::lemma_two_values();
    assert(binary64::at_least(limit, l)) by {
        let z: int = if limit.e <= l.e && limit.e <= -10 {
            limit.e
        } else if l.e <= -10 {
            l.e
        } else {
            -10
        };
        binary64::lemma_at_least_from(limit, l, z);
        if link == 0 {
            assert(0 * binary64::two((l.e - z) as nat) == 0);
        } else {
            binary64::lemma_int_near(need as nat, z + 10);
            binary64::lemma_int_near(link as nat, z);
            binary64::lemma_two_add((-z - 10) as nat, 10);
            let w = binary64::two((-z - 10) as nat);
            let a = n.m * binary64::two((n.e - 10 - z) as nat);
            let b = l.m * binary64::two((l.e - z) as nat);
            assert(n.m * binary64::two((n.e - (z + 10)) as nat) == a);
            assert(1283 * n.m * binary64::two((n.e - 10 - z) as nat) == 1283 * a)
                by (nonlinear_arith)
                requires
                    a == n.m * binary64::two((n.e - 10 - z) as nat),
            ;
            assert(1283 * a >= b) by (nonlinear_arith)
                requires
                    1000 * a >= 999 * (need * w),
                    1000 * b <= 1001 * (link * (w * 1024)),
                    4 * link <= 5 * need,
                    w >= 0,
                    need > 0,
            ;
        }
    }
    assert(binary64::quotient(limit, n) == top) by {
        assert(binary64::two(42) == 0x400_0000_0000) by {
            binary64::lemma_two_add(42, 10);
        }
        binary64::lemma_quotient_of_multiple(n.m, 1283, -10, 42);
    }
    binary64::lemma_quotient_grows(l, limit, n);
    if binary64::at_least(h, c) {
        binary64::lemma_at_least_through(top, h, c);
    }
    lemma_scaled_secs_shrink(h, top);
}

proof fn lemma_quarter_exact(need: u64, link: u64)
    requires
        need < binary64::B53,
        link < binary64::B53,
        4 * link <= 5 * need,
    ensures
        binary64::at_least(
            and_a_quarter(binary64::of_int(need as nat)),
            binary64::of_int(link as nat),
        ),
{
    let k = binary64::lemma_int_exact(need as nat);
    let j = binary64::lemma_int_exact(link as nat);
    let a = and_a_quarter(binary64::of_int(need as nat));
    let b = binary64::of_int(link as nat);
    let w: nat = if k + 2 >= j {
        k + 2
    } else {
        j
    };
    let z = -(w as int);
    binary64::lemma_at_least_from(a, b, z);
    binary64::lemma_two_add(k, (w - k - 2) as nat);
    binary64::lemma_two_add((w - 2) as nat, 2);
    binary64::lemma_two_add(j, (w - j) as nat);
    reveal_with_fuel(binary64::two, 3);
    let t = binary64::two((w - 2) as nat);
    let u = binary64::two(k);
    let v = binary64::two((w - k - 2) as nat);
    let x = binary64::two(j);
    let y = binary64::two((w - j) as nat);
    assert((5 * (need * u)) * v >= (link * x) * y) by (nonlinear_arith)
        requires
            u * v == t,
            x * y == 4 * t,
            t >= 0,
            4 * link <= 5 * need,
    ;
}

proof fn lemma_some_significand(n: u64)
    requires
        n > 0,
    ensures
        binary64::of_int(n as nat).m > 0,
{
    crate::decimal::lemma_some_fit(n as nat, 1);
    let k = choose|k: int| binary64::fits(n as nat, 1, k);
    binary64::lemma_round_at(n as nat, 1, 0, k);
    if k >= 0 {
        binary64::lemma_two_pos(k as nat);
    }
    binary64::lemma_half_even_from(
        n as nat * binary64::down(k),
        1 * binary64::up(k),
        binary64::B52 as nat,
    );
}

/// More headroom is never scaled to more seconds.
proof fn lemma_scaled_secs_shrink(h: Dyadic, g: Dyadic)
    requires
        binary64::at_least(g, h),
        binary64::at_least(comfortable_headroom(), g),
    ensures
        scaled_secs(h) >= scaled_secs(g),
{
    let c = comfortable_headroom();
    let span = binary64::of_int((PREBUFFER_MAX_SECS - PREBUFFER_SECS) as nat);
    let base = binary64::of_int(PREBUFFER_SECS as nat);
    let x = binary64::difference(c, h);
    let y = binary64::difference(c, g);
    binary64::lemma_difference_shrinks(c, h, g);
    let p = binary64::quotient(x, headroom_range());
    let q = binary64::quotient(y, headroom_range());
    binary64::lemma_quotient_grows(y, x, headroom_range());
    binary64::lemma_product_grows(q, p, span);
    binary64::lemma_sum_grows(
        base,
        binary64::product(q, span),
        binary64::product(p, span),
    );
    binary64::lemma_floor_grows(
        binary64::sum(base, binary64::product(q, span)),
        binary64::sum(base, binary64::product(p, span)),
    );
}

/// The swarm has to show a quarter more than the release's own bitrate.
///
/// Bitrates below 2^50 are multiplied without loss.
pub proof fn the_bar_is_a_quarter_higher(bps: u64)
    requires
        bps < 0x4_0000_0000_0000,
    ensures
        rate_needed(Some(bps)) == Some((bps + bps / 4) as u64),
{
    binary64::lemma_two_values();
    let n = bps as nat;
    if n == 0 {
        assert(0x14_0000_0000_0000 * 0 == 0);
    } else {
        let k = binary64::lemma_int_exact(n);
        binary64::lemma_two_add(50, 2);
        reveal_with_fuel(binary64::two, 3);
        assert(binary64::two(50) == 0x4_0000_0000_0000);
        binary64::lemma_two_add(50, k);
        let w = binary64::two(50 + k);
        assert((n * binary64::two(k)) * 0x14_0000_0000_0000 == (5 * n) * w) by (nonlinear_arith)
            requires
                w == 0x4_0000_0000_0000 * binary64::two(k),
        ;
        binary64::lemma_round_shift(5 * n, 50 + k, -2);
        let h = binary64::lemma_round_exact(5 * n, -2);
        let g = binary64::two(h);
        binary64::lemma_two_pos(h);
        binary64::lemma_two_add(h, 2);
        assert(binary64::two(h + 2) == g * 4);
        assert(((5 * n) * g) / (g * 4) == (5 * n) / 4) by (nonlinear_arith)
            requires
                g > 0,
        ;
    }
}

// --- the probe --------------------------------------------------------------------

/// A live reading during the pre-buffer, for the caller's progress display.
#[derive(Clone, Copy, Debug, PartialEq, Eq, Structural)]
pub struct ProbeStatus {
    pub buffered: u64,
    pub rate_bps: u64,
    /// Peers we are actually connected to.
    pub live_peers: u32,
    /// Peers we have heard about from trackers and DHT.
    pub seen_peers: u32,
}

/// What the probe learned about a candidate.
#[derive(Clone, Copy, Debug, PartialEq, Eq, Structural)]
pub enum Probe {
    /// Cleared the threshold.
    Ready {
        rate_bps: u64,
        buffered: u64,
        /// The whole slab was already on disk, so nothing was measured and
        /// playback can start instantly. `rate_bps` is 0 in that case.
        from_cache: bool,
    },
    /// Could not sustain the required rate within the budget.
    TooSlow { rate_bps: u64, buffered: u64, live_peers: u32, seen_peers: u32 },
}

/// One message from the stream reader, or a tick of the clock.
pub enum Read {
    Bytes(u64),
    /// End of file: the whole thing is already here.
    Eof,
    Failed(String),
    Tick,
}

/// What one message brought.
pub struct Step {
    /// Readings to show, in order.
    pub reports: Vec<ProbeStatus>,
    /// How the probe ended, if it did: what was learned, or why the stream
    /// could not be read.
    pub outcome: Option<Result<Probe, String>>,
}

/// A span of time in seconds: the whole seconds, and the rest as a part of one.
pub open spec fn seconds(ns: nat) -> Dyadic {
    binary64::sum(
        binary64::of_int(ns / SECOND as nat),
        binary64::quotient(
            binary64::of_int(ns % SECOND as nat),
            binary64::of_int(SECOND as nat),
        ),
    )
}

/// What is left of one number behind another, nothing where that is greater.
pub open spec fn beyond(a: u64, b: u64) -> u64 {
    if a > b {
        (a - b) as u64
    } else {
        0
    }
}

/// Half a second is the least span that a rate is taken over; a single fat chunk
/// would otherwise read as infinite throughput.
pub open spec fn measurable(ns: u64) -> bool {
    binary64::at_least(seconds(ns as nat), half())
}

/// Bits per second of a number of bytes over a span of time.
pub open spec fn rate_over(bytes: u64, ns: u64) -> u64 {
    binary64::to_u64(
        binary64::quotient(
            binary64::product(binary64::of_int(bytes as nat), eight()),
            seconds(ns as nat),
        ),
    )
}

fn seconds_of(ns: u64) -> (r: Binary)
    ensures
        r@ == seconds(ns as nat),
        r.m == 0 || binary64::B52 <= r.m <= binary64::B53,
        -300 <= r.e <= 100,
{
    let whole = binary64::from_u64(ns / SECOND);
    let rest = binary64::from_u64(ns % SECOND);
    let unit = binary64::from_u64(SECOND);
    proof {
        binary64::lemma_two_values();
        binary64::lemma_two_add(10, 10);
        binary64::lemma_two_add(20, 9);
        binary64::lemma_two_add(20, 10);
        reveal_with_fuel(binary64::two, 10);
        assert(binary64::two(29) == 0x2000_0000 && binary64::two(30) == 0x4000_0000);
        lemma_exponent_of(SECOND, unit.e as int, 29);
        binary64::lemma_two_add(30, 5);
        assert(binary64::two(35) == 0x8_0000_0000);
        if ns / SECOND > 0 {
            binary64::lemma_exponent_upto((ns / SECOND) as nat, whole.e as int, 35);
        }
        if ns % SECOND > 0 {
            binary64::lemma_exponent_upto((ns % SECOND) as nat, rest.e as int, 30);
        }
    }
    let part = binary64::over(rest, unit);
    binary64::plus(whole, part)
}

fn measured_rate(bytes: u64, ns: u64) -> (r: Option<u64>)
    ensures
        r == (if measurable(ns) {
            Some(rate_over(bytes, ns))
        } else {
            None
        }),
{
    let secs = seconds_of(ns);
    let least = Binary { m: 0x10_0000_0000_0000, e: -53 };
    if !binary64::ge(secs, least) {
        return None;
    }
    proof {
        if secs.m == 0 {
            assert(0 * binary64::two((secs.e - binary64::low(secs@, least@)) as nat) == 0);
            binary64::lemma_two_pos((least.e - binary64::low(least@, secs@)) as nat);
            assert(least.m * binary64::two((least.e - binary64::low(least@, secs@)) as nat) > 0)
                by (nonlinear_arith)
                requires
                    least.m > 0,
                    binary64::two((least.e - binary64::low(least@, secs@)) as nat) > 0,
            ;
        }
    }
    let bits = binary64::times(
        binary64::from_u64(bytes),
        Binary { m: 0x10_0000_0000_0000, e: -49 },
    );
    Some(binary64::truncated(binary64::over(bits, secs)))
}

fn left_of(a: u64, b: u64) -> (r: u64)
    ensures
        r == beyond(a, b),
{
    if a > b {
        a - b
    } else {
        0
    }
}

/// A probe under way. Times are nanoseconds since it started.
pub struct Probing {
    /// Bytes to buffer, and the rate to show.
    pub target: u64,
    pub needed: Option<u64>,
    pub budget: u64,
    /// What was on disk when the stream was opened. The reader drains that at
    /// disk speed, which says nothing about what happens once it runs out, so
    /// measurement does not begin until the read position passes it.
    pub cached: u64,
    /// Bytes read in order.
    pub total: u64,
    /// The rate over the trailing window. Deliberately not a high-water mark: a
    /// peak would let a swarm that bursts once and then stalls pass the threshold,
    /// which is precisely the release to reject.
    pub rate: u64,
    /// When measurement began, and the read position at that moment.
    pub measuring: Option<(u64, u64)>,
    /// Read positions within the window, and one older than it.
    pub samples: Vec<(u64, u64)>,
    pub reported: u64,
}

/// What a probe has seen.
#[verifier::ext_equal]
pub struct Gauge {
    pub target: u64,
    pub needed: Option<u64>,
    pub budget: u64,
    pub cached: u64,
    pub total: u64,
    pub rate: u64,
    pub measuring: Option<(u64, u64)>,
    pub samples: Seq<(u64, u64)>,
    pub reported: u64,
}

impl View for Probing {
    type V = Gauge;

    open spec fn view(&self) -> Gauge {
        Gauge {
            target: self.target,
            needed: self.needed,
            budget: self.budget,
            cached: self.cached,
            total: self.total,
            rate: self.rate,
            measuring: self.measuring,
            samples: self.samples@,
            reported: self.reported,
        }
    }
}

/// The rate that a release of a bitrate has to show.
pub open spec fn rate_needed(required_bps: Option<u64>) -> Option<u64> {
    match required_bps {
        Some(bps) => Some(binary64::to_u64(gate_bps(bps))),
        None => None,
    }
}

/// The length of the file with an index, zero where there is none.
pub open spec fn length_of(files: Seq<TorrentFile>, file_idx: usize) -> u64
    decreases files.len(),
{
    if files.len() == 0 {
        0
    } else if files[0].idx == file_idx {
        files[0].len
    } else {
        length_of(files.drop_first(), file_idx)
    }
}

/// The verdict on a file of which `have` bytes are on disk already: one that is
/// there in full needs no measurement, and re-watching should be instant.
pub fn already_here(files: &[TorrentFile], file_idx: usize, have: u64) -> (r: Option<Probe>)
    ensures
        ({
            let len = length_of(files@, file_idx);
            r == (if len > 0 && have >= len {
                Some(Probe::Ready { rate_bps: 0, buffered: len, from_cache: true })
            } else {
                None
            })
        }),
{
    let mut len: u64 = 0;
    let mut i: usize = 0;
    let mut found: bool = false;
    assert(files@.skip(0) =~= files@);
    while i < files.len() && !found
        invariant
            i <= files.len(),
            found ==> len == length_of(files@, file_idx),
            !found ==> len == 0 && length_of(files@, file_idx) == length_of(
                files@.skip(i as int),
                file_idx,
            ),
        decreases files.len() - i, !found as int,
    {
        if files[i].idx == file_idx {
            len = files[i].len;
            found = true;
        } else {
            assert(files@.skip(i as int).drop_first() =~= files@.skip(i + 1));
            i += 1;
        }
    }
    if len > 0 && have >= len {
        Some(Probe::Ready { rate_bps: 0, buffered: len, from_cache: true })
    } else {
        None
    }
}

/// Average sequential throughput since measurement began. The windowed rate is
/// what the threshold reacts to, because it responds quickly; this is what the
/// verdict is reported with, because a bursty swarm can show a high rate in the
/// final window while having delivered next to nothing.
pub open spec fn average(g: Gauge, now: u64) -> u64 {
    match g.measuring {
        Some((began, from)) => if measurable(beyond(now, began)) {
            rate_over(beyond(g.total, from), beyond(now, began))
        } else {
            0
        },
        None => 0,
    }
}

/// The rate is known to be enough.
pub open spec fn rate_cleared(g: Gauge) -> bool {
    g.needed is Some && g.rate >= g.needed->0
}

/// The budget is spent: the base one while the rate is not cleared, the extended
/// one while the slab is still filling.
pub open spec fn out_of_time(g: Gauge, now: u64) -> bool {
    now >= g.budget || (now >= PROBE_BUDGET && !rate_cleared(g))
}

/// The swarm is hopeless: peers are connected, it was watched for a while, and
/// not half the rate came. "No peers yet" and "connected but slow" look
/// identical from the byte count alone and need opposite responses.
pub open spec fn hopeless(g: Gauge, now: u64, live_peers: u32) -> bool {
    &&& g.needed is Some
    &&& g.measuring is Some
    &&& live_peers > 0
    &&& beyond(now, (g.measuring->0).0) >= EARLY_ABANDON_AFTER
    &&& g.rate * 2 < g.needed->0
}

/// The verdict of a probe that is given up.
pub open spec fn given_up(g: Gauge, now: u64, live_peers: u32, seen_peers: u32) -> Probe {
    Probe::TooSlow { rate_bps: average(g, now), buffered: g.total, live_peers, seen_peers }
}

/// The samples without those that have aged out, but with one older than the
/// window as the anchor. Dropping every stale sample would leave a single
/// just-pushed entry spanning no time, and the stall this measurement exists to
/// catch would read as no measurement at all.
pub open spec fn in_window(s: Seq<(u64, u64)>, now: u64) -> Seq<(u64, u64)>
    decreases s.len(),
{
    if s.len() >= 2 && beyond(now, s[1].0) > RATE_WINDOW {
        in_window(s.drop_first(), now)
    } else {
        s
    }
}

/// The gauge once the read position is taken down.
pub open spec fn gauged(g: Gauge, now: u64) -> Gauge {
    if g.total <= g.cached {
        // Still draining data that was on disk before the start; nothing
        // measured here would describe the swarm.
        Gauge { measuring: None, samples: Seq::empty(), ..g }
    } else {
        let m = match g.measuring {
            Some(m) => m,
            None => (now, g.total),
        };
        let first = if g.samples.len() == 0 {
            seq![(m.0, g.total)]
        } else {
            g.samples
        };
        let s = in_window(first.push((now, g.total)), now);
        let span = beyond(now, s[0].0);
        Gauge {
            measuring: Some(m),
            samples: s,
            rate: if measurable(span) {
                rate_over(beyond(g.total, s[0].1), span)
            } else {
                g.rate
            },
            ..g
        }
    }
}

/// Everything read so far was already on disk and covers the whole slab.
pub open spec fn covered_by_cache(g: Gauge) -> bool {
    g.total >= g.target && g.total <= g.cached
}

/// Buffered enough, fast enough, and watched for long enough. Without the last,
/// a cached head is buffered instantly and the release is declared fast on no
/// evidence at all.
pub open spec fn is_ready(g: Gauge, now: u64) -> bool {
    &&& g.total >= g.target
    &&& g.needed is Some ==> g.rate >= g.needed->0
    &&& g.measuring is Some && beyond(now, (g.measuring->0).0) >= MIN_PROBE_SECS
}

/// The gauge once a message's bytes are counted.
pub open spec fn counted(g: Gauge, read: Read) -> Gauge {
    match read {
        Read::Bytes(n) => Gauge { total: (g.total + n) as u64, ..g },
        _ => g,
    }
}

/// The gauge after a message that does not end the stream.
pub open spec fn after(g: Gauge, read: Read, now: u64) -> Gauge {
    let c = counted(g, read);
    if covered_by_cache(c) {
        c
    } else {
        let m = gauged(c, now);
        if beyond(now, g.reported) >= REPORT_EVERY {
            Gauge { reported: now, ..m }
        } else {
            m
        }
    }
}

/// The readings that a message gives rise to.
pub open spec fn readings(g: Gauge, read: Read, now: u64, live_peers: u32, seen_peers: u32) -> Seq<
    ProbeStatus,
> {
    let c = counted(g, read);
    if covered_by_cache(c) {
        seq![ProbeStatus { buffered: c.target, rate_bps: 0, live_peers, seen_peers }]
    } else {
        let m = gauged(c, now);
        (if beyond(now, g.reported) >= REPORT_EVERY {
            seq![
                ProbeStatus {
                    buffered: if m.total < m.target {
                        m.total
                    } else {
                        m.target
                    },
                    rate_bps: m.rate,
                    live_peers,
                    seen_peers,
                },
            ]
        } else {
            Seq::empty()
        }) + (if is_ready(m, now) {
            seq![ProbeStatus { buffered: m.target, rate_bps: m.rate, live_peers, seen_peers }]
        } else {
            Seq::empty()
        })
    }
}

/// What a message that does not end the stream settles.
pub open spec fn settled(g: Gauge, read: Read, now: u64) -> Option<Probe> {
    let c = counted(g, read);
    let m = gauged(c, now);
    if covered_by_cache(c) {
        Some(Probe::Ready { rate_bps: 0, buffered: c.total, from_cache: true })
    } else if is_ready(m, now) {
        Some(Probe::Ready { rate_bps: average(m, now), buffered: m.total, from_cache: false })
    } else {
        None
    }
}

/// The verdict on a file that was read to its end: there is no more to wait for.
pub open spec fn ended(g: Gauge, now: u64) -> Probe {
    Probe::Ready {
        rate_bps: average(g, now),
        buffered: g.total,
        from_cache: g.measuring is None,
    }
}

impl Probing {
    /// A probe of a release of a bitrate over a link, with `cached` bytes of the
    /// file on disk.
    ///
    /// When the bitrate is unknown (no size from Torrentio) the threshold falls back
    /// to buffering a fixed slab and accepting whatever rate that took, since
    /// there is nothing to compare against.
    pub fn new(required_bps: Option<u64>, link_bps: Option<u64>, cached: u64) -> (r: Probing)
        requires
            slab(required_bps, link_bps) <= u64::MAX,
        ensures
            r@ == (Gauge {
                target: bytes_to_buffer(required_bps, link_bps),
                needed: rate_needed(required_bps),
                budget: budget_for(bytes_to_buffer(required_bps, link_bps), required_bps),
                cached,
                total: 0,
                rate: 0,
                measuring: None,
                samples: Seq::empty(),
                reported: 0,
            }),
    {
        let target = prebuffer_target(required_bps, link_bps);
        let needed: Option<u64> = match required_bps {
            Some(bps) => {
                let gate = binary64::times(
                    binary64::from_u64(bps),
                    Binary { m: 0x14_0000_0000_0000, e: -52 },
                );
                Some(binary64::truncated(gate))
            },
            None => None,
        };
        let budget = probe_budget(target, required_bps);
        let r = Probing {
            target,
            needed,
            budget,
            cached,
            total: 0,
            rate: 0,
            measuring: None,
            samples: Vec::new(),
            reported: 0,
        };
        assert(r@ =~= (Gauge {
            target: bytes_to_buffer(required_bps, link_bps),
            needed: rate_needed(required_bps),
            budget: budget_for(bytes_to_buffer(required_bps, link_bps), required_bps),
            cached,
            total: 0,
            rate: 0,
            measuring: None,
            samples: Seq::empty(),
            reported: 0,
        }));
        r
    }

    fn average(&self, now: u64) -> (r: u64)
        ensures
            r == average(self@, now),
    {
        match self.measuring {
            Some((began, from)) => {
                match measured_rate(left_of(self.total, from), left_of(now, began)) {
                    Some(rate) => rate,
                    None => 0,
                }
            },
            None => 0,
        }
    }

    /// Whether the probe is to be given up, before anything more is read.
    pub fn check(&self, now: u64, live_peers: u32, seen_peers: u32) -> (r: Option<Probe>)
        ensures
            r == (if out_of_time(self@, now) || hopeless(self@, now, live_peers) {
                Some(given_up(self@, now, live_peers, seen_peers))
            } else {
                None
            }),
    {
        let cleared = match self.needed {
            Some(needed) => self.rate >= needed,
            None => false,
        };
        let late = now >= self.budget || (now >= PROBE_BUDGET && !cleared);
        let hopeless = match (self.needed, self.measuring) {
            (Some(needed), Some((began, _))) => live_peers > 0 && left_of(now, began)
                >= EARLY_ABANDON_AFTER && (self.rate as u128) * 2 < needed as u128,
            _ => false,
        };
        if late || hopeless {
            Some(
                Probe::TooSlow {
                    rate_bps: self.average(now),
                    buffered: self.total,
                    live_peers,
                    seen_peers,
                },
            )
        } else {
            None
        }
    }

    fn gauge(&mut self, now: u64)
        ensures
            final(self)@ == gauged(old(self)@, now),
    {
        if self.total <= self.cached {
            self.measuring = None;
            self.samples = Vec::new();
            assert(self@ =~= gauged(old(self)@, now));
            return;
        }
        let m: (u64, u64) = match self.measuring {
            Some(m) => m,
            None => (now, self.total),
        };
        self.measuring = Some(m);
        if self.samples.len() == 0 {
            self.samples.push((m.0, self.total));
            assert(self.samples@ =~= seq![(m.0, self.total)]);
        }
        self.samples.push((now, self.total));
        let ghost pushed = self.samples@;
        while self.samples.len() >= 2 && left_of(now, self.samples[1].0) > RATE_WINDOW
            invariant
                self.samples@.len() >= 1,
                in_window(pushed, now) == in_window(self.samples@, now),
                self.measuring == Some(m),
                self.target == old(self).target,
                self.needed == old(self).needed,
                self.budget == old(self).budget,
                self.cached == old(self).cached,
                self.total == old(self).total,
                self.rate == old(self).rate,
                self.reported == old(self).reported,
            decreases self.samples@.len(),
        {
            let ghost before = self.samples@;
            self.samples.remove(0);
            assert(self.samples@ =~= before.drop_first());
        }
        let (t0, b0) = self.samples[0];
        if let Some(rate) = measured_rate(left_of(self.total, b0), left_of(now, t0)) {
            self.rate = rate;
        }
        assert(self@ =~= gauged(old(self)@, now));
    }

    /// Takes in one message from the reader, or a tick of the clock.
    pub fn advance(&mut self, read: Read, now: u64, live_peers: u32, seen_peers: u32) -> (r: Step)
        requires
            read matches Read::Bytes(n) ==> old(self).total + n <= u64::MAX,
        ensures
            match read {
                Read::Failed(e) => r.outcome == Some(Err::<Probe, String>(e)) && r.reports@.len()
                    == 0 && *final(self) == *old(self),
                Read::Eof => r.outcome == Some(Ok::<Probe, String>(ended(old(self)@, now)))
                    && r.reports@.len() == 0 && *final(self) == *old(self),
                _ => {
                    &&& final(self)@ == after(old(self)@, read, now)
                    &&& r.reports@ == readings(old(self)@, read, now, live_peers, seen_peers)
                    &&& match settled(old(self)@, read, now) {
                        Some(p) => r.outcome == Some(Ok::<Probe, String>(p)),
                        None => r.outcome is None,
                    }
                },
            },
    {
        let ghost g = self@;
        let ghost taken = read;
        let mut reports: Vec<ProbeStatus> = Vec::new();
        match read {
            Read::Bytes(n) => {
                self.total = self.total + n;
            },
            Read::Failed(e) => {
                return Step { reports, outcome: Some(Err(e)) };
            },
            Read::Eof => {
                let rate_bps = self.average(now);
                return Step {
                    reports,
                    outcome: Some(
                        Ok(
                            Probe::Ready {
                                rate_bps,
                                buffered: self.total,
                                from_cache: self.measuring.is_none(),
                            },
                        ),
                    ),
                };
            },
            Read::Tick => {},
        }
        assert(self@ =~= counted(g, taken));
        // The swarm keeps fetching ahead once mpv's stream opens: re-watching
        // and resuming must not wait to be told what the disk already proves.
        if self.total >= self.target && self.total <= self.cached {
            reports.push(ProbeStatus { buffered: self.target, rate_bps: 0, live_peers, seen_peers });
            assert(reports@ =~= readings(g, taken, now, live_peers, seen_peers));
            return Step {
                reports,
                outcome: Some(
                    Ok(Probe::Ready { rate_bps: 0, buffered: self.total, from_cache: true }),
                ),
            };
        }
        self.gauge(now);
        let ghost m = self@;
        if left_of(now, self.reported) >= REPORT_EVERY {
            reports.push(
                ProbeStatus {
                    buffered: if self.total < self.target {
                        self.total
                    } else {
                        self.target
                    },
                    rate_bps: self.rate,
                    live_peers,
                    seen_peers,
                },
            );
            self.reported = now;
        }
        assert(self@ =~= after(g, taken, now));
        let fast_enough = match self.needed {
            Some(needed) => self.rate >= needed,
            // Unknown bitrate: buffering the slab is the whole test.
            None => true,
        };
        let measured_enough = match self.measuring {
            Some((began, _)) => left_of(now, began) >= MIN_PROBE_SECS,
            None => false,
        };
        if self.total >= self.target && fast_enough && measured_enough {
            reports.push(
                ProbeStatus { buffered: self.target, rate_bps: self.rate, live_peers, seen_peers },
            );
            assert(reports@ =~= readings(g, taken, now, live_peers, seen_peers));
            let rate_bps = self.average(now);
            assert(average(self@, now) == average(m, now));
            return Step {
                reports,
                outcome: Some(
                    Ok(Probe::Ready { rate_bps, buffered: self.total, from_cache: false }),
                ),
            };
        }
        assert(reports@ =~= readings(g, taken, now, live_peers, seen_peers));
        Step { reports, outcome: None }
    }
}

proof fn lemma_shares()
    ensures
        values::short() > 0real,
        values::over() > 0real,
        99999999real / 100000000real <= values::short() * (values::short() / values::over()),
        values::over() * (values::over() / values::short()) <= 100000001real / 100000000real,
        9999999real / 10000000real <= values::short() * (99999999real / 100000000real),
        values::over() * (100000001real / 100000000real) <= 10000001real / 10000000real,
        9999999real / 10000000real <= values::short() * values::short(),
        values::over() * values::over() <= 10000001real / 10000000real,
        999999real / 1000000real <= values::short() * ((9999999real / 10000000real) / (10000001real
            / 10000000real)),
        values::over() * ((10000001real / 10000000real) / (9999999real / 10000000real))
            <= 1000001real / 1000000real,
{
    assert(1000000001real / 999999999real <= 1000000003real / 1000000000real) by (nonlinear_arith);
    assert(999999999real / 1000000001real >= 999999997real / 1000000000real) by (nonlinear_arith);
}

/// A span in seconds is a billionth of it in nanoseconds, but for rounding.
proof fn lemma_seconds_value(ns: nat)
    ensures
        values::between(
            values::value(seconds(ns)),
            ns as real / 1000000000real,
            9999999real / 10000000real,
            10000001real / 10000000real,
        ),
{
    let q = ns / SECOND as nat;
    let r = ns % SECOND as nat;
    let whole = binary64::of_int(q);
    let rest = binary64::of_int(r);
    let unit = binary64::of_int(SECOND as nat);
    let part = binary64::quotient(rest, unit);
    let g = 1000000000real;
    lemma_shares();
    lemma_some_significand(SECOND);
    values::lemma_int_value(q);
    values::lemma_int_value(r);
    values::lemma_int_value(SECOND as nat);
    values::lemma_quotient_value(rest, unit);
    values::lemma_sum_value(whole, part);
    let s = values::short();
    let o = values::over();
    values::lemma_over(values::value(rest), r as real, values::value(unit), g, s, o, s, o);
    values::lemma_through(
        values::value(part),
        values::value(rest) / values::value(unit),
        r as real / g,
        s,
        o,
        s / o,
        o / s,
    );
    let lo = 99999999real / 100000000real;
    let hi = 100000001real / 100000000real;
    assert(r as real / g >= 0real);
    values::lemma_wider(values::value(part), r as real / g, s * (s / o), o * (o / s), lo, hi);
    values::lemma_wider(values::value(whole), q as real, s, o, lo, hi);
    values::lemma_plus(values::value(whole), q as real, values::value(part), r as real / g, lo, hi);
    let exact = q as real + r as real / g;
    values::lemma_through(
        values::value(seconds(ns)),
        values::value(whole) + values::value(part),
        exact,
        s,
        o,
        lo,
        hi,
    );
    values::lemma_wider(
        values::value(seconds(ns)),
        exact,
        s * lo,
        o * hi,
        9999999real / 10000000real,
        10000001real / 10000000real,
    );
    assert(ns as real == q as real * g + r as real);
    assert(exact == ns as real / g);
}

/// A rate is the bits of what came by the seconds it took, but for rounding.
proof fn lemma_rate_value(bytes: u64, ns: u64)
    requires
        ns > 0,
        seconds(ns as nat).m > 0,
    ensures
        1_000_000 * (rate_over(bytes, ns) * ns) <= 1_000_001 * (8_000_000_000 * bytes),
        rate_over(bytes, ns) < u64::MAX ==> 1_000_000 * ((rate_over(bytes, ns) + 1) * ns) >= 999_999
            * (8_000_000_000 * bytes),
{
    let n = binary64::of_int(bytes as nat);
    let bits = binary64::product(n, eight());
    let secs = seconds(ns as nat);
    let ratio = binary64::quotient(bits, secs);
    let s = values::short();
    let o = values::over();
    let lo = 9999999real / 10000000real;
    let hi = 10000001real / 10000000real;
    lemma_shares();
    lemma_seconds_value(ns as nat);
    values::lemma_int_value(bytes as nat);
    values::lemma_product_value(n, eight());
    values::lemma_quotient_value(bits, secs);
    values::lemma_floor_value(ratio);
    assert(values::value(eight()) == 8real) by {
        binary64::lemma_two_values();
        binary64::lemma_two_add(49, 3);
        reveal_with_fuel(binary64::two, 4);
        assert(binary64::two(49) == 0x2_0000_0000_0000);
        assert(values::scale(-49) == 1real / 562949953421312real);
        assert(4503599627370496real * (1real / 562949953421312real) == 8real);
    }
    let b = bytes as real;
    let nv = values::value(n);
    assert(values::between(nv * 8real, b * 8real, s, o));
    values::lemma_through(values::value(bits), nv * 8real, b * 8real, s, o, s, o);
    values::lemma_wider(values::value(bits), b * 8real, s * s, o * o, lo, hi);
    let t = ns as real / 1000000000real;
    values::lemma_over(values::value(bits), b * 8real, values::value(secs), t, lo, hi, lo, hi);
    let exact = (b * 8real) / t;
    assert(exact >= 0real) by (nonlinear_arith)
        requires
            exact == (b * 8real) / t,
            b >= 0real,
            t > 0real,
    ;
    values::lemma_through(
        values::value(ratio),
        values::value(bits) / values::value(secs),
        exact,
        s,
        o,
        lo / hi,
        hi / lo,
    );
    values::lemma_wider(
        values::value(ratio),
        exact,
        s * (lo / hi),
        o * (hi / lo),
        999999real / 1000000real,
        1000001real / 1000000real,
    );
    let nr = ns as real;
    assert(exact * nr == b * 8000000000real) by (nonlinear_arith)
        requires
            exact == (b * 8real) / t,
            t == nr / 1000000000real,
            nr > 0real,
    ;
    let v = values::value(ratio);
    let f = binary64::floor(ratio) as real;
    assert(1000000real * (f * nr) <= 1000001real * (b * 8000000000real)) by (nonlinear_arith)
        requires
            f <= v,
            v <= (1000001real / 1000000real) * exact,
            exact * nr == b * 8000000000real,
            nr > 0real,
    ;
    assert(1000000real * ((f + 1real) * nr) >= 999999real * (b * 8000000000real))
        by (nonlinear_arith)
        requires
            v < f + 1real,
            v >= (999999real / 1000000real) * exact,
            exact * nr == b * 8000000000real,
            nr > 0real,
    ;
    let k = binary64::floor(ratio);
    let w = ns as nat;
    assert((k * w) as real == f * nr) by (nonlinear_arith)
        requires
            f == k as real,
            nr == w as real,
    ;
    assert(((k + 1) * w) as real == (f + 1real) * nr) by (nonlinear_arith)
        requires
            f == k as real,
            nr == w as real,
    ;
    let r = rate_over(bytes, ns);
    assert(r <= k);
    assert(r * ns <= k * w) by (nonlinear_arith)
        requires
            r <= k,
            w == ns,
    ;
}

/// Half a second and a microsecond can be measured over, a microsecond less than
/// half a second cannot.
proof fn lemma_measurable(ns: u64)
    ensures
        ns >= 500_001_000 ==> measurable(ns) && seconds(ns as nat).m > 0,
        ns <= 499_999_000 ==> !measurable(ns),
{
    lemma_seconds_value(ns as nat);
    values::lemma_at_least_value(seconds(ns as nat), half());
    assert(values::value(half()) == 1real / 2real) by {
        binary64::lemma_two_values();
        assert(values::scale(-53) == 1real / 9007199254740992real);
        assert(4503599627370496real * (1real / 9007199254740992real) == 1real / 2real);
    }
    let secs = seconds(ns as nat);
    if secs.m == 0 && ns > 0 {
        let w = values::scale(secs.e);
        assert(0real * w == 0real) by (nonlinear_arith);
    }
}

/// The rate is that of the trailing window, whatever was measured before. Once the
/// read position is past what was cached, and the window's first sample lies half
/// a second back, it is eight times the bytes since that sample by the seconds
/// since it; rounding moves it by no more than a millionth and the fraction of a
/// bit. Over less than half a second nothing is measured.
pub proof fn the_rate_is_that_of_the_window(g: Gauge, now: u64, earlier: u64)
    requires
        g.total > g.cached,
    ensures
        ({
            let m = gauged(g, now);
            let (t, b) = m.samples[0];
            let bytes = if g.total > b {
                g.total - b
            } else {
                0
            };
            &&& m.samples.len() > 0
            &&& m.samples.last() == (now, g.total)
            &&& m.total == g.total
            &&& now - t >= 500_001_000 ==> {
                &&& 1_000_000 * (m.rate * (now - t)) <= 1_000_001 * (8_000_000_000 * bytes)
                &&& m.rate < u64::MAX ==> 1_000_000 * ((m.rate + 1) * (now - t)) >= 999_999 * (
                8_000_000_000 * bytes)
                &&& gauged((Gauge { rate: earlier, ..g }), now).rate == m.rate
            }
            &&& now - t <= 499_999_000 ==> m.rate == g.rate
        }),
{
    let m = gauged(g, now);
    let began = match g.measuring {
        Some(x) => x,
        None => (now, g.total),
    };
    let first = if g.samples.len() == 0 {
        seq![(began.0, g.total)]
    } else {
        g.samples
    };
    window_holds_one_old_sample(first.push((now, g.total)), now);
    let (t, b) = m.samples[0];
    let span = beyond(now, t);
    lemma_measurable(span);
    if now - t >= 500_001_000 {
        lemma_rate_value(beyond(g.total, b), span);
    }
}

/// A gauge whose samples follow one another, the first of them taken when
/// measurement began or more than five seconds before the last.
pub open spec fn tracks(g: Gauge) -> bool {
    &&& forall|i: int, j: int|
        0 <= i <= j < g.samples.len() ==> (#[trigger] g.samples[i]).0 <= (#[trigger] g.samples[j]).0
    &&& g.measuring is None ==> g.samples.len() == 0
    &&& g.measuring is Some ==> g.samples.len() > 0 && (g.samples[0].0 == (g.measuring->0).0
        || g.samples.last().0 - g.samples[0].0 > 5_000_000_000)
}

proof fn lemma_window(s: Seq<(u64, u64)>, now: u64)
    requires
        s.len() > 0,
        forall|i: int, j: int|
            0 <= i <= j < s.len() ==> (#[trigger] s[i]).0 <= (#[trigger] s[j]).0,
        s.last().0 == now,
    ensures
        ({
            let w = in_window(s, now);
            &&& 0 < w.len() <= s.len()
            &&& w == s.skip(s.len() - w.len())
            &&& w[0] == s[0] || now - w[0].0 > 5_000_000_000
            &&& w.len() >= 2 ==> now - w[1].0 <= 5_000_000_000
        }),
    decreases s.len(),
{
    if s.len() >= 2 && beyond(now, s[1].0) > RATE_WINDOW {
        let t = s.drop_first();
        lemma_window(t, now);
        let w = in_window(t, now);
        assert(t.skip(t.len() - w.len()) =~= s.skip(s.len() - w.len()));
    } else {
        assert(s.skip(0) =~= s);
    }
}

/// As time goes on, a gauge keeps its samples in order. They are those taken
/// before and one more; a sample is dropped only when the one after it is more
/// than five seconds old, so that the window starts at the last sample older than
/// that, or where measurement began.
pub proof fn the_window_trails(g: Gauge, now: u64)
    requires
        tracks(g),
        g.samples.len() > 0 ==> g.samples.last().0 <= now,
    ensures
        tracks(gauged(g, now)),
        g.total > g.cached ==> ({
            let m = gauged(g, now);
            let all = if g.samples.len() == 0 {
                seq![(now, g.total), (now, g.total)]
            } else {
                g.samples.push((now, g.total))
            };
            &&& 0 < m.samples.len() <= all.len()
            &&& m.samples == all.skip(all.len() - m.samples.len())
            &&& m.samples.len() < all.len() ==> now - m.samples[0].0 > 5_000_000_000
            &&& m.samples.len() >= 2 ==> now - m.samples[1].0 <= 5_000_000_000
            &&& g.measuring is None ==> m.measuring == Some((now, g.total))
            &&& g.measuring is Some ==> m.measuring == g.measuring
        }),
        g.total <= g.cached ==> gauged(g, now).measuring is None && gauged(g, now).samples.len()
            == 0 && gauged(g, now).rate == g.rate,
{
    if g.total > g.cached {
        let began = match g.measuring {
            Some(x) => x,
            None => (now, g.total),
        };
        let first = if g.samples.len() == 0 {
            seq![(began.0, g.total)]
        } else {
            g.samples
        };
        let all = first.push((now, g.total));
        assert(g.samples.len() == 0 ==> all =~= seq![(now, g.total), (now, g.total)]);
        lemma_window(all, now);
        let w = in_window(all, now);
        assert forall|i: int, j: int| 0 <= i <= j < w.len() implies (#[trigger] w[i]).0 <= (
        #[trigger] w[j]).0 by {
            let d = all.len() - w.len();
            assert(w[i] == all[d + i] && w[j] == all[d + j]);
        }
        assert(w.last() == all.last());
        if w.len() < all.len() {
            let d = all.len() - w.len();
            assert(w[0] == all[d]);
            lemma_window_dropped(all, now);
        }
    }
}

proof fn lemma_window_dropped(s: Seq<(u64, u64)>, now: u64)
    ensures
        in_window(s, now).len() <= s.len(),
        in_window(s, now).len() == s.len() ==> in_window(s, now) == s,
        in_window(s, now).len() < s.len() ==> beyond(now, in_window(s, now)[0].0) > 5_000_000_000,
    decreases s.len(),
{
    if s.len() >= 2 && beyond(now, s[1].0) > RATE_WINDOW {
        lemma_window_dropped(s.drop_first(), now);
    }
}

/// A new probe has measured nothing, and what a message does to a probe keeps its
/// samples in order.
pub proof fn probes_stay_on_track(g: Gauge, read: Read, now: u64)
    requires
        tracks(g),
        g.samples.len() > 0 ==> g.samples.last().0 <= now,
    ensures
        tracks(after(g, read, now)),
        after(g, read, now).samples.len() > 0 && after(g, read, now).samples != g.samples
            ==> after(g, read, now).samples.last().0 == now,
        tracks(
            (Gauge { measuring: None, samples: Seq::empty(), ..g }),
        ),
{
    let c = counted(g, read);
    the_window_trails(c, now);
    if c.total > c.cached {
        let began = match c.measuring {
            Some(x) => x,
            None => (now, c.total),
        };
        let first = if c.samples.len() == 0 {
            seq![(began.0, c.total)]
        } else {
            c.samples
        };
        window_holds_one_old_sample(first.push((now, c.total)), now);
    }
}

/// A release that was not on disk is ready only if what came in the window that
/// trails this moment, over that window, amounts to the rate it needs: the window
/// reaches five seconds back at least, the slab is full, and six seconds were
/// watched. A burst that has left the window counts for nothing.
pub proof fn ready_means_the_window_sustains(g: Gauge, read: Read, now: u64)
    requires
        tracks(g),
        g.samples.len() > 0 ==> g.samples.last().0 <= now,
        read matches Read::Bytes(n) ==> g.total + n <= u64::MAX,
        read is Bytes || read is Tick,
    ensures
        settled(g, read, now) matches Some(Probe::Ready { buffered, from_cache, .. }) ==> ({
            let total = g.total + (match read {
                Read::Bytes(n) => n as int,
                _ => 0,
            });
            &&& buffered == total
            &&& total >= g.target
            &&& from_cache <==> total <= g.cached
            &&& !from_cache ==> {
                let m = after(g, read, now);
                let (t, b) = m.samples[0];
                &&& m.measuring is Some && now - (m.measuring->0).0 >= 6_000_000_000
                &&& m.samples.len() > 0
                &&& now - t >= 5_000_000_000
                &&& g.needed is Some && g.needed->0 > 0 ==> 1_000_001 * (8_000_000_000 * (total
                    - b)) >= 1_000_000 * (g.needed->0 * (now - t))
            }
        }),
        !(settled(g, read, now) matches Some(Probe::TooSlow { .. })),
{
    let c = counted(g, read);
    let m = gauged(c, now);
    the_window_trails(c, now);
    if settled(g, read, now) is Some && !covered_by_cache(c) {
        assert(c.total > c.cached);
        the_rate_is_that_of_the_window(c, now, 0);
        let (t, b) = m.samples[0];
        assert(now - t >= 5_000_000_000);
        if g.needed is Some && g.needed->0 > 0 {
            let n = g.needed->0;
            let d = now - t;
            let bytes = if c.total > b {
                c.total - b
            } else {
                0
            };
            assert(m.rate * d >= n * d) by (nonlinear_arith)
                requires
                    m.rate >= n,
                    d >= 0,
            ;
            assert(n * d > 0) by (nonlinear_arith)
                requires
                    n > 0,
                    d > 0,
            ;
        }
    }
}

/// The other way round: full of what was watched for six seconds, a release whose
/// trailing window shows more than it needs is ready, and without a rate to show,
/// the slab is all it takes.
pub proof fn a_sustained_window_is_ready(g: Gauge, read: Read, now: u64)
    requires
        tracks(g),
        g.samples.len() > 0 ==> g.samples.last().0 <= now,
        read matches Read::Bytes(n) ==> g.total + n <= u64::MAX,
        read is Bytes || read is Tick,
    ensures
        ({
            let total = g.total + (match read {
                Read::Bytes(n) => n as int,
                _ => 0,
            });
            let m = after(g, read, now);
            let (t, b) = m.samples[0];
            &&& g.target <= total <= g.cached ==> settled(g, read, now) is Some
            &&& total >= g.target && total > g.cached && m.measuring is Some && now - (
            m.measuring->0).0 >= 6_000_000_000 && (g.needed is None || (g.needed->0 as int)
                < u64::MAX && 999_999 * (8_000_000_000 * (total - b)) > 1_000_000 * (g.needed->0 * (
            now - t))) ==> settled(g, read, now) is Some
            &&& total < g.target ==> settled(g, read, now) is None
        }),
{
    let c = counted(g, read);
    let m = gauged(c, now);
    the_window_trails(c, now);
    if c.total > c.cached {
        the_rate_is_that_of_the_window(c, now, 0);
        let (t, b) = m.samples[0];
        if g.needed is Some && m.measuring is Some && now - (m.measuring->0).0 >= 6_000_000_000 {
            assert(now - t >= 5_000_000_000);
            let n = g.needed->0;
            let d = now - t;
            if m.rate < n {
                assert((m.rate + 1) * d <= n * d) by (nonlinear_arith)
                    requires
                        m.rate + 1 <= n,
                        d >= 0,
                ;
            }
        }
    }
}

/// A probe is given up at the end of its budget, after 45 seconds if the rate has
/// not been shown by then, and after twelve seconds of measuring less than half of
/// it from peers that are connected; and at no other time. The verdict says what
/// was buffered and the average since measurement began.
pub proof fn hopeless_probes_are_given_up(g: Gauge, now: u64, live: u32, seen: u32)
    ensures
        out_of_time(g, now) <==> now >= g.budget || (now >= 45_000_000_000 && (g.needed is None
            || g.rate < g.needed->0)),
        hopeless(g, now, live) <==> live > 0 && g.needed is Some && g.measuring is Some && now - (
        g.measuring->0).0 >= 12_000_000_000 && g.rate + g.rate < g.needed->0,
        given_up(g, now, live, seen) matches Probe::TooSlow {
            rate_bps,
            buffered,
            live_peers,
            seen_peers,
        } && buffered == g.total && live_peers == live && seen_peers == seen && rate_bps == average(
            g,
            now,
        ),
        g.measuring is None ==> average(g, now) == 0,
        g.measuring is Some && now - (g.measuring->0).0 >= 500_001_000 && g.total >= (
        g.measuring->0).1 ==> ({
            let (t, b) = g.measuring->0;
            let a = average(g, now);
            &&& 1_000_000 * (a * (now - t)) <= 1_000_001 * (8_000_000_000 * (g.total - b))
            &&& a < u64::MAX ==> 1_000_000 * ((a + 1) * (now - t)) >= 999_999 * (8_000_000_000 * (
            g.total - b))
        }),
{
    if g.measuring is Some {
        let (t, b) = g.measuring->0;
        lemma_measurable(beyond(now, t));
        if now - t >= 500_001_000 {
            lemma_rate_value(beyond(g.total, b), beyond(now, t));
        }
    }
}

/// A release that is declared ready while its stream goes on has its slab: from
/// the disk alone, or over the network at the rate it needs, watched for the
/// least time.
pub proof fn ready_means_sustained(g: Gauge, read: Read, now: u64)
    requires
        settled(g, read, now) is Some,
    ensures
        ({
            let c = counted(g, read);
            let m = gauged(c, now);
            ||| c.target <= c.total <= c.cached
            ||| {
                &&& m.total >= m.target
                &&& m.needed is Some ==> m.rate >= m.needed->0
                &&& m.measuring is Some
                &&& beyond(now, (m.measuring->0).0) >= MIN_PROBE_SECS
            }
        }),
{
}

/// A swarm that bursts once and then stalls does not keep its burst: the rate is
/// that of the window, whose samples are no older than the window but for one.
pub proof fn window_holds_one_old_sample(s: Seq<(u64, u64)>, now: u64)
    requires
        s.len() > 0,
    ensures
        in_window(s, now).len() > 0,
        in_window(s, now).len() >= 2 ==> beyond(now, in_window(s, now)[1].0) <= RATE_WINDOW,
        in_window(s, now).last() == s.last(),
    decreases s.len(),
{
    if s.len() >= 2 && beyond(now, s[1].0) > RATE_WINDOW {
        window_holds_one_old_sample(s.drop_first(), now);
    }
}

/// Data that was on disk before the start never counts as throughput.
pub proof fn cache_is_not_throughput(g: Gauge, now: u64)
    requires
        g.total <= g.cached,
    ensures
        gauged(g, now).measuring is None,
        average(gauged(g, now), now) == 0,
        !is_ready(gauged(g, now), now),
{
}

/// The seconds that fetching a slab takes, and half again, times the bitrate, are
/// 9.6 bits for every byte, but for rounding.
proof fn lemma_fetch_value(target: u64, bps: u64)
    requires
        bps > 0,
    ensures
        ({
            let x = values::value(fetch_secs(target, bps)) * (bps as real);
            &&& 999998real * (48real * target as real) <= 5000000real * x
            &&& 5000000real * x <= 1000002real * (48real * target as real)
        }),
{
    let n = binary64::of_int(target as nat);
    let bits = binary64::product(n, eight());
    let b = binary64::of_int(bps as nat);
    let gate = binary64::product(b, safety_factor());
    let q = binary64::quotient(bits, gate);
    let f = binary64::product(q, half_again());
    let s = values::short();
    let o = values::over();
    let lo = 9999999real / 10000000real;
    let hi = 10000001real / 10000000real;
    let low = 999999real / 1000000real;
    let high = 1000001real / 1000000real;
    let t = target as real;
    let br = bps as real;
    lemma_shares();
    binary64::lemma_two_values();
    values::lemma_int_value(target as nat);
    values::lemma_int_value(bps as nat);
    values::lemma_product_value(n, eight());
    values::lemma_product_value(b, safety_factor());
    assert(values::value(eight()) == 8real) by {
        binary64::lemma_two_add(49, 3);
        reveal_with_fuel(binary64::two, 4);
        assert(binary64::two(49) == 0x2_0000_0000_0000);
        assert(values::scale(-49) == 1real / 562949953421312real);
        assert(4503599627370496real * (1real / 562949953421312real) == 8real);
    }
    assert(values::value(safety_factor()) == 5real / 4real) by {
        assert(values::scale(-52) == 1real / 4503599627370496real);
        assert(5629499534213120real * (1real / 4503599627370496real) == 5real / 4real)
            by (nonlinear_arith);
    }
    assert(values::value(half_again()) == 3real / 2real) by {
        assert(values::scale(-52) == 1real / 4503599627370496real);
        assert(6755399441055744real * (1real / 4503599627370496real) == 3real / 2real)
            by (nonlinear_arith);
    }
    let nv = values::value(n);
    let bv = values::value(b);
    assert(values::between(nv * 8real, t * 8real, s, o));
    values::lemma_through(values::value(bits), nv * 8real, t * 8real, s, o, s, o);
    values::lemma_wider(values::value(bits), t * 8real, s * s, o * o, lo, hi);
    let wide = br * (5real / 4real);
    assert(s * wide <= bv * (5real / 4real) && bv * (5real / 4real) <= o * wide)
        by (nonlinear_arith)
        requires
            s * br <= bv,
            bv <= o * br,
            wide == br * (5real / 4real),
    ;
    values::lemma_through(values::value(gate), bv * (5real / 4real), wide, s, o, s, o);
    values::lemma_wider(values::value(gate), wide, s * s, o * o, lo, hi);
    values::lemma_over(values::value(bits), t * 8real, values::value(gate), wide, lo, hi, lo, hi);
    assert(gate.m > 0) by {
        if gate.m == 0 {
            let w = values::scale(gate.e);
            assert(0real * w == 0real) by (nonlinear_arith);
        }
    }
    values::lemma_quotient_value(bits, gate);
    let exact = (t * 8real) / wide;
    assert(exact * br == t * (32real / 5real) && exact >= 0real) by (nonlinear_arith)
        requires
            exact == (t * 8real) / wide,
            wide == br * (5real / 4real),
            br > 0real,
            t >= 0real,
    ;
    values::lemma_through(
        values::value(q),
        values::value(bits) / values::value(gate),
        exact,
        s,
        o,
        lo / hi,
        hi / lo,
    );
    values::lemma_wider(values::value(q), exact, s * (lo / hi), o * (hi / lo), low, high);
    values::lemma_product_value(q, half_again());
    let qv = values::value(q);
    let half_more = exact * (3real / 2real);
    assert(low * half_more <= qv * (3real / 2real) && qv * (3real / 2real) <= high * half_more)
        by (nonlinear_arith)
        requires
            low * exact <= qv,
            qv <= high * exact,
            half_more == exact * (3real / 2real),
    ;
    values::lemma_through(values::value(f), qv * (3real / 2real), half_more, s, o, low, high);
    values::lemma_wider(
        values::value(f),
        half_more,
        s * low,
        o * high,
        999998real / 1000000real,
        1000002real / 1000000real,
    );
    let v = values::value(f);
    assert(half_more * br == (48real / 5real) * t) by (nonlinear_arith)
        requires
            half_more == exact * (3real / 2real),
            exact * br == t * (32real / 5real),
    ;
    let least = 999998real / 1000000real;
    let most = 1000002real / 1000000real;
    let x = v * br;
    assert(999998real * (48real * t) <= 5000000real * x && 5000000real * x <= 1000002real * (48real
        * t)) by (nonlinear_arith)
        requires
            least * half_more <= v <= most * half_more,
            least == 999998real / 1000000real,
            most == 1000002real / 1000000real,
            half_more * br == (48real / 5real) * t,
            br > 0real,
            x == v * br,
    ;
}

/// A probe may run for half again as long as its slab takes to come at the rate
/// asked of the swarm, but no less than 45 seconds and no more than six minutes:
/// 9.6 seconds for every byte of the slab by every bit a second of the release,
/// but for a hundred-thousandth and a nanosecond of rounding. Where the bitrate is
/// unknown it is 45 seconds.
pub proof fn the_budget_is_half_again_the_fetch(target: u64, bps: u64)
    requires
        bps > 0,
    ensures
        budget_for(target, None) == 45_000_000_000,
        budget_for(target, Some(0)) == 45_000_000_000,
        ({
            let b = budget_for(target, Some(bps));
            &&& 45_000_000_000 <= b <= 360_000_000_000
            &&& 100_001 * (9_600_000_000 * target) <= 100_000 * (45_000_000_000 * bps) ==> b
                == 45_000_000_000
            &&& 99_999 * (9_600_000_000 * target) >= 100_000 * (360_000_000_000 * bps) ==> b
                == 360_000_000_000
            &&& b < 360_000_000_000 ==> 100_000 * ((b + 1) * bps) >= 99_999 * (9_600_000_000
                * target)
            &&& b > 45_000_000_000 ==> 100_000 * ((b - 1) * bps) <= 100_001 * (9_600_000_000
                * target)
        }),
{
    budget_stays_in_bounds(target, Some(bps));
    lemma_fetch_value(target, bps);
    let f = fetch_secs(target, bps);
    let v = values::value(f);
    let br = bps as real;
    let t = target as real;
    let base = binary64::of_int(45);
    let cap = binary64::of_int(360);
    values::lemma_int_value(45);
    values::lemma_int_value(360);
    values::lemma_at_least_value(base, f);
    values::lemma_at_least_value(f, cap);
    values::lemma_scaled_value(f, SECOND as nat);
    let x = v * br;
    let b = budget_for(target, Some(bps));
    let bn = b as real;
    let product = (b * bps) as real;
    assert(product == bn * br) by (nonlinear_arith)
        requires
            product == (b * bps) as real,
            bn == b as real,
            br == bps as real,
    ;
    assert((b + 1) * bps == b * bps + bps && (b - 1) * bps == b * bps - bps) by (nonlinear_arith);
    if binary64::at_least(base, f) {
        assert(b * bps == 45_000_000_000 * bps) by (nonlinear_arith)
            requires
                b == 45_000_000_000,
        ;
        assert(10000000real * x <= 450000001real * br) by (nonlinear_arith)
            requires
                x == v * br,
                br > 0real,
                v <= 45real + 1real / 10000000real,
        ;
    } else if binary64::at_least(f, cap) || binary64::scaled(f, SECOND as nat)
        > PROBE_BUDGET_MAX {
        assert(b * bps == 360_000_000_000 * bps) by (nonlinear_arith)
            requires
                b == 360_000_000_000,
        ;
        assert(1000000real * x >= 359999999real * br) by (nonlinear_arith)
            requires
                x == v * br,
                br > 0real,
                v >= 360real - 1real / 1000000real,
        ;
    } else {
        assert(x * 1000000000real <= product + br && product - br <= x * 1000000000real)
            by (nonlinear_arith)
            requires
                x == v * br,
                product == bn * br,
                br > 0real,
                bn - 1real <= v * 1000000000real,
                v * 1000000000real <= bn + 1real,
        ;
        assert(10000000real * x >= 449999999real * br) by (nonlinear_arith)
            requires
                x == v * br,
                br > 0real,
                v >= 45real - 1real / 10000000real,
        ;
        assert(1000000real * x <= 360000001real * br) by (nonlinear_arith)
            requires
                x == v * br,
                br > 0real,
                v <= 360real + 1real / 1000000real,
        ;
    }
}

/// A file that is there in full is ready at once, from the disk; one of which
/// anything is missing, or of which nothing is known, is not.
pub proof fn lengths_are_found_by_index(files: Seq<TorrentFile>, file_idx: usize, i: int)
    ensures
        0 <= i < files.len() && files[i].idx == file_idx && (forall|k: int|
            0 <= k < i ==> (#[trigger] files[k]).idx != file_idx) ==> length_of(files, file_idx)
            == files[i].len,
        (forall|k: int| 0 <= k < files.len() ==> (#[trigger] files[k]).idx != file_idx)
            ==> length_of(files, file_idx) == 0,
    decreases files.len(),
{
    if files.len() > 0 {
        let t = files.drop_first();
        lengths_are_found_by_index(t, file_idx, i - 1);
        assert forall|k: int| 0 <= k < t.len() implies (#[trigger] t[k]) == files[k + 1] by {}
        if files[0].idx != file_idx {
            if forall|k: int| 0 <= k < files.len() ==> (#[trigger] files[k]).idx != file_idx {
                assert forall|k: int| 0 <= k < t.len() implies (#[trigger] t[k]).idx
                    != file_idx by {
                    assert(files[k + 1].idx != file_idx);
                }
            }
            if 0 < i < files.len() && files[i].idx == file_idx && (forall|k: int|
                0 <= k < i ==> (#[trigger] files[k]).idx != file_idx) {
                assert forall|k: int| 0 <= k < i - 1 implies (#[trigger] t[k]).idx
                    != file_idx by {
                    assert(files[k + 1].idx != file_idx);
                }
                assert(t[i - 1] == files[i]);
            }
        }
    }
}

/// What is reported of a probe on the way: what is buffered, never beyond the
/// slab, the rate of the window, and the peers; two fifths of a second after the
/// last report, and whenever the slab is full.
pub proof fn reports_tell_the_gauge(g: Gauge, read: Read, now: u64, live: u32, seen: u32)
    ensures
        ({
            let r = readings(g, read, now, live, seen);
            let m = after(g, read, now);
            let bytes = match read {
                Read::Bytes(n) => n as int,
                _ => 0,
            };
            let total = (g.total + bytes) as u64;
            let from_disk = total >= g.target && total <= g.cached;
            &&& forall|i: int|
                0 <= i < r.len() ==> (#[trigger] r[i]).live_peers == live && r[i].seen_peers == seen
                    && r[i].buffered <= g.target
            &&& from_disk ==> r.len() == 1 && r[0].buffered == g.target && r[0].rate_bps == 0
            &&& !from_disk && now >= g.reported && now - g.reported >= 400_000_000 ==> r.len() > 0
                && r[0].rate_bps == m.rate && r[0].buffered == (if total < g.target {
                total
            } else {
                g.target
            }) && m.reported == now
            &&& !from_disk && now - g.reported < 400_000_000 ==> m.reported == g.reported
                && r.len() <= 1
            &&& !from_disk && settled(g, read, now) is None && now - g.reported < 400_000_000
                ==> r.len() == 0
            &&& !from_disk && settled(g, read, now) is Some ==> r.len() > 0 && r.last().buffered
                == g.target && r.last().rate_bps == m.rate
        }),
{
}

/// What is found ready over the network is reported at the average since
/// measurement began, not at the rate of the window; what was on disk is reported
/// at none.
pub proof fn what_is_ready_is_reported_at_its_average(g: Gauge, read: Read, now: u64)
    requires
        read is Bytes || read is Tick,
    ensures
        settled(g, read, now) matches Some(Probe::Ready { rate_bps, from_cache, .. }) ==> ({
            let m = after(g, read, now);
            let (t, b) = m.measuring->0;
            &&& from_cache ==> rate_bps == 0
            &&& !from_cache && m.total >= b ==> {
                &&& m.measuring is Some
                &&& 1_000_000 * (rate_bps * (now - t)) <= 1_000_001 * (8_000_000_000 * (m.total
                    - b))
                &&& rate_bps < u64::MAX ==> 1_000_000 * ((rate_bps + 1) * (now - t)) >= 999_999 * (
                8_000_000_000 * (m.total - b))
            }
        }),
{
    let c = counted(g, read);
    let m = gauged(c, now);
    if settled(g, read, now) is Some && !covered_by_cache(c) {
        hopeless_probes_are_given_up(m, now, 0, 0);
    }
}

/// A file that ends before its slab is full is ready with all of it: at the
/// average since measurement began, or where nothing was measured, from the disk.
pub proof fn short_files_are_ready_at_their_end(g: Gauge, now: u64)
    ensures
        ended(g, now) matches Probe::Ready { rate_bps, buffered, from_cache } && buffered == g.total
            && (from_cache <==> g.measuring is None) && (g.measuring is None ==> rate_bps == 0) && (
        g.measuring is Some && now - (g.measuring->0).0 >= 500_001_000 && g.total >= (
        g.measuring->0).1 ==> 1_000_000 * (rate_bps * (now - (g.measuring->0).0)) <= 1_000_001 * (
        8_000_000_000 * (g.total - (g.measuring->0).1)) && (rate_bps < u64::MAX ==> 1_000_000 * ((
        rate_bps + 1) * (now - (g.measuring->0).0)) >= 999_999 * (8_000_000_000 * (g.total - (
        g.measuring->0).1)))),
{
    hopeless_probes_are_given_up(g, now, 0, 0);
}

// --- the download directory ---------------------------------------------------------

/// Where the pieces are kept unless the user says otherwise.
pub fn download_dir(env: &Environment) -> (r: String)
    ensures
        r@ == xdg::path_join(
            xdg::base_dir(env.xdg_cache_home, env.home, ".cache"@, env.temp_dir@),
            "dekho"@,
        ),
{
    let base = xdg::cache_home(env);
    xdg::join(base.as_str(), "dekho")
}

// --- the session ------------------------------------------------------------------

/// The cache entries that the files of a torrent lie under.
pub open spec fn entries_of(files: Seq<TorrentFile>) -> Set<Seq<char>> {
    Set::new(
        |n: Seq<char>|
            n.len() > 0 && exists|i: int|
                0 <= i < files.len() && cache::first_component((#[trigger] files[i]).name@) == n,
    )
}

/// A torrent session, as far as the rest of the program needs to know of it:
/// where the player reads, and which cache entries each torrent writes into,
/// so that pruning leaves them alone.
pub struct Engine {
    base_url: String,
    torrents: Vec<(usize, Vec<String>)>,
}

spec fn set_of(v: Vec<String>) -> Set<Seq<char>> {
    text::string_texts(v@).to_set()
}

spec fn held(s: Seq<(usize, Vec<String>)>) -> Map<usize, Set<Seq<char>>>
    decreases s.len(),
{
    if s.len() == 0 {
        Map::empty()
    } else {
        held(s.drop_last()).insert(s.last().0, set_of(s.last().1))
    }
}

spec fn ids_differ(s: Seq<(usize, Vec<String>)>) -> bool {
    forall|i: int, j: int| 0 <= i < j < s.len() ==> (#[trigger] s[i]).0 != (#[trigger] s[j]).0
}

impl View for Engine {
    type V = Map<usize, Set<Seq<char>>>;

    closed spec fn view(&self) -> Map<usize, Set<Seq<char>>> {
        held(self.torrents@)
    }
}

proof fn lemma_held(s: Seq<(usize, Vec<String>)>, id: usize)
    requires
        ids_differ(s),
    ensures
        held(s).contains_key(id) <==> exists|i: int| 0 <= i < s.len() && (#[trigger] s[i]).0 == id,
        forall|i: int| 0 <= i < s.len() ==> held(s)[(#[trigger] s[i]).0] == set_of(s[i].1),
    decreases s.len(),
{
    if s.len() > 0 {
        let t = s.drop_last();
        assert(ids_differ(t)) by {
            assert forall|i: int, j: int| 0 <= i < j < t.len() implies (#[trigger] t[i]).0 != (
            #[trigger] t[j]).0 by {
                assert(s[i].0 != s[j].0);
            }
        }
        lemma_held(t, id);
        assert forall|i: int| 0 <= i < s.len() implies held(s)[(#[trigger] s[i]).0] == set_of(
            s[i].1,
        ) by {
            if i < t.len() {
                assert(t[i] == s[i]);
                assert(s[i].0 != s[s.len() - 1].0);
            }
        }
        if exists|i: int| 0 <= i < s.len() && (#[trigger] s[i]).0 == id {
            let i = choose|i: int| 0 <= i < s.len() && (#[trigger] s[i]).0 == id;
            if i < t.len() {
                assert(t[i].0 == id);
            }
        }
        if exists|i: int| 0 <= i < t.len() && (#[trigger] t[i]).0 == id {
            let i = choose|i: int| 0 <= i < t.len() && (#[trigger] t[i]).0 == id;
            assert(s[i].0 == id);
        }
        if s.last().0 == id {
            assert(s[s.len() - 1].0 == id);
        }
    }
}

/// The cache entries that any of some torrents writes into.
pub open spec fn all_active(m: Map<usize, Set<Seq<char>>>) -> Set<Seq<char>> {
    Set::new(|n: Seq<char>| exists|id: usize| m.contains_key(id) && (#[trigger] m[id]).contains(n))
}

fn has_name(names: &Vec<String>, name: &str) -> (r: bool)
    ensures
        r == text::string_texts(names@).contains(name@),
{
    let n = names.len();
    let mut i: usize = 0;
    while i < n
        invariant
            i <= n == names@.len(),
            forall|k: int| 0 <= k < i ==> text::string_texts(names@)[k] != name@,
        decreases n - i,
    {
        assert(text::string_texts(names@)[i as int] == names@[i as int]@);
        if text::same_str(names[i].as_str(), name) {
            return true;
        }
        i += 1;
    }
    false
}

impl Engine {
    #[verifier::type_invariant]
    spec fn well_formed(self) -> bool {
        ids_differ(self.torrents@)
    }

    /// Where the session is served.
    pub closed spec fn served_at(&self) -> Seq<char> {
        self.base_url@
    }

    pub fn new(base_url: String) -> (r: Engine)
        ensures
            r.served_at() == base_url@,
            r@ == Map::<usize, Set<Seq<char>>>::empty(),
    {
        Engine { base_url, torrents: Vec::new() }
    }

    /// Where the player reads a file of a torrent.
    pub fn stream_url(&self, torrent_id: usize, file_idx: usize) -> (r: String)
        ensures
            r@ == self.served_at() + "/torrents/"@ + text::decimal(torrent_id as nat) + "/stream/"@
                + text::decimal(file_idx as nat),
    {
        let mut out = text::chars_of(self.base_url.as_str());
        text::push_str(&mut out, "/torrents/");
        text::push_decimal(&mut out, torrent_id as u64);
        text::push_str(&mut out, "/stream/");
        text::push_decimal(&mut out, file_idx as u64);
        text::string_of(out.as_slice())
    }

    /// The others, without the torrent `id`.
    fn without(&mut self, id: usize) -> (r: Vec<(usize, Vec<String>)>)
        ensures
            held(r@) == old(self)@.remove(id),
            final(self).base_url == old(self).base_url,
            ids_differ(r@),
            forall|i: int| 0 <= i < r@.len() ==> (#[trigger] r@[i]).0 != id,
    {
        proof {
            use_type_invariant(&*self);
        }
        let mut all: Vec<(usize, Vec<String>)> = Vec::new();
        let ghost before = self.torrents@;
        std::mem::swap(&mut all, &mut self.torrents);
        let mut out: Vec<(usize, Vec<String>)> = Vec::new();
        assert(held(before.take(0)).remove(id) =~= held(out@));
        for t in it: all
            invariant
                it.seq() == before,
                ids_differ(before),
                ids_differ(out@),
                forall|i: int| 0 <= i < out@.len() ==> (#[trigger] out@[i]).0 != id,
                forall|i: int|
                    0 <= i < out@.len() ==> exists|k: int|
                        0 <= k < it.index() && before[k].0 == (#[trigger] out@[i]).0,
                held(out@) == held(before.take(it.index())).remove(id),
        {
            let ghost i = it.index();
            let ghost grown = out@;
            assert(before.take(i + 1).drop_last() =~= before.take(i));
            assert(before.take(i + 1).last() == t);
            assert(forall|k: int| 0 <= k < i ==> (#[trigger] before[k]).0 != before[i].0);
            if t.0 != id {
                out.push(t);
                assert(out@.drop_last() =~= grown);
                assert(held(out@) =~= held(before.take(i + 1)).remove(id));
            } else {
                assert(held(out@) =~= held(before.take(i + 1)).remove(id));
            }
        }
        assert(before.take(before.len() as int) =~= before);
        out
    }

    /// Record which cache entries a torrent writes into.
    pub fn mark_active(&mut self, id: usize, files: &Vec<TorrentFile>)
        ensures
            final(self).served_at() == old(self).served_at(),
            final(self)@ == old(self)@.insert(id, entries_of(files@)),
    {
        let n = files.len();
        let mut names: Vec<String> = Vec::new();
        let mut i: usize = 0;
        assert(text::string_texts(names@).to_set() =~= entries_of(files@.take(0)));
        while i < n
            invariant
                i <= n == files@.len(),
                text::string_texts(names@).to_set() == entries_of(files@.take(i as int)),
            decreases n - i,
        {
            let ghost before = text::string_texts(names@);
            let ghost seen = files@.take(i as int);
            let ghost more = files@.take(i + 1);
            let ghost c = cache::first_component(files@[i as int].name@);
            proof {
                assert(more[i as int] == files@[i as int]);
                assert forall|m: Seq<char>| #[trigger]
                    entries_of(more).contains(m) == (entries_of(seen).contains(m) || (m.len() > 0
                        && m == c)) by {
                    if entries_of(more).contains(m) && m != c {
                        let k = choose|k: int|
                            0 <= k < more.len() && cache::first_component(
                                (#[trigger] more[k]).name@,
                            ) == m;
                        assert(seen[k] == more[k]);
                    }
                    if entries_of(seen).contains(m) {
                        let k = choose|k: int|
                            0 <= k < seen.len() && cache::first_component(
                                (#[trigger] seen[k]).name@,
                            ) == m;
                        assert(more[k] == seen[k]);
                    }
                }
            }
            match cache::top_component(files[i].name.as_str()) {
                Some(name) => {
                    names.push(name);
                    proof {
                        let after = text::string_texts(names@);
                        assert(after =~= before.push(c));
                        assert forall|m: Seq<char>| #[trigger]
                            after.to_set().contains(m) == entries_of(more).contains(m) by {
                            if before.contains(m) {
                                let k = choose|k: int| 0 <= k < before.len() && before[k] == m;
                                assert(after[k] == m);
                            }
                            assert(after[before.len() as int] == c);
                            assert(before.to_set().contains(m) == before.contains(m));
                        }
                        assert(after.to_set() =~= entries_of(more));
                    }
                },
                None => {
                    assert(text::string_texts(names@).to_set() =~= entries_of(more));
                },
            }
            i += 1;
        }
        assert(files@.take(n as int) =~= files@);
        let mut torrents = self.without(id);
        let ghost others = torrents@;
        torrents.push((id, names));
        assert(torrents@.drop_last() =~= others);
        assert(held(torrents@) =~= old(self)@.insert(id, entries_of(files@)));
        self.torrents = torrents;
    }

    /// A torrent is no longer played.
    pub fn forget(&mut self, id: usize)
        ensures
            final(self).served_at() == old(self).served_at(),
            final(self)@ == old(self)@.remove(id),
    {
        let torrents = self.without(id);
        self.torrents = torrents;
    }

    /// Cache entries any torrent in this session is using, each once. Pruning
    /// must never touch these.
    pub fn active_names(&self) -> (r: Vec<String>)
        ensures
            text::string_texts(r@).to_set() == all_active(self@),
            text::string_texts(r@).no_duplicates(),
    {
        proof {
            use_type_invariant(self);
        }
        let ghost s = self.torrents@;
        let n = self.torrents.len();
        let mut out: Vec<String> = Vec::new();
        let mut i: usize = 0;
        while i < n
            invariant
                n == self.torrents@.len(),
                s == self.torrents@,
                i <= n,
                text::string_texts(out@).no_duplicates(),
                forall|m: Seq<char>| #[trigger]
                    text::string_texts(out@).contains(m) <==> exists|k: int|
                        0 <= k < i && set_of((#[trigger] s[k]).1).contains(m),
            decreases n - i,
        {
            let ghost start = text::string_texts(out@);
            let names = &self.torrents[i].1;
            let len = names.len();
            let mut j: usize = 0;
            while j < len
                invariant
                    j <= len == names@.len(),
                    text::string_texts(out@).no_duplicates(),
                    forall|m: Seq<char>| #[trigger]
                        text::string_texts(out@).contains(m) <==> start.contains(m) || exists|k: int|
                            0 <= k < j && (#[trigger] names@[k])@ == m,
                decreases len - j,
            {
                let ghost before = text::string_texts(out@);
                let ghost c = names@[j as int]@;
                if !has_name(&out, names[j].as_str()) {
                    out.push(names[j].clone());
                }
                proof {
                    let after = text::string_texts(out@);
                    if !before.contains(c) {
                        assert(after =~= before.push(c));
                    }
                    assert forall|m: Seq<char>| #[trigger] after.contains(m) <==> start.contains(m)
                        || exists|k: int| 0 <= k < j + 1 && (#[trigger] names@[k])@ == m by {
                        assert(after.contains(m) <==> before.contains(m) || m == c) by {
                            if !before.contains(c) {
                                assert(after[before.len() as int] == c);
                                if before.contains(m) {
                                    let k = choose|k: int| 0 <= k < before.len() && before[k] == m;
                                    assert(after[k] == m);
                                }
                            }
                        }
                    }
                }
                j += 1;
            }
            proof {
                assert(names == s[i as int].1);
                assert forall|m: Seq<char>| #[trigger]
                    text::string_texts(out@).contains(m) <==> exists|k: int|
                        0 <= k < i + 1 && set_of((#[trigger] s[k]).1).contains(m) by {
                    let ns = text::string_texts(names@);
                    assert(ns.to_set().contains(m) == ns.contains(m));
                    if ns.contains(m) {
                        let k = choose|k: int| 0 <= k < ns.len() && ns[k] == m;
                        assert(names@[k]@ == m);
                        assert(set_of(s[i as int].1).contains(m));
                    }
                    if exists|k: int| 0 <= k < names@.len() && (#[trigger] names@[k])@ == m {
                        let k = choose|k: int| 0 <= k < names@.len() && (#[trigger] names@[k])@ == m;
                        assert(ns[k] == m);
                        assert(ns.contains(m));
                    }
                }
            }
            i += 1;
        }
        proof {
            let r = text::string_texts(out@);
            assert forall|m: Seq<char>| r.to_set().contains(m) == #[trigger] all_active(
                self@,
            ).contains(m) by {
                assert(r.to_set().contains(m) == r.contains(m));
                if r.contains(m) {
                    let k = choose|k: int| 0 <= k < n && set_of((#[trigger] s[k]).1).contains(m);
                    lemma_held(s, s[k].0);
                    assert(held(s)[s[k].0].contains(m));
                }
                if all_active(self@).contains(m) {
                    let id = choose|id: usize|
                        held(s).contains_key(id) && (#[trigger] held(s)[id]).contains(m);
                    lemma_held(s, id);
                    let k = choose|k: int| 0 <= k < s.len() && (#[trigger] s[k]).0 == id;
                    assert(set_of(s[k].1).contains(m));
                }
            }
            assert(r.to_set() =~= all_active(self@));
        }
        out
    }
}

} // verus!
