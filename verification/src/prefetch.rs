//! The poster cache, so a panel never has to do HTTP itself.
//!
//! A rail of twenty posters is twenty TLS handshakes against TMDB's CDN, which
//! is the one thing a shell-based UI cannot do quickly. dekho downloads them
//! concurrently, keeps them under `$XDG_CACHE_HOME`, and answers with local
//! paths. It is called on every panel open, so anything already on disk is
//! reported rather than fetched again.

use crate::json;
use crate::json::{Fields, Json, Tree};
use crate::text;
use crate::xdg;
use crate::xdg::Environment;
use vstd::prelude::*;

verus! {

pub const BASE: &'static str = "https://image.tmdb.org/t/p";

/// Downloads in flight. A rail is ~20 posters; eight at a time fills a home
/// connection without opening a socket per poster.
pub const MAX_IN_FLIGHT: usize = 8;

/// Why an image cannot be asked for.
#[derive(Clone, Copy, Debug, PartialEq, Eq, Structural)]
pub enum ImageError {
    /// Not one of TMDB's sizes.
    UnknownSize,
    EmptyPath,
    /// The path has more than one segment.
    ManySegments,
    /// The path traverses directories.
    Traverses,
}

/// TMDB's image sizes. Anything else is a 404 from their CDN, and it also
/// becomes a directory name here, so it is checked rather than passed through.
pub open spec fn is_size(s: Seq<char>) -> bool {
    ||| s == "w45"@
    ||| s == "w92"@
    ||| s == "w154"@
    ||| s == "w185"@
    ||| s == "w342"@
    ||| s == "w500"@
    ||| s == "w780"@
    ||| s == "h632"@
    ||| s == "original"@
}

/// The sizes, for a message that lists them.
pub const SIZES: &'static str = "w45, w92, w154, w185, w342, w500, w780, h632, original";

pub fn check_size(size: &str) -> (r: Result<(), ImageError>)
    ensures
        r == (if is_size(size@) {
            Ok::<(), ImageError>(())
        } else {
            Err(ImageError::UnknownSize)
        }),
{
    if text::same_str(size, "w45") || text::same_str(size, "w92") || text::same_str(size, "w154")
        || text::same_str(size, "w185") || text::same_str(size, "w342") || text::same_str(
        size,
        "w500",
    ) || text::same_str(size, "w780") || text::same_str(size, "h632") || text::same_str(
        size,
        "original",
    ) {
        Ok(())
    } else {
        Err(ImageError::UnknownSize)
    }
}

/// Where images of one size are kept.
pub open spec fn size_dir(env: Environment, size: Seq<char>) -> Seq<char> {
    xdg::path_join(
        xdg::own_file(
            xdg::base_dir(env.xdg_cache_home, env.home, ".cache"@, env.temp_dir@),
            "img"@,
        ),
        size,
    )
}

/// Where images of one size are kept.
pub fn dir_for(env: &Environment, size: &str) -> (r: String)
    ensures
        r@ == size_dir(*env, size@),
{
    let base = xdg::cache_home(env);
    let img = xdg::dekho_file(base.as_str(), "img");
    xdg::join(img.as_str(), size)
}

/// The path without one leading slash.
pub open spec fn without_slash(path: Seq<char>) -> Seq<char> {
    if path.len() > 0 && path[0] == '/' {
        path.drop_first()
    } else {
        path
    }
}

/// The filename that an image path maps to, or why there is none.
pub open spec fn file_of(path: Seq<char>) -> Result<Seq<char>, ImageError> {
    let name = without_slash(path);
    if name.len() == 0 {
        Err(ImageError::EmptyPath)
    } else if name.contains('/') {
        Err(ImageError::ManySegments)
    } else if text::holds(name, ".."@) {
        Err(ImageError::Traverses)
    } else {
        Ok(name)
    }
}

fn has_slash(s: &[char]) -> (r: bool)
    ensures
        r == s@.contains('/'),
{
    let mut i: usize = 0;
    while i < s.len()
        invariant
            i <= s.len(),
            forall|k: int| 0 <= k < i ==> s@[k] != '/',
        decreases s.len() - i,
    {
        if s[i] == '/' {
            return true;
        }
        i += 1;
    }
    false
}

/// The filename a TMDB image path maps to.
///
/// The result goes straight into a filesystem path, so anything that is not a
/// single `/name.ext` is refused rather than sanitised: TMDB never emits one,
/// which makes a path with a second segment or a `..` in it either a caller bug
/// or an attempt to write outside the cache.
pub fn basename(path: &str) -> (r: Result<String, ImageError>)
    ensures
        match r {
            Ok(s) => file_of(path@) == Ok::<Seq<char>, ImageError>(s@),
            Err(e) => file_of(path@) == Err::<Seq<char>, ImageError>(e),
        },
{
    let s = text::chars_of(path);
    let from: usize = if s.len() > 0 && s[0] == '/' {
        1
    } else {
        0
    };
    let name = text::slice_of(s.as_slice(), from, s.len());
    assert(name@ =~= without_slash(path@));
    if name.len() == 0 {
        return Err(ImageError::EmptyPath);
    }
    if has_slash(name.as_slice()) {
        return Err(ImageError::ManySegments);
    }
    if text::contains_str(name.as_slice(), "..") {
        return Err(ImageError::Traverses);
    }
    Ok(text::string_of(name.as_slice()))
}

/// An accepted name stays in its directory: it is one component, not empty, and
/// does not lead upwards.
pub proof fn names_stay_in_the_cache(path: Seq<char>)
    requires
        file_of(path) is Ok,
    ensures
        file_of(path)->Ok_0.len() > 0,
        !file_of(path)->Ok_0.contains('/'),
        !text::holds(file_of(path)->Ok_0, ".."@),
{
}

/// The list has an image of the name.
pub open spec fn has_name(l: Seq<(Seq<char>, Seq<char>)>, name: Seq<char>) -> bool {
    exists|i: int| 0 <= i < l.len() && (#[trigger] l[i]).1 == name
}

/// The images of a request, each with its file's name, the first of one name
/// only; or why the first bad path is refused.
pub open spec fn requested(paths: Seq<Seq<char>>) -> Result<
    Seq<(Seq<char>, Seq<char>)>,
    ImageError,
>
    decreases paths.len(),
{
    if paths.len() == 0 {
        Ok(Seq::empty())
    } else {
        match requested(paths.drop_last()) {
            Ok(l) => match file_of(paths.last()) {
                Ok(name) => if has_name(l, name) {
                    Ok(l)
                } else {
                    Ok(l.push((paths.last(), name)))
                },
                Err(e) => Err(e),
            },
            Err(e) => Err(e),
        }
    }
}

/// One image of a request: its path at TMDB, and the name of its file.
pub struct Image {
    pub path: String,
    pub name: String,
}

pub open spec fn images(v: Seq<Image>) -> Seq<(Seq<char>, Seq<char>)> {
    v.map_values(|i: Image| (i.path@, i.name@))
}

fn named(l: &Vec<Image>, name: &str) -> (r: bool)
    ensures
        r == has_name(images(l@), name@),
{
    let ghost all = images(l@);
    let mut i: usize = 0;
    while i < l.len()
        invariant
            i <= l.len(),
            all == images(l@),
            forall|k: int| 0 <= k < i ==> (#[trigger] all[k]).1 != name@,
        decreases l.len() - i,
    {
        assert(all[i as int] == (l@[i as int].path@, l@[i as int].name@));
        if text::same_str(l[i].name.as_str(), name) {
            return true;
        }
        i += 1;
    }
    false
}

/// A bad path anywhere refuses the whole request.
proof fn lemma_refusal_stays(paths: Seq<Seq<char>>, i: int)
    requires
        0 <= i <= paths.len(),
        requested(paths.take(i)) is Err,
    ensures
        requested(paths) == requested(paths.take(i)),
    decreases paths.len() - i,
{
    if i < paths.len() {
        assert(paths.take(i + 1).drop_last() =~= paths.take(i));
        lemma_refusal_stays(paths, i + 1);
    } else {
        assert(paths.take(i) =~= paths);
    }
}

/// What a request wants. The whole of it is validated first, so that a bad path
/// writes nothing at all.
pub fn wanted(size: &str, paths: &[String]) -> (r: Result<Vec<Image>, ImageError>)
    ensures
        match r {
            Ok(l) => is_size(size@) && requested(text::string_texts(paths@)) == Ok::<
                Seq<(Seq<char>, Seq<char>)>,
                ImageError,
            >(images(l@)),
            Err(e) => if is_size(size@) {
                requested(text::string_texts(paths@)) == Err::<
                    Seq<(Seq<char>, Seq<char>)>,
                    ImageError,
                >(e)
            } else {
                e == ImageError::UnknownSize
            },
        },
{
    match check_size(size) {
        Ok(()) => {},
        Err(e) => {
            return Err(e);
        },
    }
    let ghost all = text::string_texts(paths@);
    let mut out: Vec<Image> = Vec::new();
    let mut i: usize = 0;
    assert(all.take(0) =~= Seq::empty());
    assert(images(out@) =~= Seq::empty());
    while i < paths.len()
        invariant
            i <= paths.len(),
            is_size(size@),
            all == text::string_texts(paths@),
            requested(all.take(i as int)) == Ok::<Seq<(Seq<char>, Seq<char>)>, ImageError>(
                images(out@),
            ),
        decreases paths.len() - i,
    {
        assert(all[i as int] == paths@[i as int]@);
        assert(all.take(i + 1).drop_last() =~= all.take(i as int));
        match basename(paths[i].as_str()) {
            Ok(name) => {
                if !named(&out, name.as_str()) {
                    let ghost before = images(out@);
                    out.push(Image { path: paths[i].clone(), name });
                    assert(images(out@) =~= before.push((all[i as int], name@)));
                }
            },
            Err(e) => {
                proof {
                    lemma_refusal_stays(all, i + 1);
                }
                return Err(e);
            },
        }
        i += 1;
    }
    assert(all.take(all.len() as int) =~= all);
    Ok(out)
}

// --- what is there and what is not ------------------------------------------------

/// The path of an image and the file it is kept in.
pub open spec fn kept_at(dir: Seq<char>, image: (Seq<char>, Seq<char>)) -> (Seq<char>, Seq<char>) {
    (image.0, xdg::path_join(dir, image.1))
}

/// The images on disk already, in order, each with its file.
pub open spec fn present(
    dir: Seq<char>,
    wanted: Seq<(Seq<char>, Seq<char>)>,
    on_disk: Seq<bool>,
) -> Seq<(Seq<char>, Seq<char>)>
    decreases wanted.len(),
{
    if wanted.len() == 0 {
        Seq::empty()
    } else {
        let before = present(dir, wanted.drop_last(), on_disk);
        if on_disk[wanted.len() - 1] {
            before.push(kept_at(dir, wanted.last()))
        } else {
            before
        }
    }
}

/// The images to download, in order, each with the file it is to be kept in.
pub open spec fn absent(
    dir: Seq<char>,
    wanted: Seq<(Seq<char>, Seq<char>)>,
    on_disk: Seq<bool>,
) -> Seq<(Seq<char>, Seq<char>)>
    decreases wanted.len(),
{
    if wanted.len() == 0 {
        Seq::empty()
    } else {
        let before = absent(dir, wanted.drop_last(), on_disk);
        if on_disk[wanted.len() - 1] {
            before
        } else {
            before.push(kept_at(dir, wanted.last()))
        }
    }
}

/// Those of a list that are marked, in order.
pub open spec fn only<T>(list: Seq<T>, marks: Seq<bool>) -> Seq<T>
    decreases list.len(),
{
    if list.len() == 0 {
        list
    } else {
        let before = only(list.drop_last(), marks);
        if marks[list.len() - 1] {
            before.push(list.last())
        } else {
            before
        }
    }
}

/// A list of paths and files as the texts they hold.
pub open spec fn located(v: Seq<(String, String)>) -> Seq<(Seq<char>, Seq<char>)> {
    v.map_values(|f: (String, String)| (f.0@, f.1@))
}

/// A list of images and files as the paths and files.
pub open spec fn destined(v: Seq<(Image, String)>) -> Seq<(Seq<char>, Seq<char>)> {
    v.map_values(|f: (Image, String)| (f.0.path@, f.1@))
}

/// Part the images of a request into those on disk already, each with its file,
/// and those to download, each with the file it is to be kept in. `on_disk` says
/// of each image whether its file is there.
pub fn sort_out(dir: &str, wanted: Vec<Image>, on_disk: &[bool]) -> (r: (
    Vec<(String, String)>,
    Vec<(Image, String)>,
))
    requires
        wanted@.len() == on_disk@.len(),
    ensures
        located(r.0@) == present(dir@, images(wanted@), on_disk@),
        destined(r.1@) == absent(dir@, images(wanted@), on_disk@),
        forall|i: int|
            0 <= i < r.1@.len() ==> (#[trigger] r.1@[i]).1@ == xdg::path_join(
                dir@,
                r.1@[i].0.name@,
            ),
{
    let ghost all = images(wanted@);
    let n = wanted.len();
    let mut there: Vec<(String, String)> = Vec::new();
    let mut missing: Vec<(Image, String)> = Vec::new();
    let mut i: usize = 0;
    assert(located(there@) =~= Seq::empty());
    assert(destined(missing@) =~= Seq::empty());
    while i < n
        invariant
            i <= n == wanted@.len(),
            n == on_disk@.len(),
            all == images(wanted@),
            located(there@) == present(dir@, all.take(i as int), on_disk@),
            destined(missing@) == absent(dir@, all.take(i as int), on_disk@),
            forall|k: int|
                0 <= k < missing@.len() ==> (#[trigger] missing@[k]).1@ == xdg::path_join(
                    dir@,
                    missing@[k].0.name@,
                ),
        decreases n - i,
    {
        let ghost there_before = located(there@);
        let ghost missing_before = destined(missing@);
        assert(all.take(i + 1).drop_last() =~= all.take(i as int));
        assert(all.take(i + 1).last() == (wanted@[i as int].path@, wanted@[i as int].name@));
        let path = wanted[i].path.clone();
        let name = wanted[i].name.clone();
        let file = xdg::join(dir, name.as_str());
        let ghost here = (path@, file@);
        if on_disk[i] {
            there.push((path, file));
            assert(located(there@) =~= there_before.push(here));
        } else {
            missing.push((Image { path, name }, file));
            assert(destined(missing@) =~= missing_before.push(here));
        }
        i += 1;
    }
    assert(all.take(n as int) =~= all);
    (there, missing)
}

/// What is reported once the downloads are over: the images that were on disk,
/// and of the missing ones those that were fetched.
pub fn reported(
    present: Vec<(String, String)>,
    missing: &[(Image, String)],
    fetched: &[bool],
) -> (r: Vec<(String, String)>)
    requires
        missing@.len() == fetched@.len(),
    ensures
        located(r@) == located(present@) + only(destined(missing@), fetched@),
{
    let ghost before = located(present@);
    let ghost all = destined(missing@);
    let n = missing.len();
    let mut out = present;
    let mut i: usize = 0;
    assert(located(out@) =~= before + only(all.take(0), fetched@));
    while i < n
        invariant
            i <= n == missing@.len(),
            n == fetched@.len(),
            all == destined(missing@),
            located(out@) == before + only(all.take(i as int), fetched@),
        decreases n - i,
    {
        let ghost so_far = located(out@);
        assert(all.take(i + 1).drop_last() =~= all.take(i as int));
        assert(all.take(i + 1).last() == (missing@[i as int].0.path@, missing@[i as int].1@));
        if fetched[i] {
            out.push((missing[i].0.path.clone(), missing[i].1.clone()));
            assert(located(out@) =~= so_far.push(all[i as int]));
            assert(located(out@) =~= before + only(all.take(i + 1), fetched@));
        }
        i += 1;
    }
    assert(all.take(n as int) =~= all);
    out
}

proof fn lemma_only<T>(list: Seq<T>, marks: Seq<bool>)
    ensures
        forall|x: T|
            only(list, marks).contains(x) <==> exists|i: int|
                0 <= i < list.len() && marks[i] && #[trigger] list[i] == x,
    decreases list.len(),
{
    if list.len() > 0 {
        let t = list.drop_last();
        let r = only(t, marks);
        lemma_only(t, marks);
        assert forall|x: T|
            only(list, marks).contains(x) <==> exists|i: int|
                0 <= i < list.len() && marks[i] && #[trigger] list[i] == x by {
            if only(list, marks).contains(x) {
                let k = choose|k: int| 0 <= k < only(list, marks).len() && only(list, marks)[k] == x;
                if k < r.len() {
                    assert(r[k] == x);
                    assert(r.contains(x));
                    let i = choose|i: int| 0 <= i < t.len() && marks[i] && #[trigger] t[i] == x;
                    assert(list[i] == x);
                } else {
                    assert(list[list.len() - 1] == x);
                }
            }
            if exists|i: int| 0 <= i < list.len() && marks[i] && #[trigger] list[i] == x {
                let i = choose|i: int| 0 <= i < list.len() && marks[i] && #[trigger] list[i] == x;
                if i < t.len() {
                    assert(t[i] == x);
                    assert(r.contains(x));
                    let k = choose|k: int| 0 <= k < r.len() && r[k] == x;
                    assert(only(list, marks)[k] == x);
                } else {
                    assert(only(list, marks)[r.len() as int] == x);
                }
            }
        }
    }
}

/// What is parted are the images at their files, by whether they are on disk.
proof fn lemma_parted(dir: Seq<char>, wanted: Seq<(Seq<char>, Seq<char>)>, on_disk: Seq<bool>)
    requires
        wanted.len() <= on_disk.len(),
    ensures
        ({
            let all = wanted.map_values(|i: (Seq<char>, Seq<char>)| kept_at(dir, i));
            &&& present(dir, wanted, on_disk) == only(all, on_disk)
            &&& absent(dir, wanted, on_disk) == only(all, on_disk.map_values(|b: bool| !b))
            &&& present(dir, wanted, on_disk).len() + absent(dir, wanted, on_disk).len()
                == wanted.len()
        }),
    decreases wanted.len(),
{
    let f = |i: (Seq<char>, Seq<char>)| kept_at(dir, i);
    let all = wanted.map_values(f);
    if wanted.len() > 0 {
        lemma_parted(dir, wanted.drop_last(), on_disk);
        assert(wanted.drop_last().map_values(f) =~= all.drop_last());
    }
}

/// An answer names exactly the images that were on disk or have been downloaded,
/// each at its name in the directory; only those that were not on disk are
/// downloaded, and one that could not be is absent.
///
/// `fetched` says of each of the missing whether it was downloaded.
pub proof fn answers_name_what_is_there(
    dir: Seq<char>,
    wanted: Seq<(Seq<char>, Seq<char>)>,
    on_disk: Seq<bool>,
    fetched: Seq<bool>,
    x: (Seq<char>, Seq<char>),
)
    requires
        wanted.len() == on_disk.len(),
        absent(dir, wanted, on_disk).len() == fetched.len(),
    ensures
        ({
            let there = present(dir, wanted, on_disk);
            let missing = absent(dir, wanted, on_disk);
            let named = there + only(missing, fetched);
            &&& there.contains(x) <==> exists|i: int|
                0 <= i < wanted.len() && on_disk[i] && kept_at(dir, #[trigger] wanted[i]) == x
            &&& missing.contains(x) <==> exists|i: int|
                0 <= i < wanted.len() && !on_disk[i] && kept_at(dir, #[trigger] wanted[i]) == x
            &&& named.contains(x) <==> there.contains(x) || exists|j: int|
                0 <= j < missing.len() && fetched[j] && #[trigger] missing[j] == x
        }),
{
    let f = |i: (Seq<char>, Seq<char>)| kept_at(dir, i);
    let all = wanted.map_values(f);
    let gone = on_disk.map_values(|b: bool| !b);
    let there = present(dir, wanted, on_disk);
    let missing = absent(dir, wanted, on_disk);
    let more = only(missing, fetched);
    lemma_parted(dir, wanted, on_disk);
    lemma_only(all, on_disk);
    lemma_only(all, gone);
    lemma_only(missing, fetched);
    if there.contains(x) {
        let i = choose|i: int| 0 <= i < all.len() && on_disk[i] && #[trigger] all[i] == x;
        assert(kept_at(dir, wanted[i]) == x);
    }
    if exists|i: int|
        0 <= i < wanted.len() && on_disk[i] && kept_at(dir, #[trigger] wanted[i]) == x {
        let i = choose|i: int|
            0 <= i < wanted.len() && on_disk[i] && kept_at(dir, #[trigger] wanted[i]) == x;
        assert(all[i] == x);
    }
    if missing.contains(x) {
        let i = choose|i: int| 0 <= i < all.len() && gone[i] && #[trigger] all[i] == x;
        assert(kept_at(dir, wanted[i]) == x);
    }
    if exists|i: int|
        0 <= i < wanted.len() && !on_disk[i] && kept_at(dir, #[trigger] wanted[i]) == x {
        let i = choose|i: int|
            0 <= i < wanted.len() && !on_disk[i] && kept_at(dir, #[trigger] wanted[i]) == x;
        assert(all[i] == x && gone[i]);
    }
    let named = there + more;
    if named.contains(x) {
        let k = choose|k: int| 0 <= k < named.len() && named[k] == x;
        if k < there.len() {
            assert(there[k] == x);
        } else {
            assert(more[k - there.len()] == x);
            assert(more.contains(x));
        }
    }
    if there.contains(x) {
        let k = choose|k: int| 0 <= k < there.len() && there[k] == x;
        assert(named[k] == x);
    }
    if more.contains(x) {
        let k = choose|k: int| 0 <= k < more.len() && more[k] == x;
        assert(named[there.len() + k] == x);
    }
}

/// Where TMDB serves an image of a size.
pub fn url(size: &str, path: &str) -> (r: String)
    ensures
        r@ == BASE@ + "/"@ + size@ + (if path@.len() > 0 && path@[0] == '/' {
            Seq::empty()
        } else {
            "/"@
        }) + path@,
{
    let p = text::chars_of(path);
    let mut out = text::chars_of(BASE);
    text::push_str(&mut out, "/");
    text::push_str(&mut out, size);
    if !(p.len() > 0 && p[0] == '/') {
        text::push_str(&mut out, "/");
    }
    let ghost head = out@;
    text::push_all(&mut out, p.as_slice());
    assert(out@ =~= BASE@ + "/"@ + size@ + (if path@.len() > 0 && path@[0] == '/' {
        Seq::empty()
    } else {
        "/"@
    }) + path@);
    text::string_of(out.as_slice())
}

/// The paths of images with the files that they are in, as fields.
pub open spec fn file_fields(files: Seq<(String, String)>) -> Seq<(Seq<char>, Tree)> {
    files.map_values(|f: (String, String)| (f.0@, Tree::Text(f.1@)))
}

/// The answer: a local path per image that is there. A dead image is simply
/// absent; this call is made on every panel open, and one 404 must not fail it.
pub fn answer(dir: &str, files: &Vec<(String, String)>) -> (r: Json)
    ensures
        r@ == json::object(
            seq![
                ("dir"@, Tree::Text(dir@)),
                ("files"@, json::object(file_fields(files@))),
            ],
        ),
{
    let mut inner = Fields::new();
    let mut i: usize = 0;
    assert(inner@ =~= file_fields(files@.take(0)));
    while i < files.len()
        invariant
            i <= files.len(),
            inner@ == file_fields(files@.take(i as int)),
        decreases files.len() - i,
    {
        let ghost before = inner@;
        inner.put(files[i].0.as_str(), json::string(files[i].1.as_str()));
        assert(file_fields(files@.take(i + 1)) =~= before.push(
            (files@[i as int].0@, Tree::Text(files@[i as int].1@)),
        ));
        i += 1;
    }
    assert(files@.take(files@.len() as int) =~= files@);
    let mut f = Fields::new();
    f.put("dir", json::string(dir));
    f.put("files", inner.finish());
    assert(f@ =~= seq![
        ("dir"@, Tree::Text(dir@)),
        ("files"@, json::object(file_fields(files@))),
    ]);
    f.finish()
}

/// A leading slash makes no difference to a name. What is left is taken where it
/// is not empty, is one component and does not lead upwards, and refused
/// otherwise.
pub proof fn names_are_single_components(name: Seq<char>)
    requires
        name.len() > 0 ==> name[0] != '/',
    ensures
        file_of(seq!['/'] + name) == file_of(name),
        file_of(name) is Ok <==> name.len() > 0 && !name.contains('/') && !text::holds(
            name,
            ".."@,
        ),
        file_of(name) is Ok ==> file_of(name)->Ok_0 == name,
        name.len() == 0 ==> file_of(name) == Err::<Seq<char>, ImageError>(ImageError::EmptyPath),
        name.contains('/') ==> file_of(name) == Err::<Seq<char>, ImageError>(
            ImageError::ManySegments,
        ),
{
    assert((seq!['/'] + name).drop_first() =~= name);
}

/// A request goes through only where every path of it does; each image is then
/// asked for once, under its own name, and where a path is bad the first bad one
/// says why.
pub proof fn images_are_asked_for_once(paths: Seq<Seq<char>>)
    ensures
        requested(paths) is Ok <==> forall|i: int|
            0 <= i < paths.len() ==> file_of(#[trigger] paths[i]) is Ok,
        requested(paths) is Ok ==> {
            let l = requested(paths)->Ok_0;
            &&& forall|i: int|
                0 <= i < paths.len() ==> has_name(l, file_of(#[trigger] paths[i])->Ok_0)
            &&& forall|k: int|
                0 <= k < l.len() ==> paths.contains((#[trigger] l[k]).0) && file_of(l[k].0)
                    == Ok::<Seq<char>, ImageError>(l[k].1)
            &&& forall|j: int, k: int|
                0 <= j < k < l.len() ==> (#[trigger] l[j]).1 != (#[trigger] l[k]).1
        },
        requested(paths) is Err ==> exists|i: int|
            0 <= i < paths.len() && file_of(#[trigger] paths[i]) == Err::<Seq<char>, ImageError>(
                requested(paths)->Err_0,
            ) && forall|k: int| 0 <= k < i ==> file_of(#[trigger] paths[k]) is Ok,
    decreases paths.len(),
{
    if paths.len() > 0 {
        let t = paths.drop_last();
        let last = paths.last();
        images_are_asked_for_once(t);
        assert forall|i: int| 0 <= i < t.len() implies #[trigger] paths[i] == t[i] by {}
        match requested(t) {
            Ok(l) => {
                assert forall|i: int| 0 <= i < t.len() implies file_of(#[trigger] paths[i]) is Ok by {
                    assert(file_of(t[i]) is Ok);
                }
                match file_of(last) {
                    Ok(name) => {
                        let m = requested(paths)->Ok_0;
                        assert forall|i: int| 0 <= i < paths.len() implies has_name(
                            m,
                            file_of(#[trigger] paths[i])->Ok_0,
                        ) by {
                            if i < t.len() {
                                let n = file_of(t[i])->Ok_0;
                                assert(has_name(l, n));
                                let k = choose|k: int| 0 <= k < l.len() && (#[trigger] l[k]).1 == n;
                                assert(m[k] == l[k]);
                            } else if !has_name(l, name) {
                                assert(m[m.len() - 1].1 == name);
                            }
                        }
                        assert forall|k: int| 0 <= k < m.len() implies paths.contains(
                            (#[trigger] m[k]).0,
                        ) && file_of(m[k].0) == Ok::<Seq<char>, ImageError>(m[k].1) by {
                            if k < l.len() {
                                assert(m[k] == l[k]);
                                assert(t.contains(l[k].0));
                                let i = choose|i: int| 0 <= i < t.len() && t[i] == l[k].0;
                                assert(paths[i] == l[k].0);
                            } else {
                                assert(paths[paths.len() - 1] == last);
                            }
                        }
                        assert forall|j: int, k: int| 0 <= j < k < m.len() implies (
                        #[trigger] m[j]).1 != (#[trigger] m[k]).1 by {
                            assert(m[j] == l[j]);
                            if k < l.len() {
                                assert(m[k] == l[k]);
                            }
                        }
                    },
                    Err(e) => {
                        assert(file_of(paths[paths.len() - 1]) == Err::<Seq<char>, ImageError>(e));
                    },
                }
            },
            Err(e) => {
                let i = choose|i: int|
                    0 <= i < t.len() && file_of(#[trigger] t[i]) == Err::<Seq<char>, ImageError>(e)
                        && forall|k: int| 0 <= k < i ==> file_of(#[trigger] t[k]) is Ok;
                assert(paths[i] == t[i]);
                assert forall|k: int| 0 <= k < i implies file_of(#[trigger] paths[k]) is Ok by {
                    assert(file_of(t[k]) is Ok);
                }
            },
        }
    }
}

} // verus!
