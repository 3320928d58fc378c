//! Catalog browsing: sorts, filters, and the TMDB `discover` query they build.
//!
//! The query has parts that look arbitrary and are not:
//!
//! - **Vote-count floors.** "Top rated" without one surfaces films with a 10.0
//!   from four voters, so it requires 300 votes; any rating filter requires 100.
//! - **A relaxed floor when a language is set.** Niche original languages have
//!   far fewer rated titles, and the usual floor empties the list, so it drops
//!   to 50.
//! - **An upper date bound** on popularity and newest, so unreleased titles do
//!   not fill the first page.

use crate::calendar;
use crate::list;
use crate::text;
use vstd::prelude::*;

verus! {

/// Bounds on `--year`. The lower one predates cinema; the upper one leaves
/// room for a film TMDB has dated years ahead without accepting a typo.
pub const EARLIEST_YEAR: u32 = 1870;

pub const LATEST_YEAR: u32 = 2100;

/// What to sort a catalog listing by.
#[derive(Clone, Copy, PartialEq, Eq, Debug, Structural)]
pub enum Sort {
    Popular,
    TopRated,
    Newest,
    Oldest,
    /// Movies only: TV has no revenue figures, so it falls back to popularity.
    BoxOffice,
}

pub open spec fn sort_label(s: Sort) -> Seq<char> {
    match s {
        Sort::Popular => "Popular"@,
        Sort::TopRated => "Top Rated"@,
        Sort::Newest => "Newest"@,
        Sort::Oldest => "Oldest"@,
        Sort::BoxOffice => "Box Office"@,
    }
}

/// A name with every hyphen and space made an underscore.
pub open spec fn underscored(s: Seq<char>) -> Seq<char> {
    s.map_values(
        |c: char|
            if c == '-' || c == ' ' {
                '_'
            } else {
                c
            },
    )
}

/// The sort of a name in lower case with underscores.
pub open spec fn sort_named(t: Seq<char>) -> Option<Sort> {
    if t == "popular"@ || t == "popularity"@ {
        Some(Sort::Popular)
    } else if t == "top_rated"@ || t == "top"@ || t == "rating"@ {
        Some(Sort::TopRated)
    } else if t == "newest"@ || t == "new"@ || t == "latest"@ {
        Some(Sort::Newest)
    } else if t == "oldest"@ || t == "old"@ {
        Some(Sort::Oldest)
    } else if t == "box_office"@ || t == "box"@ || t == "revenue"@ {
        Some(Sort::BoxOffice)
    } else {
        None
    }
}

/// The sort that a text on the command line means.
pub open spec fn sort_meant(s: Seq<char>) -> Option<Sort> {
    sort_named(underscored(text::lower(text::trim(s))))
}

/// The sorts offered for a kind of title.
pub open spec fn sorts_for(kind: Kind) -> Seq<Sort> {
    let v = seq![Sort::Popular, Sort::TopRated, Sort::Newest, Sort::Oldest];
    if kind == Kind::Movie {
        v.push(Sort::BoxOffice)
    } else {
        v
    }
}

impl Sort {
    pub fn label(self) -> (r: &'static str)
        ensures
            r@ == sort_label(self),
    {
        match self {
            Sort::Popular => "Popular",
            Sort::TopRated => "Top Rated",
            Sort::Newest => "Newest",
            Sort::Oldest => "Oldest",
            Sort::BoxOffice => "Box Office",
        }
    }

    pub fn parse(s: &str) -> (r: Option<Sort>)
        ensures
            r == sort_meant(s@),
    {
        let all = text::chars_of(s);
        let inner = text::trimmed(all.as_slice());
        let low = text::lowered(inner.as_slice());
        let mut out: Vec<char> = Vec::new();
        let mut i: usize = 0;
        while i < low.len()
            invariant
                i <= low.len(),
                out@.len() == i,
                forall|k: int| 0 <= k < i ==> out@[k] == underscored(low@)[k],
            decreases low.len() - i,
        {
            let c = low[i];
            if c == '-' || c == ' ' {
                out.push('_');
            } else {
                out.push(c);
            }
            i += 1;
        }
        assert(out@ =~= underscored(low@));
        let t = out.as_slice();
        if text::is_str(t, "popular") || text::is_str(t, "popularity") {
            Some(Sort::Popular)
        } else if text::is_str(t, "top_rated") || text::is_str(t, "top") || text::is_str(
            t,
            "rating",
        ) {
            Some(Sort::TopRated)
        } else if text::is_str(t, "newest") || text::is_str(t, "new") || text::is_str(t, "latest") {
            Some(Sort::Newest)
        } else if text::is_str(t, "oldest") || text::is_str(t, "old") {
            Some(Sort::Oldest)
        } else if text::is_str(t, "box_office") || text::is_str(t, "box") || text::is_str(
            t,
            "revenue",
        ) {
            Some(Sort::BoxOffice)
        } else {
            None
        }
    }

    /// Sorts offered for a media kind. Box office is movie-only.
    pub fn all(kind: Kind) -> (r: Vec<Sort>)
        ensures
            r@ == sorts_for(kind),
    {
        let mut v: Vec<Sort> = Vec::new();
        v.push(Sort::Popular);
        v.push(Sort::TopRated);
        v.push(Sort::Newest);
        v.push(Sort::Oldest);
        if kind == Kind::Movie {
            v.push(Sort::BoxOffice);
        }
        assert(v@ =~= sorts_for(kind));
        v
    }
}

#[derive(Clone, Copy, PartialEq, Eq, Debug, Structural)]
pub enum Kind {
    Movie,
    Tv,
}

pub open spec fn kind_label(k: Kind) -> Seq<char> {
    match k {
        Kind::Movie => "Movies"@,
        Kind::Tv => "TV Series"@,
    }
}

impl Kind {
    pub fn label(self) -> (r: &'static str)
        ensures
            r@ == kind_label(self),
    {
        match self {
            Kind::Movie => "Movies",
            Kind::Tv => "TV Series",
        }
    }
}

/// The kind of a name in lower case.
pub open spec fn kind_named(t: Seq<char>) -> Option<Kind> {
    if t == "movie"@ || t == "movies"@ || t == "film"@ || t == "films"@ {
        Some(Kind::Movie)
    } else if t == "tv"@ || t == "series"@ || t == "shows"@ || t == "show"@ {
        Some(Kind::Tv)
    } else {
        None
    }
}

/// Resolve `movies` / `tv` and the spellings people actually type.
pub fn parse_kind(value: &str) -> (r: Option<Kind>)
    ensures
        r == kind_named(text::lower(text::trim(value@))),
{
    let all = text::chars_of(value);
    let inner = text::trimmed(all.as_slice());
    let low = text::lowered(inner.as_slice());
    let t = low.as_slice();
    if text::is_str(t, "movie") || text::is_str(t, "movies") || text::is_str(t, "film")
        || text::is_str(t, "films") {
        Some(Kind::Movie)
    } else if text::is_str(t, "tv") || text::is_str(t, "series") || text::is_str(t, "shows")
        || text::is_str(t, "show") {
        Some(Kind::Tv)
    } else {
        None
    }
}

// --- genres and languages ---------------------------------------------------------

/// A list of genres, seen.
pub open spec fn named(v: Seq<(u32, &'static str)>) -> Seq<(u32, Seq<char>)> {
    v.map_values(|g: (u32, &'static str)| (g.0, g.1@))
}

/// TMDB's fixed movie-genre ids, to avoid an API call whose only purpose is
/// populating a menu.
pub open spec fn movie_genres() -> Seq<(u32, Seq<char>)> {
    seq![
        (28u32, "Action"@),
        (12u32, "Adventure"@),
        (16u32, "Animation"@),
        (35u32, "Comedy"@),
        (80u32, "Crime"@),
        (99u32, "Documentary"@),
        (18u32, "Drama"@),
        (10751u32, "Family"@),
        (14u32, "Fantasy"@),
        (36u32, "History"@),
        (27u32, "Horror"@),
        (10402u32, "Music"@),
        (9648u32, "Mystery"@),
        (10749u32, "Romance"@),
        (878u32, "Science Fiction"@),
        (53u32, "Thriller"@),
        (10752u32, "War"@),
        (37u32, "Western"@),
    ]
}

/// TMDB's TV-genre ids, which are a different set from the movie ones.
pub open spec fn tv_genres() -> Seq<(u32, Seq<char>)> {
    seq![
        (10759u32, "Action & Adventure"@),
        (16u32, "Animation"@),
        (35u32, "Comedy"@),
        (80u32, "Crime"@),
        (99u32, "Documentary"@),
        (18u32, "Drama"@),
        (10751u32, "Family"@),
        (10762u32, "Kids"@),
        (9648u32, "Mystery"@),
        (10763u32, "News"@),
        (10764u32, "Reality"@),
        (10765u32, "Sci-Fi & Fantasy"@),
        (10766u32, "Soap"@),
        (10767u32, "Talk"@),
        (10768u32, "War & Politics"@),
        (37u32, "Western"@),
    ]
}

pub open spec fn genre_table(kind: Kind) -> Seq<(u32, Seq<char>)> {
    match kind {
        Kind::Movie => movie_genres(),
        Kind::Tv => tv_genres(),
    }
}

pub fn genres_for(kind: Kind) -> (r: &'static [(u32, &'static str)])
    ensures
        named(r@) == genre_table(kind),
{
    match kind {
        Kind::Movie => {
            let r: &'static [(u32, &'static str)] = &[
                (28, "Action"),
                (12, "Adventure"),
                (16, "Animation"),
                (35, "Comedy"),
                (80, "Crime"),
                (99, "Documentary"),
                (18, "Drama"),
                (10751, "Family"),
                (14, "Fantasy"),
                (36, "History"),
                (27, "Horror"),
                (10402, "Music"),
                (9648, "Mystery"),
                (10749, "Romance"),
                (878, "Science Fiction"),
                (53, "Thriller"),
                (10752, "War"),
                (37, "Western"),
            ];
            assert(named(r@) =~= movie_genres());
            r
        },
        Kind::Tv => {
            let r: &'static [(u32, &'static str)] = &[
                (10759, "Action & Adventure"),
                (16, "Animation"),
                (35, "Comedy"),
                (80, "Crime"),
                (99, "Documentary"),
                (18, "Drama"),
                (10751, "Family"),
                (10762, "Kids"),
                (9648, "Mystery"),
                (10763, "News"),
                (10764, "Reality"),
                (10765, "Sci-Fi & Fantasy"),
                (10766, "Soap"),
                (10767, "Talk"),
                (10768, "War & Politics"),
                (37, "Western"),
            ];
            assert(named(r@) =~= tv_genres());
            r
        },
    }
}

/// A list of languages, seen.
pub open spec fn spelled(v: Seq<(&'static str, &'static str)>) -> Seq<(Seq<char>, Seq<char>)> {
    v.map_values(|l: (&'static str, &'static str)| (l.0@, l.1@))
}

/// Original-content languages, ordered for this audience: South Asian first,
/// then East/South-East Asian, then the rest.
pub open spec fn language_table() -> Seq<(Seq<char>, Seq<char>)> {
    seq![
        ("hi"@, "Hindi"@),
        ("bn"@, "Bangla"@),
        ("ta"@, "Tamil"@),
        ("te"@, "Telugu"@),
        ("ml"@, "Malayalam"@),
        ("kn"@, "Kannada"@),
        ("pa"@, "Punjabi"@),
        ("ur"@, "Urdu"@),
        ("ko"@, "Korean"@),
        ("ja"@, "Japanese"@),
        ("zh"@, "Chinese"@),
        ("th"@, "Thai"@),
        ("tr"@, "Turkish"@),
        ("es"@, "Spanish"@),
        ("en"@, "English"@),
    ]
}

/// Original-content languages, by code and by name.
pub fn languages() -> (r: &'static [(&'static str, &'static str)])
    ensures
        spelled(r@) == language_table(),
{
    let r: &'static [(&'static str, &'static str)] = &[
        ("hi", "Hindi"),
        ("bn", "Bangla"),
        ("ta", "Tamil"),
        ("te", "Telugu"),
        ("ml", "Malayalam"),
        ("kn", "Kannada"),
        ("pa", "Punjabi"),
        ("ur", "Urdu"),
        ("ko", "Korean"),
        ("ja", "Japanese"),
        ("zh", "Chinese"),
        ("th", "Thai"),
        ("tr", "Turkish"),
        ("es", "Spanish"),
        ("en", "English"),
    ];
    assert(spelled(r@) =~= language_table());
    r
}

/// The id is in the list.
pub open spec fn has_id(l: Seq<(u32, Seq<char>)>, id: u32) -> bool {
    exists|i: int| 0 <= i < l.len() && (#[trigger] l[i]).0 == id
}

/// The id of the first genre of a name, cases apart.
pub open spec fn id_of_name(l: Seq<(u32, Seq<char>)>, v: Seq<char>) -> Option<u32>
    decreases l.len(),
{
    if l.len() == 0 {
        None
    } else if text::lower(l[0].1) == v {
        Some(l[0].0)
    } else {
        id_of_name(l.drop_first(), v)
    }
}

/// The genres whose names start with a text, cases apart.
pub open spec fn with_prefix(l: Seq<(u32, Seq<char>)>, v: Seq<char>) -> Seq<(u32, Seq<char>)> {
    l.filter(|g: (u32, Seq<char>)| text::begins(text::lower(g.1), v))
}

/// The genre that a text means: an id of the list, a name, or the start of
/// exactly one name. An ambiguous one means none.
pub open spec fn genre_meant(l: Seq<(u32, Seq<char>)>, value: Seq<char>) -> Option<u32> {
    let v = text::lower(text::trim(value));
    if v.len() == 0 {
        None
    } else {
        match text::parse_number(v, u32::MAX as nat) {
            Some(n) => if has_id(l, n as u32) {
                Some(n as u32)
            } else {
                None
            },
            None => match id_of_name(l, v) {
                Some(id) => Some(id),
                None => if with_prefix(l, v).len() == 1 {
                    Some(with_prefix(l, v)[0].0)
                } else {
                    None
                },
            },
        }
    }
}

fn lists_id(l: &[(u32, &'static str)], id: u32) -> (r: bool)
    ensures
        r == has_id(named(l@), id),
{
    let ghost all = named(l@);
    let mut i: usize = 0;
    while i < l.len()
        invariant
            i <= l.len(),
            all == named(l@),
            forall|k: int| 0 <= k < i ==> (#[trigger] all[k]).0 != id,
        decreases l.len() - i,
    {
        assert(all[i as int] == (l@[i as int].0, l@[i as int].1@));
        if l[i].0 == id {
            return true;
        }
        i += 1;
    }
    false
}

fn find_name(l: &[(u32, &'static str)], v: &[char]) -> (r: Option<u32>)
    ensures
        r == id_of_name(named(l@), v@),
{
    let ghost all = named(l@);
    let mut i: usize = 0;
    assert(all.skip(0) =~= all);
    while i < l.len()
        invariant
            i <= l.len(),
            all == named(l@),
            id_of_name(all, v@) == id_of_name(all.skip(i as int), v@),
        decreases l.len() - i,
    {
        assert(all.skip(i as int)[0] == (l@[i as int].0, l@[i as int].1@));
        let n = text::chars_of(l[i].1);
        let n = text::lowered(n.as_slice());
        if text::same(n.as_slice(), v) {
            return Some(l[i].0);
        }
        assert(all.skip(i as int).drop_first() =~= all.skip(i + 1));
        i += 1;
    }
    None
}

fn find_prefix(l: &[(u32, &'static str)], v: &[char]) -> (r: Option<u32>)
    ensures
        r == (if with_prefix(named(l@), v@).len() == 1 {
            Some(with_prefix(named(l@), v@)[0].0)
        } else {
            None
        }),
{
    let ghost all = named(l@);
    let ghost p = |g: (u32, Seq<char>)| text::begins(text::lower(g.1), v@);
    let mut hits: Vec<u32> = Vec::new();
    let mut i: usize = 0;
    proof {
        reveal(Seq::filter);
        assert(all.take(0).filter(p) =~= Seq::empty());
    }
    while i < l.len()
        invariant
            i <= l.len(),
            all == named(l@),
            p == (|g: (u32, Seq<char>)| text::begins(text::lower(g.1), v@)),
            hits@.len() == all.take(i as int).filter(p).len(),
            forall|k: int|
                0 <= k < hits@.len() ==> #[trigger] hits@[k] == all.take(i as int).filter(p)[k].0,
        decreases l.len() - i,
    {
        proof {
            assert(all[i as int] == (l@[i as int].0, l@[i as int].1@));
            text::lemma_filter_push(all.take(i as int), p, all[i as int]);
            assert(all.take(i + 1) =~= all.take(i as int).push(all[i as int]));
        }
        let n = text::chars_of(l[i].1);
        let n = text::lowered(n.as_slice());
        if text::starts_with(n.as_slice(), v) {
            hits.push(l[i].0);
        }
        i += 1;
    }
    assert(all.take(all.len() as int) =~= all);
    // Ambiguous prefix: refuse rather than silently pick one.
    if hits.len() == 1 {
        Some(hits[0])
    } else {
        None
    }
}

/// Resolve a genre by name or id against the list for this kind.
/// Matching is case-insensitive and accepts a unique prefix, so `sci` works.
pub fn parse_genre(kind: Kind, value: &str) -> (r: Option<u32>)
    ensures
        r == genre_meant(genre_table(kind), value@),
{
    let all = text::chars_of(value);
    let inner = text::trimmed(all.as_slice());
    let v = text::lowered(inner.as_slice());
    if v.len() == 0 {
        return None;
    }
    let l = genres_for(kind);
    match text::read_number(v.as_slice(), 0xffff_ffff) {
        Some(n) => {
            let id = n as u32;
            if lists_id(l, id) {
                Some(id)
            } else {
                None
            }
        },
        None => match find_name(l, v.as_slice()) {
            Some(id) => Some(id),
            None => find_prefix(l, v.as_slice()),
        },
    }
}

/// The code of the first language of a code or a name, cases apart.
pub open spec fn code_of(l: Seq<(Seq<char>, Seq<char>)>, v: Seq<char>) -> Option<Seq<char>>
    decreases l.len(),
{
    if l.len() == 0 {
        None
    } else if l[0].0 == v || text::lower(l[0].1) == v {
        Some(l[0].0)
    } else {
        code_of(l.drop_first(), v)
    }
}

/// The language that a text means.
pub open spec fn language_meant(value: Seq<char>) -> Option<Seq<char>> {
    let v = text::lower(text::trim(value));
    if v.len() == 0 {
        None
    } else {
        code_of(language_table(), v)
    }
}

/// Resolve a language by ISO code or English name.
pub fn parse_language(value: &str) -> (r: Option<&'static str>)
    ensures
        match r {
            Some(c) => language_meant(value@) == Some(c@),
            None => language_meant(value@) is None,
        },
{
    let all = text::chars_of(value);
    let inner = text::trimmed(all.as_slice());
    let v = text::lowered(inner.as_slice());
    if v.len() == 0 {
        return None;
    }
    let l = languages();
    let ghost table = language_table();
    let mut i: usize = 0;
    assert(table.skip(0) =~= table);
    assert(table.len() == l@.len()) by {
        assert(spelled(l@).len() == l@.len());
    }
    while i < l.len()
        invariant
            i <= l.len(),
            table == spelled(l@),
            table == language_table(),
            table.len() == l@.len(),
            v@ == text::lower(text::trim(value@)),
            v@.len() > 0,
            code_of(table, v@) == code_of(table.skip(i as int), v@),
        decreases l.len() - i,
    {
        assert(table.skip(i as int)[0] == (l@[i as int].0@, l@[i as int].1@));
        let n = text::chars_of(l[i].1);
        let n = text::lowered(n.as_slice());
        if text::is_str(v.as_slice(), l[i].0) || text::same(n.as_slice(), v.as_slice()) {
            return Some(l[i].0);
        }
        assert(table.skip(i as int).drop_first() =~= table.skip(i + 1));
        i += 1;
    }
    None
}

/// The name of the first genre of an id.
pub open spec fn name_of_id(l: Seq<(u32, Seq<char>)>, id: u32) -> Option<Seq<char>>
    decreases l.len(),
{
    if l.len() == 0 {
        None
    } else if l[0].0 == id {
        Some(l[0].1)
    } else {
        name_of_id(l.drop_first(), id)
    }
}

pub fn genre_name(kind: Kind, id: u32) -> (r: Option<&'static str>)
    ensures
        match r {
            Some(n) => name_of_id(genre_table(kind), id) == Some(n@),
            None => name_of_id(genre_table(kind), id) is None,
        },
{
    let l = genres_for(kind);
    let ghost all = genre_table(kind);
    let mut i: usize = 0;
    assert(all.skip(0) =~= all);
    while i < l.len()
        invariant
            i <= l.len(),
            all == named(l@),
            all == genre_table(kind),
            name_of_id(all, id) == name_of_id(all.skip(i as int), id),
        decreases l.len() - i,
    {
        assert(all.skip(i as int)[0] == (l@[i as int].0, l@[i as int].1@));
        if l[i].0 == id {
            return Some(l[i].1);
        }
        assert(all.skip(i as int).drop_first() =~= all.skip(i + 1));
        i += 1;
    }
    assert(all.len() == l@.len());
    None
}

/// The name of the first language of a code.
pub open spec fn name_of_code(l: Seq<(Seq<char>, Seq<char>)>, code: Seq<char>) -> Option<Seq<char>>
    decreases l.len(),
{
    if l.len() == 0 {
        None
    } else if l[0].0 == code {
        Some(l[0].1)
    } else {
        name_of_code(l.drop_first(), code)
    }
}

pub fn language_name(code: &str) -> (r: Option<&'static str>)
    ensures
        match r {
            Some(n) => name_of_code(language_table(), code@) == Some(n@),
            None => name_of_code(language_table(), code@) is None,
        },
{
    let l = languages();
    let ghost all = language_table();
    let mut i: usize = 0;
    assert(all.skip(0) =~= all);
    while i < l.len()
        invariant
            i <= l.len(),
            all == spelled(l@),
            all == language_table(),
            name_of_code(all, code@) == name_of_code(all.skip(i as int), code@),
        decreases l.len() - i,
    {
        assert(all.skip(i as int)[0] == (l@[i as int].0@, l@[i as int].1@));
        if text::same_str(l[i].0, code) {
            return Some(l[i].1);
        }
        assert(all.skip(i as int).drop_first() =~= all.skip(i + 1));
        i += 1;
    }
    assert(all.len() == l@.len());
    None
}

// --- years ------------------------------------------------------------------------

pub open spec fn sane_year(y: nat) -> bool {
    EARLIEST_YEAR <= y <= LATEST_YEAR
}

/// The years that a text means: one, or an inclusive range.
pub open spec fn years_meant(value: Seq<char>) -> Option<(u32, u32)> {
    let v = text::trim(value);
    let (a, b) = match text::place_of(v, '-') {
        Some(i) => (text::trim(v.take(i)), text::trim(v.skip(i + 1))),
        None => (v, v),
    };
    match (text::parse_number(a, u32::MAX as nat), text::parse_number(b, u32::MAX as nat)) {
        (Some(from), Some(to)) => if sane_year(from) && sane_year(to) && from <= to {
            Some((from as u32, to as u32))
        } else {
            None
        },
        _ => None,
    }
}

/// Resolve `--year`: a single `1999`, or an inclusive range `1990-1999`.
///
/// A decade is the unit a browse screen actually offers, so the range form is
/// not a nicety. Reversed and out-of-range values are refused rather than
/// silently swapped: `--year 2020-1990` is a typo, not a request.
pub fn parse_year_range(value: &str) -> (r: Option<(u32, u32)>)
    ensures
        r == years_meant(value@),
{
    let all = text::chars_of(value);
    let v = text::trimmed(all.as_slice());
    let n = v.len();
    let (a, b): (Vec<char>, Vec<char>) = match text::find_char(v.as_slice(), '-') {
        Some(i) => {
            let a = text::slice_of(v.as_slice(), 0, i);
            let b = text::slice_of(v.as_slice(), i + 1, n);
            assert(a@ =~= v@.take(i as int));
            assert(b@ =~= v@.skip(i + 1));
            (text::trimmed(a.as_slice()), text::trimmed(b.as_slice()))
        },
        None => {
            let a = text::slice_of(v.as_slice(), 0, n);
            let b = text::slice_of(v.as_slice(), 0, n);
            assert(a@ =~= v@);
            assert(b@ =~= v@);
            (a, b)
        },
    };
    match (
        text::read_number(a.as_slice(), 0xffff_ffff),
        text::read_number(b.as_slice(), 0xffff_ffff),
    ) {
        (Some(from), Some(to)) => {
            if EARLIEST_YEAR as u64 <= from && from <= LATEST_YEAR as u64 && EARLIEST_YEAR as u64
                <= to && to <= LATEST_YEAR as u64 && from <= to {
                Some((from as u32, to as u32))
            } else {
                None
            }
        },
        _ => None,
    }
}

/// The year that a date's text starts with.
pub open spec fn leading_year(date: Seq<char>) -> nat {
    match text::parse_number(list::first(date, 4), u32::MAX as nat) {
        Some(y) => y,
        None => LATEST_YEAR as nat,
    }
}

/// The current year, UTC, at a number of seconds since the Unix epoch: enough
/// to build a list of decades from.
pub fn this_year(unix_secs: u64) -> (r: u32)
    requires
        unix_secs <= i64::MAX,
    ensures
        r == leading_year(calendar::date_text(unix_secs as int / 86_400)),
{
    let date = calendar::today(unix_secs);
    let chars = text::chars_of(date.as_str());
    let year = list::cut(chars, 4);
    match text::read_number(year.as_slice(), 0xffff_ffff) {
        Some(y) => y as u32,
        None => LATEST_YEAR,
    }
}

/// Until the year 9999 the year shown is that of the calendar.
pub proof fn this_year_is_the_calendars(days: int)
    requires
        1000 <= calendar::date_of(days).0 <= 9999,
    ensures
        leading_year(calendar::date_text(days)) == calendar::date_of(days).0,
{
    let y = calendar::date_of(days).0 as nat;
    let t = calendar::date_text(days);
    let d = text::decimal(y);
    reveal_with_fuel(text::decimal, 5);
    assert(d.len() == 4);
    assert(list::first(t, 4) =~= d);
    assert(text::all_digits(d));
    assert(d[0] != '+');
    reveal_with_fuel(text::digits_value, 5);
    assert(d.drop_last() =~= text::decimal(y / 10));
    assert(d.drop_last().drop_last() =~= text::decimal(y / 100));
    assert(d.drop_last().drop_last().drop_last() =~= text::decimal(y / 1000));
    assert(d.drop_last().drop_last().drop_last().drop_last() =~= Seq::empty());
}

// --- filters ----------------------------------------------------------------------

/// The current browse state: what to list and how.
#[derive(Debug)]
pub struct Filters {
    pub kind: Kind,
    pub sort: Sort,
    /// 0 means any.
    pub min_rating: u32,
    /// 0 means all genres.
    pub genre_id: u32,
    /// Empty means all languages.
    pub language: String,
    /// A TMDB person id to filter by; 0 means anyone. This is what a click on
    /// a cast member resolves to.
    pub cast_id: u32,
    /// Inclusive year bounds, or `None` for any year.
    pub years: Option<(u32, u32)>,
}

impl Clone for Filters {
    fn clone(&self) -> (r: Filters)
        ensures
            r == *self,
    {
        Filters {
            kind: self.kind,
            sort: self.sort,
            min_rating: self.min_rating,
            genre_id: self.genre_id,
            language: self.language.clone(),
            cast_id: self.cast_id,
            years: self.years,
        }
    }
}

/// A text on its own where the condition holds, else nothing.
pub open spec fn when(holds: bool, s: Seq<char>) -> Seq<Seq<char>> {
    if holds {
        seq![s]
    } else {
        Seq::empty()
    }
}

/// A year, or a range of them.
pub open spec fn years_text(from: u32, to: u32) -> Seq<char> {
    if from == to {
        text::decimal(from as nat)
    } else {
        text::decimal(from as nat) + "-"@ + text::decimal(to as nat)
    }
}

/// The active filters, in words.
pub open spec fn summary_parts(f: Filters) -> Seq<Seq<char>> {
    let genre = name_of_id(genre_table(f.kind), f.genre_id);
    let language = name_of_code(language_table(), f.language@);
    seq![sort_label(f.sort)] + when(f.genre_id > 0 && genre is Some, genre->0) + when(
        f.language@.len() > 0 && language is Some,
        language->0,
    ) + when(f.years is Some, years_text((f.years->0).0, (f.years->0).1)) + when(
        f.cast_id > 0,
        "Cast #"@ + text::decimal(f.cast_id as nat),
    ) + when(f.min_rating > 0, text::decimal(f.min_rating as nat) + "+"@)
}

/// The filters in one line.
pub open spec fn summary_text(f: Filters) -> Seq<char> {
    text::join(summary_parts(f), " \u{b7} "@)
}

/// The field that dates a title of a kind.
pub open spec fn date_field(kind: Kind) -> Seq<char> {
    match kind {
        Kind::Movie => "primary_release_date"@,
        Kind::Tv => "first_air_date"@,
    }
}

/// Where the oldest titles start, so undated entries do not win.
pub open spec fn oldest_floor(kind: Kind) -> Seq<char> {
    match kind {
        Kind::Movie => "1920-01-01"@,
        Kind::Tv => "1940-01-01"@,
    }
}

/// The later of two dates; ISO dates compare chronologically as text.
pub open spec fn later(a: Seq<char>, b: Seq<char>) -> Seq<char> {
    if text::text_before(a, b) {
        b
    } else {
        a
    }
}

/// The earlier of two dates.
pub open spec fn earlier(a: Seq<char>, b: Seq<char>) -> Seq<char> {
    if text::text_before(b, a) {
        b
    } else {
        a
    }
}

/// The sort is by box office where there is one.
pub open spec fn by_revenue(f: Filters) -> bool {
    f.sort == Sort::BoxOffice && f.kind == Kind::Movie
}

/// The sort is by popularity, or falls back to it.
pub open spec fn by_popularity(f: Filters) -> bool {
    f.sort == Sort::Popular || (f.sort == Sort::BoxOffice && f.kind == Kind::Tv)
}

/// What the sort is sent as.
pub open spec fn sort_parameter(f: Filters) -> Seq<char> {
    if f.sort == Sort::TopRated {
        "sort_by=vote_average.desc"@
    } else if f.sort == Sort::Newest {
        "sort_by="@ + date_field(f.kind) + ".desc"@
    } else if f.sort == Sort::Oldest {
        "sort_by="@ + date_field(f.kind) + ".asc"@
    } else if by_revenue(f) {
        "sort_by=revenue.desc"@
    } else {
        "sort_by=popularity.desc"@
    }
}

/// The earliest date listed: that of the sort and that of the years, whichever
/// is later. The years narrow, they never widen.
pub open spec fn earliest_date(f: Filters) -> Option<Seq<char>> {
    match f.years {
        Some((from, _)) => {
            let start = text::decimal(from as nat) + "-01-01"@;
            if f.sort == Sort::Oldest {
                Some(later(oldest_floor(f.kind), start))
            } else {
                Some(start)
            }
        },
        None => if f.sort == Sort::Oldest {
            Some(oldest_floor(f.kind))
        } else {
            None
        },
    }
}

/// The latest date listed: today where unreleased titles would fill the first
/// page, and that of the years, whichever is earlier.
pub open spec fn latest_date(f: Filters, today: Seq<char>) -> Option<Seq<char>> {
    let capped = f.sort == Sort::Newest || by_popularity(f);
    match f.years {
        Some((_, to)) => {
            let end = text::decimal(to as nat) + "-12-31"@;
            if capped {
                Some(earlier(today, end))
            } else {
                Some(end)
            }
        },
        None => if capped {
            Some(today)
        } else {
            None
        },
    }
}

/// The least number of votes a title must have.
pub open spec fn vote_floor(f: Filters) -> nat {
    let sorted: nat = if f.sort == Sort::TopRated {
        300
    } else {
        0
    };
    let rated: nat = if f.min_rating > 0 && sorted < 100 {
        100
    } else {
        sorted
    };
    if f.language@.len() > 0 && rated > 50 {
        50
    } else {
        rated
    }
}

/// The parameters of the query.
pub open spec fn discover_parts(f: Filters, page: u32, today: Seq<char>) -> Seq<Seq<char>> {
    let from = earliest_date(f);
    let to = latest_date(f, today);
    seq!["page="@ + text::decimal(page as nat)] + when(
        f.genre_id > 0,
        "with_genres="@ + text::decimal(f.genre_id as nat),
    ) + when(f.language@.len() > 0, "with_original_language="@ + f.language@) + when(
        f.cast_id > 0 && f.kind == Kind::Movie,
        "with_cast="@ + text::decimal(f.cast_id as nat),
    ) + seq![sort_parameter(f)] + when(from is Some, date_field(f.kind) + ".gte="@ + from->0)
        + when(to is Some, date_field(f.kind) + ".lte="@ + to->0) + when(
        f.min_rating > 0,
        "vote_average.gte="@ + text::decimal(f.min_rating as nat),
    ) + when(vote_floor(f) > 0, "vote_count.gte="@ + text::decimal(vote_floor(f)))
}

pub open spec fn endpoint(kind: Kind) -> Seq<char> {
    match kind {
        Kind::Movie => "/discover/movie"@,
        Kind::Tv => "/discover/tv"@,
    }
}

fn add_if(parts: &mut Vec<Vec<char>>, holds: bool, s: Vec<char>)
    ensures
        text::texts(final(parts)@) == text::texts(old(parts)@) + when(holds, s@),
{
    let ghost before = text::texts(parts@);
    if holds {
        parts.push(s);
        assert(text::texts(parts@) =~= before + seq![s@]);
    } else {
        assert(before + Seq::<Seq<char>>::empty() =~= before);
    }
}

fn worded(word: &str, n: u32) -> (r: Vec<char>)
    ensures
        r@ == word@ + text::decimal(n as nat),
{
    let mut out = text::chars_of(word);
    text::push_decimal(&mut out, n as u64);
    out
}

impl Filters {
    pub fn new(kind: Kind) -> (r: Filters)
        ensures
            r.kind == kind,
            r.sort == Sort::Popular,
            r.min_rating == 0 && r.genre_id == 0 && r.cast_id == 0,
            r.language@.len() == 0,
            r.years is None,
    {
        Filters {
            kind,
            sort: Sort::Popular,
            min_rating: 0,
            genre_id: 0,
            language: String::new(),
            cast_id: 0,
            years: None,
        }
    }

    /// One-line description of the active filters, for the browser header.
    pub fn summary(&self) -> (r: String)
        ensures
            r@ == summary_text(*self),
    {
        let mut parts: Vec<Vec<char>> = Vec::new();
        parts.push(text::chars_of(self.sort.label()));
        assert(text::texts(parts@) =~= seq![sort_label(self.sort)]);
        let genre = genre_name(self.kind, self.genre_id);
        let name: Vec<char> = match genre {
            Some(n) => text::chars_of(n),
            None => Vec::new(),
        };
        add_if(&mut parts, self.genre_id > 0 && genre.is_some(), name);
        let language = language_name(self.language.as_str());
        let name: Vec<char> = match language {
            Some(n) => text::chars_of(n),
            None => Vec::new(),
        };
        add_if(
            &mut parts,
            !self.language.as_str().is_empty() && language.is_some(),
            name,
        );
        let range: Vec<char> = match self.years {
            Some((from, to)) => {
                let mut out = text::write_decimal(from as u64);
                if from != to {
                    text::push_str(&mut out, "-");
                    text::push_decimal(&mut out, to as u64);
                }
                out
            },
            None => Vec::new(),
        };
        add_if(&mut parts, self.years.is_some(), range);
        // Only the id: resolving it to a name would cost a TMDB round trip on
        // every page, and whoever set the filter just clicked the name.
        add_if(&mut parts, self.cast_id > 0, worded("Cast #", self.cast_id));
        let mut rating = text::write_decimal(self.min_rating as u64);
        text::push_str(&mut rating, "+");
        add_if(&mut parts, self.min_rating > 0, rating);
        assert(text::texts(parts@) =~= summary_parts(*self));
        let out = text::joined(&parts, " \u{b7} ");
        text::string_of(out.as_slice())
    }

    fn date_field(&self) -> (r: &'static str)
        ensures
            r@ == date_field(self.kind),
    {
        match self.kind {
            Kind::Movie => "primary_release_date",
            Kind::Tv => "first_air_date",
        }
    }

    fn oldest_floor(&self) -> (r: &'static str)
        ensures
            r@ == oldest_floor(self.kind),
    {
        match self.kind {
            Kind::Movie => "1920-01-01",
            Kind::Tv => "1940-01-01",
        }
    }

    fn sort_parameter(&self) -> (r: Vec<char>)
        ensures
            r@ == sort_parameter(*self),
    {
        match self.sort {
            Sort::TopRated => text::chars_of("sort_by=vote_average.desc"),
            Sort::Newest => {
                let mut out = text::chars_of("sort_by=");
                text::push_str(&mut out, self.date_field());
                text::push_str(&mut out, ".desc");
                out
            },
            Sort::Oldest => {
                let mut out = text::chars_of("sort_by=");
                text::push_str(&mut out, self.date_field());
                text::push_str(&mut out, ".asc");
                out
            },
            // No TV equivalent of revenue, so TV falls through to popularity.
            Sort::BoxOffice => {
                if self.kind == Kind::Movie {
                    text::chars_of("sort_by=revenue.desc")
                } else {
                    text::chars_of("sort_by=popularity.desc")
                }
            },
            Sort::Popular => text::chars_of("sort_by=popularity.desc"),
        }
    }

    fn earliest(&self) -> (r: Option<Vec<char>>)
        ensures
            match r {
                Some(d) => earliest_date(*self) == Some(d@),
                None => earliest_date(*self) is None,
            },
    {
        let floor = text::chars_of(self.oldest_floor());
        let oldest = self.sort == Sort::Oldest;
        match self.years {
            Some((from, _)) => {
                let mut start = text::write_decimal(from as u64);
                text::push_str(&mut start, "-01-01");
                if oldest && !text::comes_before(floor.as_slice(), start.as_slice()) {
                    Some(floor)
                } else {
                    Some(start)
                }
            },
            None => if oldest {
                Some(floor)
            } else {
                None
            },
        }
    }

    fn latest(&self, today: &str) -> (r: Option<Vec<char>>)
        ensures
            match r {
                Some(d) => latest_date(*self, today@) == Some(d@),
                None => latest_date(*self, today@) is None,
            },
    {
        let now = text::chars_of(today);
        let capped = self.sort == Sort::Newest || self.sort == Sort::Popular || (self.sort
            == Sort::BoxOffice && self.kind == Kind::Tv);
        match self.years {
            Some((_, to)) => {
                let mut end = text::write_decimal(to as u64);
                text::push_str(&mut end, "-12-31");
                if capped && !text::comes_before(end.as_slice(), now.as_slice()) {
                    Some(now)
                } else {
                    Some(end)
                }
            },
            None => if capped {
                Some(now)
            } else {
                None
            },
        }
    }

    fn votes(&self) -> (r: u32)
        ensures
            r == vote_floor(*self),
    {
        let sorted: u32 = if self.sort == Sort::TopRated {
            300
        } else {
            0
        };
        let rated: u32 = if self.min_rating > 0 && sorted < 100 {
            100
        } else {
            sorted
        };
        if !self.language.as_str().is_empty() && rated > 50 {
            50
        } else {
            rated
        }
    }

    /// Build the TMDB `discover` path for a page, with today's date. See the
    /// module docs for why each vote-count floor is there.
    pub fn discover_path(&self, page: u32, today: &str) -> (r: String)
        ensures
            r@ == endpoint(self.kind) + "?"@ + text::join(
                discover_parts(*self, page, today@),
                "&"@,
            ),
    {
        let mut parts: Vec<Vec<char>> = Vec::new();
        parts.push(worded("page=", page));
        assert(text::texts(parts@) =~= seq!["page="@ + text::decimal(page as nat)]);
        add_if(&mut parts, self.genre_id > 0, worded("with_genres=", self.genre_id));
        let mut language = text::chars_of("with_original_language=");
        text::push_str(&mut language, self.language.as_str());
        add_if(&mut parts, !self.language.as_str().is_empty(), language);
        // Movies only. TMDB's /discover/tv has no person filter at all: it
        // *accepts* `with_cast` and `with_people` and ignores them, returning
        // the unfiltered catalog with an unchanged total, which is worse than
        // an error, because it looks like an answer. That case goes to the
        // person's own TV credits instead.
        add_if(
            &mut parts,
            self.cast_id > 0 && self.kind == Kind::Movie,
            worded("with_cast=", self.cast_id),
        );
        let ghost before = text::texts(parts@);
        parts.push(self.sort_parameter());
        assert(text::texts(parts@) =~= before + seq![sort_parameter(*self)]);
        // The sort and the year filter both bound the date; one date field is
        // sent once.
        let from = self.earliest();
        let has_from = from.is_some();
        let mut bound = text::chars_of(self.date_field());
        text::push_str(&mut bound, ".gte=");
        match from {
            Some(d) => {
                text::push_all(&mut bound, d.as_slice());
            },
            None => {},
        }
        add_if(&mut parts, has_from, bound);
        let to = self.latest(today);
        let has_to = to.is_some();
        let mut bound = text::chars_of(self.date_field());
        text::push_str(&mut bound, ".lte=");
        match to {
            Some(d) => {
                text::push_all(&mut bound, d.as_slice());
            },
            None => {},
        }
        add_if(&mut parts, has_to, bound);
        add_if(&mut parts, self.min_rating > 0, worded("vote_average.gte=", self.min_rating));
        let votes = self.votes();
        add_if(&mut parts, votes > 0, worded("vote_count.gte=", votes));
        assert(text::texts(parts@) =~= discover_parts(*self, page, today@));
        let query = text::joined(&parts, "&");
        let mut out = match self.kind {
            Kind::Movie => text::chars_of("/discover/movie"),
            Kind::Tv => text::chars_of("/discover/tv"),
        };
        text::push_str(&mut out, "?");
        text::push_all(&mut out, query.as_slice());
        text::string_of(out.as_slice())
    }
}

// --- filters from the command line ------------------------------------------------

/// Why command-line values make no filter set.
#[derive(Clone, Copy, Debug, PartialEq, Eq, Structural)]
pub enum FilterError {
    UnknownSort,
    /// Box office only applies to movies.
    MoviesOnly,
    /// Unknown or ambiguous.
    UnknownGenre,
    UnknownLanguage,
    /// Not between 5 and 9.
    BadRating,
    UnknownYear,
}

/// The first value that is refused, in the order sort, genre, language, rating,
/// year.
pub open spec fn refused(
    kind: Kind,
    sort: Option<&str>,
    genre: Option<&str>,
    language: Option<&str>,
    min_rating: Option<u32>,
    year: Option<&str>,
) -> Option<FilterError> {
    if sort is Some && sort_meant(sort->0@) is None {
        Some(FilterError::UnknownSort)
    } else if sort is Some && !sorts_for(kind).contains(sort_meant(sort->0@)->0) {
        Some(FilterError::MoviesOnly)
    } else if genre is Some && genre_meant(genre_table(kind), genre->0@) is None {
        Some(FilterError::UnknownGenre)
    } else if language is Some && language_meant(language->0@) is None {
        Some(FilterError::UnknownLanguage)
    } else if min_rating is Some && !(5 <= min_rating->0 <= 9) {
        Some(FilterError::BadRating)
    } else if year is Some && years_meant(year->0@) is None {
        Some(FilterError::UnknownYear)
    } else {
        None
    }
}

/// The filters are those that the values mean.
pub open spec fn means(
    f: Filters,
    kind: Kind,
    sort: Option<&str>,
    genre: Option<&str>,
    language: Option<&str>,
    min_rating: Option<u32>,
    cast: Option<u32>,
    year: Option<&str>,
) -> bool {
    &&& f.kind == kind
    &&& f.sort == (match sort {
        Some(s) => sort_meant(s@)->0,
        None => Sort::Popular,
    })
    &&& f.genre_id == (match genre {
        Some(g) => genre_meant(genre_table(kind), g@)->0,
        None => 0,
    })
    &&& f.language@ == (match language {
        Some(l) => language_meant(l@)->0,
        None => Seq::empty(),
    })
    &&& f.min_rating == (match min_rating {
        Some(r) => r,
        None => 0,
    })
    &&& f.cast_id == (match cast {
        Some(c) => c,
        None => 0,
    })
    &&& f.years == (match year {
        Some(y) => years_meant(y@),
        None => None,
    })
}

/// Turn command-line values into a filter set, rejecting bad ones up front
/// rather than silently ignoring them.
///
/// Shared by `dekho browse` and `dekho api discover` so the two accept exactly
/// the same vocabulary: a panel and the terminal disagreeing about what
/// `--genre sci` means would be worse than either being wrong.
pub fn filters_from(
    kind: Kind,
    sort: Option<&str>,
    genre: Option<&str>,
    language: Option<&str>,
    min_rating: Option<u32>,
    cast: Option<u32>,
    year: Option<&str>,
) -> (r: Result<Filters, FilterError>)
    ensures
        match r {
            Ok(f) => refused(kind, sort, genre, language, min_rating, year) is None && means(
                f,
                kind,
                sort,
                genre,
                language,
                min_rating,
                cast,
                year,
            ),
            Err(e) => refused(kind, sort, genre, language, min_rating, year) == Some(e),
        },
{
    let mut f = Filters::new(kind);
    assert(f.language@ =~= Seq::empty());
    if let Some(s) = sort {
        match Sort::parse(s) {
            Some(wanted) => {
                if wanted == Sort::BoxOffice && kind == Kind::Tv {
                    assert(!sorts_for(kind).contains(wanted));
                    return Err(FilterError::MoviesOnly);
                }
                proof {
                    let all = sorts_for(kind);
                    assert(all[0] == Sort::Popular && all[1] == Sort::TopRated && all[2]
                        == Sort::Newest && all[3] == Sort::Oldest);
                    if kind == Kind::Movie {
                        assert(all[4] == Sort::BoxOffice);
                    }
                    assert(all.contains(wanted));
                }
                f.sort = wanted;
            },
            None => {
                return Err(FilterError::UnknownSort);
            },
        }
    }
    if let Some(g) = genre {
        match parse_genre(kind, g) {
            Some(id) => {
                f.genre_id = id;
            },
            None => {
                return Err(FilterError::UnknownGenre);
            },
        }
    }
    if let Some(l) = language {
        match parse_language(l) {
            Some(code) => {
                f.language = code.to_string();
            },
            None => {
                return Err(FilterError::UnknownLanguage);
            },
        }
    }
    if let Some(n) = min_rating {
        if !(5 <= n && n <= 9) {
            return Err(FilterError::BadRating);
        }
        f.min_rating = n;
    }
    if let Some(c) = cast {
        f.cast_id = c;
    }
    if let Some(y) = year {
        match parse_year_range(y) {
            Some(range) => {
                f.years = Some(range);
            },
            None => {
                return Err(FilterError::UnknownYear);
            },
        }
    }
    Ok(f)
}

// --- what holds of the query ------------------------------------------------------

/// A year filter narrows what the sort lists, never widens it: the bounds it
/// leaves lie within those that the sort sets on its own.
pub proof fn years_never_widen(f: Filters, today: Seq<char>, g: Filters)
    requires
        g.kind == f.kind,
        g.sort == f.sort,
        g.years is None,
    ensures
        earliest_date(g) is Some ==> earliest_date(f) is Some && !text::text_before(
            earliest_date(f)->0,
            earliest_date(g)->0,
        ),
        latest_date(g, today) is Some ==> latest_date(f, today) is Some && !text::text_before(
            latest_date(g, today)->0,
            latest_date(f, today)->0,
        ),
{
    text::text_order(today, today, today);
    text::text_order(oldest_floor(f.kind), oldest_floor(f.kind), oldest_floor(f.kind));
    if f.years is Some {
        let start = text::decimal((f.years->0).0 as nat) + "-01-01"@;
        let end = text::decimal((f.years->0).1 as nat) + "-12-31"@;
        text::text_order(oldest_floor(f.kind), start, start);
        text::text_order(end, today, today);
    }
}

/// A person filter is never sent for TV, whose listing would ignore it.
pub proof fn tv_never_names_a_person(f: Filters, page: u32, today: Seq<char>)
    requires
        f.kind == Kind::Tv,
    ensures
        discover_parts(f, page, today) == discover_parts(
            (Filters { cast_id: 0, ..f }),
            page,
            today,
        ),
{
}

/// Top rated asks for votes, and a language lowers what any floor asks.
pub proof fn vote_floors_hold(f: Filters)
    ensures
        f.sort == Sort::TopRated && f.language@.len() == 0 ==> vote_floor(f) == 300,
        f.min_rating > 0 && f.language@.len() == 0 ==> vote_floor(f) >= 100,
        f.language@.len() > 0 ==> vote_floor(f) <= 50,
{
}

proof fn lemma_join_when(
    head: Seq<char>,
    parts: Seq<Seq<char>>,
    holds: bool,
    s: Seq<char>,
    sep: Seq<char>,
)
    requires
        parts.len() > 0,
    ensures
        head + text::join(parts + when(holds, s), sep) == head + text::join(parts, sep) + (
        if holds {
            sep + s
        } else {
            Seq::empty()
        }),
        (parts + when(holds, s)).len() > 0,
{
    let all = parts + when(holds, s);
    let before = text::join(parts, sep);
    if holds {
        assert(all.drop_last() =~= parts);
        assert(text::join(all, sep) == before + sep + s);
        assert(head + (before + sep + s) =~= head + before + (sep + s));
    } else {
        assert(all =~= parts);
        assert(head + before + Seq::<char>::empty() =~= head + before);
    }
}

/// A separator and a text where the condition holds, else nothing.
spec fn behind(sep: Seq<char>, holds: bool, s: Seq<char>) -> Seq<char> {
    if holds {
        sep + s
    } else {
        Seq::empty()
    }
}

proof fn lemma_join_all(
    head: Seq<char>,
    first: Seq<char>,
    sep: Seq<char>,
    a: (bool, Seq<char>),
    b: (bool, Seq<char>),
    c: (bool, Seq<char>),
    d: Seq<char>,
    e: (bool, Seq<char>),
    f: (bool, Seq<char>),
    g: (bool, Seq<char>),
    h: (bool, Seq<char>),
)
    ensures
        head + text::join(
            seq![first] + when(a.0, a.1) + when(b.0, b.1) + when(c.0, c.1) + seq![d] + when(
                e.0,
                e.1,
            ) + when(f.0, f.1) + when(g.0, g.1) + when(h.0, h.1),
            sep,
        ) == head + first + behind(sep, a.0, a.1) + behind(sep, b.0, b.1) + behind(sep, c.0, c.1) + (
        sep + d) + behind(sep, e.0, e.1) + behind(sep, f.0, f.1) + behind(sep, g.0, g.1) + behind(
            sep,
            h.0,
            h.1,
        ),
{
    let p0 = seq![first];
    let p1 = p0 + when(a.0, a.1);
    let p2 = p1 + when(b.0, b.1);
    let p3 = p2 + when(c.0, c.1);
    let p4 = p3 + when(true, d);
    let p5 = p4 + when(e.0, e.1);
    let p6 = p5 + when(f.0, f.1);
    let p7 = p6 + when(g.0, g.1);
    assert(text::join(p0, sep) == first);
    lemma_join_when(head, p0, a.0, a.1, sep);
    lemma_join_when(head, p1, b.0, b.1, sep);
    lemma_join_when(head, p2, c.0, c.1, sep);
    lemma_join_when(head, p3, true, d, sep);
    lemma_join_when(head, p4, e.0, e.1, sep);
    lemma_join_when(head, p5, f.0, f.1, sep);
    lemma_join_when(head, p6, g.0, g.1, sep);
    lemma_join_when(head, p7, h.0, h.1, sep);
}

/// The query of a page, parameter by parameter: the page, the genre where one is
/// asked for, the language, for movies the person, the order, the bounds on the
/// date, the rating and the votes.
pub proof fn the_query_says_what_was_asked(f: Filters, page: u32, today: Seq<char>)
    ensures
        ({
            let path = endpoint(f.kind) + "?"@ + text::join(discover_parts(f, page, today), "&"@);
            let date = if f.kind == Kind::Movie {
                "primary_release_date"@
            } else {
                "first_air_date"@
            };
            let order = match f.sort {
                Sort::Popular => "popularity.desc"@,
                Sort::TopRated => "vote_average.desc"@,
                Sort::Newest => date + ".desc"@,
                Sort::Oldest => date + ".asc"@,
                Sort::BoxOffice => if f.kind == Kind::Movie {
                    "revenue.desc"@
                } else {
                    "popularity.desc"@
                },
            };
            path == (if f.kind == Kind::Movie {
                "/discover/movie"@
            } else {
                "/discover/tv"@
            }) + "?"@ + ("page="@ + text::decimal(page as nat)) + (if f.genre_id > 0 {
                "&"@ + ("with_genres="@ + text::decimal(f.genre_id as nat))
            } else {
                Seq::empty()
            }) + (if f.language@.len() > 0 {
                "&"@ + ("with_original_language="@ + f.language@)
            } else {
                Seq::empty()
            }) + (if f.cast_id > 0 && f.kind == Kind::Movie {
                "&"@ + ("with_cast="@ + text::decimal(f.cast_id as nat))
            } else {
                Seq::empty()
            }) + ("&"@ + ("sort_by="@ + order)) + (if earliest_date(f) is Some {
                "&"@ + (date + ".gte="@ + earliest_date(f)->0)
            } else {
                Seq::empty()
            }) + (if latest_date(f, today) is Some {
                "&"@ + (date + ".lte="@ + latest_date(f, today)->0)
            } else {
                Seq::empty()
            }) + (if f.min_rating > 0 {
                "&"@ + ("vote_average.gte="@ + text::decimal(f.min_rating as nat))
            } else {
                Seq::empty()
            }) + (if vote_floor(f) > 0 {
                "&"@ + ("vote_count.gte="@ + text::decimal(vote_floor(f)))
            } else {
                Seq::empty()
            })
        }),
{
    let from = earliest_date(f);
    let to = latest_date(f, today);
    let date = date_field(f.kind);
    lemma_join_all(
        endpoint(f.kind) + "?"@,
        "page="@ + text::decimal(page as nat),
        "&"@,
        (f.genre_id > 0, "with_genres="@ + text::decimal(f.genre_id as nat)),
        (f.language@.len() > 0, "with_original_language="@ + f.language@),
        (f.cast_id > 0 && f.kind == Kind::Movie, "with_cast="@ + text::decimal(f.cast_id as nat)),
        sort_parameter(f),
        (from is Some, date + ".gte="@ + from->0),
        (to is Some, date + ".lte="@ + to->0),
        (f.min_rating > 0, "vote_average.gte="@ + text::decimal(f.min_rating as nat)),
        (vote_floor(f) > 0, "vote_count.gte="@ + text::decimal(vote_floor(f))),
    );
    lemma_sort_parameter(f);
}

proof fn lemma_sort_parameter(f: Filters)
    ensures
        sort_parameter(f) == "sort_by="@ + (match f.sort {
            Sort::Popular => "popularity.desc"@,
            Sort::TopRated => "vote_average.desc"@,
            Sort::Newest => date_field(f.kind) + ".desc"@,
            Sort::Oldest => date_field(f.kind) + ".asc"@,
            Sort::BoxOffice => if f.kind == Kind::Movie {
                "revenue.desc"@
            } else {
                "popularity.desc"@
            },
        }),
{
    reveal_strlit("sort_by=");
    reveal_strlit("sort_by=vote_average.desc");
    reveal_strlit("vote_average.desc");
    reveal_strlit("sort_by=revenue.desc");
    reveal_strlit("revenue.desc");
    reveal_strlit("sort_by=popularity.desc");
    reveal_strlit("popularity.desc");
    assert("sort_by=vote_average.desc"@ =~= "sort_by="@ + "vote_average.desc"@);
    assert("sort_by=revenue.desc"@ =~= "sort_by="@ + "revenue.desc"@);
    assert("sort_by=popularity.desc"@ =~= "sort_by="@ + "popularity.desc"@);
    let date = date_field(f.kind);
    assert("sort_by="@ + date + ".desc"@ =~= "sort_by="@ + (date + ".desc"@));
    assert("sort_by="@ + date + ".asc"@ =~= "sort_by="@ + (date + ".asc"@));
}

/// A date is bounded from below for the oldest first, which keeps undated entries
/// out, and for years, from the first of January of the first of them; the later
/// of the two counts. From above it is bounded by today where unreleased titles
/// would come first, and for years, by the end of the last of them; the earlier
/// counts.
pub proof fn dates_are_bounded(f: Filters, today: Seq<char>)
    ensures
        ({
            let floor = if f.kind == Kind::Movie {
                "1920-01-01"@
            } else {
                "1940-01-01"@
            };
            let start = text::decimal((f.years->0).0 as nat) + "-01-01"@;
            let e = earliest_date(f);
            &&& e is Some <==> f.sort == Sort::Oldest || f.years is Some
            &&& f.sort == Sort::Oldest && f.years is None ==> e == Some(floor)
            &&& f.sort != Sort::Oldest && f.years is Some ==> e == Some(start)
            &&& f.sort == Sort::Oldest && f.years is Some ==> (e == Some(floor) || e == Some(start))
                && !text::text_before(e->0, floor) && !text::text_before(e->0, start)
        }),
        ({
            let end = text::decimal((f.years->0).1 as nat) + "-12-31"@;
            let e = latest_date(f, today);
            let capped = f.sort == Sort::Newest || f.sort == Sort::Popular || (f.sort
                == Sort::BoxOffice && f.kind == Kind::Tv);
            &&& e is Some <==> capped || f.years is Some
            &&& capped && f.years is None ==> e == Some(today)
            &&& !capped && f.years is Some ==> e == Some(end)
            &&& capped && f.years is Some ==> (e == Some(today) || e == Some(end))
                && !text::text_before(today, e->0) && !text::text_before(end, e->0)
        }),
{
    let floor = oldest_floor(f.kind);
    let start = text::decimal((f.years->0).0 as nat) + "-01-01"@;
    let end = text::decimal((f.years->0).1 as nat) + "-12-31"@;
    text::texts_are_ordered(floor, start, floor);
    text::texts_are_ordered(start, floor, start);
    text::texts_are_ordered(today, end, today);
    text::texts_are_ordered(end, today, end);
}

/// The votes asked for: 300 for the top rated, 100 for a rating, and never more
/// than 50 for a single language.
pub proof fn votes_are_asked_for(f: Filters)
    ensures
        f.sort != Sort::TopRated && f.min_rating == 0 ==> vote_floor(f) == 0,
        f.sort == Sort::TopRated && f.language@.len() == 0 ==> vote_floor(f) == 300,
        f.sort != Sort::TopRated && f.min_rating > 0 && f.language@.len() == 0 ==> vote_floor(f)
            == 100,
        (f.sort == Sort::TopRated || f.min_rating > 0) && f.language@.len() > 0 ==> vote_floor(f)
            == 50,
{
}

/// A year is meant by its number, and a range by its first and its last with a
/// hyphen between; both between 1870 and 2100, and not the wrong way round.
pub proof fn years_are_meant_by_their_numbers(a: Seq<char>, b: Seq<char>, from: nat, to: nat)
    requires
        !a.contains('-'),
        a.len() > 0,
        b.len() > 0,
        !text::is_space(a[0]),
        !text::is_space(a.last()),
        !text::is_space(b[0]),
        !text::is_space(b.last()),
        text::parse_number(a, u32::MAX as nat) == Some(from),
        text::parse_number(b, u32::MAX as nat) == Some(to),
    ensures
        years_meant(a.push('-') + b) is Some <==> 1870 <= from <= to <= 2100,
        years_meant(a.push('-') + b) is Some ==> years_meant(a.push('-') + b)->0 == (
            from as u32,
            to as u32,
        ),
        years_meant(a) is Some <==> 1870 <= from <= 2100,
        years_meant(a) is Some ==> years_meant(a)->0 == (from as u32, from as u32),
{
    let v = a.push('-') + b;
    assert(v[0] == a[0]);
    assert(v.last() == b.last());
    assert(text::trim(v) == v);
    assert(text::trim(a) == a && text::trim(b) == b);
    crate::torrentio::lemma_place(a, '-', b);
    crate::torrentio::lemma_no_place(a, '-');
    assert(v.take(a.len() as int) =~= a);
    assert(v.skip(a.len() as int + 1) =~= b);
}

/// A genre is meant by a number that is on the list, by its whole name in
/// capitals or not, or by a start that no other name shares; whatever is meant is
/// on the list.
pub proof fn genres_are_meant_by_number_or_name(l: Seq<(u32, Seq<char>)>, value: Seq<char>, i: int)
    ensures
        ({
            let v = text::lower(text::trim(value));
            let n = text::parse_number(v, u32::MAX as nat);
            let r = genre_meant(l, value);
            &&& r is Some ==> has_id(l, r->0)
            &&& v.len() == 0 ==> r is None
            &&& v.len() > 0 && n is Some && 0 <= i < l.len() && l[i].0 == n->0 ==> r == Some(
                l[i].0,
            )
            &&& v.len() > 0 && n is None && 0 <= i < l.len() && text::lower(l[i].1) == v && (forall|
                k: int,
            |
                0 <= k < i ==> text::lower((#[trigger] l[k]).1) != v) ==> r == Some(l[i].0)
            &&& v.len() > 0 && n is None && 0 <= i < l.len() && text::begins(text::lower(l[i].1), v)
                && (forall|k: int|
                0 <= k < l.len() && k != i ==> !text::begins(text::lower((#[trigger] l[k]).1), v))
                ==> r == Some(l[i].0)
        }),
{
    let v = text::lower(text::trim(value));
    let n = text::parse_number(v, u32::MAX as nat);
    let p = |g: (u32, Seq<char>)| text::begins(text::lower(g.1), v);
    lemma_id_of_name(l, v);
    if v.len() > 0 && n is Some && 0 <= i < l.len() && l[i].0 == n->0 {
        assert(has_id(l, n->0 as u32));
    }
    if 0 <= i < l.len() && text::lower(l[i].1) == v && (forall|k: int|
        0 <= k < i ==> text::lower((#[trigger] l[k]).1) != v) {
        lemma_id_of_first(l, v, i);
    }
    if with_prefix(l, v).len() == 1 {
        let g = with_prefix(l, v)[0];
        assert(with_prefix(l, v).contains(g));
        l.lemma_filter_contains_rev(p, g);
        let k = choose|k: int| 0 <= k < l.len() && l[k] == g;
        assert(l[k].0 == g.0);
    }
    if 0 <= i < l.len() && text::begins(text::lower(l[i].1), v) && (forall|k: int|
        0 <= k < l.len() && k != i ==> !text::begins(text::lower((#[trigger] l[k]).1), v)) {
        lemma_only_one(l, p, i);
        if id_of_name(l, v) is Some {
            let k = choose|k: int|
                0 <= k < l.len() && text::lower((#[trigger] l[k]).1) == v && l[k].0 == id_of_name(
                    l,
                    v,
                )->0;
            assert(text::lower(l[k].1).take(v.len() as int) =~= v);
            assert(k == i);
        }
    }
}

proof fn lemma_id_of_name(l: Seq<(u32, Seq<char>)>, v: Seq<char>)
    ensures
        id_of_name(l, v) is Some ==> has_id(l, id_of_name(l, v)->0) && exists|k: int|
            0 <= k < l.len() && text::lower((#[trigger] l[k]).1) == v && l[k].0 == id_of_name(
                l,
                v,
            )->0,
    decreases l.len(),
{
    if l.len() > 0 {
        let t = l.drop_first();
        lemma_id_of_name(t, v);
        if id_of_name(l, v) is Some {
            if text::lower(l[0].1) == v {
                assert(l[0].0 == id_of_name(l, v)->0);
            } else {
                let k = choose|k: int|
                    0 <= k < t.len() && text::lower((#[trigger] t[k]).1) == v && t[k].0
                        == id_of_name(t, v)->0;
                assert(l[k + 1] == t[k]);
            }
        }
    }
}

proof fn lemma_id_of_first(l: Seq<(u32, Seq<char>)>, v: Seq<char>, i: int)
    requires
        0 <= i < l.len(),
        text::lower(l[i].1) == v,
        forall|k: int| 0 <= k < i ==> text::lower((#[trigger] l[k]).1) != v,
    ensures
        id_of_name(l, v) == Some(l[i].0),
    decreases l.len(),
{
    if i > 0 {
        assert(text::lower(l[0].1) != v);
        let t = l.drop_first();
        assert forall|k: int| 0 <= k < i - 1 implies text::lower((#[trigger] t[k]).1) != v by {
            assert(t[k] == l[k + 1]);
        }
        assert(t[i - 1] == l[i]);
        lemma_id_of_first(t, v, i - 1);
    }
}

proof fn lemma_only_one<A>(l: Seq<A>, p: spec_fn(A) -> bool, i: int)
    requires
        0 <= i < l.len(),
        p(l[i]),
        forall|k: int| 0 <= k < l.len() && k != i ==> !p(#[trigger] l[k]),
    ensures
        l.filter(p) == seq![l[i]],
    decreases l.len(),
{
    reveal(Seq::filter);
    let t = l.drop_last();
    if i == l.len() - 1 {
        assert forall|k: int| 0 <= k < t.len() implies !p(#[trigger] t[k]) by {
            assert(!p(l[k]));
        }
        lemma_none(t, p);
        assert(l.filter(p) =~= seq![l[i]]);
    } else {
        assert forall|k: int| 0 <= k < t.len() && k != i implies !p(#[trigger] t[k]) by {
            assert(!p(l[k]));
        }
        assert(t[i] == l[i]);
        lemma_only_one(t, p, i);
        assert(!p(l[l.len() - 1]));
    }
}

proof fn lemma_none<A>(l: Seq<A>, p: spec_fn(A) -> bool)
    requires
        forall|k: int| 0 <= k < l.len() ==> !p(#[trigger] l[k]),
    ensures
        l.filter(p) == Seq::<A>::empty(),
    decreases l.len(),
{
    reveal(Seq::filter);
    if l.len() > 0 {
        let t = l.drop_last();
        assert forall|k: int| 0 <= k < t.len() implies !p(#[trigger] t[k]) by {
            assert(!p(l[k]));
        }
        lemma_none(t, p);
        assert(!p(l[l.len() - 1]));
    }
}

/// A language is meant by its code or by its name, in capitals or not; the first
/// on the list counts, and what is not on it means none.
pub proof fn languages_are_meant_by_code_or_name(l: Seq<(Seq<char>, Seq<char>)>, v: Seq<char>, i: int)
    ensures
        0 <= i < l.len() && (l[i].0 == v || text::lower(l[i].1) == v) && (forall|k: int|
            0 <= k < i ==> (#[trigger] l[k]).0 != v && text::lower(l[k].1) != v) ==> code_of(l, v)
            == Some(l[i].0),
        (forall|k: int| 0 <= k < l.len() ==> (#[trigger] l[k]).0 != v && text::lower(l[k].1) != v)
            ==> code_of(l, v) is None,
    decreases l.len(),
{
    if l.len() > 0 {
        let t = l.drop_first();
        languages_are_meant_by_code_or_name(t, v, i - 1);
        assert forall|k: int| 0 <= k < t.len() implies #[trigger] t[k] == l[k + 1] by {}
        if l[0].0 != v && text::lower(l[0].1) != v {
            if forall|k: int|
                0 <= k < l.len() ==> (#[trigger] l[k]).0 != v && text::lower(l[k].1) != v {
                assert forall|k: int| 0 <= k < t.len() implies (#[trigger] t[k]).0 != v
                    && text::lower(t[k].1) != v by {
                    assert(l[k + 1].0 != v);
                }
            }
            if 0 < i < l.len() && (l[i].0 == v || text::lower(l[i].1) == v) && (forall|k: int|
                0 <= k < i ==> (#[trigger] l[k]).0 != v && text::lower(l[k].1) != v) {
                assert forall|k: int| 0 <= k < i - 1 implies (#[trigger] t[k]).0 != v
                    && text::lower(t[k].1) != v by {
                    assert(l[k + 1].0 != v);
                }
                assert(t[i - 1] == l[i]);
            }
        }
    }
}

/// Nothing is refused where each value that is given means something, the sort is
/// one that the kind has, and the rating is from 5 to 9; what is refused is refused
/// for a value that was given and is at fault.
pub proof fn only_what_means_nothing_is_refused(
    kind: Kind,
    sort: Option<&str>,
    genre: Option<&str>,
    language: Option<&str>,
    min_rating: Option<u32>,
    year: Option<&str>,
)
    ensures
        ({
            let r = refused(kind, sort, genre, language, min_rating, year);
            let bad_sort = sort is Some && sort_meant(sort->0@) is None;
            let no_such_sort = sort is Some && kind is Tv && sort_meant(sort->0@) == Some(
                Sort::BoxOffice,
            );
            let bad_genre = genre is Some && genre_meant(genre_table(kind), genre->0@) is None;
            let bad_language = language is Some && language_meant(language->0@) is None;
            let bad_rating = min_rating is Some && (min_rating->0 < 5 || min_rating->0 > 9);
            let bad_year = year is Some && years_meant(year->0@) is None;
            &&& r is None <==> !bad_sort && !no_such_sort && !bad_genre && !bad_language
                && !bad_rating && !bad_year
            &&& r == Some(FilterError::UnknownSort) ==> bad_sort
            &&& r == Some(FilterError::MoviesOnly) ==> no_such_sort
            &&& r == Some(FilterError::UnknownGenre) ==> bad_genre
            &&& r == Some(FilterError::UnknownLanguage) ==> bad_language
            &&& r == Some(FilterError::BadRating) ==> bad_rating
            &&& r == Some(FilterError::UnknownYear) ==> bad_year
        }),
{
    let v = sorts_for(kind);
    assert(v[0] == Sort::Popular && v[1] == Sort::TopRated && v[2] == Sort::Newest && v[3]
        == Sort::Oldest);
    assert(kind is Movie ==> v[4] == Sort::BoxOffice);
    assert(v.contains(v[0]) && v.contains(v[1]) && v.contains(v[2]) && v.contains(v[3]));
    assert(kind is Movie ==> v.contains(v[4]));
}

/// What a sort is called means that sort.
pub proof fn labels_mean_their_sorts(s: Sort)
    ensures
        sort_meant(sort_label(s)) == Some(s),
{
    reveal_strlit("Popular");
    reveal_strlit("Top Rated");
    reveal_strlit("Newest");
    reveal_strlit("Oldest");
    reveal_strlit("Box Office");
    reveal_strlit("popular");
    reveal_strlit("popularity");
    reveal_strlit("top_rated");
    reveal_strlit("top");
    reveal_strlit("rating");
    reveal_strlit("newest");
    reveal_strlit("new");
    reveal_strlit("latest");
    reveal_strlit("oldest");
    reveal_strlit("old");
    reveal_strlit("box_office");
    let t = sort_label(s);
    assert(!text::is_space(t[0]) && !text::is_space(t.last()));
    assert(text::trim(t) == t);
    let u = underscored(text::lower(t));
    match s {
        Sort::Popular => { assert(u =~= "popular"@); },
        Sort::TopRated => { assert(u =~= "top_rated"@); assert(u[0] == 't'); },
        Sort::Newest => { assert(u =~= "newest"@); assert(u[0] == 'n'); },
        Sort::Oldest => { assert(u =~= "oldest"@); assert(u[0] == 'o'); },
        Sort::BoxOffice => { assert(u =~= "box_office"@); assert(u[0] == 'b'); },
    }
    assert("popular"@[0] == 'p' && "popularity"@[0] == 'p' && "rating"@[0] == 'r');
    assert("top_rated"@[0] == 't' && "top"@[0] == 't' && "latest"@[0] == 'l');
    assert("newest"@[0] == 'n' && "new"@[0] == 'n' && "oldest"@[0] == 'o' && "old"@[0] == 'o');
}

/// What is given is what is asked for, and what is not given asks for nothing:
/// the popular, of any genre, language, rating, person and year.
pub proof fn what_is_given_is_asked_for(
    f: Filters,
    kind: Kind,
    sort: Option<&str>,
    genre: Option<&str>,
    language: Option<&str>,
    min_rating: Option<u32>,
    cast: Option<u32>,
    year: Option<&str>,
)
    requires
        means(f, kind, sort, genre, language, min_rating, cast, year),
        refused(kind, sort, genre, language, min_rating, year) is None,
    ensures
        f.kind == kind,
        sort is Some ==> Some(f.sort) == sort_meant(sort->0@),
        sort is None ==> f.sort is Popular,
        genre is Some ==> Some(f.genre_id) == genre_meant(genre_table(kind), genre->0@),
        genre is None ==> f.genre_id == 0,
        language is Some ==> Some(f.language@) == language_meant(language->0@),
        language is None ==> f.language@.len() == 0,
        min_rating is Some ==> f.min_rating == min_rating->0,
        min_rating is None ==> f.min_rating == 0,
        cast is Some ==> f.cast_id == cast->0,
        cast is None ==> f.cast_id == 0,
        year is Some ==> f.years == years_meant(year->0@),
        year is None ==> f.years is None,
{
}

/// The summary names the sort first, and then what is asked for and nothing else:
/// the genre, the language, the years, the person and the rating.
pub proof fn the_summary_names_what_is_asked(f: Filters)
    ensures
        ({
            let s = summary_parts(f);
            let genre = name_of_id(genre_table(f.kind), f.genre_id);
            let language = name_of_code(language_table(), f.language@);
            let one = |b: bool|
                if b {
                    1int
                } else {
                    0
                };
            &&& s[0] == sort_label(f.sort)
            &&& s.len() == 1 + one(f.genre_id > 0 && genre is Some) + one(
                f.language@.len() > 0 && language is Some,
            ) + one(f.years is Some) + one(f.cast_id > 0) + one(f.min_rating > 0)
            &&& f.genre_id > 0 && genre is Some ==> s.contains(genre->0)
            &&& f.language@.len() > 0 && language is Some ==> s.contains(language->0)
            &&& f.years is Some && (f.years->0).0 == (f.years->0).1 ==> s.contains(
                text::decimal((f.years->0).0 as nat),
            )
            &&& f.years is Some && (f.years->0).0 != (f.years->0).1 ==> s.contains(
                text::decimal((f.years->0).0 as nat) + "-"@ + text::decimal(
                    (f.years->0).1 as nat,
                ),
            )
            &&& f.cast_id > 0 ==> s.contains("Cast #"@ + text::decimal(f.cast_id as nat))
            &&& f.min_rating > 0 ==> s.contains(text::decimal(f.min_rating as nat) + "+"@)
        }),
{
    let s = summary_parts(f);
    let genre = name_of_id(genre_table(f.kind), f.genre_id);
    let language = name_of_code(language_table(), f.language@);
    let a: int = 1;
    let b: int = a + if f.genre_id > 0 && genre is Some {
        1int
    } else {
        0
    };
    let c: int = b + if f.language@.len() > 0 && language is Some {
        1int
    } else {
        0
    };
    let d: int = c + if f.years is Some {
        1int
    } else {
        0
    };
    let e: int = d + if f.cast_id > 0 {
        1int
    } else {
        0
    };
    if f.genre_id > 0 && genre is Some {
        assert(s[a] == genre->0);
    }
    if f.language@.len() > 0 && language is Some {
        assert(s[b] == language->0);
    }
    if f.years is Some {
        assert(s[c] == years_text((f.years->0).0, (f.years->0).1));
    }
    if f.cast_id > 0 {
        assert(s[d] == "Cast #"@ + text::decimal(f.cast_id as nat));
    }
    if f.min_rating > 0 {
        assert(s[e] == text::decimal(f.min_rating as nat) + "+"@);
    }
}

} // verus!
