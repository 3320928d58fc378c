//! Titles and people, as TMDB describes them.
//!
//! What TMDB answers is narrowed here to what can be shown and played: hits,
//! films, shows, seasons, episodes, credits and trailers, each list put in
//! order and capped. Asking TMDB is left to the caller: `request_url` and the
//! paths say what to ask, the functions below what to make of the answer.
//!
//! Runtime matters more here than it looks: it is the denominator that turns a
//! release's byte size into a required bitrate, which is what `pick` uses to
//! decide whether a given release can actually be streamed smoothly. When TMDB
//! has no runtime we fall back rather than fail, but the estimate gets softer.

use crate::browse;
use crate::browse::Filters;
use crate::browse::Kind;
use crate::browse::Sort;
use crate::float::Float;
use crate::list;
use crate::list::Condition;
use crate::list::Narrow;
use crate::list::Order;
use crate::list::Tag;
use crate::text;
use crate::torrentio;
use vstd::prelude::*;

verus! {

pub const BASE: &'static str = "https://api.themoviedb.org/3";

/// TMDB rejects `page` above this, regardless of the `total_pages` it reports.
pub const TMDB_MAX_PAGE: u32 = 500;

/// Assumed runtime when TMDB reports none. Deliberately on the long side: a
/// too-long guess understates the bitrate, which makes us *more* willing to try
/// a release, and the live throughput probe still has the final say.
pub const FALLBACK_MOVIE_MINUTES: u32 = 110;

pub const FALLBACK_EPISODE_MINUTES: u32 = 45;

/// Caps on the rich half of a title. A panel shows shelves, not phone books,
/// and every extra row is a face to download before it can be drawn.
pub const MAX_CAST: usize = 20;

pub const MAX_CREW: usize = 12;

pub const MAX_SIMILAR: usize = 20;

/// Credits on a person page. A prolific actor has hundreds of them.
pub const MAX_CREDITS: usize = 40;

/// Rows per page when a listing is paged here rather than by TMDB. Matches
/// what `/discover` returns, so a caller's paging maths does not have to
/// branch on which endpoint answered.
pub const PERSON_PAGE_SIZE: usize = 20;

#[derive(Clone, Copy, PartialEq, Eq, Hash, Debug, Structural)]
pub enum MediaType {
    Movie,
    Tv,
}

impl MediaType {
    /// Torrentio's word for it.
    pub fn torrentio(self) -> (r: &'static str)
        ensures
            r@ == match self {
                MediaType::Movie => "movie"@,
                MediaType::Tv => "series"@,
            },
    {
        match self {
            MediaType::Movie => "movie",
            MediaType::Tv => "series",
        }
    }

    pub open spec fn label_text(self) -> Seq<char> {
        match self {
            MediaType::Movie => "Movie"@,
            MediaType::Tv => "Series"@,
        }
    }

    pub fn label(self) -> (r: &'static str)
        ensures
            r@ == self.label_text(),
    {
        match self {
            MediaType::Movie => "Movie",
            MediaType::Tv => "Series",
        }
    }

    pub open spec fn key_text(self) -> Seq<char> {
        match self {
            MediaType::Movie => "movie"@,
            MediaType::Tv => "tv"@,
        }
    }

    /// TMDB's word for it, which is also what `dekho api` emits.
    pub fn key(self) -> (r: &'static str)
        ensures
            r@ == self.key_text(),
    {
        match self {
            MediaType::Movie => "movie",
            MediaType::Tv => "tv",
        }
    }

    pub fn of(kind: Kind) -> (r: MediaType)
        ensures
            r == media_of(kind),
    {
        match kind {
            Kind::Movie => MediaType::Movie,
            Kind::Tv => MediaType::Tv,
        }
    }
}

pub open spec fn media_of(kind: Kind) -> MediaType {
    match kind {
        Kind::Movie => MediaType::Movie,
        Kind::Tv => MediaType::Tv,
    }
}

// --- hits -------------------------------------------------------------------------

/// One search hit, already narrowed to something we can actually play.
///
/// The artwork and overview are carried even though the interactive pickers
/// never show them: `dekho api` hands the same hit to a panel that does.
#[derive(Debug)]
pub struct SearchHit {
    pub id: u32,
    pub media_type: MediaType,
    pub title: String,
    pub year: String,
    pub vote: Float,
    /// TMDB paths, leading slash included, or empty when TMDB has none.
    pub poster: String,
    pub backdrop: String,
    pub overview: String,
}

/// What a hit says.
#[verifier::ext_equal]
pub struct Hit {
    pub id: u32,
    pub media_type: MediaType,
    pub title: Seq<char>,
    pub year: Seq<char>,
    pub vote: Float,
    pub poster: Seq<char>,
    pub backdrop: Seq<char>,
    pub overview: Seq<char>,
}

impl View for SearchHit {
    type V = Hit;

    open spec fn view(&self) -> Hit {
        Hit {
            id: self.id,
            media_type: self.media_type,
            title: self.title@,
            year: self.year@,
            vote: self.vote,
            poster: self.poster@,
            backdrop: self.backdrop@,
            overview: self.overview@,
        }
    }
}

impl Clone for SearchHit {
    fn clone(&self) -> (r: SearchHit)
        ensures
            r == *self,
    {
        SearchHit {
            id: self.id,
            media_type: self.media_type,
            title: self.title.clone(),
            year: self.year.clone(),
            vote: self.vote,
            poster: self.poster.clone(),
            backdrop: self.backdrop.clone(),
            overview: self.overview.clone(),
        }
    }
}

/// A year in brackets behind a space, or nothing where there is none.
pub open spec fn bracketed(year: Seq<char>) -> Seq<char> {
    if year.len() == 0 {
        Seq::empty()
    } else {
        " ("@ + year + ")"@
    }
}

/// A text, filled up with spaces to seven characters.
pub open spec fn in_seven(s: Seq<char>) -> Seq<char>
    decreases 7 - s.len(),
{
    if s.len() < 7 {
        in_seven(s.push(' '))
    } else {
        s
    }
}

impl SearchHit {
    /// The hit as a row of a menu. `vote` is its vote, written with one decimal.
    pub fn line(&self, vote: &str) -> (r: String)
        ensures
            r@ == in_seven(self.media_type.label_text()) + " "@ + self.title@ + bracketed(
                self.year@,
            ) + "  ★ "@ + vote@,
    {
        let mut out = text::chars_of(self.media_type.label());
        let ghost label = out@;
        while out.len() < 7
            invariant
                in_seven(out@) == in_seven(label),
            decreases 7 - out.len(),
        {
            out.push(' ');
        }
        text::push_str(&mut out, " ");
        text::push_str(&mut out, self.title.as_str());
        if !self.year.as_str().is_empty() {
            text::push_str(&mut out, " (");
            text::push_str(&mut out, self.year.as_str());
            text::push_str(&mut out, ")");
        }
        text::push_str(&mut out, "  ★ ");
        text::push_str(&mut out, vote);
        let r = text::string_of(out.as_slice());
        assert(r@ =~= in_seven(label) + " "@ + self.title@ + bracketed(self.year@) + "  ★ "@
            + vote@);
        r
    }
}

// --- raw results ------------------------------------------------------------------

/// One result of a search, a listing or a filmography, as TMDB sends it.
#[derive(Debug)]
pub struct SearchItem {
    pub id: u32,
    pub media_type: Option<String>,
    pub title: Option<String>,
    pub name: Option<String>,
    pub release_date: Option<String>,
    pub first_air_date: Option<String>,
    pub vote_average: Option<Float>,
    pub poster_path: Option<String>,
    pub backdrop_path: Option<String>,
    pub overview: Option<String>,
    // Only ever set on `combined_credits` entries, which is why they can reuse
    // this struct rather than declaring a near-identical one.
    pub popularity: Option<Float>,
    pub character: Option<String>,
    pub job: Option<String>,
    pub genre_ids: Option<Vec<u32>>,
    pub original_language: Option<String>,
}

/// The text, or an empty one.
fn owned(s: Option<String>) -> (r: String)
    ensures
        r@ == text::or_empty(s),
{
    match s {
        Some(s) => s,
        None => {
            let e: Vec<char> = Vec::new();
            text::string_of(e.as_slice())
        },
    }
}

pub open spec fn or_zero(v: Option<Float>) -> Float {
    match v {
        Some(v) => v,
        None => Float { bits: 0 },
    }
}

fn known(v: Option<Float>) -> (r: Float)
    ensures
        r == or_zero(v),
{
    match v {
        Some(v) => v,
        None => Float::zero(),
    }
}

/// The first four bytes of a date, or nothing where they do not end with a
/// character.
pub open spec fn year_text(date: Option<String>) -> Seq<char> {
    match date {
        Some(d) => match text::byte_prefix(d@, 4) {
            Some(y) => y,
            None => Seq::empty(),
        },
        None => Seq::empty(),
    }
}

pub fn year_of(date: &Option<String>) -> (r: String)
    ensures
        r@ == year_text(*date),
{
    let none: Vec<char> = Vec::new();
    match date {
        Some(d) => {
            let chars = text::chars_of(d.as_str());
            match text::cut_bytes(chars.as_slice(), 4) {
                Some(y) => text::string_of(y.as_slice()),
                None => text::string_of(none.as_slice()),
            }
        },
        None => text::string_of(none.as_slice()),
    }
}

/// The kind a result names, or else the one its endpoint implies.
pub open spec fn kind_meant(named: Option<String>, implied: Option<MediaType>) -> Option<
    MediaType,
> {
    if named is Some && (named->0)@ == "movie"@ {
        Some(MediaType::Movie)
    } else if named is Some && (named->0)@ == "tv"@ {
        Some(MediaType::Tv)
    } else {
        implied
    }
}

pub open spec fn title_meant(item: SearchItem) -> Option<String> {
    match item.title {
        Some(t) => Some(t),
        None => item.name,
    }
}

/// What a result amounts to, where it is something that can be played.
pub open spec fn hit_of(item: SearchItem, implied: Option<MediaType>) -> Option<Hit> {
    match (kind_meant(item.media_type, implied), title_meant(item)) {
        (Some(media_type), Some(title)) => if text::trim(title@).len() == 0 {
            None
        } else {
            Some(
                Hit {
                    id: item.id,
                    media_type,
                    title: title@,
                    year: match media_type {
                        MediaType::Movie => year_text(item.release_date),
                        MediaType::Tv => year_text(item.first_air_date),
                    },
                    vote: or_zero(item.vote_average),
                    poster: text::or_empty(item.poster_path),
                    backdrop: text::or_empty(item.backdrop_path),
                    overview: text::or_empty(item.overview),
                },
            )
        },
        _ => None,
    }
}

fn kind_of(named: &Option<String>, implied: Option<MediaType>) -> (r: Option<MediaType>)
    ensures
        r == kind_meant(*named, implied),
{
    match named {
        Some(n) => if text::same_str(n.as_str(), "movie") {
            Some(MediaType::Movie)
        } else if text::same_str(n.as_str(), "tv") {
            Some(MediaType::Tv)
        } else {
            implied
        },
        None => implied,
    }
}

/// TMDB TV genres for formats nobody browses a filmography to find: Talk,
/// News, Reality.
pub open spec fn is_chat_genre(g: u32) -> bool {
    g == 10767 || g == 10763 || g == 10764
}

/// A text that is a word, or begins with it and a space.
pub open spec fn leads_with(s: Seq<char>, word: Seq<char>) -> bool {
    s == word || text::begins(s, word + " "@)
}

/// Whether a credit is someone turning up as themselves rather than playing
/// anyone.
pub open spec fn appears(character: Seq<char>, genre_ids: Seq<u32>) -> bool {
    let c = text::lower(text::trim(character));
    ||| exists|i: int| 0 <= i < genre_ids.len() && is_chat_genre(#[trigger] genre_ids[i])
    ||| leads_with(c, "self"@)
    ||| leads_with(c, "himself"@)
    ||| leads_with(c, "herself"@)
    ||| leads_with(c, "themselves"@)
}

fn leads(s: &[char], word: &str) -> (r: bool)
    ensures
        r == leads_with(s@, word@),
{
    if text::is_str(s, word) {
        return true;
    }
    let mut w = text::chars_of(word);
    text::push_str(&mut w, " ");
    text::starts_with(s, w.as_slice())
}

/// Whether a credit is someone turning up as themselves rather than playing
/// anyone.
///
/// This is not tidiness. TMDB's `popularity` is dominated by shows that air
/// every weeknight, so sorting a career by it puts *The Tonight Show* and
/// *Watch What Happens Live* above Breaking Bad on Bryan Cranston's page.
/// Both signals TMDB gives are used: the format of the show, and the fact that
/// the "character" is the person.
pub fn is_appearance(character: &str, genre_ids: &[u32]) -> (r: bool)
    ensures
        r == appears(character@, genre_ids@),
{
    let n = genre_ids.len();
    let mut i: usize = 0;
    while i < n
        invariant
            i <= n == genre_ids@.len(),
            forall|k: int| 0 <= k < i ==> !is_chat_genre(#[trigger] genre_ids@[k]),
        decreases n - i,
    {
        let g = genre_ids[i];
        if g == 10767 || g == 10763 || g == 10764 {
            assert(is_chat_genre(genre_ids@[i as int]));
            return true;
        }
        i += 1;
    }
    let all = text::chars_of(character);
    let trimmed = text::trimmed(all.as_slice());
    let c = text::lowered(trimmed.as_slice());
    // "Self", "Self - Guest", "Himself (archive footage)": always the word
    // first, so a role literally named "Herself" in a drama is safe from this.
    leads(c.as_slice(), "self") || leads(c.as_slice(), "himself") || leads(
        c.as_slice(),
        "herself",
    ) || leads(c.as_slice(), "themselves")
}

/// One title on a person's page: an ordinary hit plus what they did in it.
#[derive(Clone, Debug)]
pub struct Credit {
    pub hit: SearchHit,
    /// Empty for a crew credit.
    pub character: String,
    /// Empty for a cast credit.
    pub job: String,
    /// TMDB's own popularity figure, which is what orders the list.
    pub popularity: Float,
    /// A talk-show sofa rather than a role. See `is_appearance`.
    pub appearance: bool,
    /// Carried so a person's TV credits can be filtered the way `discover`
    /// filters the catalog. See `person_page`.
    pub genre_ids: Vec<u32>,
    pub language: String,
}

/// What a credit says.
#[verifier::ext_equal]
pub struct Part {
    pub hit: Hit,
    pub character: Seq<char>,
    pub job: Seq<char>,
    pub popularity: Float,
    pub appearance: bool,
    pub genre_ids: Seq<u32>,
    pub language: Seq<char>,
}

impl View for Credit {
    type V = Part;

    open spec fn view(&self) -> Part {
        Part {
            hit: self.hit@,
            character: self.character@,
            job: self.job@,
            popularity: self.popularity,
            appearance: self.appearance,
            genre_ids: self.genre_ids@,
            language: self.language@,
        }
    }
}

pub open spec fn ids_or_none(ids: Option<Vec<u32>>) -> Seq<u32> {
    match ids {
        Some(v) => v@,
        None => Seq::empty(),
    }
}

/// What a filmography entry amounts to: the hit, and what the person did.
pub open spec fn part_of(item: SearchItem, implied: Option<MediaType>) -> Option<Part> {
    match hit_of(item, implied) {
        Some(hit) => Some(
            Part {
                hit,
                character: text::or_empty(item.character),
                job: text::or_empty(item.job),
                popularity: or_zero(item.popularity),
                appearance: appears(text::or_empty(item.character), ids_or_none(item.genre_ids)),
                genre_ids: ids_or_none(item.genre_ids),
                language: text::or_empty(item.original_language),
            },
        ),
        None => None,
    }
}

impl SearchItem {
    /// Narrow a raw result to something playable, or drop it.
    ///
    /// `implied` is the kind the endpoint already fixed: `/discover` and
    /// `/trending/movie` results carry no `media_type` of their own. Where
    /// there is none, as in a multi-search, anything that is not a movie or a
    /// show is dropped here rather than shown in a picker and rejected later.
    pub fn into_hit(self, implied: Option<MediaType>) -> (r: Option<SearchHit>)
        ensures
            match r {
                Some(h) => hit_of(self, implied) == Some(h@),
                None => hit_of(self, implied) is None,
            },
    {
        let media_type = match kind_of(&self.media_type, implied) {
            Some(m) => m,
            None => {
                return None;
            },
        };
        let title: String = match self.title {
            Some(t) => t,
            None => match self.name {
                Some(t) => t,
                None => {
                    return None;
                },
            },
        };
        let chars = text::chars_of(title.as_str());
        if text::trimmed(chars.as_slice()).len() == 0 {
            return None;
        }
        let year = match media_type {
            MediaType::Movie => year_of(&self.release_date),
            MediaType::Tv => year_of(&self.first_air_date),
        };
        Some(
            SearchHit {
                id: self.id,
                media_type,
                title,
                year,
                vote: known(self.vote_average),
                poster: owned(self.poster_path),
                backdrop: owned(self.backdrop_path),
                overview: owned(self.overview),
            },
        )
    }

    /// A filmography entry: the same hit, plus what the person did.
    ///
    /// `implied` matters for the same reason it does in `into_hit`:
    /// `combined_credits` labels each entry, `tv_credits` does not.
    pub fn into_credit(self, implied: Option<MediaType>) -> (r: Option<Credit>)
        ensures
            match r {
                Some(c) => part_of(self, implied) == Some(c@),
                None => part_of(self, implied) is None,
            },
    {
        let mut item = self;
        let character = owned(item.character.take());
        let job = owned(item.job.take());
        let popularity = known(item.popularity);
        let genre_ids: Vec<u32> = match item.genre_ids.take() {
            Some(v) => v,
            None => Vec::new(),
        };
        let language = owned(item.original_language.take());
        let appearance = is_appearance(character.as_str(), genre_ids.as_slice());
        match item.into_hit(implied) {
            Some(hit) => Some(
                Credit { hit, character, job, popularity, appearance, genre_ids, language },
            ),
            None => None,
        }
    }
}

// --- listings ---------------------------------------------------------------------

/// Playable results, with the kind the endpoint implies; with `drawn`, only
/// those that have a poster.
struct Playable {
    implied: Option<MediaType>,
    drawn: bool,
}

impl Narrow<SearchItem, SearchHit> for Playable {
    closed spec fn result(&self, a: SearchItem) -> Option<Hit> {
        if self.drawn && a.poster_path is None {
            None
        } else {
            hit_of(a, self.implied)
        }
    }

    fn narrow(&self, a: SearchItem) -> (r: Option<SearchHit>) {
        if self.drawn && a.poster_path.is_none() {
            None
        } else {
            a.into_hit(self.implied)
        }
    }
}

/// The playable results, in the order they came.
pub open spec fn hits_of(items: Seq<SearchItem>, implied: Option<MediaType>) -> Seq<Hit> {
    list::chosen(items, |i: SearchItem| hit_of(i, implied))
}

/// The playable results that have a poster, in the order they came.
pub open spec fn drawn_hits_of(items: Seq<SearchItem>, implied: MediaType) -> Seq<Hit> {
    list::chosen(
        items,
        |i: SearchItem|
            if i.poster_path is None {
                None
            } else {
                hit_of(i, Some(implied))
            },
    )
}

/// The playable results of a search or of what is trending. A search across
/// everything also returns people; they are dropped here rather than shown and
/// rejected later, so every row in the picker is playable.
pub fn hits(results: Vec<SearchItem>, implied: Option<MediaType>) -> (r: Vec<SearchHit>)
    ensures
        list::views(r@) == hits_of(results@, implied),
{
    let n = Playable { implied, drawn: false };
    assert((|a: SearchItem| n.result(a)) =~= (|i: SearchItem| hit_of(i, implied)));
    list::through(results, &n)
}

/// The playable results with a poster. On TMDB a missing poster reliably marks
/// a stub entry with no usable metadata.
fn drawn_hits(results: Vec<SearchItem>, implied: MediaType) -> (r: Vec<SearchHit>)
    ensures
        list::views(r@) == drawn_hits_of(results@, implied),
{
    let n = Playable { implied: Some(implied), drawn: true };
    assert((|a: SearchItem| n.result(a)) =~= (|i: SearchItem|
        if i.poster_path is None {
            None
        } else {
            hit_of(i, Some(implied))
        }));
    list::through(results, &n)
}

/// One page of catalog results.
#[derive(Debug)]
pub struct CatalogPage {
    pub items: Vec<SearchHit>,
    pub page: u32,
    pub total_pages: u32,
}

impl CatalogPage {
    pub fn has_next(&self) -> (r: bool)
        ensures
            r == (self.page < self.total_pages),
    {
        self.page < self.total_pages
    }
}

/// One page of the catalog, from TMDB's answer to `Filters::discover_path`.
///
/// `discover` results carry no `media_type`, since the endpoint implies it, so
/// it is filled in from the filters rather than read off each item.
pub fn discover_page(
    results: Vec<SearchItem>,
    total_pages: Option<u32>,
    kind: Kind,
    page: u32,
) -> (r: CatalogPage)
    ensures
        list::views(r.items@) == drawn_hits_of(results@, media_of(kind)),
        r.page == page,
        r.total_pages == match total_pages {
            Some(n) => if n < TMDB_MAX_PAGE {
                n
            } else {
                TMDB_MAX_PAGE
            },
            None => 1,
        },
{
    let total_pages: u32 = match total_pages {
        Some(n) => if n < TMDB_MAX_PAGE {
            n
        } else {
            // TMDB refuses `page` above this whatever it reports as the total.
            TMDB_MAX_PAGE
        },
        None => 1,
    };
    CatalogPage { items: drawn_hits(results, MediaType::of(kind)), page, total_pages }
}

/// The shelf of similar titles.
pub fn similar_hits(results: Vec<SearchItem>, implied: MediaType) -> (r: Vec<SearchHit>)
    ensures
        list::views(r@) == list::first(drawn_hits_of(results@, implied), MAX_SIMILAR as nat),
{
    let all = drawn_hits(results, implied);
    let ghost whole = all@;
    let r = list::cut(all, MAX_SIMILAR);
    assert(list::views(r@) =~= list::first(list::views(whole), MAX_SIMILAR as nat));
    r
}

// --- names ------------------------------------------------------------------------

/// `genres`, as TMDB sends them.
#[derive(Debug)]
pub struct GenreRef {
    pub name: Option<String>,
}

/// `production_companies`, `networks`: anything TMDB models as a named thing.
#[derive(Debug)]
pub struct NamedRef {
    pub name: Option<String>,
}

#[derive(Debug)]
pub struct CountryRef {
    pub iso_3166_1: Option<String>,
}

#[derive(Debug)]
pub struct LanguageRef {
    pub english_name: Option<String>,
    pub name: Option<String>,
}

/// The text, where there is one.
pub open spec fn some_text(s: Option<String>) -> Option<Seq<char>> {
    match s {
        Some(s) => Some(s@),
        None => None,
    }
}

/// The text, where there is one and it is not empty.
pub open spec fn filled(s: Option<String>) -> Option<Seq<char>> {
    match s {
        Some(s) => if s@.len() == 0 {
            None
        } else {
            Some(s@)
        },
        None => None,
    }
}

fn filled_in(s: Option<String>) -> (r: Option<String>)
    ensures
        some_text(r) == filled(s),
{
    match s {
        Some(s) => if s.as_str().is_empty() {
            None
        } else {
            Some(s)
        },
        None => None,
    }
}

pub open spec fn entries<T>(v: Option<Vec<T>>) -> Seq<T> {
    match v {
        Some(v) => v@,
        None => Seq::empty(),
    }
}

fn listed<T>(v: Option<Vec<T>>) -> (r: Vec<T>)
    ensures
        r@ == entries(v),
{
    match v {
        Some(v) => v,
        None => Vec::new(),
    }
}

struct GenreNames;

impl Narrow<GenreRef, String> for GenreNames {
    closed spec fn result(&self, a: GenreRef) -> Option<Seq<char>> {
        some_text(a.name)
    }

    fn narrow(&self, a: GenreRef) -> (r: Option<String>) {
        a.name
    }
}

pub open spec fn genre_texts(genres: Seq<GenreRef>) -> Seq<Seq<char>> {
    list::chosen(genres, |g: GenreRef| some_text(g.name))
}

pub fn genre_names(genres: Option<Vec<GenreRef>>) -> (r: Vec<String>)
    ensures
        list::views(r@) == genre_texts(entries(genres)),
{
    let n = GenreNames;
    assert((|a: GenreRef| n.result(a)) =~= (|g: GenreRef| some_text(g.name)));
    list::through(listed(genres), &n)
}

struct Names;

impl Narrow<NamedRef, String> for Names {
    closed spec fn result(&self, a: NamedRef) -> Option<Seq<char>> {
        filled(a.name)
    }

    fn narrow(&self, a: NamedRef) -> (r: Option<String>) {
        filled_in(a.name)
    }
}

pub open spec fn names_of(l: Seq<NamedRef>) -> Seq<Seq<char>> {
    list::chosen(l, |n: NamedRef| filled(n.name))
}

pub fn named(l: Option<Vec<NamedRef>>) -> (r: Vec<String>)
    ensures
        list::views(r@) == names_of(entries(l)),
{
    let n = Names;
    assert((|a: NamedRef| n.result(a)) =~= (|n: NamedRef| filled(n.name)));
    list::through(listed(l), &n)
}

struct Codes;

impl Narrow<CountryRef, String> for Codes {
    closed spec fn result(&self, a: CountryRef) -> Option<Seq<char>> {
        some_text(a.iso_3166_1)
    }

    fn narrow(&self, a: CountryRef) -> (r: Option<String>) {
        a.iso_3166_1
    }
}

pub open spec fn codes_of(l: Seq<CountryRef>) -> Seq<Seq<char>> {
    list::chosen(l, |c: CountryRef| some_text(c.iso_3166_1))
}

pub fn country_codes(l: Option<Vec<CountryRef>>) -> (r: Vec<String>)
    ensures
        list::views(r@) == codes_of(entries(l)),
{
    let n = Codes;
    assert((|a: CountryRef| n.result(a)) =~= (|c: CountryRef| some_text(c.iso_3166_1)));
    list::through(listed(l), &n)
}

/// The English name of a language where it has one, else its own.
pub open spec fn language_text(l: LanguageRef) -> Option<Seq<char>> {
    match filled(l.english_name) {
        Some(n) => Some(n),
        None => filled(l.name),
    }
}

struct LanguageNames;

impl Narrow<LanguageRef, String> for LanguageNames {
    closed spec fn result(&self, a: LanguageRef) -> Option<Seq<char>> {
        language_text(a)
    }

    fn narrow(&self, a: LanguageRef) -> (r: Option<String>) {
        match filled_in(a.english_name) {
            Some(n) => Some(n),
            None => filled_in(a.name),
        }
    }
}

pub open spec fn language_texts(l: Seq<LanguageRef>) -> Seq<Seq<char>> {
    list::chosen(l, |x: LanguageRef| language_text(x))
}

/// English names, because the panel's audience reads "Hindi", not "हिन्दी".
pub fn language_names(l: Option<Vec<LanguageRef>>) -> (r: Vec<String>)
    ensures
        list::views(r@) == language_texts(entries(l)),
{
    let n = LanguageNames;
    assert((|a: LanguageRef| n.result(a)) =~= (|x: LanguageRef| language_text(x)));
    list::through(listed(l), &n)
}

// --- cast -------------------------------------------------------------------------

/// One person in a title's cast, in TMDB's own billing order.
#[derive(Clone, Debug)]
pub struct CastMember {
    pub id: u32,
    pub name: String,
    pub character: String,
    /// TMDB path with a leading slash, empty when the person has no photo.
    pub profile: String,
    pub order: u32,
}

/// What a cast member says.
#[verifier::ext_equal]
pub struct Actor {
    pub id: u32,
    pub name: Seq<char>,
    pub character: Seq<char>,
    pub profile: Seq<char>,
    pub order: u32,
}

impl View for CastMember {
    type V = Actor;

    open spec fn view(&self) -> Actor {
        Actor {
            id: self.id,
            name: self.name@,
            character: self.character@,
            profile: self.profile@,
            order: self.order,
        }
    }
}

/// A cast entry, as TMDB sends it.
#[derive(Debug)]
pub struct CastItem {
    pub id: u32,
    pub name: Option<String>,
    pub character: Option<String>,
    pub profile_path: Option<String>,
    pub order: Option<u32>,
}

/// What a cast entry amounts to, where it names someone.
pub open spec fn actor_of(c: CastItem) -> Option<Actor> {
    if text::or_empty(c.name).len() == 0 {
        None
    } else {
        Some(
            Actor {
                id: c.id,
                name: text::or_empty(c.name),
                character: text::or_empty(c.character),
                profile: text::or_empty(c.profile_path),
                order: match c.order {
                    Some(n) => n,
                    None => u32::MAX,
                },
            },
        )
    }
}

struct Actors;

impl Narrow<CastItem, CastMember> for Actors {
    closed spec fn result(&self, a: CastItem) -> Option<Actor> {
        actor_of(a)
    }

    fn narrow(&self, a: CastItem) -> (r: Option<CastMember>) {
        let name = owned(a.name);
        if name.as_str().is_empty() {
            return None;
        }
        let order: u32 = match a.order {
            Some(n) => n,
            None => u32::MAX,
        };
        Some(
            CastMember {
                id: a.id,
                name,
                character: owned(a.character),
                profile: owned(a.profile_path),
                order,
            },
        )
    }
}

pub open spec fn billed_before(a: Actor, b: Actor) -> bool {
    a.order < b.order
}

struct Billing;

impl Order<CastMember> for Billing {
    closed spec fn before(&self, a: CastMember, b: CastMember) -> bool {
        billed_before(a@, b@)
    }

    fn less(&self, a: &CastMember, b: &CastMember) -> (r: bool) {
        a.order < b.order
    }
}

/// The named cast in billing order, as far as a shelf holds.
pub open spec fn billed(cast: Seq<CastItem>) -> Seq<Actor> {
    list::first(
        list::stable_sort(
            list::chosen(cast, |c: CastItem| actor_of(c)),
            |a: Actor, b: Actor| billed_before(a, b),
        ),
        MAX_CAST as nat,
    )
}

/// Billing order, capped. TMDB sends `order` on every entry, but not sorted.
pub fn cast_of(cast: Vec<CastItem>) -> (r: Vec<CastMember>)
    ensures
        list::views(r@) == billed(cast@),
{
    let n = Actors;
    assert((|a: CastItem| n.result(a)) =~= (|c: CastItem| actor_of(c)));
    let all = list::through(cast, &n);
    let order = Billing;
    proof {
        list::lemma_sort_maps(
            all@,
            |c: CastMember| c@,
            |a: CastMember, b: CastMember| order.before(a, b),
            |a: Actor, b: Actor| billed_before(a, b),
        );
    }
    let sorted = list::sorted(all, &order);
    let ghost whole = sorted@;
    let r = list::cut(sorted, MAX_CAST);
    assert(list::views(r@) =~= list::first(list::views(whole), MAX_CAST as nat));
    r
}

// --- crew -------------------------------------------------------------------------

/// One person behind a title, in a job a viewer would recognise.
#[derive(Clone, Debug)]
pub struct CrewMember {
    pub id: u32,
    pub name: String,
    pub job: String,
    pub profile: String,
}

/// What a crew member says.
#[verifier::ext_equal]
pub struct Maker {
    pub id: u32,
    pub name: Seq<char>,
    pub job: Seq<char>,
    pub profile: Seq<char>,
}

impl View for CrewMember {
    type V = Maker;

    open spec fn view(&self) -> Maker {
        Maker { id: self.id, name: self.name@, job: self.job@, profile: self.profile@ }
    }
}

/// A crew entry, as TMDB sends it.
#[derive(Debug)]
pub struct CrewItem {
    pub id: u32,
    pub name: Option<String>,
    pub job: Option<String>,
    pub profile_path: Option<String>,
}

/// Someone TMDB names as a show's creator.
#[derive(Debug)]
pub struct CreatedByRef {
    pub id: u32,
    pub name: Option<String>,
    pub profile_path: Option<String>,
}

/// Where a TMDB job stands among those a viewer cares about, best first, and
/// what to call it.
///
/// The place doubles as the tie-break when TMDB files one person under several
/// jobs, which it does constantly, so a writer-director reads as the director
/// rather than as whichever row happened to come back first.
pub open spec fn job_meant(job: Seq<char>) -> Option<(usize, Seq<char>)> {
    if job == "Director"@ {
        Some((0, "Director"@))
    } else if job == "Creator"@ || job == "Series Creator"@ {
        Some((1, "Creator"@))
    } else if job == "Writer"@ {
        Some((2, "Writer"@))
    } else if job == "Screenplay"@ {
        Some((3, "Screenplay"@))
    } else if job == "Executive Producer"@ {
        Some((4, "Executive Producer"@))
    } else if job == "Composer"@ || job == "Original Music Composer"@ {
        Some((5, "Composer"@))
    } else {
        None
    }
}

/// Where a TMDB job stands among the notable ones, and what to call it.
///
/// The label is not always TMDB's own word: their crew list has no "Composer",
/// it has "Original Music Composer", which is not what anyone would put on a
/// poster.
pub fn job_rank(job: &str) -> (r: Option<(usize, &'static str)>)
    ensures
        match r {
            Some((n, label)) => job_meant(job@) == Some((n, label@)),
            None => job_meant(job@) is None,
        },
{
    if text::same_str(job, "Director") {
        Some((0, "Director"))
    } else if text::same_str(job, "Creator") || text::same_str(job, "Series Creator") {
        Some((1, "Creator"))
    } else if text::same_str(job, "Writer") {
        Some((2, "Writer"))
    } else if text::same_str(job, "Screenplay") {
        Some((3, "Screenplay"))
    } else if text::same_str(job, "Executive Producer") {
        Some((4, "Executive Producer"))
    } else if text::same_str(job, "Composer") || text::same_str(job, "Original Music Composer") {
        Some((5, "Composer"))
    } else {
        None
    }
}

/// A crew member with the place of their job.
pub struct Ranked {
    pub rank: usize,
    pub member: Maker,
}

struct RankedMember {
    rank: usize,
    member: CrewMember,
}

impl View for RankedMember {
    type V = Ranked;

    closed spec fn view(&self) -> Ranked {
        Ranked { rank: self.rank, member: self.member@ }
    }
}

/// A crew member under the label of their job, where it is a notable one.
pub open spec fn ranked_maker(m: Maker) -> Option<Ranked> {
    match job_meant(m.job) {
        Some((rank, label)) => Some(Ranked { rank, member: Maker { job: label, ..m } }),
        None => None,
    }
}

struct NotableJobs;

impl Narrow<CrewMember, RankedMember> for NotableJobs {
    closed spec fn result(&self, a: CrewMember) -> Option<Ranked> {
        ranked_maker(a@)
    }

    fn narrow(&self, a: CrewMember) -> (r: Option<RankedMember>) {
        match job_rank(a.job.as_str()) {
            Some((rank, label)) => Some(
                RankedMember {
                    rank,
                    member: CrewMember {
                        id: a.id,
                        name: a.name,
                        job: label.to_string(),
                        profile: a.profile,
                    },
                },
            ),
            None => None,
        }
    }
}

pub open spec fn ranks_before(a: Ranked, b: Ranked) -> bool {
    a.rank < b.rank
}

struct ByRank;

impl Order<RankedMember> for ByRank {
    closed spec fn before(&self, a: RankedMember, b: RankedMember) -> bool {
        ranks_before(a@, b@)
    }

    fn less(&self, a: &RankedMember, b: &RankedMember) -> (r: bool) {
        a.rank < b.rank
    }
}

struct ByPerson;

impl Tag<RankedMember> for ByPerson {
    closed spec fn tag(&self, x: RankedMember) -> u64 {
        x.member.id as u64
    }

    fn tag_of(&self, x: &RankedMember) -> (r: u64) {
        x.member.id as u64
    }
}

struct Members;

impl Narrow<RankedMember, CrewMember> for Members {
    closed spec fn result(&self, a: RankedMember) -> Option<Maker> {
        Some(a@.member)
    }

    fn narrow(&self, a: RankedMember) -> (r: Option<CrewMember>) {
        Some(a.member)
    }
}

/// The crew in notable jobs, best job first, one row per person.
pub open spec fn one_row_each(crew: Seq<Maker>) -> Seq<Ranked> {
    list::firsts(
        list::stable_sort(
            list::chosen(crew, |m: Maker| ranked_maker(m)),
            |a: Ranked, b: Ranked| ranks_before(a, b),
        ),
        |x: Ranked| x.member.id as u64,
    )
}

/// The crew a shelf shows.
pub open spec fn notable(crew: Seq<Maker>) -> Seq<Maker> {
    list::first(one_row_each(crew).map_values(|x: Ranked| x.member), MAX_CREW as nat)
}

proof fn lemma_chosen_views<A: View, V>(s: Seq<A>, f: spec_fn(A) -> Option<V>, g: spec_fn(A::V) -> Option<V>)
    requires
        forall|a: A| #[trigger] f(a) == g(a@),
    ensures
        list::chosen(s, f) == list::chosen(list::views(s), g),
    decreases s.len(),
{
    if s.len() > 0 {
        lemma_chosen_views(s.drop_last(), f, g);
        assert(list::views(s).drop_last() =~= list::views(s.drop_last()));
        assert(f(s.last()) == g(s.last()@));
    }
}

/// Keep the recognisable jobs, one row per person, best job first.
pub fn notable_crew(crew: Vec<CrewMember>) -> (r: Vec<CrewMember>)
    ensures
        list::views(r@) == notable(list::views(crew@)),
{
    let jobs = NotableJobs;
    proof {
        lemma_chosen_views(
            crew@,
            |a: CrewMember| jobs.result(a),
            |m: Maker| ranked_maker(m),
        );
    }
    let ranked = list::through(crew, &jobs);
    // Stable, so TMDB's own ordering still breaks ties inside one job.
    let order = ByRank;
    proof {
        list::lemma_sort_maps(
            ranked@,
            |c: RankedMember| c@,
            |a: RankedMember, b: RankedMember| order.before(a, b),
            |a: Ranked, b: Ranked| ranks_before(a, b),
        );
    }
    let sorted = list::sorted(ranked, &order);
    let person = ByPerson;
    proof {
        list::lemma_firsts_map(
            sorted@,
            |c: RankedMember| c@,
            |x: RankedMember| person.tag(x),
            |x: Ranked| x.member.id as u64,
        );
    }
    let unique = list::unique(sorted, &person);
    let ghost rows = unique@;
    let members = Members;
    proof {
        list::lemma_chosen_all(
            rows,
            |a: RankedMember| members.result(a),
            |a: RankedMember| a@.member,
        );
        assert(rows.map_values(|a: RankedMember| a@.member) =~= list::views(rows).map_values(
            |x: Ranked| x.member,
        ));
    }
    let all = list::through(unique, &members);
    let ghost whole = all@;
    let r = list::cut(all, MAX_CREW);
    assert(list::views(r@) =~= list::first(list::views(whole), MAX_CREW as nat));
    r
}

/// What a crew entry amounts to, where it names someone.
pub open spec fn maker_of(c: CrewItem) -> Option<Maker> {
    if text::or_empty(c.name).len() == 0 {
        None
    } else {
        Some(
            Maker {
                id: c.id,
                name: text::or_empty(c.name),
                job: text::or_empty(c.job),
                profile: text::or_empty(c.profile_path),
            },
        )
    }
}

struct Makers;

impl Narrow<CrewItem, CrewMember> for Makers {
    closed spec fn result(&self, a: CrewItem) -> Option<Maker> {
        maker_of(a)
    }

    fn narrow(&self, a: CrewItem) -> (r: Option<CrewMember>) {
        let name = owned(a.name);
        if name.as_str().is_empty() {
            return None;
        }
        Some(CrewMember { id: a.id, name, job: owned(a.job), profile: owned(a.profile_path) })
    }
}

/// The notable crew of a title, whose first entries are `extra`.
pub fn crew_of(crew: Vec<CrewItem>, extra: Vec<CrewMember>) -> (r: Vec<CrewMember>)
    ensures
        list::views(r@) == notable(
            list::views(extra@) + list::chosen(crew@, |c: CrewItem| maker_of(c)),
        ),
{
    let n = Makers;
    assert((|a: CrewItem| n.result(a)) =~= (|c: CrewItem| maker_of(c)));
    let mut rest = list::through(crew, &n);
    let mut all = extra;
    let ghost first = all@;
    let ghost second = rest@;
    all.append(&mut rest);
    assert(list::views(all@) =~= list::views(first) + list::views(second));
    notable_crew(all)
}

/// A creator, as a crew member.
pub open spec fn creator_of(c: CreatedByRef) -> Maker {
    Maker {
        id: c.id,
        name: text::or_empty(c.name),
        job: "Creator"@,
        profile: text::or_empty(c.profile_path),
    }
}

struct Creators;

impl Narrow<CreatedByRef, CrewMember> for Creators {
    closed spec fn result(&self, a: CreatedByRef) -> Option<Maker> {
        Some(creator_of(a))
    }

    fn narrow(&self, a: CreatedByRef) -> (r: Option<CrewMember>) {
        Some(
            CrewMember {
                id: a.id,
                name: owned(a.name),
                job: "Creator".to_string(),
                profile: owned(a.profile_path),
            },
        )
    }
}

/// A show's creators are not in its crew list, since TMDB keeps them in a
/// field of their own, so they are folded in as "Creator", which is the credit
/// a viewer expects to see on a series.
fn creators(v: Vec<CreatedByRef>) -> (r: Vec<CrewMember>)
    ensures
        list::views(r@) == v@.map_values(|c: CreatedByRef| creator_of(c)),
{
    let n = Creators;
    proof {
        list::lemma_chosen_all(
            v@,
            |a: CreatedByRef| n.result(a),
            |c: CreatedByRef| creator_of(c),
        );
    }
    list::through(v, &n)
}

// --- videos -----------------------------------------------------------------------

/// A video TMDB knows about: in practice a YouTube trailer.
#[derive(Clone, Debug)]
pub struct Video {
    pub key: String,
    pub site: String,
    /// TMDB's `type`: Trailer, Teaser, Clip, Featurette…
    pub kind: String,
    pub name: String,
    pub official: bool,
    /// ISO-8601 timestamp, empty when TMDB has none.
    pub published: String,
}

/// What a video says.
#[verifier::ext_equal]
pub struct Footage {
    pub key: Seq<char>,
    pub site: Seq<char>,
    pub kind: Seq<char>,
    pub name: Seq<char>,
    pub official: bool,
    pub published: Seq<char>,
}

impl View for Video {
    type V = Footage;

    open spec fn view(&self) -> Footage {
        Footage {
            key: self.key@,
            site: self.site@,
            kind: self.kind@,
            name: self.name@,
            official: self.official,
            published: self.published@,
        }
    }
}

pub open spec fn watch_url(key: Seq<char>) -> Seq<char> {
    "https://www.youtube.com/watch?v="@ + key
}

impl Video {
    /// Something mpv can open. Only YouTube survives `rank_videos`, so this
    /// never has to branch on the site.
    pub fn url(&self) -> (r: String)
        ensures
            r@ == watch_url(self.key@),
    {
        let mut out = text::chars_of("https://www.youtube.com/watch?v=");
        text::push_str(&mut out, self.key.as_str());
        text::string_of(out.as_slice())
    }
}

/// A video, as TMDB sends it.
#[derive(Debug)]
pub struct VideoItem {
    pub key: Option<String>,
    pub site: Option<String>,
    pub kind: Option<String>,
    pub name: Option<String>,
    pub official: Option<bool>,
    pub published_at: Option<String>,
}

pub open spec fn footage_of(v: VideoItem) -> Footage {
    Footage {
        key: text::or_empty(v.key),
        site: text::or_empty(v.site),
        kind: text::or_empty(v.kind),
        name: text::or_empty(v.name),
        official: v.official == Some(true),
        published: text::or_empty(v.published_at),
    }
}

struct Videos;

impl Narrow<VideoItem, Video> for Videos {
    closed spec fn result(&self, a: VideoItem) -> Option<Footage> {
        Some(footage_of(a))
    }

    fn narrow(&self, a: VideoItem) -> (r: Option<Video>) {
        let official: bool = match a.official {
            Some(b) => b,
            None => false,
        };
        Some(
            Video {
                key: owned(a.key),
                site: owned(a.site),
                kind: owned(a.kind),
                name: owned(a.name),
                official,
                published: owned(a.published_at),
            },
        )
    }
}

pub fn videos_of(results: Vec<VideoItem>) -> (r: Vec<Video>)
    ensures
        list::views(r@) == results@.map_values(|v: VideoItem| footage_of(v)),
{
    let n = Videos;
    proof {
        list::lemma_chosen_all(
            results@,
            |a: VideoItem| n.result(a),
            |v: VideoItem| footage_of(v),
        );
    }
    list::through(results, &n)
}

/// How interesting a video kind is. Anything unrecognised sorts last rather
/// than being dropped: TMDB adds types faster than this list can track them.
pub open spec fn interest(kind: Seq<char>) -> usize {
    if kind == "Trailer"@ {
        0
    } else if kind == "Teaser"@ {
        1
    } else if kind == "Clip"@ {
        2
    } else if kind == "Featurette"@ {
        3
    } else if kind == "Behind the Scenes"@ {
        4
    } else {
        5
    }
}

pub fn video_rank(kind: &str) -> (r: usize)
    ensures
        r == interest(kind@),
{
    if text::same_str(kind, "Trailer") {
        0
    } else if text::same_str(kind, "Teaser") {
        1
    } else if text::same_str(kind, "Clip") {
        2
    } else if text::same_str(kind, "Featurette") {
        3
    } else if text::same_str(kind, "Behind the Scenes") {
        4
    } else {
        5
    }
}

/// The more interesting kind first, the official within a kind, then the
/// newest. ISO-8601 sorts chronologically as text.
pub open spec fn shown_before(a: Footage, b: Footage) -> bool {
    let x = interest(a.kind);
    let y = interest(b.kind);
    ||| x < y
    ||| x == y && a.official && !b.official
    ||| x == y && a.official == b.official && text::text_before(b.published, a.published)
}

struct BestVideo;

impl Order<Video> for BestVideo {
    closed spec fn before(&self, a: Video, b: Video) -> bool {
        shown_before(a@, b@)
    }

    fn less(&self, a: &Video, b: &Video) -> (r: bool) {
        let x = video_rank(a.kind.as_str());
        let y = video_rank(b.kind.as_str());
        if x != y {
            return x < y;
        }
        if a.official != b.official {
            return a.official;
        }
        let p = text::chars_of(a.published.as_str());
        let q = text::chars_of(b.published.as_str());
        text::comes_before(q.as_slice(), p.as_slice())
    }
}

/// A video that can be opened.
pub open spec fn openable(v: Footage) -> bool {
    v.key.len() > 0 && text::same_ignoring_case(v.site, "YouTube"@)
}

struct OnYouTube;

impl Condition<Video> for OnYouTube {
    closed spec fn passes(&self, x: Video) -> bool {
        openable(x@)
    }

    fn check(&self, x: &Video) -> (r: bool) {
        let site = text::chars_of(x.site.as_str());
        let name = text::chars_of("YouTube");
        let a = text::lowered(site.as_slice());
        let b = text::lowered(name.as_slice());
        !x.key.as_str().is_empty() && text::same(a.as_slice(), b.as_slice())
    }
}

/// The videos that can be opened, best first.
pub open spec fn best_videos(videos: Seq<Footage>) -> Seq<Footage> {
    list::stable_sort(
        videos.filter(|v: Footage| openable(v)),
        |a: Footage, b: Footage| shown_before(a, b),
    )
}

/// Best first: official trailers, then teasers, then everything else, newest
/// inside each kind. Non-YouTube entries go entirely: nothing here can play
/// them, and offering a trailer that cannot open is worse than offering none.
pub fn rank_videos(videos: Vec<Video>) -> (r: Vec<Video>)
    ensures
        list::views(r@) == best_videos(list::views(videos@)),
{
    let test = OnYouTube;
    let order = BestVideo;
    proof {
        list::lemma_filter_maps(
            videos@,
            |v: Video| v@,
            |v: Video| test.passes(v),
            |v: Footage| openable(v),
        );
    }
    let kept = list::kept(videos, &test);
    proof {
        list::lemma_sort_maps(
            kept@,
            |v: Video| v@,
            |a: Video, b: Video| order.before(a, b),
            |a: Footage, b: Footage| shown_before(a, b),
        );
    }
    list::sorted(kept, &order)
}

// --- films ------------------------------------------------------------------------

/// The credits appended to a title.
#[derive(Debug)]
pub struct CreditsResponse {
    pub cast: Vec<CastItem>,
    pub crew: Vec<CrewItem>,
}

/// A film, as TMDB sends it. What stands behind `genres` is there only when
/// `append_to_response` asked for it.
#[derive(Debug)]
pub struct MovieDetail {
    pub imdb_id: Option<String>,
    pub title: Option<String>,
    pub original_title: Option<String>,
    pub runtime: Option<u32>,
    pub release_date: Option<String>,
    pub vote_average: Option<Float>,
    pub poster_path: Option<String>,
    pub backdrop_path: Option<String>,
    pub overview: Option<String>,
    pub genres: Option<Vec<GenreRef>>,
    pub tagline: Option<String>,
    pub status: Option<String>,
    pub homepage: Option<String>,
    pub budget: Option<u64>,
    pub revenue: Option<u64>,
    pub production_companies: Option<Vec<NamedRef>>,
    pub production_countries: Option<Vec<CountryRef>>,
    pub spoken_languages: Option<Vec<LanguageRef>>,
    pub credits: Option<CreditsResponse>,
    pub videos: Option<Vec<VideoItem>>,
    pub similar: Option<Vec<SearchItem>>,
}

/// A movie, resolved far enough to look up torrents for it.
#[derive(Clone, Debug)]
pub struct Movie {
    pub id: u32,
    pub title: String,
    /// The title in the film's own language: `La casa de papel` where `title`
    /// says `Money Heist`. Releases are named after either.
    pub original_title: String,
    pub year: String,
    /// Empty when TMDB has no IMDB id, which means no torrents can be found.
    pub imdb_id: String,
    pub runtime_secs: u32,
    pub vote: Float,
    pub poster: String,
    pub backdrop: String,
    pub overview: String,
    pub genres: Vec<String>,
}

/// What a movie says.
#[verifier::ext_equal]
pub struct Film {
    pub id: u32,
    pub title: Seq<char>,
    pub original_title: Seq<char>,
    pub year: Seq<char>,
    pub imdb_id: Seq<char>,
    pub runtime_secs: u32,
    pub vote: Float,
    pub poster: Seq<char>,
    pub backdrop: Seq<char>,
    pub overview: Seq<char>,
    pub genres: Seq<Seq<char>>,
}

impl View for Movie {
    type V = Film;

    open spec fn view(&self) -> Film {
        Film {
            id: self.id,
            title: self.title@,
            original_title: self.original_title@,
            year: self.year@,
            imdb_id: self.imdb_id@,
            runtime_secs: self.runtime_secs,
            vote: self.vote,
            poster: self.poster@,
            backdrop: self.backdrop@,
            overview: self.overview@,
            genres: list::views(self.genres@),
        }
    }
}

/// The text, or else a word and a number.
pub open spec fn or_numbered(s: Option<String>, word: Seq<char>, n: u32) -> Seq<char> {
    match s {
        Some(s) => s@,
        None => word + text::decimal(n as nat),
    }
}

fn numbered(s: Option<String>, word: &str, n: u32) -> (r: String)
    ensures
        r@ == or_numbered(s, word@, n),
{
    match s {
        Some(s) => s,
        None => {
            let mut out = text::chars_of(word);
            text::push_decimal(&mut out, n as u64);
            text::string_of(out.as_slice())
        },
    }
}

/// An IMDB id, or nothing where the text is none.
pub open spec fn imdb_text(s: Option<String>) -> Seq<char> {
    if text::begins(text::or_empty(s), "tt"@) {
        text::or_empty(s)
    } else {
        Seq::empty()
    }
}

fn imdb_of(s: Option<String>) -> (r: String)
    ensures
        r@ == imdb_text(s),
{
    let id = owned(s);
    let chars = text::chars_of(id.as_str());
    if text::starts_with_str(chars.as_slice(), "tt") {
        id
    } else {
        owned(None)
    }
}

/// A runtime in minutes, or else the assumed one.
pub open spec fn minutes(runtime: Option<u32>, fallback: u32) -> u32 {
    match runtime {
        Some(n) => if n > 0 {
            n
        } else {
            fallback
        },
        None => fallback,
    }
}

fn minutes_of(runtime: Option<u32>, fallback: u32) -> (r: u32)
    ensures
        r == minutes(runtime, fallback),
{
    match runtime {
        Some(n) => if n > 0 {
            n
        } else {
            fallback
        },
        None => fallback,
    }
}

/// What a film amounts to.
pub open spec fn film_of(d: MovieDetail, id: u32) -> Film {
    Film {
        id,
        title: or_numbered(d.title, "Movie "@, id),
        original_title: text::or_empty(d.original_title),
        year: year_text(d.release_date),
        imdb_id: imdb_text(d.imdb_id),
        runtime_secs: (minutes(d.runtime, FALLBACK_MOVIE_MINUTES) * 60) as u32,
        vote: or_zero(d.vote_average),
        poster: text::or_empty(d.poster_path),
        backdrop: text::or_empty(d.backdrop_path),
        overview: text::or_empty(d.overview),
        genres: genre_texts(entries(d.genres)),
    }
}

/// Facts only a movie has.
#[derive(Clone, Debug)]
pub struct MovieFacts {
    pub budget: u64,
    pub revenue: u64,
    pub release_date: String,
}

/// What the facts of a movie say.
#[verifier::ext_equal]
pub struct FilmFacts {
    pub budget: u64,
    pub revenue: u64,
    pub release_date: Seq<char>,
}

impl View for MovieFacts {
    type V = FilmFacts;

    open spec fn view(&self) -> FilmFacts {
        FilmFacts {
            budget: self.budget,
            revenue: self.revenue,
            release_date: self.release_date@,
        }
    }
}

/// Facts only a series has.
#[derive(Clone, Debug)]
pub struct ShowFacts {
    pub season_count: u32,
    pub episode_count: u32,
    pub first_air: String,
    pub last_air: String,
    pub networks: Vec<String>,
    pub in_production: bool,
}

/// What the facts of a series say.
#[verifier::ext_equal]
pub struct SeriesFacts {
    pub season_count: u32,
    pub episode_count: u32,
    pub first_air: Seq<char>,
    pub last_air: Seq<char>,
    pub networks: Seq<Seq<char>>,
    pub in_production: bool,
}

impl View for ShowFacts {
    type V = SeriesFacts;

    open spec fn view(&self) -> SeriesFacts {
        SeriesFacts {
            season_count: self.season_count,
            episode_count: self.episode_count,
            first_air: self.first_air@,
            last_air: self.last_air@,
            networks: list::views(self.networks@),
            in_production: self.in_production,
        }
    }
}

/// The rich half of a title: who made it, what it looks like, what to watch
/// next. Fetched in the same round trip as the rest: `append_to_response`
/// turns what would be five requests into one, which on a thin link is the
/// whole difference between a detail view that opens and one that loads.
#[derive(Clone, Debug)]
pub struct TitleDetail {
    pub tagline: String,
    pub status: String,
    pub homepage: String,
    pub cast: Vec<CastMember>,
    pub crew: Vec<CrewMember>,
    /// Best first; the first entry is what `trailer` plays.
    pub videos: Vec<Video>,
    pub studios: Vec<String>,
    pub countries: Vec<String>,
    pub languages: Vec<String>,
    pub similar: Vec<SearchHit>,
    pub movie: Option<MovieFacts>,
    pub show: Option<ShowFacts>,
}

/// What the rich half of a title says.
#[verifier::ext_equal]
pub struct Detail {
    pub tagline: Seq<char>,
    pub status: Seq<char>,
    pub homepage: Seq<char>,
    pub cast: Seq<Actor>,
    pub crew: Seq<Maker>,
    pub videos: Seq<Footage>,
    pub studios: Seq<Seq<char>>,
    pub countries: Seq<Seq<char>>,
    pub languages: Seq<Seq<char>>,
    pub similar: Seq<Hit>,
    pub movie: Option<FilmFacts>,
    pub show: Option<SeriesFacts>,
}

pub open spec fn maybe_seen<T: View>(v: Option<T>) -> Option<T::V> {
    match v {
        Some(v) => Some(v@),
        None => None,
    }
}

impl View for TitleDetail {
    type V = Detail;

    open spec fn view(&self) -> Detail {
        Detail {
            tagline: self.tagline@,
            status: self.status@,
            homepage: self.homepage@,
            cast: list::views(self.cast@),
            crew: list::views(self.crew@),
            videos: list::views(self.videos@),
            studios: list::views(self.studios@),
            countries: list::views(self.countries@),
            languages: list::views(self.languages@),
            similar: list::views(self.similar@),
            movie: maybe_seen(self.movie),
            show: maybe_seen(self.show),
        }
    }
}

/// A detail of which nothing is known.
pub open spec fn no_detail() -> Detail {
    Detail {
        tagline: Seq::empty(),
        status: Seq::empty(),
        homepage: Seq::empty(),
        cast: Seq::empty(),
        crew: Seq::empty(),
        videos: Seq::empty(),
        studios: Seq::empty(),
        countries: Seq::empty(),
        languages: Seq::empty(),
        similar: Seq::empty(),
        movie: None,
        show: None,
    }
}

impl Default for TitleDetail {
    fn default() -> (r: TitleDetail)
        ensures
            r@ == no_detail(),
    {
        let r = TitleDetail {
            tagline: owned(None),
            status: owned(None),
            homepage: owned(None),
            cast: Vec::new(),
            crew: Vec::new(),
            videos: Vec::new(),
            studios: Vec::new(),
            countries: Vec::new(),
            languages: Vec::new(),
            similar: Vec::new(),
            movie: None,
            show: None,
        };
        assert(r@ =~= no_detail());
        r
    }
}

pub open spec fn cast_items(c: Option<CreditsResponse>) -> Seq<CastItem> {
    match c {
        Some(c) => c.cast@,
        None => Seq::empty(),
    }
}

pub open spec fn crew_items(c: Option<CreditsResponse>) -> Seq<CrewItem> {
    match c {
        Some(c) => c.crew@,
        None => Seq::empty(),
    }
}

fn credit_lists(c: Option<CreditsResponse>) -> (r: (Vec<CastItem>, Vec<CrewItem>))
    ensures
        r.0@ == cast_items(c),
        r.1@ == crew_items(c),
{
    match c {
        Some(c) => (c.cast, c.crew),
        None => (Vec::new(), Vec::new()),
    }
}

pub open spec fn or_none(n: Option<u64>) -> u64 {
    match n {
        Some(n) => n,
        None => 0,
    }
}

pub open spec fn or_none_yet(n: Option<u32>) -> u32 {
    match n {
        Some(n) => n,
        None => 0,
    }
}

/// The rich half of a film.
pub open spec fn film_detail(d: MovieDetail) -> Detail {
    Detail {
        tagline: text::or_empty(d.tagline),
        status: text::or_empty(d.status),
        homepage: text::or_empty(d.homepage),
        cast: billed(cast_items(d.credits)),
        crew: notable(list::chosen(crew_items(d.credits), |c: CrewItem| maker_of(c))),
        videos: best_videos(entries(d.videos).map_values(|v: VideoItem| footage_of(v))),
        studios: names_of(entries(d.production_companies)),
        countries: codes_of(entries(d.production_countries)),
        languages: language_texts(entries(d.spoken_languages)),
        similar: list::first(
            drawn_hits_of(entries(d.similar), MediaType::Movie),
            MAX_SIMILAR as nat,
        ),
        movie: Some(
            FilmFacts {
                budget: or_none(d.budget),
                revenue: or_none(d.revenue),
                release_date: text::or_empty(d.release_date),
            },
        ),
        show: None,
    }
}

fn copied(s: &Option<String>) -> (r: String)
    ensures
        r@ == text::or_empty(*s),
{
    match s {
        Some(s) => s.clone(),
        None => owned(None),
    }
}

impl MovieDetail {
    pub fn into_movie(self, id: u32) -> (r: Movie)
        requires
            minutes(self.runtime, FALLBACK_MOVIE_MINUTES) * 60 <= u32::MAX,
        ensures
            r@ == film_of(self, id),
    {
        Movie {
            id,
            title: numbered(self.title, "Movie ", id),
            original_title: owned(self.original_title),
            year: year_of(&self.release_date),
            imdb_id: imdb_of(self.imdb_id),
            runtime_secs: minutes_of(self.runtime, FALLBACK_MOVIE_MINUTES) * 60,
            vote: known(self.vote_average),
            poster: owned(self.poster_path),
            backdrop: owned(self.backdrop_path),
            overview: owned(self.overview),
            genres: genre_names(self.genres),
        }
    }

    /// Lift out the appended half, leaving the base record intact for
    /// `into_movie`. Everything taken here is `None` on the lean fetch, so the
    /// result is simply empty rather than wrong.
    pub fn take_detail(&mut self) -> (r: TitleDetail)
        ensures
            r@ == film_detail(*old(self)),
            *final(self) == (MovieDetail {
                tagline: None,
                status: None,
                homepage: None,
                production_companies: None,
                production_countries: None,
                spoken_languages: None,
                credits: None,
                videos: None,
                similar: None,
                ..*old(self)
            }),
    {
        let ghost d = *self;
        let (cast, crew) = credit_lists(self.credits.take());
        let videos = listed(self.videos.take());
        let similar = listed(self.similar.take());
        let none: Vec<CrewMember> = Vec::new();
        assert(list::views(none@) + list::chosen(crew@, |c: CrewItem| maker_of(c))
            =~= list::chosen(crew@, |c: CrewItem| maker_of(c)));
        let r = TitleDetail {
            tagline: owned(self.tagline.take()),
            status: owned(self.status.take()),
            homepage: owned(self.homepage.take()),
            cast: cast_of(cast),
            crew: crew_of(crew, none),
            videos: rank_videos(videos_of(videos)),
            studios: named(self.production_companies.take()),
            countries: country_codes(self.production_countries.take()),
            languages: language_names(self.spoken_languages.take()),
            similar: similar_hits(similar, MediaType::Movie),
            movie: Some(
                MovieFacts {
                    budget: match self.budget {
                        Some(n) => n,
                        None => 0,
                    },
                    revenue: match self.revenue {
                        Some(n) => n,
                        None => 0,
                    },
                    release_date: copied(&self.release_date),
                },
            ),
            show: None,
        };
        assert(r@ =~= film_detail(d));
        r
    }
}

// --- shows ------------------------------------------------------------------------

#[derive(Clone, Debug)]
pub struct Season {
    pub number: u32,
    pub episode_count: u32,
    pub name: String,
    pub poster: String,
    pub year: String,
}

/// What a season says.
#[verifier::ext_equal]
pub struct Run {
    pub number: u32,
    pub episode_count: u32,
    pub name: Seq<char>,
    pub poster: Seq<char>,
    pub year: Seq<char>,
}

impl View for Season {
    type V = Run;

    open spec fn view(&self) -> Run {
        Run {
            number: self.number,
            episode_count: self.episode_count,
            name: self.name@,
            poster: self.poster@,
            year: self.year@,
        }
    }
}

/// A season as a row of a menu.
pub open spec fn season_line(s: Run) -> Seq<char> {
    "Season "@ + text::decimal(s.number as nat) + " ("@ + text::decimal(s.episode_count as nat)
        + " episode"@ + (if s.episode_count == 1 {
        Seq::empty()
    } else {
        "s"@
    }) + ")"@
}

impl Season {
    /// The season as a row of a menu.
    pub fn line(&self) -> (r: String)
        ensures
            r@ == season_line(self@),
    {
        let mut out = text::chars_of("Season ");
        text::push_decimal(&mut out, self.number as u64);
        text::push_str(&mut out, " (");
        text::push_decimal(&mut out, self.episode_count as u64);
        text::push_str(&mut out, " episode");
        if self.episode_count != 1 {
            text::push_str(&mut out, "s");
        }
        text::push_str(&mut out, ")");
        let r = text::string_of(out.as_slice());
        assert(r@ =~= season_line(self@));
        r
    }
}

/// A season of a show, as TMDB sends it.
#[derive(Debug)]
pub struct SeasonSummary {
    pub season_number: u32,
    pub episode_count: Option<u32>,
    pub name: Option<String>,
    pub poster_path: Option<String>,
    pub air_date: Option<String>,
}

/// What a season amounts to, where it has an episode. Season 0 is specials; it
/// rarely has usable torrents and it is never what someone means by "next
/// episode".
pub open spec fn run_of(s: SeasonSummary) -> Option<Run> {
    if s.season_number > 0 && or_none_yet(s.episode_count) > 0 {
        Some(
            Run {
                number: s.season_number,
                episode_count: or_none_yet(s.episode_count),
                name: or_numbered(s.name, "Season "@, s.season_number),
                poster: text::or_empty(s.poster_path),
                year: year_text(s.air_date),
            },
        )
    } else {
        None
    }
}

struct Seasons;

impl Narrow<SeasonSummary, Season> for Seasons {
    closed spec fn result(&self, a: SeasonSummary) -> Option<Run> {
        run_of(a)
    }

    fn narrow(&self, a: SeasonSummary) -> (r: Option<Season>) {
        let count: u32 = match a.episode_count {
            Some(n) => n,
            None => 0,
        };
        if a.season_number == 0 || count == 0 {
            return None;
        }
        let year = year_of(&a.air_date);
        Some(
            Season {
                number: a.season_number,
                episode_count: count,
                name: numbered(a.name, "Season ", a.season_number),
                poster: owned(a.poster_path),
                year,
            },
        )
    }
}

/// A show, as TMDB sends it. What stands behind `genres` is there only when
/// `append_to_response` asked for it.
#[derive(Debug)]
pub struct ShowDetail {
    pub name: Option<String>,
    pub original_name: Option<String>,
    pub first_air_date: Option<String>,
    pub episode_run_time: Option<Vec<u32>>,
    pub seasons: Option<Vec<SeasonSummary>>,
    /// The IMDB id among its external ids.
    pub imdb_id: Option<String>,
    pub vote_average: Option<Float>,
    pub poster_path: Option<String>,
    pub backdrop_path: Option<String>,
    pub overview: Option<String>,
    pub genres: Option<Vec<GenreRef>>,
    pub tagline: Option<String>,
    pub status: Option<String>,
    pub homepage: Option<String>,
    pub number_of_seasons: Option<u32>,
    pub number_of_episodes: Option<u32>,
    pub last_air_date: Option<String>,
    pub in_production: Option<bool>,
    pub networks: Option<Vec<NamedRef>>,
    pub origin_country: Option<Vec<String>>,
    pub created_by: Option<Vec<CreatedByRef>>,
    pub production_companies: Option<Vec<NamedRef>>,
    pub production_countries: Option<Vec<CountryRef>>,
    pub spoken_languages: Option<Vec<LanguageRef>>,
    pub credits: Option<CreditsResponse>,
    pub videos: Option<Vec<VideoItem>>,
    pub similar: Option<Vec<SearchItem>>,
}

/// A show, resolved far enough to enumerate and look up its episodes.
#[derive(Clone, Debug)]
pub struct Show {
    pub tmdb_id: u32,
    pub name: String,
    /// The name in the show's own language. See `Movie::original_title`.
    pub original_name: String,
    pub year: String,
    /// Empty when TMDB has no IMDB id, which means no torrents can be found.
    pub imdb_id: String,
    /// Seasons with at least one episode, specials (season 0) excluded.
    pub seasons: Vec<Season>,
    /// Show-level typical runtime, used when an episode has none of its own.
    pub default_runtime_secs: u32,
    pub vote: Float,
    pub poster: String,
    pub backdrop: String,
    pub overview: String,
    pub genres: Vec<String>,
}

/// What a show says.
#[verifier::ext_equal]
pub struct Series {
    pub tmdb_id: u32,
    pub name: Seq<char>,
    pub original_name: Seq<char>,
    pub year: Seq<char>,
    pub imdb_id: Seq<char>,
    pub seasons: Seq<Run>,
    pub default_runtime_secs: u32,
    pub vote: Float,
    pub poster: Seq<char>,
    pub backdrop: Seq<char>,
    pub overview: Seq<char>,
    pub genres: Seq<Seq<char>>,
}

impl View for Show {
    type V = Series;

    open spec fn view(&self) -> Series {
        Series {
            tmdb_id: self.tmdb_id,
            name: self.name@,
            original_name: self.original_name@,
            year: self.year@,
            imdb_id: self.imdb_id@,
            seasons: list::views(self.seasons@),
            default_runtime_secs: self.default_runtime_secs,
            vote: self.vote,
            poster: self.poster@,
            backdrop: self.backdrop@,
            overview: self.overview@,
            genres: list::views(self.genres@),
        }
    }
}

/// TMDB lists no seasons for a show.
#[derive(Clone, Copy, PartialEq, Eq, Debug, Structural)]
pub struct NoSeasons;

impl NoSeasons {
    pub fn message(self) -> (r: String)
        ensures
            r@ == "TMDB lists no seasons for this show"@,
    {
        "TMDB lists no seasons for this show".to_string()
    }
}

/// The seasons of a show that have an episode.
pub open spec fn runs_of(d: ShowDetail) -> Seq<Run> {
    list::chosen(entries(d.seasons), |s: SeasonSummary| run_of(s))
}

/// The first runtime that is known.
pub open spec fn first_known(v: Seq<u32>) -> Option<u32>
    decreases v.len(),
{
    if v.len() == 0 {
        None
    } else if v[0] > 0 {
        Some(v[0])
    } else {
        first_known(v.skip(1))
    }
}

/// The typical runtime of a show, in minutes.
pub open spec fn typical_minutes(d: ShowDetail) -> u32 {
    match first_known(entries(d.episode_run_time)) {
        Some(n) => n,
        None => FALLBACK_EPISODE_MINUTES,
    }
}

fn find_known(v: &Vec<u32>) -> (r: Option<u32>)
    ensures
        r == first_known(v@),
{
    let n = v.len();
    let mut i: usize = 0;
    assert(v@.skip(0) =~= v@);
    while i < n
        invariant
            i <= n == v@.len(),
            first_known(v@.skip(i as int)) == first_known(v@),
        decreases n - i,
    {
        assert(v@.skip(i as int)[0] == v@[i as int]);
        assert(v@.skip(i as int).skip(1) =~= v@.skip(i + 1));
        if v[i] > 0 {
            return Some(v[i]);
        }
        i += 1;
    }
    None
}

/// What a show amounts to.
pub open spec fn series_of(d: ShowDetail, id: u32) -> Series {
    Series {
        tmdb_id: id,
        name: or_numbered(d.name, "Show "@, id),
        original_name: text::or_empty(d.original_name),
        year: year_text(d.first_air_date),
        imdb_id: imdb_text(d.imdb_id),
        seasons: runs_of(d),
        default_runtime_secs: (typical_minutes(d) * 60) as u32,
        vote: or_zero(d.vote_average),
        poster: text::or_empty(d.poster_path),
        backdrop: text::or_empty(d.backdrop_path),
        overview: text::or_empty(d.overview),
        genres: genre_texts(entries(d.genres)),
    }
}

/// A show names its own origin countries.
pub open spec fn has_origin(d: ShowDetail) -> bool {
    d.origin_country is Some && (d.origin_country->0)@.len() > 0
}

/// A show's own origin countries, or where it names none, those it was
/// produced in.
pub open spec fn countries_of(d: ShowDetail) -> Seq<Seq<char>> {
    if has_origin(d) {
        list::views((d.origin_country->0)@)
    } else {
        codes_of(entries(d.production_countries))
    }
}

/// The rich half of a show.
pub open spec fn series_detail(d: ShowDetail) -> Detail {
    Detail {
        tagline: text::or_empty(d.tagline),
        status: text::or_empty(d.status),
        homepage: text::or_empty(d.homepage),
        cast: billed(cast_items(d.credits)),
        crew: notable(
            entries(d.created_by).map_values(|c: CreatedByRef| creator_of(c)) + list::chosen(
                crew_items(d.credits),
                |c: CrewItem| maker_of(c),
            ),
        ),
        videos: best_videos(entries(d.videos).map_values(|v: VideoItem| footage_of(v))),
        studios: names_of(entries(d.production_companies)),
        countries: countries_of(d),
        languages: language_texts(entries(d.spoken_languages)),
        similar: list::first(
            drawn_hits_of(entries(d.similar), MediaType::Tv),
            MAX_SIMILAR as nat,
        ),
        movie: None,
        show: Some(
            SeriesFacts {
                season_count: or_none_yet(d.number_of_seasons),
                episode_count: or_none_yet(d.number_of_episodes),
                first_air: text::or_empty(d.first_air_date),
                last_air: text::or_empty(d.last_air_date),
                networks: names_of(entries(d.networks)),
                in_production: d.in_production == Some(true),
            },
        ),
    }
}

impl ShowDetail {
    pub fn into_show(self, id: u32) -> (r: Result<Show, NoSeasons>)
        requires
            typical_minutes(self) * 60 <= u32::MAX,
        ensures
            match r {
                Ok(s) => runs_of(self).len() > 0 && s@ == series_of(self, id),
                Err(_) => runs_of(self).len() == 0,
            },
    {
        let n = Seasons;
        assert((|a: SeasonSummary| n.result(a)) =~= (|s: SeasonSummary| run_of(s)));
        let year = year_of(&self.first_air_date);
        let seasons = list::through(listed(self.seasons), &n);
        assert(list::views(seasons@).len() == seasons@.len());
        if seasons.len() == 0 {
            return Err(NoSeasons);
        }
        let runtimes = listed(self.episode_run_time);
        let typical: u32 = match find_known(&runtimes) {
            Some(n) => n,
            None => FALLBACK_EPISODE_MINUTES,
        };
        Ok(
            Show {
                tmdb_id: id,
                name: numbered(self.name, "Show ", id),
                original_name: owned(self.original_name),
                year,
                imdb_id: imdb_of(self.imdb_id),
                seasons,
                default_runtime_secs: typical * 60,
                vote: known(self.vote_average),
                poster: owned(self.poster_path),
                backdrop: owned(self.backdrop_path),
                overview: owned(self.overview),
                genres: genre_names(self.genres),
            },
        )
    }

    /// Lift out the appended half, leaving the base record intact for
    /// `into_show`.
    pub fn take_detail(&mut self) -> (r: TitleDetail)
        ensures
            r@ == series_detail(*old(self)),
            *final(self) == (ShowDetail {
                tagline: None,
                status: None,
                homepage: None,
                networks: None,
                origin_country: None,
                created_by: None,
                production_companies: None,
                production_countries: if has_origin(*old(self)) {
                    old(self).production_countries
                } else {
                    None
                },
                spoken_languages: None,
                credits: None,
                videos: None,
                similar: None,
                ..*old(self)
            }),
    {
        let ghost d = *self;
        let (cast, crew) = credit_lists(self.credits.take());
        let videos = listed(self.videos.take());
        let similar = listed(self.similar.take());
        let extra = creators(listed(self.created_by.take()));
        let countries: Vec<String> = match self.origin_country.take() {
            // A show carries its own origin country; `production_countries` is
            // often empty on series, so it is only the fallback.
            Some(l) => if l.len() > 0 {
                l
            } else {
                country_codes(self.production_countries.take())
            },
            None => country_codes(self.production_countries.take()),
        };
        let r = TitleDetail {
            tagline: owned(self.tagline.take()),
            status: owned(self.status.take()),
            homepage: owned(self.homepage.take()),
            cast: cast_of(cast),
            crew: crew_of(crew, extra),
            videos: rank_videos(videos_of(videos)),
            studios: named(self.production_companies.take()),
            countries,
            languages: language_names(self.spoken_languages.take()),
            similar: similar_hits(similar, MediaType::Tv),
            movie: None,
            show: Some(
                ShowFacts {
                    season_count: match self.number_of_seasons {
                        Some(n) => n,
                        None => 0,
                    },
                    episode_count: match self.number_of_episodes {
                        Some(n) => n,
                        None => 0,
                    },
                    first_air: copied(&self.first_air_date),
                    last_air: copied(&self.last_air_date),
                    networks: named(self.networks.take()),
                    in_production: match self.in_production {
                        Some(b) => b,
                        None => false,
                    },
                },
            ),
        };
        assert(r@ =~= series_detail(d));
        r
    }
}

// --- episodes ---------------------------------------------------------------------

#[derive(Clone, Debug)]
pub struct Episode {
    pub season: u32,
    pub number: u32,
    pub name: String,
    pub runtime_secs: u32,
    pub overview: String,
    pub still: String,
    pub air_date: String,
    pub vote: Float,
}

/// What an episode says.
#[verifier::ext_equal]
pub struct Installment {
    pub season: u32,
    pub number: u32,
    pub name: Seq<char>,
    pub runtime_secs: u32,
    pub overview: Seq<char>,
    pub still: Seq<char>,
    pub air_date: Seq<char>,
    pub vote: Float,
}

impl View for Episode {
    type V = Installment;

    open spec fn view(&self) -> Installment {
        Installment {
            season: self.season,
            number: self.number,
            name: self.name@,
            runtime_secs: self.runtime_secs,
            overview: self.overview@,
            still: self.still@,
            air_date: self.air_date@,
            vote: self.vote,
        }
    }
}

/// `S01E02`.
pub open spec fn episode_code(season: u32, episode: u32) -> Seq<char> {
    "S"@ + text::two_digits(season as nat) + "E"@ + text::two_digits(episode as nat)
}

pub fn write_episode_code(season: u32, episode: u32) -> (r: Vec<char>)
    ensures
        r@ == episode_code(season, episode),
{
    let s = text::write_padded(season as u64, 2);
    let e = text::write_padded(episode as u64, 2);
    text::four("S", s.as_slice(), "E", e.as_slice())
}

impl Episode {
    /// The episode as a row of a menu.
    pub fn line(&self) -> (r: String)
        ensures
            r@ == episode_code(self.season, self.number) + "  "@ + self.name@,
    {
        let mut out = write_episode_code(self.season, self.number);
        text::push_str(&mut out, "  ");
        text::push_str(&mut out, self.name.as_str());
        text::string_of(out.as_slice())
    }
}

/// An episode, as TMDB sends it.
#[derive(Debug)]
pub struct EpisodeDetail {
    pub episode_number: u32,
    pub name: Option<String>,
    pub runtime: Option<u32>,
    pub overview: Option<String>,
    pub still_path: Option<String>,
    pub air_date: Option<String>,
    pub vote_average: Option<Float>,
}

/// What an episode amounts to. One without a runtime has the one given.
pub open spec fn installment_of(
    e: EpisodeDetail,
    season: u32,
    default_runtime_secs: u32,
) -> Installment {
    Installment {
        season,
        number: e.episode_number,
        name: or_numbered(e.name, "Episode "@, e.episode_number),
        runtime_secs: match e.runtime {
            Some(n) => if n > 0 {
                (n * 60) as u32
            } else {
                default_runtime_secs
            },
            None => default_runtime_secs,
        },
        overview: text::or_empty(e.overview),
        still: text::or_empty(e.still_path),
        air_date: text::or_empty(e.air_date),
        vote: or_zero(e.vote_average),
    }
}

/// A runtime that fits when counted in seconds.
pub open spec fn fits(runtime: Option<u32>) -> bool {
    runtime is Some ==> runtime->0 * 60 <= u32::MAX
}

fn episode_of(e: EpisodeDetail, season: u32, default_runtime_secs: u32) -> (r: Episode)
    requires
        fits(e.runtime),
    ensures
        r@ == installment_of(e, season, default_runtime_secs),
{
    Episode {
        season,
        number: e.episode_number,
        name: numbered(e.name, "Episode ", e.episode_number),
        runtime_secs: match e.runtime {
            Some(n) => if n > 0 {
                n * 60
            } else {
                default_runtime_secs
            },
            None => default_runtime_secs,
        },
        overview: owned(e.overview),
        still: owned(e.still_path),
        air_date: owned(e.air_date),
        vote: known(e.vote_average),
    }
}

/// One season's episodes. Takes the show's typical runtime rather than a
/// fetched `Show`, so callers that already know the season can ask for it
/// concurrently with the show instead of after it.
pub fn episodes(
    answer: Option<Vec<EpisodeDetail>>,
    season: u32,
    default_runtime_secs: u32,
) -> (r: Vec<Episode>)
    requires
        forall|i: int|
            0 <= i < entries(answer).len() ==> fits((#[trigger] entries(answer)[i]).runtime),
    ensures
        list::views(r@) == entries(answer).map_values(
            |e: EpisodeDetail| installment_of(e, season, default_runtime_secs),
        ),
{
    let all = listed(answer);
    let ghost whole = all@;
    let mut out: Vec<Episode> = Vec::new();
    for e in it: all
        invariant
            it.seq() == whole,
            forall|i: int| 0 <= i < whole.len() ==> fits((#[trigger] whole[i]).runtime),
            out@.len() == it.index(),
            forall|i: int|
                0 <= i < it.index() ==> (#[trigger] out@[i])@ == installment_of(
                    whole[i],
                    season,
                    default_runtime_secs,
                ),
    {
        out.push(episode_of(e, season, default_runtime_secs));
    }
    assert(list::views(out@) =~= whole.map_values(
        |e: EpisodeDetail| installment_of(e, season, default_runtime_secs),
    ));
    out
}

// --- people -----------------------------------------------------------------------

/// A credit that is worth a row: it has a poster, and it is a part rather than
/// an appearance.
pub open spec fn is_work(c: Part) -> bool {
    c.hit.poster.len() > 0 && !c.appearance
}

/// A year within bounds, where there are any.
pub open spec fn in_years(year: Seq<char>, years: Option<(u32, u32)>) -> bool {
    match years {
        None => true,
        Some((from, to)) => match text::parse_number(year, u32::MAX as nat) {
            Some(y) => from <= y <= to,
            None => false,
        },
    }
}

/// A credit that the filters let through.
pub open spec fn listed_for(c: Part, f: Filters) -> bool {
    &&& is_work(c)
    &&& f.genre_id == 0 || c.genre_ids.contains(f.genre_id)
    &&& f.language@.len() == 0 || c.language == f.language@
    &&& f.min_rating == 0 || c.hit.vote.reaches(f.min_rating)
    &&& in_years(c.hit.year, f.years)
}

/// The order of a listing. Box office has no TV equivalent, here as in
/// `discover_path`.
pub open spec fn listed_before(a: Part, b: Part, sort: Sort) -> bool {
    match sort {
        Sort::Popular | Sort::BoxOffice => b.popularity.below(a.popularity),
        Sort::TopRated => b.hit.vote.below(a.hit.vote),
        Sort::Newest => text::text_before(b.hit.year, a.hit.year),
        Sort::Oldest => text::text_before(a.hit.year, b.hit.year),
    }
}

/// What a listing orders by is a number wherever it should be one.
pub open spec fn can_be_placed(c: Part, sort: Sort) -> bool {
    match sort {
        Sort::Popular | Sort::BoxOffice => !c.popularity.is_nan(),
        Sort::TopRated => !c.hit.vote.is_nan(),
        _ => true,
    }
}

/// The credits that a listing shows, over all its pages. A long-running show is
/// one row however many parts they played in it.
pub open spec fn person_parts(credits: Seq<Part>, f: Filters) -> Seq<Part> {
    list::firsts(
        list::stable_sort(
            credits.filter(|c: Part| listed_for(c, f)),
            |a: Part, b: Part| listed_before(a, b, f.sort),
        ),
        |c: Part| c.hit.id,
    )
}

/// Everything a listing shows, over all its pages.
pub open spec fn person_rows(credits: Seq<Part>, f: Filters) -> Seq<Hit> {
    person_parts(credits, f).map_values(|c: Part| c.hit)
}

/// How many pages a number of rows takes, at least one.
pub open spec fn pages(rows: nat) -> nat {
    if rows == 0 {
        1
    } else {
        (rows + PERSON_PAGE_SIZE - 1) as nat / PERSON_PAGE_SIZE as nat
    }
}

/// The rows of a page; the first page is 1, and so is page 0.
pub open spec fn page_rows<T>(rows: Seq<T>, page: nat) -> Seq<T> {
    let start = (if page == 0 {
        0
    } else {
        page - 1
    }) * PERSON_PAGE_SIZE;
    if start >= rows.len() {
        Seq::empty()
    } else {
        list::first(rows.skip(start), PERSON_PAGE_SIZE as nat)
    }
}

fn has_id(ids: &Vec<u32>, id: u32) -> (r: bool)
    ensures
        r == ids@.contains(id),
{
    let n = ids.len();
    let mut i: usize = 0;
    while i < n
        invariant
            i <= n == ids@.len(),
            forall|k: int| 0 <= k < i ==> ids@[k] != id,
        decreases n - i,
    {
        if ids[i] == id {
            return true;
        }
        i += 1;
    }
    false
}

fn year_within(year: &str, years: Option<(u32, u32)>) -> (r: bool)
    ensures
        r == in_years(year@, years),
{
    match years {
        None => true,
        Some((from, to)) => {
            let chars = text::chars_of(year);
            match text::read_number(chars.as_slice(), u32::MAX as u64) {
                Some(y) => from as u64 <= y && y <= to as u64,
                None => false,
            }
        },
    }
}

struct ListedFor<'a> {
    filters: &'a Filters,
}

impl<'a> Condition<Credit> for ListedFor<'a> {
    closed spec fn passes(&self, x: Credit) -> bool {
        listed_for(x@, *self.filters)
    }

    fn check(&self, x: &Credit) -> (r: bool) {
        let f = self.filters;
        !x.hit.poster.as_str().is_empty() && !x.appearance && (f.genre_id == 0 || has_id(
            &x.genre_ids,
            f.genre_id,
        )) && (f.language.as_str().is_empty() || text::same_str(
            x.language.as_str(),
            f.language.as_str(),
        )) && (f.min_rating == 0 || x.hit.vote.is_at_least(f.min_rating)) && year_within(
            x.hit.year.as_str(),
            f.years,
        )
    }
}

struct ListedBefore {
    sort: Sort,
}

impl Order<Credit> for ListedBefore {
    closed spec fn before(&self, a: Credit, b: Credit) -> bool {
        listed_before(a@, b@, self.sort)
    }

    fn less(&self, a: &Credit, b: &Credit) -> (r: bool) {
        let x = text::chars_of(a.hit.year.as_str());
        let y = text::chars_of(b.hit.year.as_str());
        match self.sort {
            Sort::Popular | Sort::BoxOffice => b.popularity.is_below(a.popularity),
            Sort::TopRated => b.hit.vote.is_below(a.hit.vote),
            Sort::Newest => text::comes_before(y.as_slice(), x.as_slice()),
            Sort::Oldest => text::comes_before(x.as_slice(), y.as_slice()),
        }
    }
}

struct ByTitleId;

impl Tag<Credit> for ByTitleId {
    closed spec fn tag(&self, x: Credit) -> u64 {
        x.hit.id as u64
    }

    fn tag_of(&self, x: &Credit) -> (r: u64) {
        x.hit.id as u64
    }
}

struct Hits;

impl Narrow<Credit, SearchHit> for Hits {
    closed spec fn result(&self, a: Credit) -> Option<Hit> {
        Some(a@.hit)
    }

    fn narrow(&self, a: Credit) -> (r: Option<SearchHit>) {
        Some(a.hit)
    }
}

/// The rows of a page.
fn page_of<T>(rows: Vec<T>, page: u32) -> (r: Vec<T>)
    ensures
        r@ == page_rows(rows@, page as nat),
{
    let before: u64 = if page == 0 {
        0
    } else {
        page as u64 - 1
    };
    let start: u64 = before * 20;
    let mut rows = rows;
    let ghost whole = rows@;
    if start >= rows.len() as u64 {
        return Vec::new();
    }
    let rest = rows.split_off(start as usize);
    assert(rest@ =~= whole.skip(start as int));
    list::cut(rest, PERSON_PAGE_SIZE)
}

/// One page of a person's TV credits, filtered and sorted the way `discover`
/// would have. The one thing deliberately not carried over is the vote-count
/// floor: a career is a curated list of a few hundred, not a catalog of a
/// quarter million, and the floor exists to keep obscure entries off page one
/// of the latter.
pub fn person_page(credits: Vec<Credit>, filters: &Filters, page: u32) -> (r: CatalogPage)
    requires
        forall|i: int|
            0 <= i < credits@.len() && listed_for((#[trigger] credits@[i])@, *filters)
                ==> can_be_placed(credits@[i]@, filters.sort),
    ensures
        ({
            let rows = person_rows(list::views(credits@), *filters);
            &&& list::views(r.items@) == page_rows(rows, page as nat)
            &&& r.total_pages == pages(rows.len()) as u32
        }),
        r.page == (if page == 0 {
            1
        } else {
            page
        }),
{
    let ghost all = credits@;
    let test = ListedFor { filters };
    proof {
        list::lemma_filter_maps(
            all,
            |c: Credit| c@,
            |c: Credit| test.passes(c),
            |c: Part| listed_for(c, *filters),
        );
    }
    let kept = list::kept(credits, &test);
    let order = ListedBefore { sort: filters.sort };
    proof {
        list::lemma_sort_maps(
            kept@,
            |c: Credit| c@,
            |a: Credit, b: Credit| order.before(a, b),
            |a: Part, b: Part| listed_before(a, b, filters.sort),
        );
    }
    let sorted = list::sorted(kept, &order);
    let id = ByTitleId;
    proof {
        list::lemma_firsts_map(
            sorted@,
            |c: Credit| c@,
            |x: Credit| id.tag(x),
            |c: Part| c.hit.id as u64,
        );
        list::lemma_firsts_keys(
            list::views(sorted@),
            |c: Part| c.hit.id as u64,
            |c: Part| c.hit.id,
        );
    }
    let unique = list::unique(sorted, &id);
    let ghost rows = unique@;
    let n = Hits;
    proof {
        list::lemma_chosen_all(rows, |a: Credit| n.result(a), |a: Credit| a@.hit);
        assert(rows.map_values(|a: Credit| a@.hit) =~= list::views(rows).map_values(
            |c: Part| c.hit,
        ));
    }
    let items = list::through(unique, &n);
    let ghost found = items@;
    let len = items.len();
    assert(list::views(found).len() == len);
    let count: usize = if len == 0 {
        1
    } else {
        (len - 1) / PERSON_PAGE_SIZE + 1
    };
    assert(count == pages(len as nat)) by {
        if len > 0 {
            assert((len + 20 - 1) / 20 == (len - 1) / 20 + 1) by (nonlinear_arith)
                requires
                    len > 0,
            ;
        }
    }
    let shown = page_of(items, page);
    assert(list::views(shown@) =~= page_rows(list::views(found), page as nat)) by {
        let start = (if page == 0 {
            0
        } else {
            page - 1
        }) * PERSON_PAGE_SIZE;
        if start < found.len() {
            assert(list::views(found).skip(start) =~= list::views(found.skip(start)));
        }
    }
    CatalogPage {
        items: shown,
        page: if page == 0 {
            1
        } else {
            page
        },
        total_pages: count as u32,
    }
}

struct Parts {
    implied: Option<MediaType>,
}

impl Narrow<SearchItem, Credit> for Parts {
    closed spec fn result(&self, a: SearchItem) -> Option<Part> {
        part_of(a, self.implied)
    }

    fn narrow(&self, a: SearchItem) -> (r: Option<Credit>) {
        a.into_credit(self.implied)
    }
}

/// What a filmography amounts to, in the order it came.
pub open spec fn parts_of(items: Seq<SearchItem>, implied: Option<MediaType>) -> Seq<Part> {
    list::chosen(items, |i: SearchItem| part_of(i, implied))
}

fn parts(items: Vec<SearchItem>, implied: Option<MediaType>) -> (r: Vec<Credit>)
    ensures
        list::views(r@) == parts_of(items@, implied),
{
    let n = Parts { implied };
    assert((|a: SearchItem| n.result(a)) =~= (|i: SearchItem| part_of(i, implied)));
    list::through(items, &n)
}

/// A person's series credits, from TMDB's answer to `tv_credits_path`: what
/// they acted in, then what they worked on.
pub fn tv_credits(cast: Vec<SearchItem>, crew: Vec<SearchItem>) -> (r: Vec<Credit>)
    ensures
        list::views(r@) == parts_of(cast@, Some(MediaType::Tv)) + parts_of(
            crew@,
            Some(MediaType::Tv),
        ),
{
    let mut all = parts(cast, Some(MediaType::Tv));
    let mut rest = parts(crew, Some(MediaType::Tv));
    let ghost first = all@;
    let ghost second = rest@;
    all.append(&mut rest);
    assert(list::views(all@) =~= list::views(first) + list::views(second));
    all
}

pub open spec fn more_popular(a: Part, b: Part) -> bool {
    b.popularity.below(a.popularity)
}

struct MorePopular;

impl Order<Credit> for MorePopular {
    closed spec fn before(&self, a: Credit, b: Credit) -> bool {
        more_popular(a@, b@)
    }

    fn less(&self, a: &Credit, b: &Credit) -> (r: bool) {
        b.popularity.is_below(a.popularity)
    }
}

struct Work;

impl Condition<Credit> for Work {
    closed spec fn passes(&self, x: Credit) -> bool {
        is_work(x@)
    }

    fn check(&self, x: &Credit) -> (r: bool) {
        !x.hit.poster.as_str().is_empty() && !x.appearance
    }
}

struct ByTitle;

impl Tag<Credit> for ByTitle {
    closed spec fn tag(&self, x: Credit) -> u64 {
        title_tag(x@)
    }

    fn tag_of(&self, x: &Credit) -> (r: u64) {
        match x.hit.media_type {
            MediaType::Movie => 2 * (x.hit.id as u64),
            MediaType::Tv => 2 * (x.hit.id as u64) + 1,
        }
    }
}

spec fn title_tag(c: Part) -> u64 {
    match c.hit.media_type {
        MediaType::Movie => (2 * c.hit.id) as u64,
        MediaType::Tv => (2 * c.hit.id + 1) as u64,
    }
}

/// The titles of a filmography, famous work first, one row per title.
pub open spec fn famous(credits: Seq<Part>) -> Seq<Part> {
    list::firsts(
        list::stable_sort(
            credits.filter(|c: Part| is_work(c)),
            |a: Part, b: Part| more_popular(a, b),
        ),
        |c: Part| (c.hit.media_type, c.hit.id),
    )
}

/// The filmography a page shows.
pub open spec fn filmography(credits: Seq<Part>) -> Seq<Part> {
    list::first(famous(credits), MAX_CREDITS as nat)
}

/// The work among some credits has a popularity that is a number.
pub open spec fn work_can_be_placed(credits: Seq<Part>) -> bool {
    forall|i: int|
        0 <= i < credits.len() && is_work(#[trigger] credits[i])
            ==> !credits[i].popularity.is_nan()
}

/// A filmography: famous work first, one row per title, capped.
///
/// One row per title: an actor credited as two characters in the same show, or
/// as both writer and director of a film, is still one thing to watch. The
/// first survivor wins, which after the sort is the richer entry.
pub fn rank_credits(credits: Vec<Credit>) -> (r: Vec<Credit>)
    requires
        work_can_be_placed(list::views(credits@)),
    ensures
        list::views(r@) == filmography(list::views(credits@)),
{
    let test = Work;
    proof {
        list::lemma_filter_maps(
            credits@,
            |c: Credit| c@,
            |c: Credit| test.passes(c),
            |c: Part| is_work(c),
        );
    }
    let kept = list::kept(credits, &test);
    let order = MorePopular;
    proof {
        list::lemma_sort_maps(
            kept@,
            |c: Credit| c@,
            |a: Credit, b: Credit| order.before(a, b),
            |a: Part, b: Part| more_popular(a, b),
        );
    }
    let sorted = list::sorted(kept, &order);
    let title = ByTitle;
    proof {
        list::lemma_firsts_map(
            sorted@,
            |c: Credit| c@,
            |x: Credit| title.tag(x),
            |c: Part| title_tag(c),
        );
        list::lemma_firsts_keys(
            list::views(sorted@),
            |c: Part| title_tag(c),
            |c: Part| (c.hit.media_type, c.hit.id),
        );
    }
    let unique = list::unique(sorted, &title);
    let ghost whole = unique@;
    let r = list::cut(unique, MAX_CREDITS);
    assert(list::views(r@) =~= list::first(list::views(whole), MAX_CREDITS as nat));
    r
}

/// A person, as TMDB sends them: what they acted in and what they worked on
/// are two lists of the same shape.
#[derive(Debug)]
pub struct PersonResponse {
    pub id: u32,
    pub name: Option<String>,
    pub profile_path: Option<String>,
    pub biography: Option<String>,
    pub known_for_department: Option<String>,
    pub birthday: Option<String>,
    pub deathday: Option<String>,
    pub place_of_birth: Option<String>,
    pub cast: Vec<SearchItem>,
    pub crew: Vec<SearchItem>,
}

/// A person, as a cast click resolves them.
#[derive(Clone, Debug)]
pub struct PersonDetail {
    pub id: u32,
    pub name: String,
    pub profile: String,
    pub biography: String,
    /// TMDB's `known_for_department`: Acting, Directing, Writing…
    pub known_for: String,
    pub birthday: Option<String>,
    pub deathday: Option<String>,
    pub place_of_birth: String,
    pub credits: Vec<Credit>,
}

/// What a person's page says.
#[verifier::ext_equal]
pub struct Person {
    pub id: u32,
    pub name: Seq<char>,
    pub profile: Seq<char>,
    pub biography: Seq<char>,
    pub known_for: Seq<char>,
    pub birthday: Option<Seq<char>>,
    pub deathday: Option<Seq<char>>,
    pub place_of_birth: Seq<char>,
    pub credits: Seq<Part>,
}

impl View for PersonDetail {
    type V = Person;

    open spec fn view(&self) -> Person {
        Person {
            id: self.id,
            name: self.name@,
            profile: self.profile@,
            biography: self.biography@,
            known_for: self.known_for@,
            birthday: some_text(self.birthday),
            deathday: some_text(self.deathday),
            place_of_birth: self.place_of_birth@,
            credits: list::views(self.credits@),
        }
    }
}

/// What a crew entry of a filmography amounts to, where its job is one a
/// viewer recognises.
pub open spec fn crew_part_of(item: SearchItem) -> Option<Part> {
    match part_of(item, None) {
        Some(c) => match job_meant(c.job) {
            Some((_, label)) => Some(Part { job: label, ..c }),
            None => None,
        },
        None => None,
    }
}

struct CrewParts;

impl Narrow<SearchItem, Credit> for CrewParts {
    closed spec fn result(&self, a: SearchItem) -> Option<Part> {
        crew_part_of(a)
    }

    fn narrow(&self, a: SearchItem) -> (r: Option<Credit>) {
        match a.into_credit(None) {
            Some(c) => match job_rank(c.job.as_str()) {
                Some((_, label)) => {
                    let mut c = c;
                    c.job = label.to_string();
                    Some(c)
                },
                None => None,
            },
            None => None,
        }
    }
}

/// Everything a person did. Crew credits too, filtered to the jobs a viewer
/// recognises: otherwise a director's page is empty, and a "Thanks" credit on
/// a blockbuster would outrank the films they actually made.
pub open spec fn career(d: PersonResponse) -> Seq<Part> {
    parts_of(d.cast@, None) + list::chosen(d.crew@, |i: SearchItem| crew_part_of(i))
}

/// What a person's page says.
pub open spec fn person_of(d: PersonResponse, id: u32) -> Person {
    Person {
        id: d.id,
        name: or_numbered(d.name, "Person "@, id),
        profile: text::or_empty(d.profile_path),
        biography: text::or_empty(d.biography),
        known_for: text::or_empty(d.known_for_department),
        birthday: filled(d.birthday),
        deathday: filled(d.deathday),
        place_of_birth: text::or_empty(d.place_of_birth),
        credits: filmography(career(d)),
    }
}

impl PersonResponse {
    /// A person and their filmography.
    pub fn into_person(self, id: u32) -> (r: PersonDetail)
        requires
            work_can_be_placed(career(self)),
        ensures
            r@ == person_of(self, id),
    {
        let n = CrewParts;
        assert((|a: SearchItem| n.result(a)) =~= (|i: SearchItem| crew_part_of(i)));
        let mut credits = parts(self.cast, None);
        let mut rest = list::through(self.crew, &n);
        let ghost first = credits@;
        let ghost second = rest@;
        credits.append(&mut rest);
        assert(list::views(credits@) =~= list::views(first) + list::views(second));
        let r = PersonDetail {
            id: self.id,
            name: numbered(self.name, "Person ", id),
            profile: owned(self.profile_path),
            biography: owned(self.biography),
            known_for: owned(self.known_for_department),
            birthday: filled_in(self.birthday),
            deathday: filled_in(self.deathday),
            place_of_birth: owned(self.place_of_birth),
            credits: rank_credits(credits),
        };
        assert(r@ =~= person_of(self, id));
        r
    }
}

// --- asking -----------------------------------------------------------------------

/// Where to ask for a path. `extra` is what stands behind the key.
pub open spec fn asked(path: Seq<char>, key: Seq<char>, extra: Seq<char>) -> Seq<char> {
    BASE@ + path + (if path.contains('?') {
        "&"@
    } else {
        "?"@
    }) + "api_key="@ + key + extra
}

pub fn request_url(path: &str, key: &str, extra: &str) -> (r: String)
    ensures
        r@ == asked(path@, key@, extra@),
{
    let p = text::chars_of(path);
    let mut out = text::chars_of(BASE);
    text::push_all(&mut out, p.as_slice());
    if text::find_char(p.as_slice(), '?').is_some() {
        text::push_str(&mut out, "&");
    } else {
        text::push_str(&mut out, "?");
    }
    text::push_str(&mut out, "api_key=");
    text::push_str(&mut out, key);
    text::push_str(&mut out, extra);
    let r = text::string_of(out.as_slice());
    proof {
        lemma_place_of(path@, '?');
        assert(r@ =~= asked(path@, key@, extra@));
    }
    r
}

proof fn lemma_place_of(s: Seq<char>, c: char)
    ensures
        text::place_of(s, c) is Some == s.contains(c),
    decreases s.len(),
{
    if s.len() > 0 {
        let t = s.skip(1);
        lemma_place_of(t, c);
        if s.contains(c) && s[0] != c {
            let i = choose|i: int| 0 <= i < s.len() && s[i] == c;
            assert(t[i - 1] == c);
        }
        if t.contains(c) {
            let i = choose|i: int| 0 <= i < t.len() && t[i] == c;
            assert(s[i + 1] == c);
        }
        if s[0] == c {
            assert(s.contains(c));
        }
    }
}

/// What to make of an HTTP status: nothing where the request succeeded, else
/// what went wrong. `shown` is the status as it is written.
pub fn status_error(status: u16, shown: &str, path: &str) -> (r: Option<String>)
    ensures
        match r {
            Some(message) => !(200 <= status < 300) && message@ == (if status == 401 {
                "TMDB rejected the API key (401). Check $TMDB_API_KEY."@
            } else {
                "TMDB "@ + path@ + " returned HTTP "@ + shown@
            }),
            None => 200 <= status < 300,
        },
{
    if status == 401 {
        return Some("TMDB rejected the API key (401). Check $TMDB_API_KEY.".to_string());
    }
    if status >= 200 && status < 300 {
        return None;
    }
    let p = text::chars_of(path);
    let s = text::chars_of(shown);
    let out = text::four("TMDB ", p.as_slice(), " returned HTTP ", s.as_slice());
    Some(text::string_of(out.as_slice()))
}

/// What a search asks behind `/search/multi`.
pub fn search_query(query: &str) -> (r: String)
    ensures
        r@ == "&include_adult=false&query="@ + torrentio::encoded(query@),
{
    let mut out = text::chars_of("&include_adult=false&query=");
    text::push_str(&mut out, torrentio::percent_encode(query).as_str());
    text::string_of(out.as_slice())
}

/// What is watched now; of either kind where none is given.
pub fn trending_path(kind: Option<MediaType>, window: &str) -> (r: String)
    ensures
        r@ == "/trending/"@ + (match kind {
            None => "all"@,
            Some(k) => k.key_text(),
        }) + "/"@ + window@,
{
    let k: &'static str = match kind {
        None => "all",
        Some(k) => k.key(),
    };
    let k = text::chars_of(k);
    let w = text::chars_of(window);
    let out = text::four("/trending/", k.as_slice(), "/", w.as_slice());
    text::string_of(out.as_slice())
}

fn path_with(before: &str, id: u32, after: &str) -> (r: String)
    ensures
        r@ == before@ + text::decimal(id as nat) + after@,
{
    let mut out = text::chars_of(before);
    text::push_decimal(&mut out, id as u64);
    text::push_str(&mut out, after);
    text::string_of(out.as_slice())
}

pub fn movie_path(id: u32) -> (r: String)
    ensures
        r@ == "/movie/"@ + text::decimal(id as nat),
{
    let r = path_with("/movie/", id, "");
    proof {
        reveal_strlit("");
        assert("/movie/"@ + text::decimal(id as nat) + ""@ =~= "/movie/"@ + text::decimal(
            id as nat,
        ));
    }
    r
}

pub fn show_path(id: u32) -> (r: String)
    ensures
        r@ == "/tv/"@ + text::decimal(id as nat),
{
    let r = path_with("/tv/", id, "");
    proof {
        reveal_strlit("");
        assert("/tv/"@ + text::decimal(id as nat) + ""@ =~= "/tv/"@ + text::decimal(id as nat));
    }
    r
}

pub fn season_path(show_id: u32, season: u32) -> (r: String)
    ensures
        r@ == "/tv/"@ + text::decimal(show_id as nat) + "/season/"@ + text::decimal(season as nat),
{
    let mut out = text::chars_of("/tv/");
    text::push_decimal(&mut out, show_id as u64);
    text::push_str(&mut out, "/season/");
    text::push_decimal(&mut out, season as u64);
    text::string_of(out.as_slice())
}

pub fn videos_path(id: u32, kind: MediaType) -> (r: String)
    ensures
        r@ == "/"@ + kind.key_text() + "/"@ + text::decimal(id as nat) + "/videos"@,
{
    let mut out = text::chars_of("/");
    text::push_str(&mut out, kind.key());
    text::push_str(&mut out, "/");
    text::push_decimal(&mut out, id as u64);
    text::push_str(&mut out, "/videos");
    text::string_of(out.as_slice())
}

pub fn person_path(id: u32) -> (r: String)
    ensures
        r@ == "/person/"@ + text::decimal(id as nat),
{
    let r = path_with("/person/", id, "");
    proof {
        reveal_strlit("");
        assert("/person/"@ + text::decimal(id as nat) + ""@ =~= "/person/"@ + text::decimal(
            id as nat,
        ));
    }
    r
}

pub fn tv_credits_path(id: u32) -> (r: String)
    ensures
        r@ == "/person/"@ + text::decimal(id as nat) + "/tv_credits"@,
{
    path_with("/person/", id, "/tv_credits")
}

/// Whom to ask for a page of the catalog.
///
/// TMDB's /discover/tv has no person filter: it accepts `with_cast` and
/// `with_people` and ignores both. So "everything this person is in" has to be
/// asked the other way round for series: their own TV credits, filtered and
/// paged by `person_page`. Same question, same answer shape.
pub fn asks_a_person(filters: &Filters) -> (r: bool)
    ensures
        r == (filters.kind == Kind::Tv && filters.cast_id > 0),
{
    filters.kind == Kind::Tv && filters.cast_id > 0
}

// --- what holds of every list -----------------------------------------------------

/// The pages of a listing are its rows, cut into runs: row `i` stands on page
/// `i / 20 + 1` and nowhere else, no page holds more than 20 rows, and there
/// are rows on a page exactly when it is one of those announced, but for the
/// single empty page of an empty listing.
pub proof fn pages_tile<T>(rows: Seq<T>, i: int, page: nat)
    requires
        0 <= i < rows.len(),
        page >= 1,
    ensures
        page_rows(rows, (i / 20 + 1) as nat).len() > i % 20,
        page_rows(rows, (i / 20 + 1) as nat)[i % 20] == rows[i],
        page_rows(rows, page).len() <= PERSON_PAGE_SIZE,
        page_rows(rows, page).len() > 0 <==> page <= pages(rows.len()),
        forall|j: int|
            0 <= j < page_rows(rows, page).len() ==> #[trigger] page_rows(rows, page)[j] == rows[(
            page - 1) * 20 + j],
{
    let q = i / 20;
    assert(q * 20 + i % 20 == i);
    assert(rows.skip(q * 20)[i % 20] == rows[i]);
    let start = (page - 1) * PERSON_PAGE_SIZE;
    let n = rows.len();
    assert(start < n <==> page <= pages(n)) by {
        assert(pages(n) == (n + 19) / 20);
    }
    if start < n {
        assert forall|j: int| 0 <= j < page_rows(rows, page).len() implies #[trigger] page_rows(
            rows,
            page,
        )[j] == rows[(page - 1) * 20 + j] by {
            assert(rows.skip(start)[j] == rows[start + j]);
        }
    }
}

/// A person's page holds work with a poster only, the more popular first, no
/// title twice, and no more than it can show.
pub proof fn one_row_per_title(credits: Seq<Part>)
    ensures
        ({
            let r = filmography(credits);
            &&& list::distinct(r, |c: Part| (c.hit.media_type, c.hit.id))
            &&& list::all_of(r, |c: Part| is_work(c))
            &&& forall|i: int, j: int|
                0 <= i < j < r.len() ==> !(#[trigger] r[i]).popularity.below(
                    (#[trigger] r[j]).popularity,
                )
            &&& r.len() <= MAX_CREDITS
        }),
{
    let key = |c: Part| (c.hit.media_type, c.hit.id);
    let p = |c: Part| is_work(c);
    let lt = |a: Part, b: Part| more_popular(a, b);
    let kept = credits.filter(p);
    let sorted = list::stable_sort(kept, lt);
    list::lemma_filter_all(credits, p);
    list::lemma_sort_all(kept, lt, p);
    list::sorting_orders(kept, lt);
    list::lemma_firsts_in_order(sorted, key, lt, p);
    list::firsts_are_distinct(sorted, key, arbitrary());
    let f = famous(credits);
    let r = filmography(credits);
    assert(list::distinct(f, key));
    assert forall|i: int, j: int| 0 <= i < j < r.len() implies key(#[trigger] r[i]) != key(
        #[trigger] r[j],
    ) by {
        assert(key(f[i]) != key(f[j]));
    }
    assert forall|i: int| 0 <= i < r.len() implies p(#[trigger] r[i]) by {
        assert(p(f[i]));
    }
    assert forall|i: int, j: int| 0 <= i < j < r.len() implies !(
    #[trigger] r[i]).popularity.below((#[trigger] r[j]).popularity) by {
        assert(!lt(f[j], f[i]));
    }
}

/// No show is listed twice in a person's listing.
pub proof fn one_row_per_show(credits: Seq<Part>, f: Filters)
    ensures
        list::distinct(person_rows(credits, f), |h: Hit| h.id),
{
    let key = |c: Part| c.hit.id;
    let sorted = list::stable_sort(
        credits.filter(|c: Part| listed_for(c, f)),
        |a: Part, b: Part| listed_before(a, b, f.sort),
    );
    list::firsts_are_distinct(sorted, key, arbitrary());
    let rows = list::firsts(sorted, key);
    assert(list::distinct(rows, key));
    let r = person_rows(credits, f);
    assert forall|i: int, j: int| 0 <= i < j < r.len() implies (#[trigger] r[i]).id != (
    #[trigger] r[j]).id by {
        assert(key(rows[i]) != key(rows[j]));
    }
}

/// The pages of a listing, one behind the other, up to one of them.
pub open spec fn pages_joined<T>(rows: Seq<T>, upto: nat) -> Seq<T>
    decreases upto,
{
    if upto == 0 {
        Seq::empty()
    } else {
        pages_joined(rows, (upto - 1) as nat) + page_rows(rows, upto)
    }
}

/// Every page but the last is full, page 0 is page 1, and the pages announced,
/// one behind the other, are the whole listing.
pub proof fn pages_add_up<T>(rows: Seq<T>)
    ensures
        pages_joined(rows, pages(rows.len())) == rows,
        page_rows(rows, 0) == page_rows(rows, 1),
        pages(rows.len()) >= 1,
        rows.len() <= 20 * pages(rows.len()),
        pages(rows.len()) > 1 ==> 20 * (pages(rows.len()) - 1) < rows.len(),
        forall|p: nat|
            1 <= p < pages(rows.len()) ==> (#[trigger] page_rows(rows, p)).len()
                == PERSON_PAGE_SIZE,
        rows.len() > 0 ==> 1 <= page_rows(rows, pages(rows.len())).len() <= PERSON_PAGE_SIZE,
        forall|p: nat|
            p > pages(rows.len()) ==> (#[trigger] page_rows(rows, p)).len() == 0,
{
    lemma_pages_joined(rows, pages(rows.len()));
}

proof fn lemma_pages_joined<T>(rows: Seq<T>, upto: nat)
    requires
        upto <= pages(rows.len()),
    ensures
        pages_joined(rows, upto) == list::first(rows, 20 * upto),
    decreases upto,
{
    if upto > 0 {
        lemma_pages_joined(rows, (upto - 1) as nat);
        let start = (upto - 1) * PERSON_PAGE_SIZE;
        if start < rows.len() {
            let page = page_rows(rows, upto);
            assert(page == list::first(rows.skip(start), 20));
            assert(rows.take(start) + page =~= list::first(rows, 20 * upto));
        }
    }
}

/// A row is of the show.
pub open spec fn is_shown(rows: Seq<Hit>, id: u32) -> bool {
    exists|i: int| 0 <= i < rows.len() && (#[trigger] rows[i]).id == id
}

/// A credit in the show passes the filters.
pub open spec fn is_credited(credits: Seq<Part>, f: Filters, id: u32) -> bool {
    exists|i: int|
        0 <= i < credits.len() && (#[trigger] credits[i]).hit.id == id && listed_for(credits[i], f)
}

/// Over all its pages, a person's listing shows exactly the shows that some
/// credit of theirs passes the filters with, each once. Each row is such a
/// credit, none stands behind one that the sort puts after it, and of several
/// credits in one show none comes before the one that is shown.
pub proof fn a_career_is_listed_whole(credits: Seq<Part>, f: Filters)
    ensures
        ({
            let rows = person_rows(credits, f);
            let shown = pages_joined(rows, pages(rows.len()));
            let parts = person_parts(credits, f);
            &&& shown == parts.map_values(|c: Part| c.hit)
            &&& list::distinct(shown, |h: Hit| h.id)
            &&& forall|id: u32| #[trigger] is_shown(shown, id) == is_credited(credits, f, id)
            &&& forall|i: int|
                0 <= i < parts.len() ==> credits.contains(#[trigger] parts[i]) && listed_for(
                    parts[i],
                    f,
                )
            &&& forall|i: int, j: int|
                0 <= i < j < parts.len() ==> !listed_before(
                    #[trigger] parts[j],
                    #[trigger] parts[i],
                    f.sort,
                )
            &&& forall|i: int, j: int|
                0 <= i < parts.len() && 0 <= j < credits.len() && listed_for(credits[j], f) && (
                #[trigger] credits[j]).hit.id == (#[trigger] parts[i]).hit.id ==> !listed_before(
                    credits[j],
                    parts[i],
                    f.sort,
                )
        }),
{
    broadcast use vstd::seq_lib::group_to_multiset_ensures;

    let key = |c: Part| c.hit.id;
    let p = |c: Part| listed_for(c, f);
    let lt = |a: Part, b: Part| listed_before(a, b, f.sort);
    let kept = credits.filter(p);
    let sorted = list::stable_sort(kept, lt);
    let parts = person_parts(credits, f);
    let rows = person_rows(credits, f);
    let shown = pages_joined(rows, pages(rows.len()));
    pages_add_up(rows);
    one_row_per_show(credits, f);
    lemma_listing_order(f.sort);
    list::lemma_filter_all(credits, p);
    list::lemma_sort_all(kept, lt, p);
    list::sorting_orders(kept, lt);
    list::lemma_firsts_in_order(sorted, key, lt, p);
    list::lemma_firsts_lead(sorted, key, lt);
    assert forall|c: Part| #[trigger] sorted.contains(c) == kept.contains(c) by {
        assert(sorted.to_multiset().count(c) == kept.to_multiset().count(c));
    }
    assert forall|i: int| 0 <= i < parts.len() implies credits.contains(#[trigger] parts[i])
        && listed_for(parts[i], f) by {
        assert(sorted.contains(parts[i]));
        assert(p(parts[i]));
        credits.lemma_filter_contains_rev(p, parts[i]);
    }
    assert forall|j: int| 0 <= j < credits.len() && listed_for(credits[j], f) implies exists|k: int|
        0 <= k < sorted.len() && sorted[k] == #[trigger] credits[j] by {
        credits.lemma_filter_contains(p, j);
        assert(sorted.contains(credits[j]));
    }
    assert forall|i: int, j: int| 0 <= i < j < parts.len() implies !listed_before(
        #[trigger] parts[j],
        #[trigger] parts[i],
        f.sort,
    ) by {
        assert(!lt(parts[j], parts[i]));
    }
    assert forall|i: int, j: int|
        0 <= i < parts.len() && 0 <= j < credits.len() && listed_for(credits[j], f) && (
        #[trigger] credits[j]).hit.id == (#[trigger] parts[i]).hit.id implies !listed_before(
        credits[j],
        parts[i],
        f.sort,
    ) by {
        let k = choose|k: int| 0 <= k < sorted.len() && sorted[k] == credits[j];
        assert(key(sorted[k]) == key(parts[i]));
        assert(!lt(sorted[k], parts[i]));
    }
    assert forall|n: u32| #[trigger] is_shown(shown, n) == is_credited(credits, f, n) by {
        list::firsts_are_distinct(sorted, key, n);
        if is_shown(shown, n) {
            let i = choose|i: int| 0 <= i < shown.len() && (#[trigger] shown[i]).id == n;
            assert(credits.contains(parts[i]));
            let j = choose|j: int| 0 <= j < credits.len() && credits[j] == parts[i];
            assert(credits[j].hit.id == n);
        }
        if is_credited(credits, f, n) {
            let i = choose|i: int|
                0 <= i < credits.len() && (#[trigger] credits[i]).hit.id == n && listed_for(
                    credits[i],
                    f,
                );
            let k = choose|k: int| 0 <= k < sorted.len() && sorted[k] == credits[i];
            assert(key(sorted[k]) == n);
            assert(list::has_key(parts, key, n));
            let m = choose|m: int| 0 <= m < parts.len() && key(#[trigger] parts[m]) == n;
            assert(shown[m].id == n);
        }
    }
}

proof fn lemma_listing_order(sort: Sort)
    ensures
        list::is_order(|a: Part, b: Part| listed_before(a, b, sort)),
{
    let lt = |a: Part, b: Part| listed_before(a, b, sort);
    assert forall|a: Part| !(#[trigger] lt(a, a)) by {
        text::texts_are_ordered(a.hit.year, a.hit.year, a.hit.year);
    }
    assert forall|a: Part, b: Part| #[trigger] lt(a, b) implies !lt(b, a) by {
        text::texts_are_ordered(a.hit.year, b.hit.year, a.hit.year);
        text::texts_are_ordered(b.hit.year, a.hit.year, b.hit.year);
    }
    assert forall|a: Part, b: Part, c: Part|
        !#[trigger] lt(a, b) && !#[trigger] lt(b, c) implies !lt(a, c) by {
        text::texts_are_ordered(a.hit.year, b.hit.year, c.hit.year);
        text::texts_are_ordered(c.hit.year, b.hit.year, a.hit.year);
    }
}

/// A shelf of crew names no one twice and holds no more than it can show.
pub proof fn one_row_per_person(crew: Seq<Maker>)
    ensures
        list::distinct(notable(crew), |m: Maker| m.id),
        notable(crew).len() <= MAX_CREW,
{
    let key = |x: Ranked| x.member.id as u64;
    let sorted = list::stable_sort(
        list::chosen(crew, |m: Maker| ranked_maker(m)),
        |a: Ranked, b: Ranked| ranks_before(a, b),
    );
    list::firsts_are_distinct(sorted, key, arbitrary());
    let rows = one_row_each(crew);
    let r = notable(crew);
    assert forall|i: int, j: int| 0 <= i < j < r.len() implies (#[trigger] r[i]).id != (
    #[trigger] r[j]).id by {
        assert(key(rows[i]) != key(rows[j]));
    }
}

/// A shelf of cast is in billing order and holds no more than it can show.
pub proof fn cast_is_in_billing_order(cast: Seq<CastItem>)
    ensures
        forall|i: int, j: int|
            0 <= i < j < billed(cast).len() ==> (#[trigger] billed(cast)[i]).order <= (
            #[trigger] billed(cast)[j]).order,
        billed(cast).len() <= MAX_CAST,
{
    list::sorting_orders(
        list::chosen(cast, |c: CastItem| actor_of(c)),
        |a: Actor, b: Actor| billed_before(a, b),
    );
}

/// Every video offered can be opened, and none stands behind a less
/// interesting one.
pub proof fn videos_come_best_first(videos: Seq<Footage>)
    ensures
        forall|i: int|
            0 <= i < best_videos(videos).len() ==> openable(#[trigger] best_videos(videos)[i]),
        forall|i: int, j: int|
            0 <= i < j < best_videos(videos).len() ==> !shown_before(
                #[trigger] best_videos(videos)[j],
                #[trigger] best_videos(videos)[i],
            ),
{
    let p = |v: Footage| openable(v);
    let kept = videos.filter(p);
    let lt = |a: Footage, b: Footage| shown_before(a, b);
    assert(list::is_order(lt)) by {
        assert forall|a: Footage| !(#[trigger] lt(a, a)) by {
            text::text_order(a.published, a.published, a.published);
        }
        assert forall|a: Footage, b: Footage| #[trigger] lt(a, b) implies !lt(b, a) by {
            text::text_order(a.published, b.published, a.published);
        }
        assert forall|a: Footage, b: Footage, c: Footage| !#[trigger] lt(a, b) && !#[trigger] lt(
            b,
            c,
        ) implies !lt(a, c) by {
            text::text_order(c.published, b.published, a.published);
        }
    }
    list::sorting_orders(kept, lt);
    list::lemma_filter_all(videos, p);
    list::lemma_sort_all(kept, lt, p);
    let r = best_videos(videos);
    assert forall|i: int| 0 <= i < r.len() implies openable(#[trigger] r[i]) by {
        assert(p(r[i]));
    }
    assert forall|i: int, j: int| 0 <= i < j < r.len() implies !shown_before(
        #[trigger] r[j],
        #[trigger] r[i],
    ) by {
        assert(!lt(r[j], r[i]));
    }
}

/// What an item stands for: the kind that it says, or else the one implied, and
/// the title, or else the name. Without a kind, or with nothing but blanks for a
/// title, it stands for nothing. The year is the first four characters of the
/// day a film came out or a series was first aired.
pub proof fn items_say_what_they_are(item: SearchItem, implied: Option<MediaType>)
    ensures
        ({
            let said = match item.media_type {
                Some(m) => m@,
                None => Seq::empty(),
            };
            let title = match item.title {
                Some(t) => Some(t@),
                None => match item.name {
                    Some(n) => Some(n@),
                    None => None,
                },
            };
            let kind = if said == "movie"@ {
                Some(MediaType::Movie)
            } else if said == "tv"@ {
                Some(MediaType::Tv)
            } else {
                implied
            };
            let h = hit_of(item, implied);
            &&& h is Some <==> kind is Some && title is Some && text::trim(title->0).len() > 0
            &&& h is Some ==> {
                &&& (h->0).id == item.id
                &&& Some((h->0).media_type) == kind
                &&& Some((h->0).title) == title
                &&& (h->0).poster == text::or_empty(item.poster_path)
                &&& (h->0).backdrop == text::or_empty(item.backdrop_path)
                &&& (h->0).overview == text::or_empty(item.overview)
                &&& item.vote_average is Some ==> (h->0).vote == item.vote_average->0
                &&& kind == Some(MediaType::Movie) && item.release_date is None ==> (
                h->0).year.len() == 0
                &&& kind == Some(MediaType::Movie) && item.release_date is Some
                    && text::byte_prefix((item.release_date->0)@, 4) is Some ==> (h->0).year
                    == text::byte_prefix((item.release_date->0)@, 4)->0
                &&& kind == Some(MediaType::Tv) && item.first_air_date is None ==> (
                h->0).year.len() == 0
                &&& kind == Some(MediaType::Tv) && item.first_air_date is Some
                    && text::byte_prefix((item.first_air_date->0)@, 4) is Some ==> (h->0).year
                    == text::byte_prefix((item.first_air_date->0)@, 4)->0
            }
        }),
{
    reveal_strlit("movie");
    reveal_strlit("tv");
    assert("movie"@.len() == 5);
    assert("tv"@.len() == 2);
    assert(Seq::<char>::empty().len() == 0);
}

/// Whoever plays themselves, or sits in a talk show, the news or a reality
/// programme, appears; a part under any other name elsewhere is work.
pub proof fn appearances_are_told_from_work(character: Seq<char>, genre_ids: Seq<u32>)
    ensures
        genre_ids.contains(10763) ==> appears(character, genre_ids),
        genre_ids.contains(10764) ==> appears(character, genre_ids),
        genre_ids.contains(10767) ==> appears(character, genre_ids),
        ({
            let c = text::lower(text::trim(character));
            &&& c == "self"@ || text::begins(c, "self"@ + " "@) ==> appears(character, genre_ids)
            &&& c == "himself"@ || text::begins(c, "himself"@ + " "@) ==> appears(
                character,
                genre_ids,
            )
            &&& c == "herself"@ || text::begins(c, "herself"@ + " "@) ==> appears(
                character,
                genre_ids,
            )
            &&& c == "themselves"@ || text::begins(c, "themselves"@ + " "@) ==> appears(
                character,
                genre_ids,
            )
            &&& appears(character, genre_ids) ==> {
                ||| genre_ids.contains(10763) || genre_ids.contains(10764)
                    || genre_ids.contains(10767)
                ||| c == "self"@ || text::begins(c, "self"@ + " "@)
                ||| c == "himself"@ || text::begins(c, "himself"@ + " "@)
                ||| c == "herself"@ || text::begins(c, "herself"@ + " "@)
                ||| c == "themselves"@ || text::begins(c, "themselves"@ + " "@)
            }
        }),
{
    if genre_ids.contains(10763) {
        let i = choose|i: int| 0 <= i < genre_ids.len() && genre_ids[i] == 10763;
        assert(is_chat_genre(genre_ids[i]));
    }
    if genre_ids.contains(10764) {
        let i = choose|i: int| 0 <= i < genre_ids.len() && genre_ids[i] == 10764;
        assert(is_chat_genre(genre_ids[i]));
    }
    if genre_ids.contains(10767) {
        let i = choose|i: int| 0 <= i < genre_ids.len() && genre_ids[i] == 10767;
        assert(is_chat_genre(genre_ids[i]));
    }
    if exists|i: int| 0 <= i < genre_ids.len() && is_chat_genre(#[trigger] genre_ids[i]) {
        let i = choose|i: int| 0 <= i < genre_ids.len() && is_chat_genre(#[trigger] genre_ids[i]);
        assert(genre_ids.contains(genre_ids[i]));
    }
}

/// A credit is listed where it has a poster, is no mere appearance, and is of
/// the genre, the language, the rating and the years asked for; what is not
/// asked for keeps nothing out.
pub proof fn credits_are_listed_as_asked(c: Part, f: Filters)
    ensures
        listed_for(c, f) ==> c.hit.poster.len() > 0 && !c.appearance,
        listed_for(c, f) && f.genre_id != 0 ==> c.genre_ids.contains(f.genre_id),
        listed_for(c, f) && f.language@.len() > 0 ==> c.language == f.language@,
        listed_for(c, f) && f.min_rating > 0 ==> c.hit.vote.reaches(f.min_rating),
        listed_for(c, f) && f.years is Some ==> ({
            let y = text::parse_number(c.hit.year, u32::MAX as nat);
            y is Some && (f.years->0).0 <= y->0 && y->0 <= (f.years->0).1
        }),
        c.hit.poster.len() > 0 && !c.appearance && (f.genre_id == 0 || c.genre_ids.contains(
            f.genre_id,
        )) && (f.language@.len() == 0 || c.language == f.language@) && (f.min_rating == 0
            || c.hit.vote.reaches(f.min_rating)) && (f.years is None || (text::parse_number(
            c.hit.year,
            u32::MAX as nat,
        ) is Some && (f.years->0).0 <= text::parse_number(c.hit.year, u32::MAX as nat)->0
            && text::parse_number(c.hit.year, u32::MAX as nat)->0 <= (f.years->0).1))
            ==> listed_for(c, f),
{
}

/// A career is listed in the order asked for: the more popular first, the higher
/// rated, the later or the earlier; a person has no box office, so that asks for
/// the popular too.
pub proof fn careers_are_sorted_as_asked(credits: Seq<Part>, f: Filters, i: int, j: int)
    requires
        0 <= i < j < person_parts(credits, f).len(),
        forall|k: int|
            0 <= k < credits.len() && listed_for(#[trigger] credits[k], f) ==> can_be_placed(
                credits[k],
                f.sort,
            ),
    ensures
        ({
            let a = person_parts(credits, f)[i];
            let b = person_parts(credits, f)[j];
            &&& f.sort is Popular ==> !a.popularity.below(b.popularity)
            &&& f.sort is BoxOffice ==> !a.popularity.below(b.popularity)
            &&& f.sort is TopRated ==> !a.hit.vote.below(b.hit.vote)
            &&& f.sort is Newest ==> !text::text_before(a.hit.year, b.hit.year)
            &&& f.sort is Oldest ==> !text::text_before(b.hit.year, a.hit.year)
        }),
{
    a_career_is_listed_whole(credits, f);
    let parts = person_parts(credits, f);
    assert(!listed_before(parts[j], parts[i], f.sort));
}

/// Where a job stands on the crew shelf.
pub open spec fn precedence(job: Seq<char>) -> nat {
    if job == "Director"@ {
        1
    } else if job == "Creator"@ {
        2
    } else if job == "Writer"@ {
        3
    } else if job == "Screenplay"@ {
        4
    } else if job == "Executive Producer"@ {
        5
    } else if job == "Composer"@ {
        6
    } else {
        0
    }
}

/// The crew shelf shows six jobs, and nobody under any other: directors first,
/// then creators, writers, screenplay, executive producers and composers. At most
/// twelve people are shown, and fewer only where there are no more with such a
/// job.
pub proof fn the_crew_stands_by_its_jobs(crew: Seq<Maker>)
    ensures
        ({
            let r = notable(crew);
            &&& forall|i: int|
                0 <= i < r.len() ==> 1 <= precedence((#[trigger] r[i]).job) <= 6
            &&& forall|i: int, j: int|
                0 <= i < j < r.len() ==> precedence((#[trigger] r[i]).job) <= precedence(
                    (#[trigger] r[j]).job,
                )
            &&& r.len() <= 12
            &&& forall|k: int|
                0 <= k < crew.len() && precedence((#[trigger] crew[k]).job) > 0 && r.len() < 12
                    ==> exists|i: int| 0 <= i < r.len() && (#[trigger] r[i]).id == crew[k].id
        }),
{
    let f = |m: Maker| ranked_maker(m);
    let lt = |a: Ranked, b: Ranked| ranks_before(a, b);
    let key = |x: Ranked| x.member.id as u64;
    let p = |x: Ranked| x.rank + 1 == precedence(x.member.job) && x.rank <= 5;
    let all = list::chosen(crew, f);
    lemma_jobs_differ();
    lemma_ranked(crew);
    assert(list::is_order(lt));
    list::sorting_orders(all, lt);
    list::lemma_sort_all(all, lt, p);
    let sorted = list::stable_sort(all, lt);
    list::lemma_firsts_in_order(sorted, key, lt, p);
    let rows = list::firsts(sorted, key);
    let r = notable(crew);
    assert forall|i: int| 0 <= i < r.len() implies r[i] == rows[i].member && p(rows[i]) by {}
    assert forall|i: int| 0 <= i < r.len() implies 1 <= precedence((#[trigger] r[i]).job) <= 6 by {
        assert(p(rows[i]));
    }
    assert forall|i: int, j: int| 0 <= i < j < r.len() implies precedence((#[trigger] r[i]).job)
        <= precedence((#[trigger] r[j]).job) by {
        assert(p(rows[i]) && p(rows[j]));
        assert(!lt(rows[j], rows[i]));
    }
    assert forall|k: int|
        0 <= k < crew.len() && precedence((#[trigger] crew[k]).job) > 0 && r.len() < 12 implies
        exists|i: int| 0 <= i < r.len() && (#[trigger] r[i]).id == crew[k].id by {
        broadcast use vstd::seq_lib::group_to_multiset_ensures;

        let m = crew[k];
        let x = ranked_maker(m)->0;
        assert(ranked_maker(m) is Some);
        assert(all.contains(x));
        assert(sorted.to_multiset().count(x) > 0);
        assert(sorted.contains(x));
        let s = choose|s: int| 0 <= s < sorted.len() && sorted[s] == x;
        assert(list::has_key(sorted, key, key(x))) by {
            assert(key(sorted[s]) == key(x));
        }
        list::firsts_are_distinct(sorted, key, key(x));
        let i = choose|i: int| 0 <= i < rows.len() && key(#[trigger] rows[i]) == key(x);
        assert(r[i].id == m.id);
    }
}

proof fn lemma_jobs_differ()
    ensures
        "Director"@ != "Creator"@,
        "Director"@ != "Writer"@,
        "Director"@ != "Screenplay"@,
        "Director"@ != "Executive Producer"@,
        "Director"@ != "Composer"@,
        "Creator"@ != "Writer"@,
        "Creator"@ != "Screenplay"@,
        "Creator"@ != "Executive Producer"@,
        "Creator"@ != "Composer"@,
        "Writer"@ != "Screenplay"@,
        "Writer"@ != "Executive Producer"@,
        "Writer"@ != "Composer"@,
        "Screenplay"@ != "Executive Producer"@,
        "Screenplay"@ != "Composer"@,
        "Executive Producer"@ != "Composer"@,
{
    reveal_strlit("Director");
    reveal_strlit("Creator");
    reveal_strlit("Writer");
    reveal_strlit("Screenplay");
    reveal_strlit("Executive Producer");
    reveal_strlit("Composer");
    assert("Director"@[0] == 'D');
    assert("Creator"@[1] == 'r');
    assert("Writer"@[0] == 'W');
    assert("Screenplay"@[0] == 'S');
    assert("Executive Producer"@[0] == 'E');
    assert("Composer"@[1] == 'o');
    assert("Creator"@[0] == 'C');
    assert("Composer"@[0] == 'C');
}

proof fn lemma_ranked(crew: Seq<Maker>)
    ensures
        ({
            let all = list::chosen(crew, |m: Maker| ranked_maker(m));
            &&& list::all_of(
                all,
                |x: Ranked| x.rank + 1 == precedence(x.member.job) && x.rank <= 5,
            )
            &&& forall|k: int|
                0 <= k < crew.len() && ranked_maker(#[trigger] crew[k]) is Some ==> all.contains(
                    ranked_maker(crew[k])->0,
                )
        }),
    decreases crew.len(),
{
    let f = |m: Maker| ranked_maker(m);
    let all = list::chosen(crew, f);
    if crew.len() > 0 {
        let t = crew.drop_last();
        lemma_jobs_differ();
        lemma_ranked(t);
        let before = list::chosen(t, f);
        assert forall|k: int|
            0 <= k < crew.len() && ranked_maker(#[trigger] crew[k]) is Some implies all.contains(
            ranked_maker(crew[k])->0,
        ) by {
            if k < t.len() {
                assert(t[k] == crew[k]);
                let x = ranked_maker(crew[k])->0;
                assert(before.contains(x));
                let n = choose|n: int| 0 <= n < before.len() && before[n] == x;
                assert(all[n] == x);
            } else {
                assert(all[all.len() - 1] == ranked_maker(crew[k])->0);
            }
        }
        if f(crew.last()) is Some {
            let x = f(crew.last())->0;
            assert(x.rank + 1 == precedence(x.member.job) && x.rank <= 5);
            assert(all =~= before.push(x));
        }
    }
}

/// Videos that can be opened on YouTube are shown, and no others. Trailers come
/// first, then teasers, clips, featurettes and looks behind the scenes; of the
/// same kind the official come first, and then the later ones.
pub proof fn trailers_come_first(videos: Seq<Footage>, i: int, j: int)
    requires
        0 <= i < j < best_videos(videos).len(),
    ensures
        ({
            let a = best_videos(videos)[i];
            let b = best_videos(videos)[j];
            &&& a.key.len() > 0 && text::lower(a.site) == text::lower("YouTube"@)
            &&& b.key.len() > 0 && text::lower(b.site) == text::lower("YouTube"@)
            &&& b.kind == "Trailer"@ ==> a.kind == "Trailer"@
            &&& b.kind == "Teaser"@ ==> a.kind == "Trailer"@ || a.kind == "Teaser"@
            &&& b.kind == "Clip"@ ==> a.kind == "Trailer"@ || a.kind == "Teaser"@ || a.kind
                == "Clip"@
            &&& b.kind == "Featurette"@ ==> a.kind == "Trailer"@ || a.kind == "Teaser"@ || a.kind
                == "Clip"@ || a.kind == "Featurette"@
            &&& b.kind == "Behind the Scenes"@ ==> a.kind == "Trailer"@ || a.kind == "Teaser"@
                || a.kind == "Clip"@ || a.kind == "Featurette"@ || a.kind == "Behind the Scenes"@
            &&& a.kind == b.kind && b.official ==> a.official
            &&& a.kind == b.kind && a.official == b.official ==> !text::text_before(
                a.published,
                b.published,
            )
        }),
{
    videos_come_best_first(videos);
    let a = best_videos(videos)[i];
    let b = best_videos(videos)[j];
    assert(openable(a) && openable(b));
    assert(!shown_before(b, a));
    reveal_strlit("Trailer");
    reveal_strlit("Teaser");
    reveal_strlit("Clip");
    reveal_strlit("Featurette");
    reveal_strlit("Behind the Scenes");
    assert("Trailer"@[1] == 'r');
    assert("Teaser"@[1] == 'e');
    assert("Clip"@[0] == 'C');
    assert("Featurette"@[0] == 'F');
    assert("Behind the Scenes"@[0] == 'B');
    assert("Trailer"@[0] == 'T' && "Teaser"@[0] == 'T');
}

/// A film lasts the minutes that its record gives, and 110 where it gives none;
/// its IMDB id is kept only where it looks like one.
pub proof fn films_last_their_minutes(d: MovieDetail, id: u32)
    requires
        fits(d.runtime),
    ensures
        d.runtime is Some && d.runtime->0 > 0 ==> film_of(d, id).runtime_secs == d.runtime->0 * 60,
        d.runtime is None || d.runtime->0 == 0 ==> film_of(d, id).runtime_secs == 6600,
        film_of(d, id).id == id,
        d.title is Some ==> film_of(d, id).title == (d.title->0)@,
        film_of(d, id).original_title == text::or_empty(d.original_title),
        film_of(d, id).imdb_id.len() > 0 ==> text::begins(film_of(d, id).imdb_id, "tt"@)
            && d.imdb_id is Some && film_of(d, id).imdb_id == (d.imdb_id->0)@,
        d.imdb_id is Some && text::begins((d.imdb_id->0)@, "tt"@) ==> film_of(d, id).imdb_id == (
        d.imdb_id->0)@,
{
}

/// An episode lasts the minutes that its record gives, and what is usual for the
/// series where it gives none.
pub proof fn episodes_last_their_minutes(e: EpisodeDetail, season: u32, default_runtime_secs: u32)
    requires
        fits(e.runtime),
    ensures
        ({
            let r = installment_of(e, season, default_runtime_secs);
            &&& e.runtime is Some && e.runtime->0 > 0 ==> r.runtime_secs == e.runtime->0 * 60
            &&& e.runtime is None || e.runtime->0 == 0 ==> r.runtime_secs == default_runtime_secs
            &&& r.season == season
            &&& r.number == e.episode_number
            &&& e.name is Some ==> r.name == (e.name->0)@
            &&& e.air_date is Some ==> r.air_date == (e.air_date->0)@
        }),
{
}

/// What is usual for a series is the first running time on its record that is
/// not nought, and 45 minutes where there is none.
pub proof fn usual_running_times(d: ShowDetail, id: u32)
    requires
        forall|i: int|
            0 <= i < entries(d.episode_run_time).len() ==> (#[trigger] entries(
                d.episode_run_time,
            )[i]) * 60 <= u32::MAX,
    ensures
        ({
            let v = entries(d.episode_run_time);
            &&& (forall|i: int| 0 <= i < v.len() ==> #[trigger] v[i] == 0) ==> series_of(
                d,
                id,
            ).default_runtime_secs == 2700
            &&& forall|i: int|
                0 <= i < v.len() && v[i] > 0 && (forall|k: int| 0 <= k < i ==> v[k] == 0)
                    ==> series_of(d, id).default_runtime_secs == #[trigger] v[i] * 60
        }),
{
    let v = entries(d.episode_run_time);
    if forall|i: int| 0 <= i < v.len() ==> #[trigger] v[i] == 0 {
        lemma_none_known(v);
    }
    assert forall|i: int|
        0 <= i < v.len() && v[i] > 0 && (forall|k: int| 0 <= k < i ==> v[k] == 0) implies series_of(
        d,
        id,
    ).default_runtime_secs == #[trigger] v[i] * 60 by {
        lemma_first_known(v, i);
    }
}

proof fn lemma_none_known(v: Seq<u32>)
    requires
        forall|i: int| 0 <= i < v.len() ==> #[trigger] v[i] == 0,
    ensures
        first_known(v) is None,
    decreases v.len(),
{
    if v.len() > 0 {
        assert(v[0] == 0);
        assert forall|i: int| 0 <= i < v.skip(1).len() implies #[trigger] v.skip(1)[i] == 0 by {
            assert(v[i + 1] == 0);
        }
        lemma_none_known(v.skip(1));
    }
}

proof fn lemma_first_known(v: Seq<u32>, i: int)
    requires
        0 <= i < v.len(),
        v[i] > 0,
        forall|k: int| 0 <= k < i ==> v[k] == 0,
    ensures
        first_known(v) == Some(v[i]),
    decreases v.len(),
{
    if i > 0 {
        assert(v[0] == 0);
        let t = v.skip(1);
        assert forall|k: int| 0 <= k < i - 1 implies t[k] == 0 by {
            assert(v[k + 1] == 0);
        }
        lemma_first_known(t, i - 1);
        assert(t[i - 1] == v[i]);
    }
}

/// Specials and seasons without episodes are left out of a series; every other
/// season is in it, under its own number.
pub proof fn specials_are_left_out(s: SeasonSummary)
    ensures
        run_of(s) is Some <==> s.season_number > 0 && s.episode_count is Some && s.episode_count->0
            > 0,
        run_of(s) is Some ==> (run_of(s)->0).number == s.season_number && (
        run_of(s)->0).episode_count == s.episode_count->0 && (s.name is Some ==> (run_of(s)->0).name
            == (s.name->0)@),
{
}

/// A person's best-known titles are those of most of their popularity: each title
/// that they worked on is among them under its most popular credit, or forty
/// others are, none of them less popular.
pub proof fn the_most_famous_titles_are_kept(credits: Seq<Part>, k: int)
    requires
        0 <= k < credits.len(),
        credits[k].hit.poster.len() > 0,
        !credits[k].appearance,
    ensures
        ({
            let r = filmography(credits);
            let c = credits[k];
            ||| exists|i: int|
                0 <= i < r.len() && (#[trigger] r[i]).hit.id == c.hit.id && r[i].hit.media_type
                    == c.hit.media_type && !r[i].popularity.below(c.popularity)
            ||| r.len() == 40 && forall|i: int|
                0 <= i < r.len() ==> !(#[trigger] r[i]).popularity.below(c.popularity)
        }),
        forall|i: int|
            0 <= i < filmography(credits).len() ==> credits.contains(
                #[trigger] filmography(credits)[i],
            ),
{
    broadcast use vstd::seq_lib::group_to_multiset_ensures;

    let key = |c: Part| (c.hit.media_type, c.hit.id);
    let p = |c: Part| is_work(c);
    let lt = |a: Part, b: Part| more_popular(a, b);
    let kept = credits.filter(p);
    let sorted = list::stable_sort(kept, lt);
    let f = famous(credits);
    let r = filmography(credits);
    let c = credits[k];
    assert(list::is_order(lt));
    list::lemma_filter_all(credits, p);
    list::lemma_sort_all(kept, lt, p);
    list::sorting_orders(kept, lt);
    list::lemma_firsts_in_order(sorted, key, lt, p);
    list::lemma_firsts_lead(sorted, key, lt);
    assert forall|x: Part| #[trigger] sorted.contains(x) == kept.contains(x) by {
        assert(sorted.to_multiset().count(x) == kept.to_multiset().count(x));
    }
    assert forall|i: int| 0 <= i < r.len() implies credits.contains(#[trigger] r[i]) by {
        assert(sorted.contains(f[i]));
        credits.lemma_filter_contains_rev(p, f[i]);
    }
    credits.lemma_filter_contains(p, k);
    assert(sorted.contains(c));
    let j = choose|j: int| 0 <= j < sorted.len() && sorted[j] == c;
    assert(key(sorted[j]) == key(c));
    list::firsts_are_distinct(sorted, key, key(c));
    assert(list::has_key(f, key, key(c)));
    let m = choose|m: int| 0 <= m < f.len() && key(#[trigger] f[m]) == key(c);
    assert(!lt(sorted[j], f[m]));
    if m < r.len() {
        assert(r[m] == f[m]);
    } else {
        assert forall|i: int| 0 <= i < r.len() implies !(#[trigger] r[i]).popularity.below(
            c.popularity,
        ) by {
            assert(r[i] == f[i]);
            assert(!lt(f[m], f[i]));
            assert(!lt(c, f[m]));
            assert(!lt(c, f[i]));
        }
    }
}

/// Everyone in the cast who has a name is on the shelf where there is room: the
/// first twenty as they are billed, those without a place last.
pub proof fn the_cast_is_billed(cast: Seq<CastItem>, k: int)
    requires
        0 <= k < cast.len(),
        text::or_empty(cast[k].name).len() > 0,
    ensures
        billed(cast).len() <= 20,
        billed(cast).len() == 20 || exists|i: int|
            0 <= i < billed(cast).len() && (#[trigger] billed(cast)[i]).id == cast[k].id && billed(
                cast,
            )[i].name == text::or_empty(cast[k].name) && billed(cast)[i].character
                == text::or_empty(cast[k].character) && billed(cast)[i].profile == text::or_empty(
                cast[k].profile_path,
            ) && billed(cast)[i].order == (if cast[k].order is Some {
                cast[k].order->0
            } else {
                u32::MAX
            }),
{
    broadcast use vstd::seq_lib::group_to_multiset_ensures;

    let f = |c: CastItem| actor_of(c);
    let lt = |a: Actor, b: Actor| billed_before(a, b);
    let all = list::chosen(cast, f);
    let sorted = list::stable_sort(all, lt);
    assert(list::is_order(lt));
    list::sorting_orders(all, lt);
    lemma_chosen_holds(cast, f, k);
    let a = actor_of(cast[k])->0;
    assert(sorted.to_multiset().count(a) > 0);
    assert(sorted.contains(a));
    let i = choose|i: int| 0 <= i < sorted.len() && sorted[i] == a;
    if billed(cast).len() < 20 {
        assert(billed(cast)[i] == a);
    }
}

proof fn lemma_chosen_holds<A, V>(s: Seq<A>, f: spec_fn(A) -> Option<V>, k: int)
    requires
        0 <= k < s.len(),
        f(s[k]) is Some,
    ensures
        list::chosen(s, f).contains(f(s[k])->0),
    decreases s.len(),
{
    let t = s.drop_last();
    let r = list::chosen(s, f);
    if k == s.len() - 1 {
        assert(r[r.len() - 1] == f(s[k])->0);
    } else {
        assert(t[k] == s[k]);
        lemma_chosen_holds(t, f, k);
        let before = list::chosen(t, f);
        let n = choose|n: int| 0 <= n < before.len() && before[n] == f(s[k])->0;
        assert(r[n] == before[n]);
    }
}

/// What a title is like is shown in its order, where it has a poster; what has
/// none, or is no title, is left out.
pub proof fn similar_titles_have_posters(items: Seq<SearchItem>, x: SearchItem, implied: MediaType)
    ensures
        drawn_hits_of(Seq::empty(), implied).len() == 0,
        x.poster_path is None ==> drawn_hits_of(items.push(x), implied) == drawn_hits_of(
            items,
            implied,
        ),
        hit_of(x, Some(implied)) is None ==> drawn_hits_of(items.push(x), implied) == drawn_hits_of(
            items,
            implied,
        ),
        x.poster_path is Some && hit_of(x, Some(implied)) is Some ==> drawn_hits_of(
            items.push(x),
            implied,
        ) == drawn_hits_of(items, implied).push(hit_of(x, Some(implied))->0),
        hit_of(x, Some(implied)) is None ==> hits_of(items.push(x), Some(implied)) == hits_of(
            items,
            Some(implied),
        ),
        hit_of(x, Some(implied)) is Some ==> hits_of(items.push(x), Some(implied)) == hits_of(
            items,
            Some(implied),
        ).push(hit_of(x, Some(implied))->0),
{
    assert(items.push(x).drop_last() =~= items);
}

/// Eight jobs count, under six names: whoever created a series is its creator, and
/// whoever composed its music its composer.
pub proof fn eight_jobs_count(job: Seq<char>)
    ensures
        job_meant(job) is Some <==> {
            ||| job == "Director"@
            ||| job == "Creator"@
            ||| job == "Series Creator"@
            ||| job == "Writer"@
            ||| job == "Screenplay"@
            ||| job == "Executive Producer"@
            ||| job == "Composer"@
            ||| job == "Original Music Composer"@
        },
        job == "Series Creator"@ ==> (job_meant(job)->0).1 == "Creator"@,
        job == "Original Music Composer"@ ==> (job_meant(job)->0).1 == "Composer"@,
        job != "Series Creator"@ && job != "Original Music Composer"@ && job_meant(job) is Some
            ==> (job_meant(job)->0).1 == job,
{
    lemma_jobs_differ();
    reveal_strlit("Series Creator");
    reveal_strlit("Original Music Composer");
    reveal_strlit("Director");
    reveal_strlit("Creator");
    reveal_strlit("Writer");
    reveal_strlit("Screenplay");
    reveal_strlit("Executive Producer");
    reveal_strlit("Composer");
    assert("Series Creator"@.len() == 14);
    assert("Original Music Composer"@.len() == 23);
    assert("Director"@.len() == 8 && "Creator"@.len() == 7 && "Writer"@.len() == 6);
    assert("Screenplay"@.len() == 10 && "Executive Producer"@.len() == 18);
    assert("Composer"@.len() == 8);
}

/// A credit behind the camera counts where its job does, under the job's name; one
/// before it counts whatever the part.
pub proof fn careers_hold_parts_and_jobs(item: SearchItem)
    ensures
        crew_part_of(item) is Some <==> hit_of(item, None) is Some && job_meant(
            text::or_empty(item.job),
        ) is Some,
        crew_part_of(item) is Some ==> (crew_part_of(item)->0).job == (job_meant(
            text::or_empty(item.job),
        )->0).1 && (crew_part_of(item)->0).hit == hit_of(item, None)->0,
        part_of(item, None) is Some <==> hit_of(item, None) is Some,
        part_of(item, None) is Some ==> {
            let p = part_of(item, None)->0;
            &&& p.hit == hit_of(item, None)->0
            &&& p.character == text::or_empty(item.character)
            &&& p.job == text::or_empty(item.job)
            &&& p.language == text::or_empty(item.original_language)
            &&& item.popularity is Some ==> p.popularity == item.popularity->0
            &&& item.genre_ids is Some ==> p.genre_ids == (item.genre_ids->0)@
            &&& item.genre_ids is None ==> p.genre_ids.len() == 0
            &&& p.appearance == appears(p.character, p.genre_ids)
        },
{
}

/// Whoever created a series stands on its crew shelf, where there is room.
pub proof fn creators_stand_with_the_crew(d: ShowDetail, k: int)
    requires
        0 <= k < entries(d.created_by).len(),
        series_detail(d).crew.len() < 12,
    ensures
        exists|i: int|
            0 <= i < series_detail(d).crew.len() && (#[trigger] series_detail(d).crew[i]).id
                == entries(d.created_by)[k].id,
{
    let made = entries(d.created_by).map_values(|c: CreatedByRef| creator_of(c));
    let others = list::chosen(crew_items(d.credits), |c: CrewItem| maker_of(c));
    let crew = made + others;
    lemma_jobs_differ();
    the_crew_stands_by_its_jobs(crew);
    assert(crew[k] == creator_of(entries(d.created_by)[k]));
    assert(precedence(crew[k].job) == 2);
}

/// A language is called by its English name, or where that is missing or empty, by
/// its own; a series is from where it originates, or where that is unknown, from
/// where it was produced.
pub proof fn names_fall_back(l: LanguageRef, d: ShowDetail)
    ensures
        l.english_name is Some && (l.english_name->0)@.len() > 0 ==> language_text(l) == Some(
            (l.english_name->0)@,
        ),
        (l.english_name is None || (l.english_name->0)@.len() == 0) && l.name is Some && (
        l.name->0)@.len() > 0 ==> language_text(l) == Some((l.name->0)@),
        (l.english_name is None || (l.english_name->0)@.len() == 0) && (l.name is None || (
        l.name->0)@.len() == 0) ==> language_text(l) is None,
        d.origin_country is Some && (d.origin_country->0)@.len() > 0 ==> series_detail(d).countries
            == list::views((d.origin_country->0)@),
        d.origin_country is None || (d.origin_country->0)@.len() == 0 ==> series_detail(
            d,
        ).countries == codes_of(entries(d.production_countries)),
{
}

/// A video is taken as it is described, and is official only where it says so.
pub proof fn videos_are_what_they_say(v: VideoItem)
    ensures
        v.official is Some ==> footage_of(v).official == v.official->0,
        v.official is None ==> !footage_of(v).official,
        v.key is Some ==> footage_of(v).key == (v.key->0)@,
        v.site is Some ==> footage_of(v).site == (v.site->0)@,
        v.kind is Some ==> footage_of(v).kind == (v.kind->0)@,
        v.name is Some ==> footage_of(v).name == (v.name->0)@,
        v.published_at is Some ==> footage_of(v).published == (v.published_at->0)@,
        v.key is None ==> !openable(footage_of(v)),
{
}

} // verus!
