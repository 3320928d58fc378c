//! `dekho api`: the same catalog, shaped for a program instead of a person.
//!
//! Every verb answers with exactly one JSON object, including on failure, so a
//! caller can parse what it gets blind. This module shapes the answers; what
//! they are made of was fetched before. No engine is started and no torrent is
//! touched: this is a metadata surface, and the panel it exists for opens and
//! closes far more often than anything gets played.

use crate::audio;
use crate::browse;
use crate::browse::Kind;
use crate::history;
use crate::history::History;
use crate::json;
use crate::json::{Fields, Json, Shape, Tree};
use crate::list;
use crate::pick;
use crate::sources;
use crate::sources::Lookup;
use crate::text;
use crate::tmdb;
use crate::tmdb::{
    CastMember, CatalogPage, Credit, CrewMember, Episode, MediaType, Movie, PersonDetail, Season,
    SearchHit, SearchItem, Show, TitleDetail, Video,
};
use crate::torrentio;
use crate::torrentio::Candidate;
use vstd::prelude::*;

verus! {

// --- hits -------------------------------------------------------------------------

pub open spec fn hit_fields(h: tmdb::Hit) -> Seq<(Seq<char>, Tree)> {
    seq![
        ("id"@, json::number(h.id as u64)),
        ("kind"@, Tree::Text(h.media_type.key_text())),
        ("title"@, Tree::Text(h.title)),
        ("year"@, Tree::Text(h.year)),
        ("vote"@, json::finite_number(h.vote)),
        ("poster"@, Tree::Text(h.poster)),
        ("backdrop"@, Tree::Text(h.backdrop)),
        ("overview"@, Tree::Text(h.overview)),
    ]
}

fn put_hit(f: &mut Fields, h: &SearchHit)
    ensures
        final(f)@ == old(f)@ + hit_fields(h@),
{
    f.put("id", json::unsigned(h.id as u64));
    f.put("kind", json::string(h.media_type.key()));
    f.put("title", json::string(h.title.as_str()));
    f.put("year", json::string(h.year.as_str()));
    f.put("vote", json::float(h.vote));
    f.put("poster", json::string(h.poster.as_str()));
    f.put("backdrop", json::string(h.backdrop.as_str()));
    f.put("overview", json::string(h.overview.as_str()));
    assert(f@ =~= old(f)@ + hit_fields(h@));
}

/// One search hit, as every list-shaped verb returns it.
pub fn hit(h: &SearchHit) -> (r: Json)
    ensures
        r@ == json::object(hit_fields(h@)),
{
    let mut f = Fields::new();
    put_hit(&mut f, h);
    assert(f@ =~= hit_fields(h@));
    f.finish()
}

struct HitShape;

impl Shape<SearchHit> for HitShape {
    closed spec fn tree(&self, x: SearchHit) -> Tree {
        json::object(hit_fields(x@))
    }

    fn shape(&self, x: &SearchHit) -> (r: Json) {
        hit(x)
    }
}

/// A list of hits.
pub open spec fn hit_list(s: Seq<tmdb::Hit>) -> Tree {
    Tree::List(s.map_values(|h: tmdb::Hit| json::object(hit_fields(h))))
}

fn hits(v: &Vec<SearchHit>) -> (r: Json)
    ensures
        r@ == hit_list(list::views(v@)),
{
    let s = HitShape;
    assert(v@.map_values(|x: SearchHit| s.tree(x)) =~= list::views(v@).map_values(
        |h: tmdb::Hit| json::object(hit_fields(h)),
    ));
    json::shaped(v, &s)
}

/// An answer that is a list.
pub open spec fn items_of(l: Tree) -> Tree {
    json::object(seq![("items"@, l)])
}

fn items(l: Json) -> (r: Json)
    ensures
        r@ == items_of(l@),
{
    let mut f = Fields::new();
    f.put("items", l);
    assert(f@ =~= seq![("items"@, l@)]);
    f.finish()
}

/// The answer to a search, from what TMDB found.
pub fn search(results: Vec<SearchItem>) -> (r: Json)
    ensures
        r@ == items_of(hit_list(tmdb::hits_of(results@, None))),
{
    let found = tmdb::hits(results, None);
    items(hits(&found))
}

/// What is watched now, of one kind or of both.
pub fn trending(results: Vec<SearchItem>, kind: Option<MediaType>) -> (r: Json)
    ensures
        r@ == items_of(hit_list(tmdb::hits_of(results@, kind))),
{
    let found = tmdb::hits(results, kind);
    items(hits(&found))
}

/// One page of the catalog, with the page numbers a caller needs to walk it.
pub fn discover(catalog: &CatalogPage) -> (r: Json)
    ensures
        r@ == json::object(
            seq![
                ("items"@, hit_list(list::views(catalog.items@))),
                ("page"@, json::number(catalog.page as u64)),
                ("total_pages"@, json::number(catalog.total_pages as u64)),
            ],
        ),
{
    let mut f = Fields::new();
    f.put("items", hits(&catalog.items));
    f.put("page", json::unsigned(catalog.page as u64));
    f.put("total_pages", json::unsigned(catalog.total_pages as u64));
    assert(f@ =~= seq![
        ("items"@, hit_list(list::views(catalog.items@))),
        ("page"@, json::number(catalog.page as u64)),
        ("total_pages"@, json::number(catalog.total_pages as u64)),
    ]);
    f.finish()
}

// --- what can be asked for ----------------------------------------------------------

pub open spec fn genre_tree(g: (u32, Seq<char>)) -> Tree {
    json::object(seq![("id"@, json::number(g.0 as u64)), ("name"@, Tree::Text(g.1))])
}

pub fn genres(kind: Kind) -> (r: Json)
    ensures
        r@ == items_of(
            Tree::List(
                browse::genre_table(kind).map_values(|g: (u32, Seq<char>)| genre_tree(g)),
            ),
        ),
{
    let table = browse::genres_for(kind);
    let n = table.len();
    let mut out: Vec<Json> = Vec::new();
    let mut i: usize = 0;
    while i < n
        invariant
            i <= n == table@.len(),
            out@.len() == i,
            forall|k: int|
                0 <= k < i ==> (#[trigger] out@[k])@ == genre_tree((table@[k].0, table@[k].1@)),
        decreases n - i,
    {
        let mut f = Fields::new();
        f.put("id", json::unsigned(table[i].0 as u64));
        f.put("name", json::string(table[i].1));
        assert(f@ =~= seq![
            ("id"@, json::number(table@[i as int].0 as u64)),
            ("name"@, Tree::Text(table@[i as int].1@)),
        ]);
        out.push(f.finish());
        i += 1;
    }
    assert(json::values(out@) =~= browse::genre_table(kind).map_values(
        |g: (u32, Seq<char>)| genre_tree(g),
    ));
    items(json::array(out))
}

pub open spec fn language_tree(l: (Seq<char>, Seq<char>)) -> Tree {
    json::object(seq![("code"@, Tree::Text(l.0)), ("name"@, Tree::Text(l.1))])
}

pub fn languages() -> (r: Json)
    ensures
        r@ == items_of(
            Tree::List(
                browse::language_table().map_values(|l: (Seq<char>, Seq<char>)| language_tree(l)),
            ),
        ),
{
    let table = browse::languages();
    let n = table.len();
    let mut out: Vec<Json> = Vec::new();
    let mut i: usize = 0;
    while i < n
        invariant
            i <= n == table@.len(),
            out@.len() == i,
            forall|k: int|
                0 <= k < i ==> (#[trigger] out@[k])@ == language_tree((table@[k].0@, table@[k].1@)),
        decreases n - i,
    {
        let mut f = Fields::new();
        f.put("code", json::string(table[i].0));
        f.put("name", json::string(table[i].1));
        assert(f@ =~= seq![
            ("code"@, Tree::Text(table@[i as int].0@)),
            ("name"@, Tree::Text(table@[i as int].1@)),
        ]);
        out.push(f.finish());
        i += 1;
    }
    assert(json::values(out@) =~= browse::language_table().map_values(
        |l: (Seq<char>, Seq<char>)| language_tree(l),
    ));
    items(json::array(out))
}

// --- people -----------------------------------------------------------------------

pub open spec fn cast_tree(c: tmdb::Actor) -> Tree {
    json::object(
        seq![
            ("id"@, json::number(c.id as u64)),
            ("name"@, Tree::Text(c.name)),
            ("character"@, Tree::Text(c.character)),
            ("profile"@, Tree::Text(c.profile)),
            ("order"@, json::number(c.order as u64)),
        ],
    )
}

struct CastShape;

impl Shape<CastMember> for CastShape {
    closed spec fn tree(&self, x: CastMember) -> Tree {
        cast_tree(x@)
    }

    fn shape(&self, x: &CastMember) -> (r: Json) {
        let mut f = Fields::new();
        f.put("id", json::unsigned(x.id as u64));
        f.put("name", json::string(x.name.as_str()));
        f.put("character", json::string(x.character.as_str()));
        f.put("profile", json::string(x.profile.as_str()));
        f.put("order", json::unsigned(x.order as u64));
        assert(f@ =~= seq![
            ("id"@, json::number(x.id as u64)),
            ("name"@, Tree::Text(x.name@)),
            ("character"@, Tree::Text(x.character@)),
            ("profile"@, Tree::Text(x.profile@)),
            ("order"@, json::number(x.order as u64)),
        ]);
        f.finish()
    }
}

pub open spec fn crew_tree(c: tmdb::Maker) -> Tree {
    json::object(
        seq![
            ("id"@, json::number(c.id as u64)),
            ("name"@, Tree::Text(c.name)),
            ("job"@, Tree::Text(c.job)),
            ("profile"@, Tree::Text(c.profile)),
        ],
    )
}

struct CrewShape;

impl Shape<CrewMember> for CrewShape {
    closed spec fn tree(&self, x: CrewMember) -> Tree {
        crew_tree(x@)
    }

    fn shape(&self, x: &CrewMember) -> (r: Json) {
        let mut f = Fields::new();
        f.put("id", json::unsigned(x.id as u64));
        f.put("name", json::string(x.name.as_str()));
        f.put("job", json::string(x.job.as_str()));
        f.put("profile", json::string(x.profile.as_str()));
        assert(f@ =~= seq![
            ("id"@, json::number(x.id as u64)),
            ("name"@, Tree::Text(x.name@)),
            ("job"@, Tree::Text(x.job@)),
            ("profile"@, Tree::Text(x.profile@)),
        ]);
        f.finish()
    }
}

/// An ordinary hit, plus what the person did in it.
pub open spec fn credit_fields(c: tmdb::Part) -> Seq<(Seq<char>, Tree)> {
    let all = hit_fields(c.hit).push(("character"@, Tree::Text(c.character)));
    if c.job.len() > 0 {
        all.push(("job"@, Tree::Text(c.job)))
    } else {
        all
    }
}

/// An ordinary hit, plus what the person did in it.
pub fn credit(c: &Credit) -> (r: Json)
    ensures
        r@ == json::object(credit_fields(c@)),
{
    let mut f = Fields::new();
    put_hit(&mut f, &c.hit);
    f.put("character", json::string(c.character.as_str()));
    if !c.job.as_str().is_empty() {
        f.put("job", json::string(c.job.as_str()));
    }
    assert(f@ =~= credit_fields(c@));
    f.finish()
}

struct CreditShape;

impl Shape<Credit> for CreditShape {
    closed spec fn tree(&self, x: Credit) -> Tree {
        json::object(credit_fields(x@))
    }

    fn shape(&self, x: &Credit) -> (r: Json) {
        credit(x)
    }
}

/// One person and what they were in. Dates are null rather than empty when
/// TMDB has none: a missing deathday is a living person, which is not the same
/// fact as an unknown one.
pub open spec fn person_fields(p: tmdb::Person) -> Seq<(Seq<char>, Tree)> {
    seq![
        ("id"@, json::number(p.id as u64)),
        ("name"@, Tree::Text(p.name)),
        ("profile"@, Tree::Text(p.profile)),
        ("biography"@, Tree::Text(p.biography)),
        ("known_for"@, Tree::Text(p.known_for)),
        ("birthday"@, json::maybe_text(p.birthday)),
        ("deathday"@, json::maybe_text(p.deathday)),
        ("place_of_birth"@, Tree::Text(p.place_of_birth)),
        (
            "credits"@,
            Tree::List(p.credits.map_values(|c: tmdb::Part| json::object(credit_fields(c)))),
        ),
    ]
}

/// One person and what they were in: what a cast click resolves to.
pub fn person(p: &PersonDetail) -> (r: Json)
    ensures
        r@ == json::object(person_fields(p@)),
{
    let s = CreditShape;
    let mut f = Fields::new();
    f.put("id", json::unsigned(p.id as u64));
    f.put("name", json::string(p.name.as_str()));
    f.put("profile", json::string(p.profile.as_str()));
    f.put("biography", json::string(p.biography.as_str()));
    f.put("known_for", json::string(p.known_for.as_str()));
    f.put("birthday", json::maybe_string(&p.birthday));
    f.put("deathday", json::maybe_string(&p.deathday));
    f.put("place_of_birth", json::string(p.place_of_birth.as_str()));
    f.put("credits", json::shaped(&p.credits, &s));
    assert(p.credits@.map_values(|x: Credit| s.tree(x)) =~= list::views(p.credits@).map_values(
        |c: tmdb::Part| json::object(credit_fields(c)),
    ));
    assert(f@ =~= person_fields(p@));
    f.finish()
}

// --- videos -----------------------------------------------------------------------

pub open spec fn video_tree(v: tmdb::Footage) -> Tree {
    json::object(
        seq![
            ("key"@, Tree::Text(v.key)),
            ("url"@, Tree::Text(tmdb::watch_url(v.key))),
            ("site"@, Tree::Text(v.site)),
            ("type"@, Tree::Text(v.kind)),
            ("name"@, Tree::Text(v.name)),
            ("official"@, Tree::Bool(v.official)),
            ("published"@, Tree::Text(v.published)),
        ],
    )
}

struct VideoShape;

impl Shape<Video> for VideoShape {
    closed spec fn tree(&self, x: Video) -> Tree {
        video_tree(x@)
    }

    fn shape(&self, x: &Video) -> (r: Json) {
        let mut f = Fields::new();
        f.put("key", json::string(x.key.as_str()));
        f.put("url", json::string(x.url().as_str()));
        f.put("site", json::string(x.site.as_str()));
        f.put("type", json::string(x.kind.as_str()));
        f.put("name", json::string(x.name.as_str()));
        f.put("official", Json::Bool(x.official));
        f.put("published", json::string(x.published.as_str()));
        assert(f@ =~= seq![
            ("key"@, Tree::Text(x.key@)),
            ("url"@, Tree::Text(tmdb::watch_url(x.key@))),
            ("site"@, Tree::Text(x.site@)),
            ("type"@, Tree::Text(x.kind@)),
            ("name"@, Tree::Text(x.name@)),
            ("official"@, Tree::Bool(x.official)),
            ("published"@, Tree::Text(x.published@)),
        ]);
        f.finish()
    }
}

/// Every trailer, teaser and clip TMDB knows about, in the order given.
pub fn videos(v: &Vec<Video>) -> (r: Json)
    ensures
        r@ == items_of(
            Tree::List(list::views(v@).map_values(|x: tmdb::Footage| video_tree(x))),
        ),
{
    let s = VideoShape;
    assert(v@.map_values(|x: Video| s.tree(x)) =~= list::views(v@).map_values(
        |x: tmdb::Footage| video_tree(x),
    ));
    items(json::shaped(v, &s))
}

// --- episodes ---------------------------------------------------------------------

/// An episode; one with no runtime of its own inherits the show's typical one,
/// which is what sizes the buffer for it later.
pub open spec fn episode_tree(e: tmdb::Installment, typical: u32) -> Tree {
    json::object(
        seq![
            ("season"@, json::number(e.season as u64)),
            ("episode"@, json::number(e.number as u64)),
            ("name"@, Tree::Text(e.name)),
            ("overview"@, Tree::Text(e.overview)),
            (
                "runtime"@,
                json::number(
                    if e.runtime_secs == 0 {
                        typical as u64
                    } else {
                        e.runtime_secs as u64
                    },
                ),
            ),
            ("still"@, Tree::Text(e.still)),
            ("air_date"@, Tree::Text(e.air_date)),
            ("vote"@, json::finite_number(e.vote)),
        ],
    )
}

struct EpisodeShape {
    typical: u32,
}

impl Shape<Episode> for EpisodeShape {
    closed spec fn tree(&self, x: Episode) -> Tree {
        episode_tree(x@, self.typical)
    }

    fn shape(&self, x: &Episode) -> (r: Json) {
        let runtime: u32 = if x.runtime_secs == 0 {
            self.typical
        } else {
            x.runtime_secs
        };
        let mut f = Fields::new();
        f.put("season", json::unsigned(x.season as u64));
        f.put("episode", json::unsigned(x.number as u64));
        f.put("name", json::string(x.name.as_str()));
        f.put("overview", json::string(x.overview.as_str()));
        f.put("runtime", json::unsigned(runtime as u64));
        f.put("still", json::string(x.still.as_str()));
        f.put("air_date", json::string(x.air_date.as_str()));
        f.put("vote", json::float(x.vote));
        assert(f@ =~= seq![
            ("season"@, json::number(x.season as u64)),
            ("episode"@, json::number(x.number as u64)),
            ("name"@, Tree::Text(x.name@)),
            ("overview"@, Tree::Text(x.overview@)),
            ("runtime"@, json::number(runtime as u64)),
            ("still"@, Tree::Text(x.still@)),
            ("air_date"@, Tree::Text(x.air_date@)),
            ("vote"@, json::finite_number(x.vote)),
        ]);
        f.finish()
    }
}

/// The episodes of a season, fetched without a fallback runtime, and the
/// show's typical one.
pub fn episodes(v: &Vec<Episode>, default_runtime_secs: u32) -> (r: Json)
    ensures
        r@ == items_of(
            Tree::List(
                list::views(v@).map_values(
                    |e: tmdb::Installment| episode_tree(e, default_runtime_secs),
                ),
            ),
        ),
{
    let s = EpisodeShape { typical: default_runtime_secs };
    assert(v@.map_values(|x: Episode| s.tree(x)) =~= list::views(v@).map_values(
        |e: tmdb::Installment| episode_tree(e, default_runtime_secs),
    ));
    items(json::shaped(v, &s))
}

// --- titles -----------------------------------------------------------------------

pub open spec fn season_tree(s: tmdb::Run) -> Tree {
    json::object(
        seq![
            ("number"@, json::number(s.number as u64)),
            ("episodes"@, json::number(s.episode_count as u64)),
            ("name"@, Tree::Text(s.name)),
            ("poster"@, Tree::Text(s.poster)),
            ("year"@, Tree::Text(s.year)),
        ],
    )
}

struct SeasonShape;

impl Shape<Season> for SeasonShape {
    closed spec fn tree(&self, x: Season) -> Tree {
        season_tree(x@)
    }

    fn shape(&self, x: &Season) -> (r: Json) {
        let mut f = Fields::new();
        f.put("number", json::unsigned(x.number as u64));
        f.put("episodes", json::unsigned(x.episode_count as u64));
        f.put("name", json::string(x.name.as_str()));
        f.put("poster", json::string(x.poster.as_str()));
        f.put("year", json::string(x.year.as_str()));
        assert(f@ =~= seq![
            ("number"@, json::number(x.number as u64)),
            ("episodes"@, json::number(x.episode_count as u64)),
            ("name"@, Tree::Text(x.name@)),
            ("poster"@, Tree::Text(x.poster@)),
            ("year"@, Tree::Text(x.year@)),
        ]);
        f.finish()
    }
}

/// A film or a show.
pub enum Title {
    Movie(Movie),
    Show(Show),
}

/// The first half of a title. `runtime` is the same figure the bitrate gate
/// divides by, fallback and all, so what a caller displays and what dekho
/// reasons about cannot drift apart.
pub open spec fn base_fields(t: Title) -> Seq<(Seq<char>, Tree)> {
    match t {
        Title::Movie(m) => seq![
            ("id"@, json::number(m.id as u64)),
            ("kind"@, Tree::Text("movie"@)),
            ("title"@, Tree::Text(m.title@)),
            ("year"@, Tree::Text(m.year@)),
            ("vote"@, json::finite_number(m.vote)),
            ("poster"@, Tree::Text(m.poster@)),
            ("backdrop"@, Tree::Text(m.backdrop@)),
            ("overview"@, Tree::Text(m.overview@)),
            ("genres"@, json::text_list(text::string_texts(m.genres@))),
            ("runtime"@, json::number(m.runtime_secs as u64)),
            ("imdb_id"@, Tree::Text(m.imdb_id@)),
            ("seasons"@, Tree::List(Seq::empty())),
        ],
        Title::Show(s) => seq![
            ("id"@, json::number(s.tmdb_id as u64)),
            ("kind"@, Tree::Text("tv"@)),
            ("title"@, Tree::Text(s.name@)),
            ("year"@, Tree::Text(s.year@)),
            ("vote"@, json::finite_number(s.vote)),
            ("poster"@, Tree::Text(s.poster@)),
            ("backdrop"@, Tree::Text(s.backdrop@)),
            ("overview"@, Tree::Text(s.overview@)),
            ("genres"@, json::text_list(text::string_texts(s.genres@))),
            ("runtime"@, json::number(s.default_runtime_secs as u64)),
            ("imdb_id"@, Tree::Text(s.imdb_id@)),
            (
                "seasons"@,
                Tree::List(list::views(s.seasons@).map_values(|x: tmdb::Run| season_tree(x))),
            ),
        ],
    }
}

/// Where to watch the best video, or nothing. Empty rather than null, so a
/// caller can test it the same way it tests `poster`.
pub open spec fn trailer_text(videos: Seq<tmdb::Footage>) -> Seq<char> {
    if videos.len() > 0 {
        tmdb::watch_url(videos[0].key)
    } else {
        Seq::empty()
    }
}

pub open spec fn film_fields(m: Option<tmdb::FilmFacts>) -> Seq<(Seq<char>, Tree)> {
    match m {
        Some(m) => seq![
            ("budget"@, json::number(m.budget)),
            ("revenue"@, json::number(m.revenue)),
            ("release_date"@, Tree::Text(m.release_date)),
        ],
        None => Seq::empty(),
    }
}

pub open spec fn series_fields(s: Option<tmdb::SeriesFacts>) -> Seq<(Seq<char>, Tree)> {
    match s {
        Some(s) => seq![
            ("season_count"@, json::number(s.season_count as u64)),
            ("episode_count"@, json::number(s.episode_count as u64)),
            ("first_air"@, Tree::Text(s.first_air)),
            ("last_air"@, Tree::Text(s.last_air)),
            ("networks"@, json::text_list(s.networks)),
            ("in_production"@, Tree::Bool(s.in_production)),
        ],
        None => Seq::empty(),
    }
}

/// The additive half of a title.
pub open spec fn detail_fields(d: tmdb::Detail) -> Seq<(Seq<char>, Tree)> {
    shared_fields(d) + film_fields(d.movie) + series_fields(d.show)
}

/// The additive half that films and shows have in common.
pub open spec fn shared_fields(d: tmdb::Detail) -> Seq<(Seq<char>, Tree)> {
    seq![
        ("tagline"@, Tree::Text(d.tagline)),
        ("status"@, Tree::Text(d.status)),
        ("homepage"@, Tree::Text(d.homepage)),
        ("trailer"@, Tree::Text(trailer_text(d.videos))),
        ("cast"@, Tree::List(d.cast.map_values(|c: tmdb::Actor| cast_tree(c)))),
        ("crew"@, Tree::List(d.crew.map_values(|c: tmdb::Maker| crew_tree(c)))),
        ("studios"@, json::text_list(d.studios)),
        ("countries"@, json::text_list(d.countries)),
        ("languages"@, json::text_list(d.languages)),
        ("similar"@, hit_list(d.similar)),
    ]
}

fn put_base(f: &mut Fields, t: &Title)
    ensures
        final(f)@ == old(f)@ + base_fields(*t),
{
    match t {
        Title::Movie(m) => {
            f.put("id", json::unsigned(m.id as u64));
            f.put("kind", json::string("movie"));
            f.put("title", json::string(m.title.as_str()));
            f.put("year", json::string(m.year.as_str()));
            f.put("vote", json::float(m.vote));
            f.put("poster", json::string(m.poster.as_str()));
            f.put("backdrop", json::string(m.backdrop.as_str()));
            f.put("overview", json::string(m.overview.as_str()));
            f.put("genres", json::strings(&m.genres));
            f.put("runtime", json::unsigned(m.runtime_secs as u64));
            f.put("imdb_id", json::string(m.imdb_id.as_str()));
            let none: Vec<Json> = Vec::new();
            assert(json::values(none@) =~= Seq::empty());
            f.put("seasons", json::array(none));
        },
        Title::Show(s) => {
            let shape = SeasonShape;
            f.put("id", json::unsigned(s.tmdb_id as u64));
            f.put("kind", json::string("tv"));
            f.put("title", json::string(s.name.as_str()));
            f.put("year", json::string(s.year.as_str()));
            f.put("vote", json::float(s.vote));
            f.put("poster", json::string(s.poster.as_str()));
            f.put("backdrop", json::string(s.backdrop.as_str()));
            f.put("overview", json::string(s.overview.as_str()));
            f.put("genres", json::strings(&s.genres));
            f.put("runtime", json::unsigned(s.default_runtime_secs as u64));
            f.put("imdb_id", json::string(s.imdb_id.as_str()));
            f.put("seasons", json::shaped(&s.seasons, &shape));
            assert(s.seasons@.map_values(|x: Season| shape.tree(x)) =~= list::views(
                s.seasons@,
            ).map_values(|x: tmdb::Run| season_tree(x)));
        },
    }
    assert(f@ =~= old(f)@ + base_fields(*t));
}

fn put_detail(f: &mut Fields, d: &TitleDetail)
    ensures
        final(f)@ == old(f)@ + detail_fields(d@),
{
    f.put("tagline", json::string(d.tagline.as_str()));
    f.put("status", json::string(d.status.as_str()));
    f.put("homepage", json::string(d.homepage.as_str()));
    if d.videos.len() > 0 {
        // The best one, already ranked.
        f.put("trailer", json::string(d.videos[0].url().as_str()));
    } else {
        let none: Vec<char> = Vec::new();
        f.put("trailer", json::string(text::string_of(none.as_slice()).as_str()));
    }
    let cast = CastShape;
    let crew = CrewShape;
    f.put("cast", json::shaped(&d.cast, &cast));
    f.put("crew", json::shaped(&d.crew, &crew));
    f.put("studios", json::strings(&d.studios));
    f.put("countries", json::strings(&d.countries));
    f.put("languages", json::strings(&d.languages));
    f.put("similar", hits(&d.similar));
    proof {
        assert(list::views(d.videos@).len() == d.videos@.len());
        assert(d.cast@.map_values(|x: CastMember| cast.tree(x)) =~= list::views(
            d.cast@,
        ).map_values(|c: tmdb::Actor| cast_tree(c)));
        assert(d.crew@.map_values(|x: CrewMember| crew.tree(x)) =~= list::views(
            d.crew@,
        ).map_values(|c: tmdb::Maker| crew_tree(c)));
        assert(text::string_texts(d.studios@) =~= list::views(d.studios@));
        assert(text::string_texts(d.countries@) =~= list::views(d.countries@));
        assert(text::string_texts(d.languages@) =~= list::views(d.languages@));
    }
    if let Some(m) = &d.movie {
        f.put("budget", json::unsigned(m.budget));
        f.put("revenue", json::unsigned(m.revenue));
        f.put("release_date", json::string(m.release_date.as_str()));
    }
    if let Some(s) = &d.show {
        f.put("season_count", json::unsigned(s.season_count as u64));
        f.put("episode_count", json::unsigned(s.episode_count as u64));
        f.put("first_air", json::string(s.first_air.as_str()));
        f.put("last_air", json::string(s.last_air.as_str()));
        f.put("networks", json::strings(&s.networks));
        f.put("in_production", Json::Bool(s.in_production));
        assert(text::string_texts(s.networks@) =~= list::views(s.networks@));
    }
    assert(f@ =~= old(f)@ + detail_fields(d@));
}

/// Everything about one title, seasons included.
pub fn title(t: &Title, detail: &TitleDetail) -> (r: Json)
    ensures
        r@ == json::object(base_fields(*t) + detail_fields(detail@)),
{
    let mut f = Fields::new();
    put_base(&mut f, t);
    put_detail(&mut f, detail);
    assert(f@ =~= base_fields(*t) + detail_fields(detail@));
    f.finish()
}

// --- history ----------------------------------------------------------------------

/// Recently watched titles, newest first.
pub fn history(store: &History, limit: usize) -> (r: Json)
    ensures
        r@ == items_of(
            Tree::List(
                list::first(
                    list::stable_sort(
                        store@,
                        |a: history::Record, b: history::Record| history::newer(a, b),
                    ),
                    limit as nat,
                ).map_values(|e: history::Record| json::object(history::entry_fields(e))),
            ),
        ),
{
    let recent = store.recent(limit);
    let n = recent.len();
    let mut out: Vec<Json> = Vec::new();
    let mut i: usize = 0;
    while i < n
        invariant
            i <= n == recent@.len(),
            out@.len() == i,
            forall|k: int|
                0 <= k < i ==> (#[trigger] out@[k])@ == json::object(
                    history::entry_fields(recent@[k]@),
                ),
        decreases n - i,
    {
        out.push(recent[i].json());
        i += 1;
    }
    let ghost seen = recent@.map_values(|e: &history::Entry| e@);
    assert(json::values(out@) =~= seen.map_values(
        |e: history::Record| json::object(history::entry_fields(e)),
    ));
    items(json::array(out))
}

// --- releases ---------------------------------------------------------------------

/// Why no releases can be looked up for a title.
#[derive(Clone, Copy, PartialEq, Eq, Debug, Structural)]
pub enum ReleasesError {
    NoImdbId,
    NoSeason,
    NoEpisode,
}

impl ReleasesError {
    pub fn message(self) -> (r: &'static str)
        ensures
            r@ == match self {
                ReleasesError::NoImdbId =>
                    "TMDB has no IMDB id for this title, so no releases can be looked up"@,
                ReleasesError::NoSeason => "api releases for a series needs -s"@,
                ReleasesError::NoEpisode => "api releases for a series needs -e"@,
            },
    {
        match self {
            ReleasesError::NoImdbId =>
                "TMDB has no IMDB id for this title, so no releases can be looked up",
            ReleasesError::NoSeason => "api releases for a series needs -s",
            ReleasesError::NoEpisode => "api releases for a series needs -e",
        }
    }
}

/// The season and episode to look releases up for: both for a series, neither
/// for a film.
pub fn release_query(
    imdb_id: &str,
    kind: MediaType,
    season: Option<u32>,
    episode: Option<u32>,
) -> (r: Result<(Option<u32>, Option<u32>), ReleasesError>)
    ensures
        r == (if imdb_id@.len() == 0 {
            Err(ReleasesError::NoImdbId)
        } else if kind == MediaType::Movie {
            Ok((None, None))
        } else if season is None {
            Err(ReleasesError::NoSeason)
        } else if episode is None {
            Err(ReleasesError::NoEpisode)
        } else {
            Ok((season, episode))
        }),
{
    if imdb_id.is_empty() {
        return Err(ReleasesError::NoImdbId);
    }
    match kind {
        MediaType::Movie => Ok((None, None)),
        MediaType::Tv => {
            if season.is_none() {
                return Err(ReleasesError::NoSeason);
            }
            if episode.is_none() {
                return Err(ReleasesError::NoEpisode);
            }
            Ok((season, episode))
        },
    }
}

/// A release as a caller sees it. Its hash is what names it when it is played.
pub open spec fn release_tree(c: Candidate) -> Tree {
    json::object(
        seq![
            ("hash"@, Tree::Text(sources::hash_of(c.magnet@))),
            ("title"@, Tree::Text(c.title@)),
            ("quality"@, Tree::Text(torrentio::quality_label(c.quality))),
            (
                "size_bytes"@,
                match c.size_bytes {
                    Some(n) => json::number(n),
                    None => Tree::Null,
                },
            ),
            (
                "size"@,
                match c.size_bytes {
                    Some(n) => Tree::Text(torrentio::bytes_text(n)),
                    None => Tree::Null,
                },
            ),
            ("seeders"@, json::number(c.seeders as u64)),
            ("audio"@, Tree::Text(audio::audio_label(c.audio))),
        ],
    )
}

struct ReleaseShape;

impl Shape<Candidate> for ReleaseShape {
    closed spec fn tree(&self, x: Candidate) -> Tree {
        release_tree(x)
    }

    fn shape(&self, x: &Candidate) -> (r: Json) {
        let mut f = Fields::new();
        f.put("hash", json::string(sources::info_hash_of(x.magnet.as_str()).as_str()));
        f.put("title", json::string(x.title.as_str()));
        f.put("quality", json::string(x.quality.label()));
        match x.size_bytes {
            Some(n) => {
                f.put("size_bytes", json::unsigned(n));
                f.put("size", json::string(torrentio::format_bytes(n).as_str()));
            },
            None => {
                f.put("size_bytes", Json::Null);
                f.put("size", Json::Null);
            },
        }
        f.put("seeders", json::unsigned(x.seeders as u64));
        f.put("audio", json::string(x.audio.label().as_str()));
        let r = f.finish();
        assert(r@ == release_tree(*x)) by {
            assert(f@ =~= seq![
                ("hash"@, Tree::Text(sources::hash_of(x.magnet@))),
                ("title"@, Tree::Text(x.title@)),
                ("quality"@, Tree::Text(torrentio::quality_label(x.quality))),
                (
                    "size_bytes"@,
                    match x.size_bytes {
                        Some(n) => json::number(n),
                        None => Tree::Null,
                    },
                ),
                (
                    "size"@,
                    match x.size_bytes {
                        Some(n) => Tree::Text(torrentio::bytes_text(n)),
                        None => Tree::Null,
                    },
                ),
                ("seeders"@, json::number(x.seeders as u64)),
                ("audio"@, Tree::Text(audio::audio_label(x.audio))),
            ]);
        }
        r
    }
}

/// Every release for a title, in the order the interactive menu would show
/// them: wrong-title strangers dropped, best first, nothing else hidden.
///
/// Beside them stands how many strangers filed under the title's IMDB id were
/// dropped, so a panel can say why the list is shorter than the raw one, and
/// which indexers failed; their releases are simply absent.
pub fn releases(lookup: Lookup, title: &str, original_title: &str) -> (r: Json)
    ensures
        ({
            let keys = pick::title_keys(seq![title@, original_title@]);
            let (kept, dropped, _) = pick::guarded(
                lookup.candidates@,
                lookup.candidates@.map_values(
                    |c: Candidate| pick::named_like(pick::title_words(c.title@), keys),
                ),
                keys.len() > 0,
            );
            let shown = list::stable_sort(
                kept,
                |a: Candidate, b: Candidate| torrentio::better(a@, b@),
            );
            r@ == json::object(
                seq![
                    ("items"@, Tree::List(shown.map_values(|c: Candidate| release_tree(c)))),
                    ("dropped"@, json::number(dropped as u64)),
                    ("failed"@, json::text_list(text::str_texts(lookup.failed@))),
                ],
            )
        }),
{
    let mut titles: Vec<&str> = Vec::new();
    titles.push(title);
    titles.push(original_title);
    assert(text::str_texts(titles@) =~= seq![title@, original_title@]);
    let guard = pick::title_guard(lookup.candidates, titles.as_slice());
    let shown = pick::rank_for_menu(guard.kept);
    let s = ReleaseShape;
    assert((|x: Candidate| s.tree(x)) =~= (|c: Candidate| release_tree(c)));
    let mut failed: Vec<Json> = Vec::new();
    let n = lookup.failed.len();
    let mut i: usize = 0;
    while i < n
        invariant
            i <= n == lookup.failed@.len(),
            failed@.len() == i,
            forall|k: int|
                0 <= k < i ==> (#[trigger] failed@[k])@ == Tree::Text(lookup.failed@[k]@),
        decreases n - i,
    {
        failed.push(json::string(lookup.failed[i]));
        i += 1;
    }
    assert(json::values(failed@) =~= text::str_texts(lookup.failed@).map_values(
        |t: Seq<char>| Tree::Text(t),
    ));
    let mut f = Fields::new();
    f.put("items", json::shaped(&shown, &s));
    f.put("dropped", json::unsigned(guard.dropped as u64));
    f.put("failed", json::array(failed));
    assert(f@ =~= seq![
        ("items"@, Tree::List(shown@.map_values(|c: Candidate| release_tree(c)))),
        ("dropped"@, json::number(guard.dropped as u64)),
        ("failed"@, json::text_list(text::str_texts(lookup.failed@))),
    ]);
    f.finish()
}

/// The failure shape, so one parser handles both outcomes.
pub fn error(message: &str) -> (r: Json)
    ensures
        r@ == json::object(seq![("error"@, Tree::Text(message@))]),
{
    let mut f = Fields::new();
    f.put("error", json::string(message));
    assert(f@ =~= seq![("error"@, Tree::Text(message@))]);
    f.finish()
}

// --- what holds of every title ------------------------------------------------------

/// Every field of the additive half is new: whatever stands in the first half
/// of a title is in the whole answer, unmoved.
pub proof fn detail_only_adds(t: Title, d: tmdb::Detail, i: int)
    requires
        0 <= i < base_fields(t).len(),
    ensures
        ({
            let name = base_fields(t)[i].0;
            let whole = json::fields(base_fields(t) + detail_fields(d));
            &&& json::fields(base_fields(t)).contains_key(name)
            &&& whole.contains_key(name)
            &&& whole[name] == json::fields(base_fields(t))[name]
        }),
{
    let name = base_fields(t)[i].0;
    let more = detail_fields(d);
    lemma_new_names(name, i, t, d);
    json::lemma_fields_behind(base_fields(t), more, name);
    lemma_named(base_fields(t), i);
}

proof fn lemma_named(s: Seq<(Seq<char>, Tree)>, i: int)
    requires
        0 <= i < s.len(),
    ensures
        json::fields(s).contains_key(s[i].0),
    decreases s.len(),
{
    if i < s.len() - 1 {
        lemma_named(s.drop_last(), i);
    }
}

spec fn is_base_name(n: Seq<char>) -> bool {
    ||| n == "id"@
    ||| n == "kind"@
    ||| n == "title"@
    ||| n == "year"@
    ||| n == "vote"@
    ||| n == "poster"@
    ||| n == "backdrop"@
    ||| n == "overview"@
    ||| n == "genres"@
    ||| n == "runtime"@
    ||| n == "imdb_id"@
    ||| n == "seasons"@
}

spec fn is_new_name(n: Seq<char>) -> bool {
    ||| n == "tagline"@
    ||| n == "status"@
    ||| n == "homepage"@
    ||| n == "trailer"@
    ||| n == "cast"@
    ||| n == "crew"@
    ||| n == "studios"@
    ||| n == "countries"@
    ||| n == "languages"@
    ||| n == "similar"@
    ||| n == "budget"@
    ||| n == "revenue"@
    ||| n == "release_date"@
    ||| n == "season_count"@
    ||| n == "episode_count"@
    ||| n == "first_air"@
    ||| n == "last_air"@
    ||| n == "networks"@
    ||| n == "in_production"@
}

proof fn lemma_names_differ(a: Seq<char>, b: Seq<char>)
    requires
        is_base_name(a),
        is_new_name(b),
    ensures
        a != b,
{
    reveal_strlit("id");
    reveal_strlit("kind");
    reveal_strlit("title");
    reveal_strlit("year");
    reveal_strlit("vote");
    reveal_strlit("poster");
    reveal_strlit("backdrop");
    reveal_strlit("overview");
    reveal_strlit("genres");
    reveal_strlit("runtime");
    reveal_strlit("imdb_id");
    reveal_strlit("seasons");
    reveal_strlit("tagline");
    reveal_strlit("status");
    reveal_strlit("homepage");
    reveal_strlit("trailer");
    reveal_strlit("cast");
    reveal_strlit("crew");
    reveal_strlit("studios");
    reveal_strlit("countries");
    reveal_strlit("languages");
    reveal_strlit("similar");
    reveal_strlit("budget");
    reveal_strlit("revenue");
    reveal_strlit("release_date");
    reveal_strlit("season_count");
    reveal_strlit("episode_count");
    reveal_strlit("first_air");
    reveal_strlit("last_air");
    reveal_strlit("networks");
    reveal_strlit("in_production");
    assert("id"@.len() == 2);
    assert("kind"@.len() == 4);
    assert("title"@.len() == 5);
    assert("year"@.len() == 4);
    assert("vote"@.len() == 4);
    assert("poster"@.len() == 6);
    assert("backdrop"@.len() == 8);
    assert("overview"@.len() == 8);
    assert("genres"@.len() == 6);
    assert("runtime"@.len() == 7);
    assert("imdb_id"@.len() == 7);
    assert("seasons"@.len() == 7);
    assert("tagline"@.len() == 7);
    assert("status"@.len() == 6);
    assert("homepage"@.len() == 8);
    assert("trailer"@.len() == 7);
    assert("cast"@.len() == 4);
    assert("crew"@.len() == 4);
    assert("studios"@.len() == 7);
    assert("countries"@.len() == 9);
    assert("languages"@.len() == 9);
    assert("similar"@.len() == 7);
    assert("budget"@.len() == 6);
    assert("revenue"@.len() == 7);
    assert("release_date"@.len() == 12);
    assert("season_count"@.len() == 12);
    assert("episode_count"@.len() == 13);
    assert("first_air"@.len() == 9);
    assert("last_air"@.len() == 8);
    assert("networks"@.len() == 8);
    assert("in_production"@.len() == 13);
    assert("kind"@[0] != "cast"@[0]);
    assert("kind"@[0] != "crew"@[0]);
    assert("year"@[0] != "cast"@[0]);
    assert("year"@[0] != "crew"@[0]);
    assert("vote"@[0] != "cast"@[0]);
    assert("vote"@[0] != "crew"@[0]);
    assert("poster"@[0] != "status"@[0]);
    assert("poster"@[0] != "budget"@[0]);
    assert("backdrop"@[0] != "homepage"@[0]);
    assert("backdrop"@[0] != "last_air"@[0]);
    assert("backdrop"@[0] != "networks"@[0]);
    assert("overview"@[0] != "homepage"@[0]);
    assert("overview"@[0] != "last_air"@[0]);
    assert("overview"@[0] != "networks"@[0]);
    assert("genres"@[0] != "status"@[0]);
    assert("genres"@[0] != "budget"@[0]);
    assert("runtime"@[0] != "tagline"@[0]);
    assert("runtime"@[0] != "trailer"@[0]);
    assert("runtime"@[0] != "studios"@[0]);
    assert("runtime"@[0] != "similar"@[0]);
    assert("runtime"@[1] != "revenue"@[1]);
    assert("imdb_id"@[0] != "tagline"@[0]);
    assert("imdb_id"@[0] != "trailer"@[0]);
    assert("imdb_id"@[0] != "studios"@[0]);
    assert("imdb_id"@[0] != "similar"@[0]);
    assert("imdb_id"@[0] != "revenue"@[0]);
    assert("seasons"@[0] != "tagline"@[0]);
    assert("seasons"@[0] != "trailer"@[0]);
    assert("seasons"@[1] != "studios"@[1]);
    assert("seasons"@[1] != "similar"@[1]);
    assert("seasons"@[0] != "revenue"@[0]);
}

proof fn lemma_new_names(name: Seq<char>, i: int, t: Title, d: tmdb::Detail)
    requires
        0 <= i < base_fields(t).len(),
        name == base_fields(t)[i].0,
    ensures
        forall|j: int| 0 <= j < detail_fields(d).len() ==> (#[trigger] detail_fields(d)[j]).0 != name,
{
    assert(is_base_name(name));
    let n = film_fields(d.movie).len();
    assert forall|j: int| 0 <= j < detail_fields(d).len() implies (
    #[trigger] detail_fields(d)[j]).0 != name by {
        if j < 10 {
            assert(detail_fields(d)[j] == shared_fields(d)[j]);
        } else if j < 10 + n {
            assert(detail_fields(d)[j] == film_fields(d.movie)[j - 10]);
        } else {
            assert(detail_fields(d)[j] == series_fields(d.show)[j - 10 - n]);
        }
        assert(is_new_name(detail_fields(d)[j].0));
        lemma_names_differ(name, detail_fields(d)[j].0);
    }
}

/// A title of a list can be read back from its answer: each field under its own
/// name.
pub proof fn hits_read_back(h: tmdb::Hit)
    ensures
        ({
            let t = json::object(hit_fields(h));
            &&& json::field(t, "id"@) == Some(Tree::Number(json::Number::Unsigned(h.id as u64)))
            &&& json::field(t, "kind"@) == Some(
                Tree::Text(
                    if h.media_type is Movie {
                        "movie"@
                    } else {
                        "tv"@
                    },
                ),
            )
            &&& json::field(t, "title"@) == Some(Tree::Text(h.title))
            &&& json::field(t, "year"@) == Some(Tree::Text(h.year))
            &&& json::field(t, "vote"@) == Some(json::finite_number(h.vote))
            &&& json::field(t, "poster"@) == Some(Tree::Text(h.poster))
            &&& json::field(t, "backdrop"@) == Some(Tree::Text(h.backdrop))
            &&& json::field(t, "overview"@) == Some(Tree::Text(h.overview))
        }),
{
    let s = hit_fields(h);
    reveal_strlit("id");
    reveal_strlit("kind");
    reveal_strlit("title");
    reveal_strlit("year");
    reveal_strlit("vote");
    reveal_strlit("poster");
    reveal_strlit("backdrop");
    reveal_strlit("overview");
    assert("id"@[0] == 'i' && "kind"@[0] == 'k' && "title"@[0] == 't' && "year"@[0] == 'y');
    assert("vote"@[0] == 'v' && "poster"@[0] == 'p' && "backdrop"@[0] == 'b');
    assert("overview"@[0] == 'o');
    json::lemma_field_at(s, 0);
    json::lemma_field_at(s, 1);
    json::lemma_field_at(s, 2);
    json::lemma_field_at(s, 3);
    json::lemma_field_at(s, 4);
    json::lemma_field_at(s, 5);
    json::lemma_field_at(s, 6);
    json::lemma_field_at(s, 7);
}

/// A release can be read back from its answer; its size is null where it is
/// unknown.
pub proof fn releases_read_back(c: Candidate)
    ensures
        ({
            let t = release_tree(c);
            &&& json::field(t, "hash"@) == Some(Tree::Text(sources::hash_of(c.magnet@)))
            &&& json::field(t, "title"@) == Some(Tree::Text(c.title@))
            &&& json::field(t, "quality"@) == Some(
                Tree::Text(torrentio::quality_label(c.quality)),
            )
            &&& c.size_bytes is Some ==> json::field(t, "size_bytes"@) == Some(
                Tree::Number(json::Number::Unsigned(c.size_bytes->0)),
            ) && json::field(t, "size"@) == Some(
                Tree::Text(torrentio::bytes_text(c.size_bytes->0)),
            )
            &&& c.size_bytes is None ==> json::field(t, "size_bytes"@) == Some(Tree::Null)
                && json::field(t, "size"@) == Some(Tree::Null)
            &&& json::field(t, "seeders"@) == Some(
                Tree::Number(json::Number::Unsigned(c.seeders as u64)),
            )
            &&& json::field(t, "audio"@) == Some(Tree::Text(audio::audio_label(c.audio)))
        }),
{
    let s = seq![
        ("hash"@, Tree::Text(sources::hash_of(c.magnet@))),
        ("title"@, Tree::Text(c.title@)),
        ("quality"@, Tree::Text(torrentio::quality_label(c.quality))),
        (
            "size_bytes"@,
            match c.size_bytes {
                Some(n) => json::number(n),
                None => Tree::Null,
            },
        ),
        (
            "size"@,
            match c.size_bytes {
                Some(n) => Tree::Text(torrentio::bytes_text(n)),
                None => Tree::Null,
            },
        ),
        ("seeders"@, json::number(c.seeders as u64)),
        ("audio"@, Tree::Text(audio::audio_label(c.audio))),
    ];
    assert(release_tree(c) == json::object(s));
    reveal_strlit("hash");
    reveal_strlit("title");
    reveal_strlit("quality");
    reveal_strlit("size_bytes");
    reveal_strlit("size");
    reveal_strlit("seeders");
    reveal_strlit("audio");
    assert("hash"@[0] == 'h' && "title"@[0] == 't' && "quality"@[0] == 'q' && "audio"@[0] == 'a');
    assert("size_bytes"@.len() == 10 && "size"@.len() == 4 && "seeders"@.len() == 7);
    assert("size_bytes"@[0] == 's' && "size"@[0] == 's' && "seeders"@[0] == 's');
    json::lemma_field_at(s, 0);
    json::lemma_field_at(s, 1);
    json::lemma_field_at(s, 2);
    json::lemma_field_at(s, 3);
    json::lemma_field_at(s, 4);
    json::lemma_field_at(s, 5);
    json::lemma_field_at(s, 6);
}

/// An episode can be read back from its answer; where its own running time is
/// unknown, that of the series stands in.
pub proof fn episodes_read_back(e: tmdb::Installment, typical: u32)
    ensures
        ({
            let t = episode_tree(e, typical);
            &&& json::field(t, "season"@) == Some(Tree::Number(json::Number::Unsigned(e.season as u64)))
            &&& json::field(t, "episode"@) == Some(Tree::Number(json::Number::Unsigned(e.number as u64)))
            &&& json::field(t, "name"@) == Some(Tree::Text(e.name))
            &&& json::field(t, "overview"@) == Some(Tree::Text(e.overview))
            &&& e.runtime_secs > 0 ==> json::field(t, "runtime"@) == Some(
                Tree::Number(json::Number::Unsigned(e.runtime_secs as u64)),
            )
            &&& e.runtime_secs == 0 ==> json::field(t, "runtime"@) == Some(
                Tree::Number(json::Number::Unsigned(typical as u64)),
            )
            &&& json::field(t, "still"@) == Some(Tree::Text(e.still))
            &&& json::field(t, "air_date"@) == Some(Tree::Text(e.air_date))
            &&& json::field(t, "vote"@) == Some(json::finite_number(e.vote))
        }),
{
    let secs = if e.runtime_secs == 0 {
        typical as u64
    } else {
        e.runtime_secs as u64
    };
    let s = seq![
        ("season"@, json::number(e.season as u64)),
        ("episode"@, json::number(e.number as u64)),
        ("name"@, Tree::Text(e.name)),
        ("overview"@, Tree::Text(e.overview)),
        ("runtime"@, json::number(secs)),
        ("still"@, Tree::Text(e.still)),
        ("air_date"@, Tree::Text(e.air_date)),
        ("vote"@, json::finite_number(e.vote)),
    ];
    assert(episode_tree(e, typical) == json::object(s));
    reveal_strlit("season");
    reveal_strlit("episode");
    reveal_strlit("name");
    reveal_strlit("overview");
    reveal_strlit("runtime");
    reveal_strlit("still");
    reveal_strlit("air_date");
    reveal_strlit("vote");
    assert("season"@[1] == 'e' && "still"@[1] == 't' && "episode"@[0] == 'e' && "name"@[0] == 'n');
    assert("overview"@[0] == 'o' && "runtime"@[0] == 'r' && "air_date"@[0] == 'a');
    assert("vote"@[0] == 'v' && "season"@[0] == 's' && "still"@[0] == 's');
    json::lemma_field_at(s, 0);
    json::lemma_field_at(s, 1);
    json::lemma_field_at(s, 2);
    json::lemma_field_at(s, 3);
    json::lemma_field_at(s, 4);
    json::lemma_field_at(s, 5);
    json::lemma_field_at(s, 6);
    json::lemma_field_at(s, 7);
}

/// The trailer of a title is its first video, and there is none without one.
pub proof fn the_trailer_is_the_first_video(videos: Seq<tmdb::Footage>)
    ensures
        videos.len() > 0 ==> trailer_text(videos) == "https://www.youtube.com/watch?v="@
            + videos[0].key,
        videos.len() == 0 ==> trailer_text(videos).len() == 0,
{
}

/// A member of the cast can be read back from the answer.
pub proof fn the_cast_reads_back(c: tmdb::Actor)
    ensures
        json::field(cast_tree(c), "id"@) == Some(json::number(c.id as u64)),
        json::field(cast_tree(c), "name"@) == Some(Tree::Text(c.name)),
        json::field(cast_tree(c), "character"@) == Some(Tree::Text(c.character)),
        json::field(cast_tree(c), "profile"@) == Some(Tree::Text(c.profile)),
        json::field(cast_tree(c), "order"@) == Some(json::number(c.order as u64)),
{
    let s = seq![
        ("id"@, json::number(c.id as u64)),
        ("name"@, Tree::Text(c.name)),
        ("character"@, Tree::Text(c.character)),
        ("profile"@, Tree::Text(c.profile)),
        ("order"@, json::number(c.order as u64)),
    ];
    assert(cast_tree(c) == json::object(s));
    reveal_strlit("id");
    reveal_strlit("name");
    reveal_strlit("character");
    reveal_strlit("profile");
    reveal_strlit("order");
    assert("id"@[0] == 'i' && "name"@[0] == 'n' && "character"@[0] == 'c');
    assert("profile"@[0] == 'p' && "order"@[0] == 'o');
    json::lemma_field_at(s, 0);
    json::lemma_field_at(s, 1);
    json::lemma_field_at(s, 2);
    json::lemma_field_at(s, 3);
    json::lemma_field_at(s, 4);
}

/// A member of the crew can be read back from the answer.
pub proof fn the_crew_reads_back(c: tmdb::Maker)
    ensures
        json::field(crew_tree(c), "id"@) == Some(json::number(c.id as u64)),
        json::field(crew_tree(c), "name"@) == Some(Tree::Text(c.name)),
        json::field(crew_tree(c), "job"@) == Some(Tree::Text(c.job)),
        json::field(crew_tree(c), "profile"@) == Some(Tree::Text(c.profile)),
{
    let s = seq![
        ("id"@, json::number(c.id as u64)),
        ("name"@, Tree::Text(c.name)),
        ("job"@, Tree::Text(c.job)),
        ("profile"@, Tree::Text(c.profile)),
    ];
    assert(crew_tree(c) == json::object(s));
    reveal_strlit("id");
    reveal_strlit("name");
    reveal_strlit("job");
    reveal_strlit("profile");
    assert("id"@[0] == 'i' && "name"@[0] == 'n' && "job"@[0] == 'j' && "profile"@[0] == 'p');
    json::lemma_field_at(s, 0);
    json::lemma_field_at(s, 1);
    json::lemma_field_at(s, 2);
    json::lemma_field_at(s, 3);
}

/// A video can be read back from the answer, with the address to open it at.
pub proof fn videos_read_back(v: tmdb::Footage)
    ensures
        json::field(video_tree(v), "key"@) == Some(Tree::Text(v.key)),
        json::field(video_tree(v), "url"@) == Some(
            Tree::Text("https://www.youtube.com/watch?v="@ + v.key),
        ),
        json::field(video_tree(v), "site"@) == Some(Tree::Text(v.site)),
        json::field(video_tree(v), "type"@) == Some(Tree::Text(v.kind)),
        json::field(video_tree(v), "name"@) == Some(Tree::Text(v.name)),
        json::field(video_tree(v), "official"@) == Some(Tree::Bool(v.official)),
        json::field(video_tree(v), "published"@) == Some(Tree::Text(v.published)),
{
    let s = seq![
        ("key"@, Tree::Text(v.key)),
        ("url"@, Tree::Text(tmdb::watch_url(v.key))),
        ("site"@, Tree::Text(v.site)),
        ("type"@, Tree::Text(v.kind)),
        ("name"@, Tree::Text(v.name)),
        ("official"@, Tree::Bool(v.official)),
        ("published"@, Tree::Text(v.published)),
    ];
    assert(video_tree(v) == json::object(s));
    reveal_strlit("key");
    reveal_strlit("url");
    reveal_strlit("site");
    reveal_strlit("type");
    reveal_strlit("name");
    reveal_strlit("official");
    reveal_strlit("published");
    assert("key"@[0] == 'k' && "url"@[0] == 'u' && "site"@[0] == 's' && "type"@[0] == 't');
    assert("name"@[0] == 'n' && "official"@[0] == 'o' && "published"@[0] == 'p');
    json::lemma_field_at(s, 0);
    json::lemma_field_at(s, 1);
    json::lemma_field_at(s, 2);
    json::lemma_field_at(s, 3);
    json::lemma_field_at(s, 4);
    json::lemma_field_at(s, 5);
    json::lemma_field_at(s, 6);
}

/// A season can be read back from the answer.
pub proof fn seasons_read_back(r: tmdb::Run)
    ensures
        json::field(season_tree(r), "number"@) == Some(json::number(r.number as u64)),
        json::field(season_tree(r), "episodes"@) == Some(json::number(r.episode_count as u64)),
        json::field(season_tree(r), "name"@) == Some(Tree::Text(r.name)),
        json::field(season_tree(r), "poster"@) == Some(Tree::Text(r.poster)),
        json::field(season_tree(r), "year"@) == Some(Tree::Text(r.year)),
{
    let s = seq![
        ("number"@, json::number(r.number as u64)),
        ("episodes"@, json::number(r.episode_count as u64)),
        ("name"@, Tree::Text(r.name)),
        ("poster"@, Tree::Text(r.poster)),
        ("year"@, Tree::Text(r.year)),
    ];
    assert(season_tree(r) == json::object(s));
    reveal_strlit("number");
    reveal_strlit("episodes");
    reveal_strlit("name");
    reveal_strlit("poster");
    reveal_strlit("year");
    assert("number"@[1] == 'u' && "name"@[1] == 'a' && "episodes"@[0] == 'e');
    assert("number"@[0] == 'n' && "name"@[0] == 'n' && "poster"@[0] == 'p' && "year"@[0] == 'y');
    json::lemma_field_at(s, 0);
    json::lemma_field_at(s, 1);
    json::lemma_field_at(s, 2);
    json::lemma_field_at(s, 3);
    json::lemma_field_at(s, 4);
}

/// A title's answer holds what is known of it, each under its own name: a film and
/// a series alike, with the seasons of a series and none for a film.
pub proof fn titles_hold_what_is_known(t: Title)
    ensures
        match t {
            Title::Movie(m) => {
                let s = base_fields(t);
                &&& s.contains(("id"@, json::number(m.id as u64)))
                &&& s.contains(("kind"@, Tree::Text("movie"@)))
                &&& s.contains(("title"@, Tree::Text(m.title@)))
                &&& s.contains(("year"@, Tree::Text(m.year@)))
                &&& s.contains(("vote"@, json::finite_number(m.vote)))
                &&& s.contains(("poster"@, Tree::Text(m.poster@)))
                &&& s.contains(("backdrop"@, Tree::Text(m.backdrop@)))
                &&& s.contains(("overview"@, Tree::Text(m.overview@)))
                &&& s.contains(("runtime"@, json::number(m.runtime_secs as u64)))
                &&& s.contains(("imdb_id"@, Tree::Text(m.imdb_id@)))
                &&& s.contains(("seasons"@, Tree::List(Seq::empty())))
                &&& s.len() == 12
            },
            Title::Show(x) => {
                let s = base_fields(t);
                &&& s.contains(("id"@, json::number(x.tmdb_id as u64)))
                &&& s.contains(("kind"@, Tree::Text("tv"@)))
                &&& s.contains(("title"@, Tree::Text(x.name@)))
                &&& s.contains(("year"@, Tree::Text(x.year@)))
                &&& s.contains(("vote"@, json::finite_number(x.vote)))
                &&& s.contains(("poster"@, Tree::Text(x.poster@)))
                &&& s.contains(("backdrop"@, Tree::Text(x.backdrop@)))
                &&& s.contains(("overview"@, Tree::Text(x.overview@)))
                &&& s.contains(("runtime"@, json::number(x.default_runtime_secs as u64)))
                &&& s.contains(("imdb_id"@, Tree::Text(x.imdb_id@)))
                &&& s.contains(
                    (
                        "seasons"@,
                        Tree::List(
                            list::views(x.seasons@).map_values(|r: tmdb::Run| season_tree(r)),
                        ),
                    ),
                )
                &&& s.len() == 12
            },
        },
{
    let s = base_fields(t);
    assert(s.contains(s[0]) && s.contains(s[1]) && s.contains(s[2]) && s.contains(s[3]));
    assert(s.contains(s[4]) && s.contains(s[5]) && s.contains(s[6]) && s.contains(s[7]));
    assert(s.contains(s[9]) && s.contains(s[10]) && s.contains(s[11]));
}

/// A person's answer holds what is known of them and their career, and a credit
/// names its part, and its job where there is one.
pub proof fn people_hold_what_is_known(p: tmdb::Person, c: tmdb::Part)
    ensures
        person_fields(p).contains(("id"@, json::number(p.id as u64))),
        person_fields(p).contains(("name"@, Tree::Text(p.name))),
        person_fields(p).contains(("profile"@, Tree::Text(p.profile))),
        person_fields(p).contains(("biography"@, Tree::Text(p.biography))),
        person_fields(p).contains(("known_for"@, Tree::Text(p.known_for))),
        person_fields(p).contains(("birthday"@, json::maybe_text(p.birthday))),
        person_fields(p).contains(("deathday"@, json::maybe_text(p.deathday))),
        person_fields(p).contains(("place_of_birth"@, Tree::Text(p.place_of_birth))),
        forall|i: int| 0 <= i < 8 ==> credit_fields(c)[i] == #[trigger] hit_fields(c.hit)[i],
        credit_fields(c).contains(("character"@, Tree::Text(c.character))),
        c.job.len() > 0 ==> credit_fields(c).contains(("job"@, Tree::Text(c.job))),
        credit_fields(c).len() == if c.job.len() > 0 {
            10int
        } else {
            9
        },
{
    let s = person_fields(p);
    assert(s.contains(s[0]) && s.contains(s[1]) && s.contains(s[2]) && s.contains(s[3]));
    assert(s.contains(s[4]) && s.contains(s[5]) && s.contains(s[6]) && s.contains(s[7]));
    let f = credit_fields(c);
    assert(f.contains(f[8]));
    if c.job.len() > 0 {
        assert(f.contains(f[9]));
    }
}

/// What an answer adds to a title: the words about it, its people, and what only a
/// film or only a series has.
pub proof fn details_hold_what_is_known(d: tmdb::Detail)
    ensures
        shared_fields(d).contains(("tagline"@, Tree::Text(d.tagline))),
        shared_fields(d).contains(("status"@, Tree::Text(d.status))),
        shared_fields(d).contains(("homepage"@, Tree::Text(d.homepage))),
        shared_fields(d).contains(("trailer"@, Tree::Text(trailer_text(d.videos)))),
        shared_fields(d).contains(("studios"@, json::text_list(d.studios))),
        shared_fields(d).contains(("countries"@, json::text_list(d.countries))),
        shared_fields(d).contains(("languages"@, json::text_list(d.languages))),
        d.movie is None ==> film_fields(d.movie).len() == 0,
        d.movie is Some ==> film_fields(d.movie) == seq![
            ("budget"@, json::number((d.movie->0).budget)),
            ("revenue"@, json::number((d.movie->0).revenue)),
            ("release_date"@, Tree::Text((d.movie->0).release_date)),
        ],
        d.show is None ==> series_fields(d.show).len() == 0,
        d.show is Some ==> {
            let s = series_fields(d.show);
            &&& s.contains(("season_count"@, json::number((d.show->0).season_count as u64)))
            &&& s.contains(("episode_count"@, json::number((d.show->0).episode_count as u64)))
            &&& s.contains(("first_air"@, Tree::Text((d.show->0).first_air)))
            &&& s.contains(("last_air"@, Tree::Text((d.show->0).last_air)))
            &&& s.contains(("networks"@, json::text_list((d.show->0).networks)))
            &&& s.contains(("in_production"@, Tree::Bool((d.show->0).in_production)))
        },
{
    let s = shared_fields(d);
    assert(s.contains(s[0]) && s.contains(s[1]) && s.contains(s[2]) && s.contains(s[3]));
    assert(s.contains(s[6]) && s.contains(s[7]) && s.contains(s[8]));
    let t = series_fields(d.show);
    if d.show is Some {
        assert(t.contains(t[0]) && t.contains(t[1]) && t.contains(t[2]) && t.contains(t[3]));
        assert(t.contains(t[4]) && t.contains(t[5]));
    }
}

} // verus!
