use dekho::api;
use dekho::api::{ReleasesError, Title};
use dekho::audio::detect;
use dekho::browse::Kind;
use dekho::float::Float;
use dekho::history::{History, Watch};
use dekho::json;
use dekho::json::{Json, Number};
use dekho::link::Ceiling;
use dekho::sources::combine;
use dekho::tmdb::{
    CastMember, CatalogPage, Credit, CrewMember, Episode, MediaType, Movie, MovieFacts,
    PersonDetail, SearchHit, SearchItem, Season, Show, ShowFacts, TitleDetail, Video,
};
use dekho::torrentio::{build_magnet, Candidate, Quality};

fn float(x: f64) -> Float {
    Float { bits: x.to_bits() }
}

fn hit(id: u32) -> SearchHit {
    SearchHit {
        id,
        media_type: MediaType::Tv,
        title: format!("Title {id}"),
        year: "2008".into(),
        vote: float(8.9),
        poster: "/p.jpg".into(),
        backdrop: "/b.jpg".into(),
        overview: "About.".into(),
    }
}

fn text<'a>(j: &'a Json, name: &str) -> &'a str {
    match j.get(name) {
        Some(Json::Text(s)) => s,
        other => panic!("{name}: {other:?}"),
    }
}

fn number(j: &Json, name: &str) -> u64 {
    match j.get(name) {
        Some(Json::Number(Number::Unsigned(n))) => *n,
        other => panic!("{name}: {other:?}"),
    }
}

fn list<'a>(j: &'a Json, name: &str) -> &'a Vec<Json> {
    match j.get(name) {
        Some(Json::List(v)) => v,
        other => panic!("{name}: {other:?}"),
    }
}

fn names(j: &Json) -> Vec<String> {
    match j {
        Json::Object(v) => v.iter().map(|(k, _)| k.clone()).collect(),
        other => panic!("{other:?}"),
    }
}

#[test]
fn a_hit_carries_everything_a_panel_draws() {
    let j = api::hit(&hit(1396));
    assert_eq!(number(&j, "id"), 1396);
    assert_eq!(text(&j, "kind"), "tv");
    assert_eq!(text(&j, "title"), "Title 1396");
    assert_eq!(text(&j, "poster"), "/p.jpg");
    assert_eq!(j.get("vote"), Some(&json::binary(8.9f64.to_bits())));
    let mut odd = hit(1);
    odd.vote = float(f64::NAN);
    assert_eq!(api::hit(&odd).get("vote"), Some(&Json::Null), "JSON has no NaN");
}

fn item(id: u32, kind: Option<&str>, title: Option<&str>) -> SearchItem {
    SearchItem {
        id,
        media_type: kind.map(str::to_string),
        title: title.map(str::to_string),
        name: None,
        release_date: Some("1999-10-15".into()),
        first_air_date: None,
        vote_average: None,
        poster_path: None,
        backdrop_path: None,
        overview: None,
        popularity: None,
        character: None,
        job: None,
        genre_ids: None,
        original_language: None,
    }
}

#[test]
fn a_search_answers_with_what_can_be_played() {
    let j = api::search(vec![
        item(1, Some("movie"), Some("Fight Club")),
        item(2, Some("person"), Some("Brad Pitt")),
        item(3, Some("tv"), Some("  ")),
        item(4, None, Some("Unlabelled")),
    ]);
    let items = list(&j, "items");
    assert_eq!(items.len(), 1);
    assert_eq!(text(&items[0], "year"), "1999");
    // A listing of one kind labels what is not labelled.
    let j = api::trending(vec![item(4, None, Some("Unlabelled"))], Some(MediaType::Movie));
    assert_eq!(list(&j, "items").len(), 1);
}

#[test]
fn a_catalog_page_says_where_it_stands() {
    let page = CatalogPage { items: vec![hit(1), hit(2)], page: 3, total_pages: 500 };
    let j = api::discover(&page);
    assert_eq!(list(&j, "items").len(), 2);
    assert_eq!((number(&j, "page"), number(&j, "total_pages")), (3, 500));
}

#[test]
fn genres_and_languages_are_listed() {
    let j = api::genres(Kind::Movie);
    let g = list(&j, "items");
    assert!(g.iter().any(|x| number(x, "id") == 27 && text(x, "name") == "Horror"));
    let j = api::languages();
    let l = list(&j, "items");
    assert!(l.iter().any(|x| text(x, "code") == "bn" && text(x, "name") == "Bangla"));
}

fn movie() -> Movie {
    Movie {
        id: 550,
        title: "Fight Club".into(),
        original_title: "Fight Club".into(),
        year: "1999".into(),
        imdb_id: "tt0137523".into(),
        runtime_secs: 8340,
        vote: float(8.4),
        poster: String::new(),
        backdrop: String::new(),
        overview: String::new(),
        genres: vec!["Drama".into()],
    }
}

fn show() -> Show {
    Show {
        tmdb_id: 1396,
        name: "Breaking Bad".into(),
        original_name: String::new(),
        year: "2008".into(),
        imdb_id: "tt0903747".into(),
        seasons: vec![Season {
            number: 1,
            episode_count: 7,
            name: "Season 1".into(),
            poster: String::new(),
            year: "2008".into(),
        }],
        default_runtime_secs: 2700,
        vote: float(8.9),
        poster: String::new(),
        backdrop: String::new(),
        overview: String::new(),
        genres: Vec::new(),
    }
}

fn detail() -> TitleDetail {
    let mut d = TitleDetail::default();
    d.tagline = "Mischief".into();
    d.cast.push(CastMember {
        id: 1,
        name: "A".into(),
        character: "B".into(),
        profile: String::new(),
        order: 0,
    });
    d.crew.push(CrewMember {
        id: 2,
        name: "C".into(),
        job: "Director".into(),
        profile: String::new(),
    });
    d.videos.push(video("k1"));
    d.videos.push(video("k2"));
    d.studios.push("Fox".into());
    d.similar.push(hit(9));
    d
}

fn video(key: &str) -> Video {
    Video {
        key: key.into(),
        site: "YouTube".into(),
        kind: "Trailer".into(),
        name: "T".into(),
        official: true,
        published: "2019".into(),
    }
}

#[test]
fn a_film_answers_with_both_halves() {
    let mut d = detail();
    d.movie = Some(MovieFacts { budget: 63, revenue: 100, release_date: "1999-10-15".into() });
    let j = api::title(&Title::Movie(movie()), &d);
    assert_eq!(text(&j, "kind"), "movie");
    assert_eq!(number(&j, "runtime"), 8340);
    assert!(list(&j, "seasons").is_empty());
    assert_eq!(text(&j, "trailer"), "https://www.youtube.com/watch?v=k1");
    assert_eq!(text(&list(&j, "cast")[0], "character"), "B");
    assert_eq!(text(&list(&j, "crew")[0], "job"), "Director");
    assert_eq!(number(&list(&j, "similar")[0], "id"), 9);
    assert_eq!(number(&j, "budget"), 63);
    assert!(j.get("networks").is_none());
    // Every key is there once.
    let mut keys = names(&j);
    let all = keys.len();
    keys.sort();
    keys.dedup();
    assert_eq!(keys.len(), all);
}

#[test]
fn a_show_answers_with_its_seasons() {
    let mut d = TitleDetail::default();
    d.show = Some(ShowFacts {
        season_count: 5,
        episode_count: 62,
        first_air: "2008-01-20".into(),
        last_air: "2013-09-29".into(),
        networks: vec!["AMC".into()],
        in_production: false,
    });
    let j = api::title(&Title::Show(show()), &d);
    assert_eq!(text(&j, "kind"), "tv");
    assert_eq!(number(&j, "runtime"), 2700);
    assert_eq!(number(&list(&j, "seasons")[0], "episodes"), 7);
    assert_eq!(text(&j, "trailer"), "", "none is empty, not null");
    assert_eq!(number(&j, "episode_count"), 62);
    assert_eq!(j.get("in_production"), Some(&Json::Bool(false)));
    assert!(j.get("budget").is_none());
}

#[test]
fn videos_come_with_their_urls() {
    let j = api::videos(&vec![video("abc")]);
    let v = &list(&j, "items")[0];
    assert_eq!(text(v, "url"), "https://www.youtube.com/watch?v=abc");
    assert_eq!(text(v, "type"), "Trailer");
    assert_eq!(v.get("official"), Some(&Json::Bool(true)));
}

#[test]
fn a_person_answers_with_their_work() {
    let credit = |job: &str| Credit {
        hit: hit(5),
        character: "Walter White".into(),
        job: job.into(),
        popularity: float(1.0),
        appearance: false,
        genre_ids: Vec::new(),
        language: "en".into(),
    };
    let p = PersonDetail {
        id: 17419,
        name: "Bryan Cranston".into(),
        profile: String::new(),
        biography: String::new(),
        known_for: "Acting".into(),
        birthday: Some("1956-03-07".into()),
        deathday: None,
        place_of_birth: String::new(),
        credits: vec![credit(""), credit("Director")],
    };
    let j = api::person(&p);
    assert_eq!(text(&j, "birthday"), "1956-03-07");
    assert_eq!(j.get("deathday"), Some(&Json::Null), "alive, not unknown");
    let c = list(&j, "credits");
    assert_eq!(text(&c[0], "character"), "Walter White");
    assert!(c[0].get("job").is_none());
    assert_eq!(text(&c[1], "job"), "Director");
    assert_eq!(text(&c[1], "title"), "Title 5");
}

#[test]
fn an_episode_without_a_runtime_inherits_the_shows() {
    let episode = |n: u32, runtime_secs: u32| Episode {
        season: 1,
        number: n,
        name: "Pilot".into(),
        runtime_secs,
        overview: String::new(),
        still: String::new(),
        air_date: String::new(),
        vote: float(7.5),
    };
    let j = api::episodes(&vec![episode(1, 0), episode(2, 3480)], 2700);
    let e = list(&j, "items");
    assert_eq!(number(&e[0], "runtime"), 2700);
    assert_eq!(number(&e[1], "runtime"), 3480);
    assert_eq!(number(&e[1], "episode"), 2);
}

#[test]
fn the_history_comes_newest_first() {
    let mut h = History::empty();
    for id in 1..=3u32 {
        let w = Watch {
            id,
            kind: "movie",
            title: format!("Movie {id}"),
            year: "1999".into(),
            poster: String::new(),
            backdrop: String::new(),
            season: None,
            episode: None,
            episode_name: None,
            next: None,
        };
        h.record(&w, 250, 1000, 100 + u64::from(id));
    }
    let j = api::history(&h, 2);
    let e = list(&j, "items");
    assert_eq!(e.len(), 2);
    assert_eq!(number(&e[0], "id"), 3);
    assert_eq!(e[0].get("progress"), Some(&json::binary(0.25f64.to_bits())));
    assert_eq!(e[0].get("season"), Some(&Json::Null));
    assert_eq!(number(&e[1], "updated"), 102);
}

fn release(hash: &str, quality: Quality, seeders: u32, name: &str) -> Candidate {
    Candidate {
        quality,
        title: name.into(),
        size_bytes: Some(2048),
        seeders,
        file_idx: None,
        magnet: build_magnet(hash, name, None),
        audio: detect(name),
    }
}

#[test]
fn releases_are_listed_best_first_without_strangers() {
    let lookup = combine(
        Some(vec![
            release("AAA", Quality::P720, 50, "Money.Heist.S01E01.720p"),
            release("BBB", Quality::P2160, 9, "La.casa.di.Davide.S01E01.2160p"),
            release("CCC", Quality::P1080, 5, "Money.Heist.S01E01.1080p.Hindi"),
        ]),
        None,
    );
    let j = api::releases(lookup, "Money Heist", "La casa de papel");
    let r = list(&j, "items");
    assert_eq!(r.len(), 2);
    assert_eq!(text(&r[0], "quality"), "1080p");
    assert_eq!(text(&r[0], "hash"), "ccc");
    assert_eq!(text(&r[0], "size"), "2.0 KB");
    assert_eq!(number(&r[0], "size_bytes"), 2048);
    assert_eq!(text(&r[0], "audio"), "Hindi");
    assert_eq!(number(&j, "dropped"), 1);
    assert_eq!(j.get("failed").unwrap().texts(), vec!["apibay".to_string()]);
    let mut bare = release("DDD", Quality::P720, 50, "Money.Heist");
    bare.size_bytes = None;
    let j = api::releases(combine(Some(vec![bare]), Some(Vec::new())), "Money Heist", "");
    assert_eq!(list(&j, "items")[0].get("size"), Some(&Json::Null));
}

#[test]
fn a_release_query_needs_what_it_needs() {
    let tv = MediaType::Tv;
    assert_eq!(
        api::release_query("", MediaType::Movie, None, None),
        Err(ReleasesError::NoImdbId)
    );
    assert_eq!(
        api::release_query("tt1", MediaType::Movie, Some(1), Some(2)),
        Ok((None, None))
    );
    assert_eq!(api::release_query("tt1", tv, None, Some(2)), Err(ReleasesError::NoSeason));
    assert_eq!(api::release_query("tt1", tv, Some(1), None), Err(ReleasesError::NoEpisode));
    assert_eq!(api::release_query("tt1", tv, Some(1), Some(2)), Ok((Some(1), Some(2))));
    assert_eq!(ReleasesError::NoSeason.message(), "api releases for a series needs -s");
    assert_eq!(ReleasesError::NoEpisode.message(), "api releases for a series needs -e");
    assert!(ReleasesError::NoImdbId.message().starts_with("TMDB has no IMDB id"));
}

#[test]
fn a_failure_has_the_same_shape_as_an_answer() {
    assert_eq!(text(&api::error("no luck"), "error"), "no luck");
}

#[test]
fn a_ceiling_says_why() {
    let j = Ceiling::Adapted { bps: 8, link_bps: 10, samples: 3 }.json();
    assert_eq!(text(&j, "event"), "adaptive");
    assert_eq!(text(&j, "source"), "link");
    assert_eq!((number(&j, "max_bitrate_bps"), number(&j, "link_bps")), (8, 10));
    assert_eq!(number(&j, "samples"), 3);
    assert_eq!(text(&Ceiling::Flag(5).json(), "source"), "flag");
    assert_eq!(text(&Ceiling::Default(5).json(), "source"), "default");
}
