use dekho::browse::{filters_from, genre_name, language_name, parse_kind, FilterError, Filters, Kind};
use dekho::calendar::{civil_from_days, today};
use dekho::float::Float;
use dekho::tmdb;
use dekho::tmdb::{
    country_codes, crew_of, discover_page, episodes, genre_names, hits, job_rank, language_names,
    named, similar_hits, video_rank, videos_of, CastItem, CountryRef, CreatedByRef,
    CreditsResponse, CrewItem, EpisodeDetail, GenreRef, LanguageRef, MediaType, MovieDetail,
    NamedRef, NoSeasons, PersonResponse, SearchItem, SeasonSummary, ShowDetail, VideoItem,
    MAX_SIMILAR, TMDB_MAX_PAGE,
};

fn item(id: u32, title: &str, poster: Option<&str>) -> SearchItem {
    SearchItem {
        id,
        media_type: None,
        title: Some(title.into()),
        name: None,
        release_date: Some("1999-10-15".into()),
        first_air_date: Some("2008-01-20".into()),
        vote_average: Some(Float { bits: 8.4f64.to_bits() }),
        poster_path: poster.map(str::to_string),
        backdrop_path: None,
        overview: None,
        popularity: Some(Float { bits: f64::from(id).to_bits() }),
        character: None,
        job: None,
        genre_ids: None,
        original_language: None,
    }
}

#[test]
fn a_page_drops_stubs_and_caps_the_total() {
    let list = vec![item(1, "A", Some("/a.jpg")), item(2, "B", None), item(3, " ", Some("/c.jpg"))];
    let page = discover_page(list, Some(9_000), Kind::Tv, 2);
    assert_eq!(page.items.len(), 1);
    assert_eq!(page.items[0].media_type, MediaType::Tv);
    assert_eq!(page.items[0].year, "2008");
    assert_eq!((page.page, page.total_pages), (2, TMDB_MAX_PAGE));
    assert_eq!(discover_page(Vec::new(), None, Kind::Movie, 1).total_pages, 1);
    let many = (0..40).map(|i| item(i, "A", Some("/a.jpg"))).collect();
    assert_eq!(similar_hits(many, MediaType::Movie).len(), MAX_SIMILAR);
    assert!(hits(vec![item(1, "A", None)], None).is_empty(), "no kind, not playable");
}

#[test]
fn a_year_is_cut_by_bytes() {
    assert_eq!(tmdb::year_of(&Some("19é9".into())), "19é");
    assert_eq!(tmdb::year_of(&Some("199é".into())), "", "the fourth byte is half a letter");
    assert_eq!(tmdb::year_of(&Some("199".into())), "");
}

#[test]
fn names_are_picked_out() {
    assert_eq!(genre_names(None).len(), 0);
    let g = vec![GenreRef { name: Some("Drama".into()) }, GenreRef { name: None }];
    assert_eq!(genre_names(Some(g)), vec!["Drama"]);
    let n = vec![NamedRef { name: Some("".into()) }, NamedRef { name: Some("Fox".into()) }];
    assert_eq!(named(Some(n)), vec!["Fox"]);
    let c = vec![CountryRef { iso_3166_1: Some("US".into()) }, CountryRef { iso_3166_1: None }];
    assert_eq!(country_codes(Some(c)), vec!["US"]);
    let l = vec![
        LanguageRef { english_name: Some("Hindi".into()), name: Some("हिन्दी".into()) },
        LanguageRef { english_name: Some("".into()), name: Some("Deutsch".into()) },
        LanguageRef { english_name: None, name: None },
    ];
    assert_eq!(language_names(Some(l)), vec!["Hindi", "Deutsch"]);
}

#[test]
fn jobs_and_videos_have_their_ranks() {
    assert_eq!(job_rank("Director"), Some((0, "Director")));
    assert_eq!(job_rank("Series Creator"), Some((1, "Creator")));
    assert_eq!(job_rank("Original Music Composer"), Some((5, "Composer")));
    assert_eq!(job_rank("Thanks"), None);
    assert_eq!(video_rank("Behind the Scenes"), 4);
    assert_eq!(video_rank("Bloopers"), 5);
}

fn crew(id: u32, name: Option<&str>, job: &str) -> CrewItem {
    CrewItem { id, name: name.map(str::to_string), job: Some(job.into()), profile_path: None }
}

fn movie_detail() -> MovieDetail {
    MovieDetail {
        imdb_id: Some("tt0137523".into()),
        title: Some("Fight Club".into()),
        original_title: None,
        runtime: Some(139),
        release_date: Some("1999-10-15".into()),
        vote_average: None,
        poster_path: None,
        backdrop_path: None,
        overview: None,
        genres: Some(vec![GenreRef { name: Some("Drama".into()) }]),
        tagline: Some("Mischief".into()),
        status: None,
        homepage: None,
        budget: Some(63),
        revenue: None,
        production_companies: Some(vec![NamedRef { name: Some("Fox".into()) }]),
        production_countries: None,
        spoken_languages: None,
        credits: Some(CreditsResponse {
            cast: vec![CastItem {
                id: 1,
                name: Some("A".into()),
                character: None,
                profile_path: None,
                order: None,
            }],
            crew: vec![crew(2, Some("Fincher"), "Director"), crew(3, None, "Writer")],
        }),
        videos: Some(vec![VideoItem {
            key: Some("k".into()),
            site: Some("youtube".into()),
            kind: None,
            name: None,
            official: None,
            published_at: None,
        }]),
        similar: None,
    }
}

#[test]
fn a_film_is_lifted_into_its_two_halves() {
    let mut d = movie_detail();
    let detail = d.take_detail();
    assert_eq!(detail.tagline, "Mischief");
    assert_eq!(detail.cast[0].order, u32::MAX);
    assert_eq!(detail.crew.len(), 1, "the nameless writer is dropped");
    assert_eq!(detail.videos.len(), 1);
    assert_eq!(detail.studios, vec!["Fox"]);
    assert_eq!(detail.movie.as_ref().unwrap().budget, 63);
    assert!(detail.show.is_none());
    let again = d.take_detail();
    assert_eq!(again.tagline, "");
    assert!(again.cast.is_empty());
    let m = d.into_movie(550);
    assert_eq!((m.id, m.runtime_secs), (550, 139 * 60));
    assert_eq!((m.year.as_str(), m.imdb_id.as_str()), ("1999", "tt0137523"));
    assert_eq!(m.genres, vec!["Drama"]);
}

#[test]
fn a_bare_film_falls_back() {
    let mut d = movie_detail();
    d.title = None;
    d.runtime = Some(0);
    d.imdb_id = Some("nm0000093".into());
    let m = d.into_movie(7);
    assert_eq!(m.title, "Movie 7");
    assert_eq!(m.runtime_secs, 110 * 60);
    assert_eq!(m.imdb_id, "", "not the id of a title");
}

fn show_detail(seasons: Vec<SeasonSummary>) -> ShowDetail {
    ShowDetail {
        name: None,
        original_name: None,
        first_air_date: Some("2008-01-20".into()),
        episode_run_time: Some(vec![0, 47]),
        seasons: Some(seasons),
        imdb_id: Some("tt0903747".into()),
        vote_average: None,
        poster_path: None,
        backdrop_path: None,
        overview: None,
        genres: None,
        tagline: None,
        status: None,
        homepage: None,
        number_of_seasons: Some(5),
        number_of_episodes: None,
        last_air_date: None,
        in_production: None,
        networks: None,
        origin_country: Some(vec!["US".into()]),
        created_by: Some(vec![CreatedByRef {
            id: 66633,
            name: Some("Vince Gilligan".into()),
            profile_path: None,
        }]),
        production_companies: None,
        production_countries: Some(vec![CountryRef { iso_3166_1: Some("CA".into()) }]),
        spoken_languages: None,
        credits: Some(CreditsResponse {
            cast: Vec::new(),
            crew: vec![crew(66633, Some("Vince Gilligan"), "Executive Producer")],
        }),
        videos: None,
        similar: None,
    }
}

fn season(number: u32, count: Option<u32>) -> SeasonSummary {
    SeasonSummary {
        season_number: number,
        episode_count: count,
        name: None,
        poster_path: None,
        air_date: None,
    }
}

#[test]
fn a_show_keeps_the_seasons_that_can_be_played() {
    let mut d = show_detail(vec![
        season(0, Some(9)),
        season(1, Some(7)),
        season(2, None),
        season(3, Some(13)),
    ]);
    let detail = d.take_detail();
    assert_eq!(detail.crew.len(), 1);
    assert_eq!(detail.crew[0].job, "Creator", "the better of two jobs");
    assert_eq!(detail.countries, vec!["US"]);
    assert!(d.production_countries.is_some(), "the fallback was not needed");
    assert_eq!(detail.show.as_ref().unwrap().season_count, 5);
    let s = d.into_show(1396).unwrap();
    assert_eq!(s.name, "Show 1396");
    assert_eq!(s.default_runtime_secs, 47 * 60);
    let numbers: Vec<u32> = s.seasons.iter().map(|x| x.number).collect();
    assert_eq!(numbers, vec![1, 3]);
    assert_eq!(s.seasons[0].name, "Season 1");
}

#[test]
fn a_show_without_seasons_is_refused() {
    let mut d = show_detail(vec![season(0, Some(9))]);
    d.origin_country = Some(Vec::new());
    assert_eq!(d.take_detail().countries, vec!["CA"], "the fallback");
    assert!(d.production_countries.is_none());
    assert!(matches!(d.into_show(1), Err(NoSeasons)));
    assert_eq!(NoSeasons.message(), "TMDB lists no seasons for this show");
}

#[test]
fn episodes_fall_back_to_the_given_runtime() {
    let e = |n: u32, runtime: Option<u32>| EpisodeDetail {
        episode_number: n,
        name: None,
        runtime,
        overview: None,
        still_path: None,
        air_date: None,
        vote_average: None,
    };
    let list = episodes(Some(vec![e(1, Some(58)), e(2, Some(0)), e(3, None)]), 4, 2700);
    let secs: Vec<u32> = list.iter().map(|x| x.runtime_secs).collect();
    assert_eq!(secs, vec![3480, 2700, 2700]);
    assert_eq!(list[2].line(), "S04E03  Episode 3");
    assert!(episodes(None, 1, 1).is_empty());
}

#[test]
fn a_person_is_put_together() {
    let credit = |id: u32, kind: &str, job: Option<&str>| {
        let mut i = item(id, "T", Some("/p.jpg"));
        i.media_type = Some(kind.into());
        i.job = job.map(str::to_string);
        i
    };
    let mut sofa = credit(99, "tv", None);
    sofa.character = Some("Self - Guest".into());
    let p = PersonResponse {
        id: 1,
        name: None,
        profile_path: None,
        biography: None,
        known_for_department: Some("Directing".into()),
        birthday: Some("".into()),
        deathday: None,
        place_of_birth: None,
        cast: vec![credit(3, "movie", None), sofa],
        crew: vec![
            credit(8, "movie", Some("Original Music Composer")),
            credit(9, "movie", Some("Thanks")),
            credit(3, "movie", Some("Director")),
        ],
    };
    let d = p.into_person(1);
    assert_eq!(d.name, "Person 1");
    assert_eq!(d.birthday, None, "an empty date is none");
    let rows: Vec<(u32, &str)> = d.credits.iter().map(|c| (c.hit.id, c.job.as_str())).collect();
    assert_eq!(rows, vec![(8, "Composer"), (3, "")]);
}

#[test]
fn tv_credits_are_asked_of_the_person() {
    let mut f = Filters::new(Kind::Tv);
    assert!(!tmdb::asks_a_person(&f));
    f.cast_id = 5;
    assert!(tmdb::asks_a_person(&f));
    f.kind = Kind::Movie;
    assert!(!tmdb::asks_a_person(&f));
    let all = tmdb::tv_credits(vec![item(1, "A", None)], vec![item(2, "B", None)]);
    let ids: Vec<u32> = all.iter().map(|c| c.hit.id).collect();
    assert_eq!(ids, vec![1, 2]);
    assert_eq!(all[0].hit.media_type, MediaType::Tv);
}

#[test]
fn requests_are_put_together() {
    assert_eq!(
        tmdb::request_url("/movie/550", "K", "&x=1"),
        "https://api.themoviedb.org/3/movie/550?api_key=K&x=1"
    );
    assert_eq!(
        tmdb::request_url("/discover/tv?page=1", "K", ""),
        "https://api.themoviedb.org/3/discover/tv?page=1&api_key=K"
    );
    assert_eq!(tmdb::search_query("fight club"), "&include_adult=false&query=fight%20club");
    assert_eq!(tmdb::trending_path(None, "week"), "/trending/all/week");
    assert_eq!(tmdb::trending_path(Some(MediaType::Tv), "day"), "/trending/tv/day");
    assert_eq!(tmdb::movie_path(550), "/movie/550");
    assert_eq!(tmdb::show_path(1396), "/tv/1396");
    assert_eq!(tmdb::season_path(1396, 2), "/tv/1396/season/2");
    assert_eq!(tmdb::videos_path(550, MediaType::Movie), "/movie/550/videos");
    assert_eq!(tmdb::person_path(17419), "/person/17419");
    assert_eq!(tmdb::tv_credits_path(17419), "/person/17419/tv_credits");
}

#[test]
fn a_bad_status_says_what_to_do() {
    assert_eq!(tmdb::status_error(200, "200 OK", "/x"), None);
    assert_eq!(tmdb::status_error(299, "299", "/x"), None);
    assert_eq!(
        tmdb::status_error(401, "401 Unauthorized", "/x").unwrap(),
        "TMDB rejected the API key (401). Check $TMDB_API_KEY."
    );
    assert_eq!(
        tmdb::status_error(404, "404 Not Found", "/movie/1").unwrap(),
        "TMDB /movie/1 returned HTTP 404 Not Found"
    );
}

#[test]
fn refused_filters_say_which() {
    let from = |sort: Option<&str>, genre: Option<&str>, lang: Option<&str>, rating: Option<u32>| {
        filters_from(Kind::Tv, sort, genre, lang, rating, Some(0), None)
    };
    assert!(matches!(from(Some("best"), None, None, None), Err(FilterError::UnknownSort)));
    assert!(matches!(from(Some("box-office"), None, None, None), Err(FilterError::MoviesOnly)));
    assert!(matches!(from(None, Some("zzz"), None, None), Err(FilterError::UnknownGenre)));
    assert!(matches!(from(None, None, Some("klingon"), None), Err(FilterError::UnknownLanguage)));
    assert!(matches!(from(None, None, None, Some(4)), Err(FilterError::BadRating)));
    assert!(matches!(
        filters_from(Kind::Tv, None, None, None, None, None, Some("x")),
        Err(FilterError::UnknownYear)
    ));
    assert_eq!(from(None, None, None, Some(9)).unwrap().cast_id, 0);
    assert_eq!(parse_kind(" Films "), Some(Kind::Movie));
    assert_eq!(parse_kind("shows"), Some(Kind::Tv));
    assert_eq!(parse_kind("opera"), None);
    assert_eq!(genre_name(Kind::Movie, 27), Some("Horror"));
    assert_eq!(language_name("bn"), Some("Bangla"));
}

#[test]
fn days_are_counted_across_leap_years() {
    assert_eq!(today(0), "1970-01-01");
    assert_eq!(today(951_782_400), "2000-02-29");
    assert_eq!(today(4_107_542_400), "2100-03-01");
    assert_eq!(civil_from_days(-719_468), (0, 3, 1));
    // Every day of four centuries is the day after the one before it.
    let mut last = civil_from_days(0);
    for d in 1..146_097i64 {
        let day = civil_from_days(d);
        assert!(day > last);
        last = day;
    }
    assert_eq!(last, (2369, 12, 31));
}

#[test]
fn videos_keep_what_tmdb_says() {
    let v = videos_of(vec![VideoItem {
        key: Some("k".into()),
        site: None,
        kind: Some("Clip".into()),
        name: None,
        official: Some(true),
        published_at: None,
    }]);
    assert_eq!((v[0].key.as_str(), v[0].kind.as_str(), v[0].official), ("k", "Clip", true));
    assert_eq!(crew_of(Vec::new(), Vec::new()).len(), 0);
    assert_eq!(MediaType::of(Kind::Tv).torrentio(), "series");
    assert_eq!(MediaType::Movie.label(), "Movie");
}
