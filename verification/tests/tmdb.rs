use dekho::browse::{Filters, Kind, Sort};
use dekho::float::Float;
use dekho::tmdb::{
    cast_of, is_appearance, notable_crew, person_page, rank_credits, rank_videos, year_of,
    CastItem, Credit, CreditsResponse, CrewMember, MediaType, SearchHit, Video, MAX_CAST,
    MAX_CREDITS, MAX_CREW, PERSON_PAGE_SIZE,
};

fn float(x: f64) -> Float {
    Float { bits: x.to_bits() }
}

#[test]
fn year_of_takes_the_leading_four_digits() {
    assert_eq!(year_of(&Some("1999-10-15".into())), "1999");
    assert_eq!(year_of(&Some("".into())), "");
    assert_eq!(year_of(&None), "");
}

fn crew(id: u32, name: &str, job: &str) -> CrewMember {
    CrewMember {
        id,
        name: name.into(),
        job: job.into(),
        profile: String::new(),
    }
}

#[test]
fn crew_keeps_only_jobs_a_viewer_recognises() {
    let kept = notable_crew(vec![
        crew(1, "Fincher", "Director"),
        crew(2, "A Runner", "Second Assistant Director"),
        crew(3, "Uhls", "Screenplay"),
        crew(4, "Someone", "Thanks"),
    ]);
    let jobs: Vec<&str> = kept.iter().map(|c| c.job.as_str()).collect();
    assert_eq!(jobs, ["Director", "Screenplay"]);
}

#[test]
fn one_person_appears_once_under_their_best_job() {
    // TMDB files a writer-director under both; a card has room for one.
    let kept = notable_crew(vec![
        crew(7, "Gilligan", "Writer"),
        crew(7, "Gilligan", "Director"),
        crew(7, "Gilligan", "Executive Producer"),
    ]);
    assert_eq!(kept.len(), 1);
    assert_eq!(kept[0].job, "Director");
}

#[test]
fn the_score_is_credited_as_composer() {
    // TMDB has no "Composer" job on films, only this.
    let kept = notable_crew(vec![crew(9, "Dust Brothers", "Original Music Composer")]);
    assert_eq!(kept[0].job, "Composer");
}

#[test]
fn crew_is_capped() {
    let many: Vec<CrewMember> = (0..40)
        .map(|i| crew(i, "Producer", "Executive Producer"))
        .collect();
    assert_eq!(notable_crew(many).len(), MAX_CREW);
}

fn video(kind: &str, official: bool, published: &str, key: &str) -> Video {
    Video {
        key: key.into(),
        site: "YouTube".into(),
        kind: kind.into(),
        name: key.into(),
        official,
        published: published.into(),
    }
}

#[test]
fn videos_put_the_official_trailer_first() {
    let ranked = rank_videos(vec![
        video("Featurette", true, "2019-01-01", "feat"),
        video("Teaser", true, "2020-01-01", "teaser"),
        video("Trailer", false, "2021-01-01", "fanmade"),
        video("Trailer", true, "2019-09-24", "official"),
    ]);
    let keys: Vec<&str> = ranked.iter().map(|v| v.key.as_str()).collect();
    assert_eq!(keys, ["official", "fanmade", "teaser", "feat"]);
}

#[test]
fn newer_wins_inside_one_kind() {
    let ranked = rank_videos(vec![
        video("Trailer", true, "2010-01-01", "old"),
        video("Trailer", true, "2019-09-24", "new"),
    ]);
    assert_eq!(ranked[0].key, "new");
}

#[test]
fn videos_we_cannot_play_are_dropped() {
    let mut vimeo = video("Trailer", true, "2021-01-01", "abc");
    vimeo.site = "Vimeo".into();
    let ranked = rank_videos(vec![vimeo, video("Clip", false, "2001-01-01", "yt")]);
    assert_eq!(ranked.len(), 1);
    assert_eq!(ranked[0].key, "yt");
}

#[test]
fn a_video_url_is_something_mpv_can_open() {
    assert_eq!(
        video("Trailer", true, "", "dfeUzm6KF4g").url(),
        "https://www.youtube.com/watch?v=dfeUzm6KF4g"
    );
}

fn credit(id: u32, kind: MediaType, popularity: f64, poster: &str) -> Credit {
    Credit {
        hit: SearchHit {
            id,
            media_type: kind,
            title: format!("Title {id}"),
            year: "2000".into(),
            vote: float(7.0),
            poster: poster.into(),
            backdrop: String::new(),
            overview: String::new(),
        },
        character: String::new(),
        job: String::new(),
        popularity: float(popularity),
        appearance: false,
        genre_ids: Vec::new(),
        language: "en".into(),
    }
}

#[test]
fn credits_lead_with_the_famous_work() {
    let ranked = rank_credits(vec![
        credit(1, MediaType::Movie, 3.0, "/a.jpg"),
        credit(2, MediaType::Tv, 90.0, "/b.jpg"),
        credit(3, MediaType::Movie, 20.0, "/c.jpg"),
    ]);
    let ids: Vec<u32> = ranked.iter().map(|c| c.hit.id).collect();
    assert_eq!(ids, [2, 3, 1]);
}

#[test]
fn credits_drop_stubs_with_no_poster() {
    let ranked = rank_credits(vec![
        credit(1, MediaType::Movie, 99.0, ""),
        credit(2, MediaType::Movie, 1.0, "/b.jpg"),
    ]);
    assert_eq!(ranked.len(), 1);
    assert_eq!(ranked[0].hit.id, 2);
}

#[test]
fn a_title_appears_once_however_many_credits_it_gave() {
    let ranked = rank_credits(vec![
        credit(1, MediaType::Tv, 50.0, "/a.jpg"),
        credit(1, MediaType::Tv, 50.0, "/a.jpg"),
    ]);
    assert_eq!(ranked.len(), 1);
}

#[test]
fn a_film_and_a_show_sharing_an_id_are_different_titles() {
    // TMDB ids are per-kind, so 1396 is both a movie and Breaking Bad.
    let ranked = rank_credits(vec![
        credit(1396, MediaType::Tv, 50.0, "/a.jpg"),
        credit(1396, MediaType::Movie, 40.0, "/b.jpg"),
    ]);
    assert_eq!(ranked.len(), 2);
}

#[test]
fn a_prolific_career_is_capped() {
    let many: Vec<Credit> = (0..200)
        .map(|i| credit(i, MediaType::Movie, i as f64, "/x.jpg"))
        .collect();
    assert_eq!(rank_credits(many).len(), MAX_CREDITS);
}

#[test]
fn a_sofa_is_not_a_role() {
    // Both signals, and the exact strings TMDB uses.
    assert!(is_appearance("Self - Guest", &[35]));
    assert!(is_appearance("Self", &[]));
    assert!(is_appearance("Himself (archive footage)", &[]));
    // A talk show is one whatever the character says.
    assert!(is_appearance("Host", &[10767, 35]));
    assert!(is_appearance("", &[10764]));
}

#[test]
fn a_part_that_merely_sounds_reflexive_is_still_a_part() {
    assert!(!is_appearance("Walter White", &[18, 80]));
    assert!(
        !is_appearance("Selfish Man", &[18]),
        "matched on the word, not the prefix"
    );
    assert!(!is_appearance("Myself", &[18]), "not one of TMDB's words");
    assert!(!is_appearance("", &[18, 80]), "a crew credit has no character");
}

#[test]
fn guest_spots_do_not_outrank_the_work() {
    // Measured: TMDB rates a nightly talk show above Breaking Bad.
    let mut sofa = credit(59941, MediaType::Tv, 221.4, "/a.jpg");
    sofa.character = "Self - Guest".into();
    sofa.appearance = true;
    let mut role = credit(1396, MediaType::Tv, 147.5, "/b.jpg");
    role.character = "Walter White".into();
    let ranked = rank_credits(vec![sofa, role]);
    assert_eq!(ranked.len(), 1);
    assert_eq!(ranked[0].hit.id, 1396);
}

/// A TV credit with a year and a genre, for the local `discover` path.
fn tv_credit(id: u32, year: &str, vote: f64, popularity: f64, genres: &[u32]) -> Credit {
    let mut c = credit(id, MediaType::Tv, popularity, "/p.jpg");
    c.hit.year = year.into();
    c.hit.vote = float(vote);
    c.genre_ids = genres.to_vec();
    c
}

#[test]
fn a_persons_tv_credits_honour_the_same_filters_as_the_catalog() {
    let credits = vec![
        tv_credit(1, "2008", 8.9, 100.0, &[18, 80]), // drama/crime
        tv_credit(2, "1995", 6.0, 200.0, &[35]),     // comedy, too old
        tv_credit(3, "2015", 8.4, 50.0, &[18]),      // drama
    ];
    let filters = Filters {
        genre_id: 18,
        years: Some((2000, 2020)),
        cast_id: 17419,
        ..Filters::new(Kind::Tv)
    };
    let page = person_page(credits, &filters, 1);
    let ids: Vec<u32> = page.items.iter().map(|h| h.id).collect();
    assert_eq!(ids, [1, 3], "genre and year both applied, popular first");
}

#[test]
fn a_rating_filter_applies_locally_too() {
    let credits = vec![
        tv_credit(1, "2008", 8.9, 10.0, &[18]),
        tv_credit(2, "2009", 5.5, 99.0, &[18]),
    ];
    let filters = Filters {
        min_rating: 8,
        cast_id: 1,
        ..Filters::new(Kind::Tv)
    };
    let page = person_page(credits, &filters, 1);
    assert_eq!(page.items.len(), 1);
    assert_eq!(page.items[0].id, 1);
}

#[test]
fn a_persons_tv_credits_respect_the_requested_sort() {
    let credits = vec![
        tv_credit(1, "2008", 7.0, 10.0, &[]),
        tv_credit(2, "1995", 9.0, 5.0, &[]),
        tv_credit(3, "2020", 8.0, 99.0, &[]),
    ];
    let by = |sort: Sort| {
        let f = Filters {
            sort,
            cast_id: 1,
            ..Filters::new(Kind::Tv)
        };
        person_page(credits.clone(), &f, 1)
            .items
            .iter()
            .map(|h| h.id)
            .collect::<Vec<_>>()
    };
    assert_eq!(by(Sort::Popular), [3, 1, 2]);
    assert_eq!(by(Sort::TopRated), [2, 3, 1]);
    assert_eq!(by(Sort::Newest), [3, 1, 2]);
    assert_eq!(by(Sort::Oldest), [2, 1, 3]);
}

#[test]
fn a_person_page_pages_like_a_catalog_page() {
    let credits: Vec<Credit> = (0..45)
        .map(|i| tv_credit(i, "2010", 7.0, f64::from(45 - i), &[]))
        .collect();
    let filters = Filters {
        cast_id: 1,
        ..Filters::new(Kind::Tv)
    };
    let first = person_page(credits.clone(), &filters, 1);
    assert_eq!(first.items.len(), PERSON_PAGE_SIZE);
    assert_eq!(first.total_pages, 3);
    assert!(first.has_next());
    let last = person_page(credits.clone(), &filters, 3);
    assert_eq!(last.items.len(), 5);
    assert!(!last.has_next());
    // Page 1 and page 2 must not overlap.
    let second = person_page(credits, &filters, 2);
    assert_eq!(second.items[0].id, 20);
}

#[test]
fn an_empty_person_page_still_reports_one_page() {
    let filters = Filters {
        cast_id: 1,
        ..Filters::new(Kind::Tv)
    };
    let page = person_page(Vec::new(), &filters, 1);
    assert!(page.items.is_empty());
    assert_eq!(page.total_pages, 1);
    assert!(!page.has_next());
}

#[test]
fn cast_comes_back_in_billing_order_and_capped() {
    let credits = CreditsResponse {
        cast: (0..30)
            .rev()
            .map(|i| CastItem {
                id: i,
                name: Some(format!("Actor {i}")),
                character: Some("Someone".into()),
                profile_path: None,
                order: Some(i),
            })
            .collect(),
        crew: Vec::new(),
    };
    let cast = cast_of(credits.cast);
    assert_eq!(cast.len(), MAX_CAST);
    assert_eq!(cast[0].order, 0);
    assert_eq!(cast[1].order, 1);
    assert!(cast[0].profile.is_empty(), "no photo is an empty path");
}

#[test]
fn all_pages_of_a_career_are_the_career() {
    // Two credits in every third show, one of them an appearance; one show
    // without a poster.
    let mut credits: Vec<Credit> = Vec::new();
    for i in 0..50 {
        credits.push(tv_credit(i, "2010", 7.0, f64::from(i % 7), &[]));
        if i % 3 == 0 {
            let mut again = tv_credit(i, "2010", 7.0, 90.0, &[]);
            again.appearance = true;
            credits.push(again);
            credits.push(tv_credit(i, "2010", 7.0, 50.0 + f64::from(i), &[]));
        }
    }
    credits[0].hit.poster = String::new();
    credits.push({
        let mut bare = tv_credit(99, "2010", 7.0, 3.0, &[]);
        bare.hit.poster = String::new();
        bare
    });
    let filters = Filters { cast_id: 1, ..Filters::new(Kind::Tv) };
    let pages: Vec<Vec<u32>> = (1..=3)
        .map(|p| {
            let page = person_page(credits.clone(), &filters, p);
            assert_eq!((page.page, page.total_pages), (p, 3));
            page.items.iter().map(|h| h.id).collect()
        })
        .collect();
    assert_eq!(pages.iter().map(Vec::len).collect::<Vec<_>>(), [20, 20, 10]);
    let mut all: Vec<u32> = pages.concat();
    assert_eq!(&all[..3], [48, 45, 42], "by the part that ranks highest");
    all.sort();
    assert_eq!(all, (0..50).collect::<Vec<u32>>());
    let zeroth = person_page(credits.clone(), &filters, 0);
    assert_eq!(zeroth.page, 1);
    assert_eq!(zeroth.items.iter().map(|h| h.id).collect::<Vec<_>>(), pages[0]);
    assert!(person_page(credits, &filters, 4).items.is_empty());
}
