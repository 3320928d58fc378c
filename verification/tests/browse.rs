use dekho::browse::{
    filters_from, parse_genre, parse_language, parse_year_range, this_year, Filters, Kind, Sort,
    EARLIEST_YEAR, LATEST_YEAR,
};
use dekho::calendar::{civil_from_days, today};
use dekho::history::now;

const TODAY: &str = "2026-07-27";

#[test]
fn civil_calendar_matches_known_dates() {
    assert_eq!(civil_from_days(0), (1970, 1, 1));
    assert_eq!(civil_from_days(19_723), (2024, 1, 1));
    // 2024 was a leap year; day 60 of it is the 29th of February.
    assert_eq!(civil_from_days(19_782), (2024, 2, 29));
    assert_eq!(civil_from_days(-1), (1969, 12, 31));
}

#[test]
fn this_year_is_a_year_the_filters_would_accept() {
    let y = this_year(now());
    assert!((EARLIEST_YEAR..=LATEST_YEAR).contains(&y), "got {y}");
    assert!(y >= 2026, "got {y}");
}

#[test]
fn today_is_a_well_formed_date() {
    let t = today(now());
    assert_eq!(t.len(), 10, "got {t}");
    assert_eq!(t.matches('-').count(), 2);
    assert!(t.starts_with("20"), "got {t}");
}

#[test]
fn top_rated_requires_a_vote_floor() {
    // Without it, a 10.0 from four voters tops the list.
    let f = Filters {
        sort: Sort::TopRated,
        ..Filters::new(Kind::Movie)
    };
    assert!(f.discover_path(1, TODAY).contains("vote_count.gte=300"));
    assert!(f.discover_path(1, TODAY).contains("sort_by=vote_average.desc"));
}

#[test]
fn a_rating_filter_adds_its_own_vote_floor() {
    let f = Filters {
        min_rating: 7,
        ..Filters::new(Kind::Movie)
    };
    let p = f.discover_path(1, TODAY);
    assert!(p.contains("vote_average.gte=7"));
    assert!(p.contains("vote_count.gte=100"));
}

#[test]
fn a_language_filter_relaxes_the_vote_floor() {
    // Bangla has far fewer heavily-voted titles; the 300 floor would empty
    // the list entirely.
    let f = Filters {
        sort: Sort::TopRated,
        language: "bn".into(),
        ..Filters::new(Kind::Movie)
    };
    let p = f.discover_path(1, TODAY);
    assert!(p.contains("with_original_language=bn"));
    assert!(p.contains("vote_count.gte=50"), "got {p}");
}

#[test]
fn popularity_excludes_unreleased_titles() {
    let f = Filters::new(Kind::Movie);
    assert!(f.discover_path(1, TODAY).contains("primary_release_date.lte="));
}

#[test]
fn tv_uses_first_air_date_not_release_date() {
    let f = Filters {
        sort: Sort::Newest,
        ..Filters::new(Kind::Tv)
    };
    let p = f.discover_path(1, TODAY);
    assert!(p.starts_with("/discover/tv?"));
    assert!(p.contains("sort_by=first_air_date.desc"));
    assert!(!p.contains("primary_release_date"));
}

#[test]
fn box_office_falls_back_to_popularity_for_tv() {
    let f = Filters {
        sort: Sort::BoxOffice,
        ..Filters::new(Kind::Tv)
    };
    let p = f.discover_path(1, TODAY);
    assert!(p.contains("sort_by=popularity.desc"), "got {p}");
    assert!(!p.contains("revenue"));
}

#[test]
fn box_office_is_not_offered_for_tv() {
    assert!(!Sort::all(Kind::Tv).contains(&Sort::BoxOffice));
    assert!(Sort::all(Kind::Movie).contains(&Sort::BoxOffice));
}

#[test]
fn oldest_has_a_floor_so_undated_entries_do_not_win() {
    let f = Filters {
        sort: Sort::Oldest,
        ..Filters::new(Kind::Movie)
    };
    assert!(f
        .discover_path(1, TODAY)
        .contains("primary_release_date.gte=1920-01-01"));
}

#[test]
fn genres_resolve_by_name_id_and_unique_prefix() {
    assert_eq!(parse_genre(Kind::Movie, "Horror"), Some(27));
    assert_eq!(parse_genre(Kind::Movie, "horror"), Some(27));
    assert_eq!(parse_genre(Kind::Movie, "27"), Some(27));
    assert_eq!(parse_genre(Kind::Movie, "sci"), Some(878));
}

#[test]
fn an_ambiguous_genre_prefix_is_refused_rather_than_guessed() {
    // "a" matches both Action and Adventure and Animation.
    assert_eq!(parse_genre(Kind::Movie, "a"), None);
}

#[test]
fn genre_ids_are_kind_specific() {
    // 28 is Action for movies and means nothing for TV.
    assert_eq!(parse_genre(Kind::Movie, "28"), Some(28));
    assert_eq!(parse_genre(Kind::Tv, "28"), None);
    assert_eq!(parse_genre(Kind::Tv, "10759"), Some(10759));
}

#[test]
fn languages_resolve_by_code_or_name() {
    assert_eq!(parse_language("bn"), Some("bn"));
    assert_eq!(parse_language("Bangla"), Some("bn"));
    assert_eq!(parse_language("klingon"), None);
}

#[test]
fn sort_parsing_accepts_the_obvious_spellings() {
    assert_eq!(Sort::parse("top-rated"), Some(Sort::TopRated));
    assert_eq!(Sort::parse("top_rated"), Some(Sort::TopRated));
    assert_eq!(Sort::parse("NEWEST"), Some(Sort::Newest));
    assert_eq!(Sort::parse("nonsense"), None);
}

#[test]
fn summary_lists_every_active_filter() {
    let f = Filters {
        kind: Kind::Movie,
        sort: Sort::TopRated,
        min_rating: 8,
        genre_id: 27,
        language: "ko".into(),
        ..Filters::new(Kind::Movie)
    };
    assert_eq!(f.summary(), "Top Rated · Horror · Korean · 8+");
}

#[test]
fn summary_of_defaults_is_just_the_sort() {
    assert_eq!(Filters::new(Kind::Movie).summary(), "Popular");
}

#[test]
fn summary_mentions_the_year_and_the_person() {
    let f = Filters {
        years: Some((1990, 1999)),
        cast_id: 17419,
        ..Filters::new(Kind::Movie)
    };
    assert_eq!(f.summary(), "Popular · 1990-1999 · Cast #17419");
    let one = Filters {
        years: Some((1999, 1999)),
        ..Filters::new(Kind::Movie)
    };
    assert_eq!(one.summary(), "Popular · 1999");
}

#[test]
fn a_year_is_a_single_year_or_a_range() {
    assert_eq!(parse_year_range("1999"), Some((1999, 1999)));
    assert_eq!(parse_year_range("1990-1999"), Some((1990, 1999)));
    assert_eq!(parse_year_range("  1990 - 1999 "), Some((1990, 1999)));
}

#[test]
fn a_nonsense_year_is_refused_rather_than_guessed() {
    assert_eq!(parse_year_range("nineties"), None);
    assert_eq!(parse_year_range("1990-"), None);
    assert_eq!(parse_year_range(""), None);
    assert_eq!(parse_year_range("99"), None, "out of range, not a shorthand");
    assert_eq!(parse_year_range("1990-1980"), None, "backwards is a typo");
}

#[test]
fn a_year_filter_bounds_both_ends() {
    let f = Filters {
        years: Some((1990, 1999)),
        ..Filters::new(Kind::Movie)
    };
    let p = f.discover_path(1, TODAY);
    assert!(p.contains("primary_release_date.gte=1990-01-01"), "got {p}");
    assert!(p.contains("primary_release_date.lte=1999-12-31"), "got {p}");
}

#[test]
fn a_year_filter_never_widens_the_sorts_own_bound() {
    // "Oldest, 1990s" must not reach back past 1990 to the 1920 floor, and
    // one date field must not be sent twice.
    let f = Filters {
        sort: Sort::Oldest,
        years: Some((1990, 1999)),
        ..Filters::new(Kind::Movie)
    };
    let p = f.discover_path(1, TODAY);
    assert!(p.contains("primary_release_date.gte=1990-01-01"), "got {p}");
    assert_eq!(p.matches("primary_release_date.gte=").count(), 1, "got {p}");
    assert_eq!(p.matches("primary_release_date.lte=").count(), 1, "got {p}");
}

#[test]
fn a_future_year_still_excludes_unreleased_titles() {
    // Popularity caps at today; asking for 2100 must not undo that.
    let f = Filters {
        years: Some((2000, 2100)),
        ..Filters::new(Kind::Movie)
    };
    let p = f.discover_path(1, TODAY);
    assert!(!p.contains("lte=2100-12-31"), "got {p}");
}

#[test]
fn a_top_rated_year_filter_is_the_only_date_bound() {
    // Top rated sets no date bound of its own, so the year is all there is.
    let f = Filters {
        sort: Sort::TopRated,
        years: Some((1999, 1999)),
        ..Filters::new(Kind::Movie)
    };
    let p = f.discover_path(1, TODAY);
    assert!(p.contains("primary_release_date.gte=1999-01-01"), "got {p}");
    assert!(p.contains("primary_release_date.lte=1999-12-31"), "got {p}");
}

#[test]
fn a_person_filter_is_a_movie_query_only() {
    let movie = Filters {
        cast_id: 17419,
        ..Filters::new(Kind::Movie)
    };
    assert!(movie.discover_path(1, TODAY).contains("with_cast=17419"));

    // /discover/tv ignores every person parameter, so sending one would
    // only make an unfiltered answer look filtered. That path is served
    // from the person's TV credits instead.
    let tv = Filters {
        cast_id: 17419,
        ..Filters::new(Kind::Tv)
    };
    let p = tv.discover_path(1, TODAY);
    assert!(!p.contains("with_cast"), "got {p}");
    assert!(!p.contains("with_people"), "got {p}");
}

#[test]
fn filters_from_reads_the_new_flags_and_rejects_bad_ones() {
    let f = filters_from(
        Kind::Movie,
        None,
        Some("horror"),
        None,
        None,
        Some(17419),
        Some("1990-1999"),
    )
    .unwrap();
    assert_eq!(f.cast_id, 17419);
    assert_eq!(f.years, Some((1990, 1999)));
    assert_eq!(f.genre_id, 27, "the old filters still apply alongside");

    assert!(
        filters_from(Kind::Movie, None, None, None, None, None, Some("soon")).is_err(),
        "a bad --year is refused, not ignored"
    );
}

#[test]
fn no_new_flags_means_the_query_is_unchanged() {
    let f = filters_from(Kind::Movie, None, None, None, None, None, None).unwrap();
    assert_eq!(f.cast_id, 0);
    assert_eq!(f.years, None);
    let p = f.discover_path(1, TODAY);
    assert!(!p.contains("with_cast"));
    assert!(p.contains("sort_by=popularity.desc"));
}
