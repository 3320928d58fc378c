use dekho::browse::{parse_year_range, Filters, Kind, Sort};
use dekho::float::Float;
use dekho::menu::{
    apply, decade_choices, genre_choices, header, language_choices, listing_line, page_after,
    rating_choices, rows, settings, sort_choices, Change, Row, Setting,
};
use dekho::tmdb::{CatalogPage, MediaType, SearchHit};

fn hit(title: &str, year: &str) -> SearchHit {
    SearchHit {
        id: 1,
        media_type: MediaType::Movie,
        title: title.into(),
        year: year.into(),
        vote: Float { bits: 8.4f64.to_bits() },
        poster: String::new(),
        backdrop: String::new(),
        overview: String::new(),
    }
}

fn lines(page: u32, total_pages: u32) -> Vec<String> {
    let catalog = CatalogPage { items: vec![hit("Up", "2009"), hit("Amélie", "")], page, total_pages };
    rows(catalog, "Popular".into()).iter().map(|r| r.line("8.4")).collect()
}

#[test]
fn a_page_offers_filters_first_and_the_way_out_last() {
    let one = lines(1, 1);
    assert_eq!(one.len(), 4);
    assert_eq!(one[0], "⚙  Filters & sort — Popular");
    assert_eq!(one[1], format!("{:<52}  ★ 8.4", "Up (2009)"));
    assert_eq!(one[2], format!("{:<52}  ★ 8.4", "Amélie"), "padded by characters");
    assert_eq!(one[3], "✕  Quit");
    let middle = lines(2, 9);
    assert_eq!(middle[3], "→  Next page (3/9)");
    assert_eq!(middle[4], "←  Previous page (1)");
    assert_eq!(lines(9, 9)[3], "←  Previous page (8)");
    assert_eq!(lines(1, 9)[3], "→  Next page (2/9)");
}

#[test]
fn rows_are_written_as_menus_and_lists_need_them() {
    let long = "x".repeat(60);
    assert_eq!(Row::Title(hit(&long, "")).line("7.0"), format!("{long}  ★ 7.0"));
    assert_eq!(listing_line(&hit("Up", "2009"), "8.4"), " 8.4  Up (2009)");
    assert_eq!(listing_line(&hit("Up", ""), "10.0"), "10.0  Up");
    assert_eq!(hit("Up", "2009").line("8.4"), "Movie   Up (2009)  ★ 8.4");
    let mut show = hit("Lost", "");
    show.media_type = MediaType::Tv;
    assert_eq!(show.line("8.0"), "Series  Lost  ★ 8.0");
    assert_eq!(
        header(&Filters::new(Kind::Tv), 2, 40),
        "TV Series · Popular · page 2/40"
    );
}

#[test]
fn the_submenu_names_the_other_kind() {
    let all = settings(&Filters::new(Kind::Movie));
    let names: Vec<String> = all.iter().map(|s| s.line()).collect();
    assert_eq!(
        names,
        vec![
            "← Back to the list",
            "Sort",
            "Genre",
            "Language",
            "Decade",
            "Minimum rating",
            "Switch to TV Series",
            "Reset filters"
        ]
    );
    assert_eq!(settings(&Filters::new(Kind::Tv))[6], Setting::SwitchKind(Kind::Movie));
}

#[test]
fn choices_are_those_of_the_kind() {
    let sorts: Vec<String> = sort_choices(Kind::Tv).into_iter().map(|c| c.label).collect();
    assert_eq!(sorts, vec!["Popular", "Top Rated", "Newest", "Oldest"]);
    assert_eq!(sort_choices(Kind::Movie).last().unwrap().value, Sort::BoxOffice);
    let genres = genre_choices(Kind::Movie);
    assert_eq!((genres[0].label.as_str(), genres[0].value), ("All genres", 0));
    assert!(genres.iter().any(|c| c.label == "Horror" && c.value == 27));
    let languages = language_choices();
    assert_eq!(languages[0].value, "");
    assert!(languages.iter().any(|c| c.label == "Bangla" && c.value == "bn"));
    let ratings: Vec<u32> = rating_choices().into_iter().map(|c| c.value).collect();
    assert_eq!(ratings, vec![0, 9, 8, 7, 6, 5]);
    assert_eq!(rating_choices()[1].label, "9+");
}

#[test]
fn switching_kind_drops_what_does_not_carry_across() {
    let mut f = Filters::new(Kind::Movie);
    apply(&mut f, Change::Sort(Sort::BoxOffice));
    apply(&mut f, Change::Genre(28));
    apply(&mut f, Change::Rating(8));
    apply(&mut f, Change::Language("ko".into()));
    assert_eq!((f.sort, f.genre_id, f.min_rating), (Sort::BoxOffice, 28, 8));
    apply(&mut f, Change::SwitchKind(Kind::Tv));
    assert_eq!(f.kind, Kind::Tv);
    assert_eq!(f.genre_id, 0);
    assert_eq!(f.sort, Sort::Popular, "TV has no box office");
    assert_eq!((f.min_rating, f.language.as_str()), (8, "ko"), "the rest carries");
    apply(&mut f, Change::Sort(Sort::Oldest));
    apply(&mut f, Change::SwitchKind(Kind::Movie));
    assert_eq!(f.sort, Sort::Oldest);
    apply(&mut f, Change::Reset);
    assert_eq!(f.summary(), "Popular");
    assert_eq!(f.kind, Kind::Movie);
}

#[test]
fn decades_run_from_this_one_back_to_the_first() {
    let all = decade_choices(2026);
    let said: Vec<&str> = all.iter().map(|c| c.label.as_str()).collect();
    assert_eq!(&said[..3], ["Any year", "2020s", "2010s"]);
    assert_eq!(said.last(), Some(&"1870s"));
    assert_eq!(all.len(), 17);
    assert_eq!(all[0].value, None);
    assert_eq!(all[1].value, Some((2020, 2029)));
    assert_eq!(all[16].value, Some((1870, 1879)));
    // Every decade is a range that `--year` would take.
    for c in &all[1..] {
        let (from, to) = c.value.unwrap();
        assert_eq!(parse_year_range(&format!("{from}-{to}")), Some((from, to)));
    }
    assert_eq!(decade_choices(2100)[1].value, Some((2100, 2100)));
    assert_eq!(decade_choices(9999).len(), decade_choices(2100).len());
    assert_eq!(decade_choices(1700).len(), 1);
}

#[test]
fn a_decade_narrows_the_years_and_nothing_else() {
    let mut f = Filters::new(Kind::Movie);
    apply(&mut f, Change::Rating(7));
    apply(&mut f, Change::Years(Some((1990, 1999))));
    assert_eq!((f.years, f.min_rating), (Some((1990, 1999)), 7));
    assert!(f.summary().contains("1990-1999"));
    apply(&mut f, Change::SwitchKind(Kind::Tv));
    assert_eq!(f.years, Some((1990, 1999)), "a decade carries across");
    apply(&mut f, Change::Years(None));
    assert_eq!(f.years, None);
}

#[test]
fn changed_filters_start_at_the_first_page() {
    let settings = Row::Settings("Popular".into());
    assert_eq!(page_after(&settings, 7, true), 1);
    assert_eq!(page_after(&settings, 7, false), 7);
    assert_eq!(page_after(&Row::NextPage(8, 9), 7, false), 8);
    assert_eq!(page_after(&Row::PrevPage(6), 7, false), 6);
    assert_eq!(page_after(&Row::Title(hit("Up", "2009")), 7, false), 7);
}
