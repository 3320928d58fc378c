//! The catalog browser: the rows of a page, the filters submenu, and what each
//! choice does.

use crate::browse;
use crate::browse::{Filters, Kind, Sort};
use crate::list;
use crate::text;
use crate::tmdb;
use crate::tmdb::{CatalogPage, SearchHit};
use vstd::prelude::*;

verus! {

// --- a page -----------------------------------------------------------------------

/// One selectable line in the catalog browser.
#[derive(Debug)]
pub enum Row {
    Title(SearchHit),
    NextPage(u32, u32),
    PrevPage(u32),
    Settings(String),
    Quit,
}

/// What a row says.
pub enum Entry {
    Title(tmdb::Hit),
    NextPage(u32, u32),
    PrevPage(u32),
    Settings(Seq<char>),
    Quit,
}

impl View for Row {
    type V = Entry;

    open spec fn view(&self) -> Entry {
        match *self {
            Row::Title(h) => Entry::Title(h@),
            Row::NextPage(n, t) => Entry::NextPage(n, t),
            Row::PrevPage(p) => Entry::PrevPage(p),
            Row::Settings(s) => Entry::Settings(s@),
            Row::Quit => Entry::Quit,
        }
    }
}

/// A text, filled up with spaces to a width.
pub open spec fn filled_to(s: Seq<char>, width: nat) -> Seq<char>
    decreases width - s.len(),
{
    if s.len() < width {
        filled_to(s.push(' '), width)
    } else {
        s
    }
}

/// A text, filled up with spaces in front to a width.
pub open spec fn right_in(s: Seq<char>, width: nat) -> Seq<char>
    decreases width - s.len(),
{
    if s.len() < width {
        right_in(seq![' '] + s, width)
    } else {
        s
    }
}

/// A row as it is written. `vote` is the vote of a title, with one decimal.
pub open spec fn row_text(row: Entry, vote: Seq<char>) -> Seq<char> {
    match row {
        Entry::Title(h) => filled_to(h.title + tmdb::bracketed(h.year), 52) + "  ★ "@ + vote,
        Entry::NextPage(next, total) => "→  Next page ("@ + text::decimal(next as nat) + "/"@
            + text::decimal(total as nat) + ")"@,
        Entry::PrevPage(prev) => "←  Previous page ("@ + text::decimal(prev as nat) + ")"@,
        Entry::Settings(summary) => "⚙  Filters & sort — "@ + summary,
        Entry::Quit => "✕  Quit"@,
    }
}

fn titled(h: &SearchHit) -> (r: Vec<char>)
    ensures
        r@ == h.title@ + tmdb::bracketed(h.year@),
{
    let mut out = text::chars_of(h.title.as_str());
    if !h.year.as_str().is_empty() {
        text::push_str(&mut out, " (");
        text::push_str(&mut out, h.year.as_str());
        text::push_str(&mut out, ")");
    }
    assert(out@ =~= h.title@ + tmdb::bracketed(h.year@));
    out
}

impl Row {
    /// The row as it is written. Titles are padded by character count, not
    /// bytes: they are routinely non-ASCII and byte padding would rag the
    /// column of votes.
    pub fn line(&self, vote: &str) -> (r: String)
        ensures
            r@ == row_text(self@, vote@),
    {
        let out: Vec<char> = match self {
            Row::Title(h) => {
                let mut out = titled(h);
                let ghost name = out@;
                while out.len() < 52
                    invariant
                        filled_to(out@, 52) == filled_to(name, 52),
                    decreases 52 - out.len(),
                {
                    out.push(' ');
                }
                text::push_str(&mut out, "  ★ ");
                text::push_str(&mut out, vote);
                out
            },
            Row::NextPage(next, total) => {
                let mut out = text::chars_of("→  Next page (");
                text::push_decimal(&mut out, *next as u64);
                text::push_str(&mut out, "/");
                text::push_decimal(&mut out, *total as u64);
                text::push_str(&mut out, ")");
                out
            },
            Row::PrevPage(prev) => {
                let mut out = text::chars_of("←  Previous page (");
                text::push_decimal(&mut out, *prev as u64);
                text::push_str(&mut out, ")");
                out
            },
            Row::Settings(summary) => {
                let mut out = text::chars_of("⚙  Filters & sort — ");
                text::push_str(&mut out, summary.as_str());
                out
            },
            Row::Quit => text::chars_of("✕  Quit"),
        };
        text::string_of(out.as_slice())
    }
}

/// A title of a printed page. `vote` is its vote, with one decimal.
pub fn listing_line(h: &SearchHit, vote: &str) -> (r: String)
    ensures
        r@ == right_in(vote@, 4) + "  "@ + h.title@ + tmdb::bracketed(h.year@),
{
    let mut out = text::chars_of(vote);
    let ghost v = out@;
    while out.len() < 4
        invariant
            right_in(out@, 4) == right_in(v, 4),
        decreases 4 - out.len(),
    {
        let ghost before = out@;
        out.insert(0, ' ');
        assert(out@ =~= seq![' '] + before);
    }
    text::push_str(&mut out, "  ");
    let name = titled(h);
    text::push_all(&mut out, name.as_slice());
    let r = text::string_of(out.as_slice());
    assert(r@ =~= right_in(v, 4) + "  "@ + h.title@ + tmdb::bracketed(h.year@));
    r
}

/// The rows of a page. Filters go first: a page holds twenty titles and only
/// about fifteen rows are ever on screen, so anything after them is invisible.
/// Put them at the bottom and the browser looks like it cannot filter at all.
pub open spec fn page_entries(
    items: Seq<tmdb::Hit>,
    page: u32,
    total_pages: u32,
    summary: Seq<char>,
) -> Seq<Entry> {
    seq![Entry::Settings(summary)] + items.map_values(|h: tmdb::Hit| Entry::Title(h)) + (if page
        < total_pages {
        seq![Entry::NextPage((page + 1) as u32, total_pages)]
    } else {
        Seq::empty()
    }) + (if page > 1 {
        seq![Entry::PrevPage((page - 1) as u32)]
    } else {
        Seq::empty()
    }) + seq![Entry::Quit]
}

pub fn rows(catalog: CatalogPage, summary: String) -> (r: Vec<Row>)
    ensures
        list::views(r@) == page_entries(
            list::views(catalog.items@),
            catalog.page,
            catalog.total_pages,
            summary@,
        ),
{
    let page = catalog.page;
    let total_pages = catalog.total_pages;
    let ghost items = catalog.items@;
    let mut out: Vec<Row> = Vec::new();
    out.push(Row::Settings(summary));
    for h in it: catalog.items
        invariant
            it.seq() == items,
            out@.len() == it.index() + 1,
            out@[0]@ == Entry::Settings(summary@),
            forall|k: int| 0 <= k < it.index() ==> (#[trigger] out@[k + 1])@ == Entry::Title(items[k]@),
    {
        let ghost before = out@;
        let ghost i = it.index();
        out.push(Row::Title(h));
        assert forall|k: int| 0 <= k < i + 1 implies (#[trigger] out@[k + 1])@ == Entry::Title(
            items[k]@,
        ) by {
            if k < i {
                assert(out@[k + 1] == before[k + 1]);
            }
        }
    }
    let ghost first = seq![Entry::Settings(summary@)] + list::views(items).map_values(
        |h: tmdb::Hit| Entry::Title(h),
    );
    assert(list::views(out@) =~= first) by {
        assert forall|j: int| 0 <= j < first.len() implies list::views(out@)[j] == #[trigger] first[j] by {
            if j > 0 {
                assert(out@[(j - 1) + 1]@ == Entry::Title(items[j - 1]@));
            }
        }
    }
    if page < total_pages {
        out.push(Row::NextPage(page + 1, total_pages));
    }
    if page > 1 {
        out.push(Row::PrevPage(page - 1));
    }
    out.push(Row::Quit);
    assert(list::views(out@) =~= page_entries(
        list::views(items),
        page,
        total_pages,
        summary@,
    ));
    out
}

/// What is said above a page.
pub open spec fn header_text(f: Filters, page: u32, total_pages: u32) -> Seq<char> {
    browse::kind_label(f.kind) + " · "@ + browse::summary_text(f) + " · page "@ + text::decimal(
        page as nat,
    ) + "/"@ + text::decimal(total_pages as nat)
}

pub fn header(f: &Filters, page: u32, total_pages: u32) -> (r: String)
    ensures
        r@ == header_text(*f, page, total_pages),
{
    let mut out = text::chars_of(f.kind.label());
    text::push_str(&mut out, " · ");
    text::push_str(&mut out, f.summary().as_str());
    text::push_str(&mut out, " · page ");
    text::push_decimal(&mut out, page as u64);
    text::push_str(&mut out, "/");
    text::push_decimal(&mut out, total_pages as u64);
    text::string_of(out.as_slice())
}

/// The page a browser shows after a row of one was chosen: the one a row leads
/// to, the first once the filters changed, since the number of the old one means
/// nothing in the new list, and otherwise the same one.
pub open spec fn page_next(row: Entry, page: u32, changed: bool) -> u32 {
    match row {
        Entry::NextPage(n, _) => n,
        Entry::PrevPage(p) => p,
        Entry::Settings(_) => if changed {
            1
        } else {
            page
        },
        _ => page,
    }
}

pub fn page_after(row: &Row, page: u32, changed: bool) -> (r: u32)
    ensures
        r == page_next(row@, page, changed),
{
    match row {
        Row::NextPage(n, _) => *n,
        Row::PrevPage(p) => *p,
        Row::Settings(_) => if changed {
            1
        } else {
            page
        },
        _ => page,
    }
}

// --- the filters submenu ------------------------------------------------------------

/// An entry in the filters submenu.
#[derive(Clone, Copy, PartialEq, Eq, Debug, Structural)]
pub enum Setting {
    Sort,
    Genre,
    Language,
    Decade,
    Rating,
    SwitchKind(Kind),
    Reset,
    Back,
}

pub open spec fn setting_text(s: Setting) -> Seq<char> {
    match s {
        Setting::Sort => "Sort"@,
        Setting::Genre => "Genre"@,
        Setting::Language => "Language"@,
        Setting::Decade => "Decade"@,
        Setting::Rating => "Minimum rating"@,
        Setting::SwitchKind(k) => "Switch to "@ + browse::kind_label(k),
        Setting::Reset => "Reset filters"@,
        Setting::Back => "← Back to the list"@,
    }
}

impl Setting {
    pub fn line(self) -> (r: String)
        ensures
            r@ == setting_text(self),
    {
        match self {
            Setting::Sort => "Sort".to_string(),
            Setting::Genre => "Genre".to_string(),
            Setting::Language => "Language".to_string(),
            Setting::Decade => "Decade".to_string(),
            Setting::Rating => "Minimum rating".to_string(),
            Setting::SwitchKind(k) => {
                let mut out = text::chars_of("Switch to ");
                text::push_str(&mut out, k.label());
                text::string_of(out.as_slice())
            },
            Setting::Reset => "Reset filters".to_string(),
            Setting::Back => "← Back to the list".to_string(),
        }
    }
}

pub open spec fn other_kind(k: Kind) -> Kind {
    match k {
        Kind::Movie => Kind::Tv,
        Kind::Tv => Kind::Movie,
    }
}

/// The filters submenu.
pub fn settings(f: &Filters) -> (r: Vec<Setting>)
    ensures
        r@ == seq![
            Setting::Back,
            Setting::Sort,
            Setting::Genre,
            Setting::Language,
            Setting::Decade,
            Setting::Rating,
            Setting::SwitchKind(other_kind(f.kind)),
            Setting::Reset,
        ],
{
    let other = match f.kind {
        Kind::Movie => Kind::Tv,
        Kind::Tv => Kind::Movie,
    };
    let mut v: Vec<Setting> = Vec::new();
    v.push(Setting::Back);
    v.push(Setting::Sort);
    v.push(Setting::Genre);
    v.push(Setting::Language);
    v.push(Setting::Decade);
    v.push(Setting::Rating);
    v.push(Setting::SwitchKind(other));
    v.push(Setting::Reset);
    assert(v@ =~= seq![
        Setting::Back,
        Setting::Sort,
        Setting::Genre,
        Setting::Language,
        Setting::Decade,
        Setting::Rating,
        Setting::SwitchKind(other_kind(f.kind)),
        Setting::Reset,
    ]);
    v
}

/// A labelled choice, so option lists can carry a value the label does not.
#[derive(Debug)]
pub struct Choice<T> {
    pub label: String,
    pub value: T,
}

/// What some choices say.
pub open spec fn offered<T>(v: Seq<Choice<T>>) -> Seq<(Seq<char>, T)> {
    v.map_values(|c: Choice<T>| (c.label@, c.value))
}

/// The sorts to choose from.
pub fn sort_choices(kind: Kind) -> (r: Vec<Choice<Sort>>)
    ensures
        offered(r@) == browse::sorts_for(kind).map_values(|s: Sort| (browse::sort_label(s), s)),
{
    let all = Sort::all(kind);
    let n = all.len();
    let mut out: Vec<Choice<Sort>> = Vec::new();
    let mut i: usize = 0;
    while i < n
        invariant
            i <= n == all@.len(),
            out@.len() == i,
            forall|k: int|
                0 <= k < i ==> (#[trigger] out@[k]).label@ == browse::sort_label(all@[k])
                    && out@[k].value == all@[k],
        decreases n - i,
    {
        let s = all[i];
        out.push(Choice { label: s.label().to_string(), value: s });
        i += 1;
    }
    assert(offered(out@) =~= browse::sorts_for(kind).map_values(
        |s: Sort| (browse::sort_label(s), s),
    ));
    out
}

/// The genres to choose from: 0 is all of them.
pub open spec fn genre_offer(kind: Kind) -> Seq<(Seq<char>, u32)> {
    seq![("All genres"@, 0u32)] + browse::genre_table(kind).map_values(
        |g: (u32, Seq<char>)| (g.1, g.0),
    )
}

pub fn genre_choices(kind: Kind) -> (r: Vec<Choice<u32>>)
    ensures
        offered(r@) == genre_offer(kind),
{
    let table = browse::genres_for(kind);
    let n = table.len();
    let mut out: Vec<Choice<u32>> = Vec::new();
    out.push(Choice { label: "All genres".to_string(), value: 0 });
    let mut i: usize = 0;
    assert(offered(out@) =~= genre_offer(kind).take(1));
    while i < n
        invariant
            i <= n == table@.len(),
            browse::named(table@) == browse::genre_table(kind),
            offered(out@) == genre_offer(kind).take(i + 1),
        decreases n - i,
    {
        let ghost before = offered(out@);
        out.push(Choice { label: table[i].1.to_string(), value: table[i].0 });
        proof {
            let (id, name) = (table@[i as int].0, table@[i as int].1@);
            assert(browse::named(table@)[i as int] == (id, name));
            assert(genre_offer(kind)[i + 1] == (name, id));
            assert(offered(out@) =~= before.push((name, id)));
            assert(genre_offer(kind).take(i + 2) =~= genre_offer(kind).take(i + 1).push(
                (name, id),
            ));
        }
        i += 1;
    }
    assert(genre_offer(kind).take(n + 1) =~= genre_offer(kind));
    out
}

/// The languages to choose from: the empty code is all of them.
pub open spec fn language_offer() -> Seq<(Seq<char>, Seq<char>)> {
    seq![("All languages"@, Seq::empty())] + browse::language_table().map_values(
        |l: (Seq<char>, Seq<char>)| (l.1, l.0),
    )
}

/// What some choices of texts say.
pub open spec fn offered_texts(v: Seq<Choice<String>>) -> Seq<(Seq<char>, Seq<char>)> {
    v.map_values(|c: Choice<String>| (c.label@, c.value@))
}

pub fn language_choices() -> (r: Vec<Choice<String>>)
    ensures
        offered_texts(r@) == language_offer(),
{
    let table = browse::languages();
    let n = table.len();
    let none: Vec<char> = Vec::new();
    let mut out: Vec<Choice<String>> = Vec::new();
    out.push(
        Choice { label: "All languages".to_string(), value: text::string_of(none.as_slice()) },
    );
    let mut i: usize = 0;
    assert(out@[0].value@ =~= Seq::empty());
    assert(offered_texts(out@) =~= language_offer().take(1));
    while i < n
        invariant
            i <= n == table@.len(),
            browse::spelled(table@) == browse::language_table(),
            offered_texts(out@) == language_offer().take(i + 1),
        decreases n - i,
    {
        let ghost before = offered_texts(out@);
        out.push(Choice { label: table[i].1.to_string(), value: table[i].0.to_string() });
        proof {
            let (code, name) = (table@[i as int].0@, table@[i as int].1@);
            assert(browse::spelled(table@)[i as int] == (code, name));
            assert(language_offer()[i + 1] == (name, code));
            assert(offered_texts(out@) =~= before.push((name, code)));
            assert(language_offer().take(i + 2) =~= language_offer().take(i + 1).push(
                (name, code),
            ));
        }
        i += 1;
    }
    assert(language_offer().take(n + 1) =~= language_offer());
    out
}

/// The decades that have begun by a year, of those a filter can name.
pub open spec fn decades(this_year: u32) -> nat {
    let last = if this_year < browse::LATEST_YEAR {
        this_year
    } else {
        browse::LATEST_YEAR
    };
    if last < browse::EARLIEST_YEAR {
        0
    } else {
        ((last - browse::EARLIEST_YEAR) / 10 + 1) as nat
    }
}

/// The years of a decade, counted from the first: no year past the last that a
/// filter can name.
pub open spec fn decade(k: int) -> (u32, u32) {
    let from = browse::EARLIEST_YEAR + 10 * k;
    (
        from as u32,
        if from + 9 < browse::LATEST_YEAR {
            (from + 9) as u32
        } else {
            browse::LATEST_YEAR
        },
    )
}

/// The decades to choose from, the newest first: none is any year.
pub open spec fn decade_offer(this_year: u32) -> Seq<(Seq<char>, Option<(u32, u32)>)> {
    let n = decades(this_year);
    seq![("Any year"@, None::<(u32, u32)>)] + Seq::new(
        n,
        |i: int|
            (text::decimal(decade(n - 1 - i).0 as nat) + "s"@, Some(decade(n - 1 - i))),
    )
}

pub fn decade_choices(this_year: u32) -> (r: Vec<Choice<Option<(u32, u32)>>>)
    ensures
        offered(r@) == decade_offer(this_year),
{
    let mut out: Vec<Choice<Option<(u32, u32)>>> = Vec::new();
    out.push(Choice { label: "Any year".to_string(), value: None });
    let last = if this_year < browse::LATEST_YEAR {
        this_year
    } else {
        browse::LATEST_YEAR
    };
    let n: u32 = if last < browse::EARLIEST_YEAR {
        0
    } else {
        (last - browse::EARLIEST_YEAR) / 10 + 1
    };
    let mut k: u32 = n;
    assert(offered(out@) =~= decade_offer(this_year).take(1));
    while k > 0
        invariant
            k <= n,
            n == decades(this_year),
            n <= 24,
            offered(out@) == decade_offer(this_year).take(1 + n - k),
        decreases k,
    {
        k -= 1;
        let from: u32 = browse::EARLIEST_YEAR + 10 * k;
        let to: u32 = if from + 9 < browse::LATEST_YEAR {
            from + 9
        } else {
            browse::LATEST_YEAR
        };
        let mut label = text::write_decimal(from as u64);
        text::push_str(&mut label, "s");
        let ghost before = out@;
        out.push(Choice { label: text::string_of(label.as_slice()), value: Some((from, to)) });
        assert((from, to) == decade(k as int));
        assert(offered(out@) =~= offered(before).push(
            (text::decimal(from as nat) + "s"@, Some((from, to))),
        ));
        assert(offered(out@) =~= decade_offer(this_year).take(1 + n - k));
    }
    assert(decade_offer(this_year).take(1 + n) =~= decade_offer(this_year));
    out
}

/// The ratings to choose from: 0 is any.
pub open spec fn rating_offer() -> Seq<(Seq<char>, u32)> {
    seq![
        ("Any rating"@, 0u32),
        ("9+"@, 9u32),
        ("8+"@, 8u32),
        ("7+"@, 7u32),
        ("6+"@, 6u32),
        ("5+"@, 5u32),
    ]
}

pub fn rating_choices() -> (r: Vec<Choice<u32>>)
    ensures
        offered(r@) == rating_offer(),
{
    let mut out: Vec<Choice<u32>> = Vec::new();
    out.push(Choice { label: "Any rating".to_string(), value: 0 });
    out.push(Choice { label: "9+".to_string(), value: 9 });
    out.push(Choice { label: "8+".to_string(), value: 8 });
    out.push(Choice { label: "7+".to_string(), value: 7 });
    out.push(Choice { label: "6+".to_string(), value: 6 });
    out.push(Choice { label: "5+".to_string(), value: 5 });
    assert(offered(out@) =~= rating_offer());
    out
}

/// A change to the filters.
#[derive(Debug)]
pub enum Change {
    Sort(Sort),
    Genre(u32),
    Language(String),
    Years(Option<(u32, u32)>),
    Rating(u32),
    SwitchKind(Kind),
    Reset,
}

/// What filters hold after a change.
pub open spec fn is_changed(f: Filters, change: Change, g: Filters) -> bool {
    match change {
        Change::Sort(s) => g == (Filters { sort: s, ..f }),
        Change::Genre(id) => g == (Filters { genre_id: id, ..f }),
        Change::Language(code) => g == (Filters { language: code, ..f }),
        Change::Years(years) => g == (Filters { years, ..f }),
        Change::Rating(r) => g == (Filters { min_rating: r, ..f }),
        // Genre ids do not carry across: 28 is Action for movies and nothing
        // at all for TV, so keeping it would silently empty the list. Sort can
        // carry, except box office, which TV has no data for.
        Change::SwitchKind(k) => g == (Filters {
            kind: k,
            genre_id: 0,
            sort: if browse::sorts_for(k).contains(f.sort) {
                f.sort
            } else {
                Sort::Popular
            },
            ..f
        }),
        Change::Reset => {
            &&& g.kind == f.kind
            &&& g.sort == Sort::Popular
            &&& g.min_rating == 0
            &&& g.genre_id == 0
            &&& g.language@.len() == 0
            &&& g.cast_id == 0
            &&& g.years is None
        },
    }
}

/// Make a change to the filters.
pub fn apply(f: &mut Filters, change: Change)
    ensures
        is_changed(*old(f), change, *final(f)),
{
    match change {
        Change::Sort(s) => {
            f.sort = s;
        },
        Change::Genre(id) => {
            f.genre_id = id;
        },
        Change::Language(code) => {
            f.language = code;
        },
        Change::Years(years) => {
            f.years = years;
        },
        Change::Rating(r) => {
            f.min_rating = r;
        },
        Change::SwitchKind(k) => {
            f.kind = k;
            f.genre_id = 0;
            proof {
                lemma_sorts(k, f.sort);
            }
            match (k, f.sort) {
                (Kind::Tv, Sort::BoxOffice) => {
                    f.sort = Sort::Popular;
                },
                _ => {},
            }
        },
        Change::Reset => {
            *f = Filters::new(f.kind);
        },
    }
}

proof fn lemma_sorts(k: Kind, s: Sort)
    ensures
        browse::sorts_for(k).contains(s) == !(k == Kind::Tv && s == Sort::BoxOffice),
{
    let l = browse::sorts_for(k);
    match s {
        Sort::Popular => {
            assert(l[0] == s);
        },
        Sort::TopRated => {
            assert(l[1] == s);
        },
        Sort::Newest => {
            assert(l[2] == s);
        },
        Sort::Oldest => {
            assert(l[3] == s);
        },
        Sort::BoxOffice => {
            if k == Kind::Movie {
                assert(l[4] == s);
            }
        },
    }
}

// --- what holds of every menu -------------------------------------------------------

/// Filters that a menu could have made: each value is one that is offered for
/// the kind.
pub open spec fn offered_for(f: Filters) -> bool {
    &&& browse::sorts_for(f.kind).contains(f.sort)
    &&& f.genre_id == 0 || browse::has_id(browse::genre_table(f.kind), f.genre_id)
    &&& f.min_rating == 0 || 5 <= f.min_rating <= 9
    &&& is_listed_language(f.language@)
    &&& are_years(f.years)
}

/// Any year, or a range that a filter can name.
pub open spec fn are_years(years: Option<(u32, u32)>) -> bool {
    match years {
        Some((from, to)) => browse::sane_year(from as nat) && browse::sane_year(to as nat) && from
            <= to,
        None => true,
    }
}

/// No language, or the code of one that is offered.
pub open spec fn is_listed_language(code: Seq<char>) -> bool {
    code.len() == 0 || browse::name_of_code(browse::language_table(), code) is Some
}

/// A change that the menu offers.
pub open spec fn is_offered(f: Filters, change: Change) -> bool {
    match change {
        Change::Sort(s) => browse::sorts_for(f.kind).contains(s),
        Change::Genre(id) => id == 0 || browse::has_id(browse::genre_table(f.kind), id),
        Change::Language(code) => is_listed_language(code@),
        Change::Years(years) => are_years(years),
        Change::Rating(r) => r == 0 || 5 <= r <= 9,
        _ => true,
    }
}

/// Whatever is chosen from the menu, the filters stay ones that make sense for
/// their kind.
pub proof fn menus_keep_filters_sensible(f: Filters, change: Change, g: Filters)
    requires
        offered_for(f),
        is_offered(f, change),
        is_changed(f, change, g),
    ensures
        offered_for(g),
{
    lemma_sorts(g.kind, g.sort);
    lemma_sorts(g.kind, Sort::Popular);
    lemma_sorts(f.kind, f.sort);
}

/// The years of a choice hold a year.
pub open spec fn is_in(choice: (Seq<char>, Option<(u32, u32)>), y: u32) -> bool {
    match choice.1 {
        Some((from, to)) => from <= y <= to,
        None => true,
    }
}

/// Every decade on offer is a range that a filter can name, and every year from
/// the first that one can name to this one lies in exactly one of them.
pub proof fn decades_cover_every_year(this_year: u32, y: u32)
    ensures
        forall|i: int|
            0 <= i < decade_offer(this_year).len() ==> are_years(
                (#[trigger] decade_offer(this_year)[i]).1,
            ),
        browse::EARLIEST_YEAR <= y <= this_year && y <= browse::LATEST_YEAR ==> exists|i: int|
            1 <= i < decade_offer(this_year).len() && is_in(
                #[trigger] decade_offer(this_year)[i],
                y,
            ),
        forall|i: int, j: int|
            1 <= i < decade_offer(this_year).len() && 1 <= j < decade_offer(this_year).len()
                && is_in(#[trigger] decade_offer(this_year)[i], y) && is_in(
                #[trigger] decade_offer(this_year)[j],
                y,
            ) ==> i == j,
{
    let n = decades(this_year);
    let offer = decade_offer(this_year);
    assert forall|i: int| 1 <= i < offer.len() implies (#[trigger] offer[i]).1 == Some(
        decade(n - i),
    ) by {}
    if browse::EARLIEST_YEAR <= y <= this_year && y <= browse::LATEST_YEAR {
        let k = (y - browse::EARLIEST_YEAR) / 10;
        assert(is_in(offer[n - k], y));
    }
}

/// A page always offers the filters first and a way out last; every title of
/// the page stands between them, in order.
pub proof fn pages_offer_everything(
    items: Seq<tmdb::Hit>,
    page: u32,
    total_pages: u32,
    summary: Seq<char>,
    i: int,
)
    requires
        0 <= i < items.len(),
    ensures
        ({
            let r = page_entries(items, page, total_pages, summary);
            &&& r[0] == Entry::Settings(summary)
            &&& r.last() == Entry::Quit
            &&& r[i + 1] == Entry::Title(items[i])
        }),
{
}

/// A choice changes what it is about and leaves every other filter as it was.
/// Switching between films and series also drops the genre, whose numbers mean
/// something else there, and falls back to the popular where there is no box
/// office; a reset keeps nothing but the kind.
pub proof fn a_choice_changes_one_thing(f: Filters, change: Change, g: Filters)
    requires
        is_changed(f, change, g),
    ensures
        change is Sort ==> g.sort == change->Sort_0,
        change is Genre ==> g.genre_id == change->Genre_0,
        change is Language ==> g.language@ == change->Language_0@,
        change is Years ==> g.years == change->Years_0,
        change is Rating ==> g.min_rating == change->Rating_0,
        change is SwitchKind ==> g.kind == change->SwitchKind_0 && g.genre_id == 0,
        change is SwitchKind && g.kind is Movie ==> g.sort == f.sort,
        change is SwitchKind && g.kind is Tv && f.sort is BoxOffice ==> g.sort is Popular,
        change is SwitchKind && g.kind is Tv && !(f.sort is BoxOffice) ==> g.sort == f.sort,
        change is Reset ==> g.sort is Popular && g.genre_id == 0 && g.language@.len() == 0
            && g.years is None && g.min_rating == 0 && g.cast_id == 0,
        !(change is SwitchKind) ==> g.kind == f.kind,
        !(change is Sort) && !(change is SwitchKind) && !(change is Reset) ==> g.sort == f.sort,
        !(change is Genre) && !(change is SwitchKind) && !(change is Reset) ==> g.genre_id
            == f.genre_id,
        !(change is Language) && !(change is Reset) ==> g.language@ == f.language@,
        !(change is Years) && !(change is Reset) ==> g.years == f.years,
        !(change is Rating) && !(change is Reset) ==> g.min_rating == f.min_rating,
        !(change is Reset) ==> g.cast_id == f.cast_id,
{
    if change is SwitchKind {
        let v = browse::sorts_for(g.kind);
        assert(v[0] == Sort::Popular && v[1] == Sort::TopRated && v[2] == Sort::Newest && v[3]
            == Sort::Oldest);
        if g.kind is Movie {
            assert(v[4] == Sort::BoxOffice);
        }
        match f.sort {
            Sort::Popular => { assert(v.contains(v[0])); },
            Sort::TopRated => { assert(v.contains(v[1])); },
            Sort::Newest => { assert(v.contains(v[2])); },
            Sort::Oldest => { assert(v.contains(v[3])); },
            Sort::BoxOffice => {
                if g.kind is Movie {
                    assert(v.contains(v[4]));
                }
            },
        }
    }
}

/// A page leads on where there is a next one, and back from every page but the
/// first, one page at a time; filters that change lead to the first page, and
/// filters that do not leave the page as it was.
pub proof fn pages_are_turned_one_by_one(
    items: Seq<tmdb::Hit>,
    page: u32,
    total_pages: u32,
    summary: Seq<char>,
    i: int,
)
    requires
        0 <= i < page_entries(items, page, total_pages, summary).len(),
    ensures
        ({
            let r = page_entries(items, page, total_pages, summary);
            &&& r.len() == items.len() + 2 + (if page < total_pages {
                1int
            } else {
                0
            }) + (if page > 1 {
                1int
            } else {
                0
            })
            &&& page < total_pages ==> r[items.len() as int + 1] is NextPage
            &&& page > 1 ==> r[r.len() - 2] is PrevPage
            &&& r[i] is NextPage ==> page < total_pages && page_next(r[i], page, false) == page + 1
            &&& r[i] is PrevPage ==> page > 1 && page_next(r[i], page, false) == page - 1
            &&& r[i] is Settings ==> page_next(r[i], page, true) == 1 && page_next(
                r[i],
                page,
                false,
            ) == page
            &&& r[i] is Title ==> page_next(r[i], page, false) == page
        }),
{
}

} // verus!
