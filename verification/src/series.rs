//! Playing a series: which season, which episode, and what comes after it.
//!
//! Exactly one episode is kept queued ahead. Queueing earlier would start extra
//! torrents that compete for bandwidth with the one being watched; queueing
//! later would leave a gap at the episode boundary.

use crate::binary64::Binary;
use crate::history;
use crate::history::Entry;
use crate::list;
use crate::player;
use crate::player::{Event, QueueWhen};
use crate::text;
use crate::tmdb;
use crate::tmdb::{Episode, Season};
use vstd::prelude::*;

verus! {

// --- names ------------------------------------------------------------------------

/// A title, with its year where it has one.
pub open spec fn dated(title: Seq<char>, year: Seq<char>) -> Seq<char> {
    title + tmdb::bracketed(year)
}

/// What a film is called while it is looked up and played.
pub fn movie_label(title: &str, year: &str) -> (r: String)
    ensures
        r@ == dated(title@, year@),
{
    let mut out = text::chars_of(title);
    if !year.is_empty() {
        text::push_str(&mut out, " (");
        text::push_str(&mut out, year);
        text::push_str(&mut out, ")");
    }
    let r = text::string_of(out.as_slice());
    assert(r@ =~= dated(title@, year@));
    r
}

/// An episode as it is written.
pub open spec fn episode_text(e: tmdb::Installment) -> Seq<char> {
    tmdb::episode_code(e.season, e.number) + "  "@ + e.name
}

/// What an episode is called while it is looked up and played.
pub fn episode_label(show: &str, year: &str, episode: &Episode) -> (r: String)
    ensures
        r@ == dated(show@, year@) + " — "@ + episode_text(episode@),
{
    let mut out = text::chars_of(movie_label(show, year).as_str());
    text::push_str(&mut out, " — ");
    text::push_str(&mut out, episode.line().as_str());
    text::string_of(out.as_slice())
}

// --- choosing ---------------------------------------------------------------------

/// Which season to play.
#[derive(Clone, Copy, PartialEq, Eq, Debug, Structural)]
pub enum SeasonChoice {
    /// The one at this place.
    Take(usize),
    /// Whichever the user picks.
    Ask,
    /// The show does not have the one asked for.
    Missing(u32),
}

/// The place of a season in a list.
pub open spec fn place_of_season(seasons: Seq<tmdb::Run>, n: u32) -> Option<int>
    decreases seasons.len(),
{
    if seasons.len() == 0 {
        None
    } else if seasons[0].number == n {
        Some(0)
    } else {
        match place_of_season(seasons.skip(1), n) {
            Some(i) => Some(i + 1),
            None => None,
        }
    }
}

/// The season asked for; without one, the only season, or a question.
pub fn choose_season(seasons: &Vec<Season>, wanted: Option<u32>) -> (r: SeasonChoice)
    ensures
        match wanted {
            Some(n) => match place_of_season(list::views(seasons@), n) {
                Some(i) => r == SeasonChoice::Take(i as usize) && i < seasons@.len(),
                None => r == SeasonChoice::Missing(n),
            },
            None => r == (if seasons@.len() == 1 {
                SeasonChoice::Take(0)
            } else {
                SeasonChoice::Ask
            }),
        },
{
    let len = seasons.len();
    let n: u32 = match wanted {
        Some(n) => n,
        None => {
            return if len == 1 {
                SeasonChoice::Take(0)
            } else {
                SeasonChoice::Ask
            };
        },
    };
    let ghost all = list::views(seasons@);
    let mut i: usize = 0;
    assert(all.skip(0) =~= all);
    while i < len
        invariant
            i <= len == seasons@.len(),
            wanted == Some(n),
            all == list::views(seasons@),
            place_of_season(all, n) == (match place_of_season(all.skip(i as int), n) {
                Some(k) => Some(k + i),
                None => None,
            }),
        decreases len - i,
    {
        assert(all.skip(i as int)[0] == seasons@[i as int]@);
        assert(all.skip(i as int).skip(1) =~= all.skip(i + 1));
        if seasons[i].number == n {
            return SeasonChoice::Take(i);
        }
        i += 1;
    }
    SeasonChoice::Missing(n)
}

/// The place of an episode in a list.
pub open spec fn place_of_episode(episodes: Seq<tmdb::Installment>, n: u32) -> Option<int>
    decreases episodes.len(),
{
    if episodes.len() == 0 {
        None
    } else if episodes[0].number == n {
        Some(0)
    } else {
        match place_of_episode(episodes.skip(1), n) {
            Some(i) => Some(i + 1),
            None => None,
        }
    }
}

/// The place of the episode with a number, if there is one.
pub fn find_episode(episodes: &Vec<Episode>, n: u32) -> (r: Option<usize>)
    ensures
        match r {
            Some(i) => place_of_episode(list::views(episodes@), n) == Some(i as int) && i
                < episodes@.len(),
            None => place_of_episode(list::views(episodes@), n) is None,
        },
{
    let len = episodes.len();
    let ghost all = list::views(episodes@);
    let mut i: usize = 0;
    assert(all.skip(0) =~= all);
    while i < len
        invariant
            i <= len == episodes@.len(),
            all == list::views(episodes@),
            place_of_episode(all, n) == (match place_of_episode(all.skip(i as int), n) {
                Some(k) => Some(k + i),
                None => None,
            }),
        decreases len - i,
    {
        assert(all.skip(i as int)[0] == episodes@[i as int]@);
        assert(all.skip(i as int).skip(1) =~= all.skip(i + 1));
        if episodes[i].number == n {
            return Some(i);
        }
        i += 1;
    }
    None
}

/// The episode after one, if there is one in the season: its number and name.
pub open spec fn follower(episodes: Seq<tmdb::Installment>, n: u32) -> Option<(u32, Seq<char>)> {
    match place_of_episode(episodes, n) {
        Some(i) => if i + 1 < episodes.len() {
            Some((episodes[i + 1].number, episodes[i + 1].name))
        } else {
            None
        },
        None => None,
    }
}

/// What finishing an episode advances to.
pub fn following(episodes: &Vec<Episode>, n: u32) -> (r: Option<(u32, String)>)
    ensures
        match r {
            Some((number, name)) => follower(list::views(episodes@), n) == Some((number, name@)),
            None => follower(list::views(episodes@), n) is None,
        },
{
    let len = episodes.len();
    match find_episode(episodes, n) {
        Some(i) => if i < len - 1 {
            let next = &episodes[i + 1];
            assert(list::views(episodes@)[i + 1] == next@);
            Some((next.number, next.name.clone()))
        } else {
            None
        },
        None => None,
    }
}

/// Why a series cannot be played from where it was asked to be.
#[derive(Clone, Copy, PartialEq, Eq, Debug, Structural)]
pub enum SeriesError {
    NoSeason { season: u32 },
    NoEpisodes { season: u32 },
    NoEpisode { season: u32, episode: u32 },
}

impl SeriesError {
    pub fn message(self, show: &str) -> (r: String)
        ensures
            r@ == match self {
                SeriesError::NoSeason { season } => show@ + " has no season "@ + text::decimal(
                    season as nat,
                ),
                SeriesError::NoEpisodes { season } => "TMDB lists no episodes for season "@
                    + text::decimal(season as nat),
                SeriesError::NoEpisode { season, episode } => "season "@ + text::decimal(
                    season as nat,
                ) + " has no episode "@ + text::decimal(episode as nat),
            },
    {
        let mut out: Vec<char> = Vec::new();
        match self {
            SeriesError::NoSeason { season } => {
                text::push_str(&mut out, show);
                text::push_str(&mut out, " has no season ");
                text::push_decimal(&mut out, season as u64);
            },
            SeriesError::NoEpisodes { season } => {
                text::push_str(&mut out, "TMDB lists no episodes for season ");
                text::push_decimal(&mut out, season as u64);
            },
            SeriesError::NoEpisode { season, episode } => {
                text::push_str(&mut out, "season ");
                text::push_decimal(&mut out, season as u64);
                text::push_str(&mut out, " has no episode ");
                text::push_decimal(&mut out, episode as u64);
            },
        }
        let r = text::string_of(out.as_slice());
        assert(r@ =~= match self {
            SeriesError::NoSeason { season } => show@ + " has no season "@ + text::decimal(
                season as nat,
            ),
            SeriesError::NoEpisodes { season } => "TMDB lists no episodes for season "@
                + text::decimal(season as nat),
            SeriesError::NoEpisode { season, episode } => "season "@ + text::decimal(
                season as nat,
            ) + " has no episode "@ + text::decimal(episode as nat),
        });
        r
    }
}

/// Where to start in a season: at the episode asked for, or wherever the user
/// says, which is `None`.
pub fn choose_episode(
    episodes: &Vec<Episode>,
    season: u32,
    wanted: Option<u32>,
) -> (r: Result<Option<usize>, SeriesError>)
    ensures
        match r {
            Ok(Some(i)) => wanted is Some && place_of_episode(
                list::views(episodes@),
                wanted->0,
            ) == Some(i as int) && i < episodes@.len(),
            Ok(None) => wanted is None && episodes@.len() > 0,
            Err(e) => if episodes@.len() == 0 {
                e == (SeriesError::NoEpisodes { season })
            } else {
                wanted is Some && place_of_episode(list::views(episodes@), wanted->0) is None && e
                    == (SeriesError::NoEpisode { season, episode: wanted->0 })
            },
        },
{
    assert(list::views(episodes@).len() == episodes@.len());
    if episodes.len() == 0 {
        return Err(SeriesError::NoEpisodes { season });
    }
    match wanted {
        Some(n) => match find_episode(episodes, n) {
            Some(i) => Ok(Some(i)),
            None => Err(SeriesError::NoEpisode { season, episode: n }),
        },
        None => Ok(None),
    }
}

// --- where a watched show goes on ---------------------------------------------------

/// The season and the episode that a run is after: those it asks for, and where
/// it asks for none, the ones it stopped in. The episode it stopped in counts
/// only within its own season.
pub open spec fn sought(
    season: Option<u32>,
    episode: Option<u32>,
    stopped: Option<Entry>,
) -> (Option<u32>, Option<u32>) {
    match stopped {
        Some(e) => {
            let taken = if season is Some {
                season
            } else {
                e.season
            };
            (
                taken,
                if episode is Some {
                    episode
                } else if taken == e.season {
                    e.episode
                } else {
                    None
                },
            )
        },
        None => (season, episode),
    }
}

pub fn seek(season: Option<u32>, episode: Option<u32>, stopped: &Option<Entry>) -> (r: (
    Option<u32>,
    Option<u32>,
))
    ensures
        r == sought(season, episode, *stopped),
{
    match stopped {
        Some(e) => {
            let taken = match season {
                Some(n) => Some(n),
                None => e.season,
            };
            let same = match (taken, e.season) {
                (Some(a), Some(b)) => a == b,
                (None, None) => true,
                _ => false,
            };
            let wanted = match episode {
                Some(n) => Some(n),
                None => if same {
                    e.episode
                } else {
                    None
                },
            };
            (taken, wanted)
        },
        None => (season, episode),
    }
}

/// The episode is the one that an entry stopped in.
pub open spec fn stopped_in(e: Entry, episode: tmdb::Installment) -> bool {
    e.season == Some(episode.season) && e.episode == Some(episode.number)
}

/// Where playback of an episode starts: where it stopped, if that is the one.
pub fn start_position(stopped: &Option<Entry>, episode: &Episode) -> (r: Option<u64>)
    requires
        stopped is Some && (stopped->0).duration > 0 ==> (stopped->0).position
            + history::RESUME_TAIL_SECS <= u64::MAX,
    ensures
        r == match *stopped {
            Some(e) => if stopped_in(e, episode@) {
                history::resume_at(e.position, e.duration)
            } else {
                None
            },
            None => None,
        },
{
    match stopped {
        Some(e) => match (e.season, e.episode) {
            (Some(s), Some(n)) => {
                if s == episode.season && n == episode.number {
                    e.resume_position()
                } else {
                    None
                }
            },
            _ => None,
        },
        None => None,
    }
}

/// A run that asks for nothing goes on in the episode it stopped in, at the place
/// it stopped at; one that asks for an episode gets that one.
pub proof fn asking_outranks_memory(
    season: Option<u32>,
    episode: Option<u32>,
    stopped: Option<Entry>,
)
    ensures
        stopped is Some ==> sought(None, None, stopped) == (
            (stopped->0).season,
            (stopped->0).episode,
        ),
        season is Some ==> sought(season, episode, stopped).0 == season,
        episode is Some ==> sought(season, episode, stopped).1 == episode,
        sought(season, episode, None) == (season, episode),
{
}

// --- the queue --------------------------------------------------------------------

/// What a queue is doing.
#[derive(Clone, Copy, PartialEq, Eq, Debug, Structural)]
pub enum Stage {
    /// Looking for a release of the next episode.
    Preparing,
    /// Waiting for the player to get there.
    Waiting,
    /// Playback is over.
    Done,
}

/// The episodes still to come.
#[derive(Debug)]
pub struct Queue {
    /// In order of playing.
    pub upcoming: Vec<Episode>,
    pub stage: Stage,
    /// What was handed to the player last is on screen. Between two files
    /// nothing is, and there is nothing to be measured.
    pub on_screen: bool,
}

/// What a queue says.
#[verifier::ext_equal]
pub struct Line {
    pub upcoming: Seq<tmdb::Installment>,
    pub stage: Stage,
    pub on_screen: bool,
}

impl View for Queue {
    type V = Line;

    open spec fn view(&self) -> Line {
        Line {
            upcoming: list::views(self.upcoming@),
            stage: self.stage,
            on_screen: self.on_screen,
        }
    }
}

/// The episode to find a release of, if any.
pub open spec fn wanted_next(q: Line) -> Option<tmdb::Installment> {
    if q.stage == Stage::Preparing && q.upcoming.len() > 0 {
        Some(q.upcoming[0])
    } else {
        None
    }
}

/// The queue once its next episode was handed to the player.
pub open spec fn ahead(q: Line) -> Line {
    Line { upcoming: q.upcoming.skip(1), stage: Stage::Waiting, on_screen: false }
}

/// The queue once the player reports something; `None` is that it is gone.
pub open spec fn when_heard(q: Line, event: Option<Event>) -> Line {
    let goes_on = match event {
        None => false,
        Some(Event::Idle) => false,
        // Advanced to the queued episode: time to prepare the next one.
        Some(Event::StartFile) => true,
        Some(Event::EndFile { reason }) => reason@ != "quit"@ && q.upcoming.len() > 0,
    };
    Line {
        stage: if goes_on {
            Stage::Preparing
        } else {
            Stage::Done
        },
        on_screen: q.on_screen || event == Some(Event::StartFile),
        ..q
    }
}

impl Queue {
    /// Everything from the chosen episode onward, so playback keeps going: the
    /// first to play, and those after it.
    pub fn start(episodes: Vec<Episode>, start_at: usize) -> (r: (Episode, Queue))
        requires
            start_at < episodes@.len(),
        ensures
            r.0 == episodes@[start_at as int],
            r.1@ == (Line {
                upcoming: list::views(episodes@).skip(start_at + 1),
                stage: Stage::Preparing,
                on_screen: true,
            }),
    {
        let mut all = episodes;
        let len = all.len();
        assert(start_at < len);
        let upcoming = all.split_off(start_at + 1);
        let first = all.swap_remove(start_at);
        let q = Queue { upcoming, stage: Stage::Preparing, on_screen: true };
        assert(list::views(q.upcoming@) =~= list::views(episodes@).skip(start_at + 1));
        (first, q)
    }

    /// The episode to find a release of, if any. Where there is none, the
    /// player is to be waited for.
    pub fn wanted(&self) -> (r: Option<&Episode>)
        ensures
            match r {
                Some(e) => wanted_next(self@) == Some(e@),
                None => wanted_next(self@) is None,
            },
    {
        match self.stage {
            Stage::Preparing => if self.upcoming.len() > 0 {
                Some(&self.upcoming[0])
            } else {
                None
            },
            _ => None,
        }
    }

    /// Whether to look for the next episode now, when playback is `played`
    /// through what is on screen and its file is, or is not, on disk in full.
    pub fn is_due(&self, when: QueueWhen, played: Option<Binary>, on_disk: bool) -> (r: bool)
        requires
            played is Some ==> played->0.small(),
        ensures
            r == player::time_has_come(
                when,
                match played {
                    Some(f) => if self@.on_screen {
                        Some(f@)
                    } else {
                        None
                    },
                    None => None,
                },
                self@.on_screen && on_disk,
            ),
    {
        if self.on_screen {
            when.is_due(played, on_disk)
        } else {
            when.is_due(None, false)
        }
    }

    fn drop_front(&mut self)
        requires
            old(self).upcoming@.len() > 0,
        ensures
            list::views(final(self).upcoming@) == list::views(old(self).upcoming@).skip(1),
            final(self).stage == old(self).stage,
            final(self).on_screen == old(self).on_screen,
    {
        let ghost before = self.upcoming@;
        let _ = self.upcoming.remove(0);
        assert(list::views(self.upcoming@) =~= list::views(before).skip(1));
    }

    /// The next episode was handed to the player.
    pub fn queued(&mut self)
        requires
            wanted_next(old(self)@) is Some,
        ensures
            final(self)@ == ahead(old(self)@),
    {
        self.drop_front();
        self.stage = Stage::Waiting;
        self.on_screen = false;
        assert(self@ =~= ahead(old(self)@));
    }

    /// No release of the next episode can be played; the one after it is next.
    pub fn skipped(&mut self)
        requires
            wanted_next(old(self)@) is Some,
        ensures
            final(self)@ == (Line {
                upcoming: old(self)@.upcoming.skip(1),
                ..old(self)@
            }),
    {
        self.drop_front();
        assert(self@ =~= (Line { upcoming: old(self)@.upcoming.skip(1), ..old(self)@ }));
    }

    /// The player is gone.
    pub fn exited(&mut self)
        ensures
            final(self)@ == (Line { stage: Stage::Done, ..old(self)@ }),
    {
        self.stage = Stage::Done;
        assert(self@ =~= (Line { stage: Stage::Done, ..old(self)@ }));
    }

    /// The player reports something.
    pub fn heard(&mut self, event: &Option<Event>)
        ensures
            final(self)@ == when_heard(old(self)@, *event),
    {
        let more = self.upcoming.len() > 0;
        let goes_on: bool = match event {
            None => false,
            Some(Event::Idle) => false,
            Some(Event::StartFile) => true,
            Some(Event::EndFile { reason }) => !text::same_str(reason.as_str(), "quit") && more,
        };
        self.stage = if goes_on {
            Stage::Preparing
        } else {
            Stage::Done
        };
        if let Some(Event::StartFile) = event {
            self.on_screen = true;
        }
        assert(self@ =~= when_heard(old(self)@, *event));
    }

    pub fn is_done(&self) -> (r: bool)
        ensures
            r == (self@.stage == Stage::Done),
    {
        match self.stage {
            Stage::Done => true,
            _ => false,
        }
    }
}

/// One episode is kept ahead: once one is queued, no other is looked for until
/// the player reports that it has moved on, and never after it has quit. Until
/// the queued one starts, nothing is on screen.
pub proof fn one_episode_ahead(q: Line, event: Option<Event>)
    requires
        wanted_next(q) is Some,
    ensures
        ({
            let next = when_heard(ahead(q), event);
            &&& wanted_next(ahead(q)) is None
            &&& wanted_next(next) is Some ==> event is Some && !(event->0 is Idle)
            &&& wanted_next(next) is Some ==> wanted_next(next) == Some(q.upcoming[1])
            &&& next.on_screen <==> event == Some(Event::StartFile)
        }),
{
}

/// A season asked for is the first of its number; where there is none of it, none
/// is.
pub proof fn seasons_are_found_by_number(seasons: Seq<tmdb::Run>, n: u32)
    ensures
        match place_of_season(seasons, n) {
            Some(i) => 0 <= i < seasons.len() && seasons[i].number == n && forall|j: int|
                0 <= j < i ==> (#[trigger] seasons[j]).number != n,
            None => forall|i: int| 0 <= i < seasons.len() ==> (#[trigger] seasons[i]).number != n,
        },
    decreases seasons.len(),
{
    if seasons.len() > 0 && seasons[0].number != n {
        let t = seasons.skip(1);
        seasons_are_found_by_number(t, n);
        assert forall|j: int| 1 <= j < seasons.len() implies #[trigger] seasons[j] == t[j - 1] by {}
    }
}

/// An episode asked for is the first of its number; where there is none of it,
/// none is. What follows it is the one behind it in the season.
pub proof fn episodes_are_found_by_number(episodes: Seq<tmdb::Installment>, n: u32)
    ensures
        match place_of_episode(episodes, n) {
            Some(i) => 0 <= i < episodes.len() && episodes[i].number == n && (forall|j: int|
                0 <= j < i ==> (#[trigger] episodes[j]).number != n) && (i + 1 < episodes.len()
                ==> follower(episodes, n) == Some(
                (episodes[i + 1].number, episodes[i + 1].name),
            )) && (i + 1 == episodes.len() ==> follower(episodes, n) is None),
            None => (forall|i: int|
                0 <= i < episodes.len() ==> (#[trigger] episodes[i]).number != n) && follower(
                episodes,
                n,
            ) is None,
        },
    decreases episodes.len(),
{
    if episodes.len() > 0 && episodes[0].number != n {
        let t = episodes.skip(1);
        episodes_are_found_by_number(t, n);
        assert forall|j: int| 1 <= j < episodes.len() implies #[trigger] episodes[j] == t[j - 1] by {}
    }
}

/// The player reports a file that starts, and the queue prepares the next; it
/// reports an end, and the queue goes on while there is something to come, unless
/// the user quit; once it idles or is gone, the queue is done. None of it changes
/// what is to come.
pub proof fn the_queue_follows_the_player(q: Line, event: Option<Event>)
    ensures
        ({
            let next = when_heard(q, event);
            &&& next.upcoming == q.upcoming
            &&& match event {
                None => next.stage == Stage::Done && next.on_screen == q.on_screen,
                Some(Event::Idle) => next.stage == Stage::Done && next.on_screen == q.on_screen,
                Some(Event::StartFile) => next.stage == Stage::Preparing && next.on_screen,
                Some(Event::EndFile { reason }) => next.on_screen == q.on_screen && (next.stage
                    == Stage::Preparing <==> q.upcoming.len() > 0 && reason@ != "quit"@) && (
                next.stage == Stage::Preparing || next.stage == Stage::Done),
            }
        }),
        wanted_next(q) is Some <==> q.stage == Stage::Preparing && q.upcoming.len() > 0,
        wanted_next(q) is Some ==> wanted_next(q)->0 == q.upcoming[0],
        ahead(q).upcoming == q.upcoming.skip(1) && ahead(q).stage == Stage::Waiting && !ahead(
            q,
        ).on_screen,
{
}

/// Another season than the one that was stopped in starts at its beginning; the
/// same one goes on at its episode.
pub proof fn another_season_starts_over(season: u32, stopped: Entry)
    ensures
        stopped.season != Some(season) ==> sought(Some(season), None, Some(stopped)) == (
            Some(season),
            None::<u32>,
        ),
        stopped.season == Some(season) ==> sought(Some(season), None, Some(stopped)) == (
            Some(season),
            stopped.episode,
        ),
{
}

/// A place is kept for the episode that was stopped in, and for no other: not for
/// the same number of another season, nor for another number of the same.
pub proof fn places_are_kept_for_their_episode(e: Entry, episode: tmdb::Installment)
    ensures
        stopped_in(e, episode) ==> e.season is Some && e.season->0 == episode.season
            && e.episode is Some && e.episode->0 == episode.number,
        e.season is Some && e.season->0 == episode.season && e.episode is Some && e.episode->0
            == episode.number ==> stopped_in(e, episode),
{
}

} // verus!
