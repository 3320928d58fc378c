//! dekho: search a movie or series and stream it straight into mpv.
//!
//! The design goal that shapes everything is *no buffering*. See `pick` for how
//! a release is chosen, `engine` for the measurement that vetoes one the swarm
//! cannot sustain, `session` for the walk through the candidates, and `player`
//! for mpv's own cushion on top.

pub mod api;
pub mod apibay;
pub mod apicache;
pub mod audio;
pub mod binary64;
pub mod browse;
pub mod cache;
pub mod calendar;
pub mod config;
pub mod decimal;
pub mod engine;
pub mod float;
pub mod history;
pub mod json;
pub mod link;
pub mod list;
pub mod menu;
pub mod pick;
pub mod player;
pub mod prefetch;
pub mod replay;
pub mod series;
pub mod session;
pub mod sources;
pub mod text;
pub mod tmdb;
pub mod torrentio;
pub mod values;
pub mod xdg;

use vstd::prelude::*;

verus! {

} // verus!
