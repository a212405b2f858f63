//! Champion forecasts over a list of chess players.
//!
//! A player is rated by Elo and age. [`get_pronostics`] folds a list of
//! players, in order, into the current champion and the players recorded as
//! tied with that champion.

pub mod helpers;
pub mod laws;
pub mod player;
pub mod ranking;
pub mod unique;

pub use player::{ChessPlayer, PlayerView};
pub use ranking::{get_pronostics, Pronostics, PronosticsView};
