//! A card-pairing game: a deck of ranked cards is shuffled under per-rank
//! limits, players draw in turn and pair equal ranks for points, and the
//! first player to reach the winning score takes the game.

pub mod card;
pub mod player;
pub mod game;
