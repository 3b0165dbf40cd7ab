//! A solver for the Spelling Bee word puzzle.
//!
//! A puzzle is a center letter and a ring of six more. A word answers it when
//! it holds the center letter and no letter beyond those seven. A word earns
//! its length in points, a word of four earns one, and a pangram, a word
//! spelled with seven distinct letters, earns seven more.
//!
//! [`Game::plays`] answers a puzzle over a [`Dictionary`]; [`get_plays`] does
//! the same from the two strings that a user typed.

pub mod dictionary;
pub mod game;
pub mod letters;
pub mod play;
pub mod ranking;
pub mod solver;

pub use crate::dictionary::{get_dict, Dictionary, DictionaryError};
pub use crate::game::{validate_ring, Game, GameError};
pub use crate::play::{is_pangram, score, Play};
pub use crate::ranking::{group_by_score, rank, ScoreGroup};
pub use crate::solver::get_plays;
