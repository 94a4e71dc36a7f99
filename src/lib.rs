//! Scoring and game engine for a five-letter word-guessing game.

pub mod algorithms;
pub mod correctness;
pub mod game;
pub mod text;

pub use correctness::Correctness;
pub use game::{Guess, Guesser, PlayError, Turn, Wordle};
