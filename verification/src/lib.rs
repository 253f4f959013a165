//! A constraint-based solver for a fixed-length word-guessing puzzle.
//!
//! A [`Wordle`] holds a dictionary of words of `N` lowercase letters together
//! with two families of precomputed membership sets. A solve run keeps a set of
//! candidate indices, repeatedly guesses one candidate, scores the guess
//! against the goal and narrows the candidates by the score, until one word is
//! left or none.

pub mod bitmap;
pub mod dictionary;
pub mod feedback;
pub mod game;
pub mod letters;
pub mod narrowing;
mod random;
pub mod run;

pub use feedback::{Feedback, Letter};
pub use game::{guess, Wordle, WORD_LENGTH};
