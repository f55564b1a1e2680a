//! Core of an interactive solver for a five-letter word-guessing game with
//! per-letter feedback. The library keeps the accumulated feedback as a
//! constraint over letters and positions, filters candidate words against it,
//! and recommends the guess that minimizes the worst-case number of candidates
//! remaining after the next round.

pub mod outcome;
pub mod pattern;
pub mod search;
pub mod word;
