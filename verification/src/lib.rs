//! A solver for five-letter word-guessing games: a pool of candidate words is
//! narrowed by per-position feedback, and the next guess is ranked from what
//! is left.

pub mod dictionary;
pub mod feedback;
pub mod laws;
pub mod rank;
pub mod session;
pub mod text;
pub mod word;
pub mod wordlist;
