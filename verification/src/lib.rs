//! A solver for a five-letter word-guessing game.
//!
//! A guess is answered by a pattern of five marks, one per letter. The
//! library computes such patterns, keeps a table of them for every pair of
//! guess and answer, stores that table in a compact binary form, narrows the
//! set of possible answers as marks come in, and picks the next guess.

pub mod dataset;
pub mod narrowing;
pub mod pool;
pub mod progress;
pub mod solvers;
pub mod wordle;
pub mod words;
