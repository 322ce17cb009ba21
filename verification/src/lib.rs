//! A solver core for Wordle-style word-guessing games.
//!
//! The library has three tightly coupled pieces: a constraint model
//! ([`Knowledge`]) that accumulates per-position and per-letter facts from
//! feedback, a duplicate-letter-aware feedback evaluator ([`check_guess`]),
//! and a candidate ranker ([`best_candidates`]) that orders the remaining
//! words by how much information a guess would reveal.  A self-play driver
//! ([`guess_word`]) exercises all three against a known secret.

pub mod tile;
pub mod knowledge;
pub mod rank;
pub mod parse;
pub mod solver;
pub mod laws;

pub use tile::{Info, check_guess};
pub use knowledge::{Knowledge, Restriction, Contradiction};
pub use rank::best_candidates;
pub use parse::{parse_input, ParseError};
pub use solver::{guess_word, check_all_words, worst_case};
