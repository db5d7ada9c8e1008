//! Deck-similarity annotation library.
//!
//! Builds implicit card-similarity signals from deck records (sideboard
//! co-occurrence and temporal trends), fuses several ranked similarity
//! sources into one attributed candidate list per query card, manages
//! graded-relevance test sets, and statistically evaluates rankings with
//! bootstrap confidence intervals.
//!
//! Scores are kept as exact rationals ([`frac::Frac`]) and evaluation
//! metrics as fixed-point integers in millionths, so every computation
//! here is deterministic and verified end to end.

pub mod batch;
pub mod candidate;
pub mod cooccur;
pub mod dates;
pub mod deck;
pub mod eval;
pub mod frac;
pub mod fusion;
pub mod gnn;
pub mod order;
pub mod query;
pub mod rng;
pub mod sideboard;
pub mod similarity;
pub mod strings;
pub mod table;
pub mod test_set;
pub mod temporal;
