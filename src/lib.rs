//! Descriptive statistics of a text: character, line and word counts, and a
//! deterministic ranking of word frequencies.
pub mod analysis;
pub mod chars;
pub mod order;
pub mod tally;
