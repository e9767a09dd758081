//! Scoring of the words that are still possible.

pub mod analyzer;
pub mod auto_guesser;
pub mod char_stats;
pub mod pattern;
pub mod position_chars;
pub mod scored_chars;
pub mod simple_analyzers;
pub mod suite;
pub mod util;
