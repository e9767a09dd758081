//! The grid of guesses with their feedback, and what the feedback implies.

pub mod editor;
pub mod guesses;
pub mod known_word_constraints;
