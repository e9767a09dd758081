//! Helper for a five-letter-style word guessing game: it keeps the set of
//! dictionary words that agree with the feedback seen so far and scores the
//! words that remain.

pub mod analyze;
pub mod bits;
pub mod guess;
pub mod palette;
pub mod scroll;
pub mod word_list;
pub mod combine;
pub mod corpus;
