//! A word-game solving aid.
//!
//! Given a compact encoding of previous guesses and their feedback, the
//! library decodes that history into a constraint set, tests candidate
//! words against it, groups the surviving candidates by anagram class,
//! ranks the classes by size, and proposes a next guess built on a
//! single-split, entropy-style analysis of letter-presence features.

pub mod anagram;
pub mod letters;
pub mod predict;
pub mod rank;
pub mod state;
