//! Expected-guess-count solver for a five-letter word-guessing game with
//! green / yellow / grey feedback.
//!
//! Words are encoded with per-letter position masks (`word`); what a guess
//! reveals is interned as patterns (`patterns`) or stored as a dense cube
//! (`cube`); the solver computes exact expected costs with memoization
//! (`solver`), counted in millionths of a guess with averages rounded
//! down; the narrowing driver shortlists first guesses for large
//! vocabularies (`narrowing`).
pub mod bits;
pub mod word;
pub mod patterns;
pub mod random;
pub mod solver;
pub mod narrowing;
pub mod cube;
