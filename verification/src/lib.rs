//! Solver engine for a code-breaking game: a secret sequence of symbols is
//! guessed round by round, and each guess is answered with a feedback pair
//! counting positional matches and presence-only matches.
//!
//! `feedback` holds the feedback value and the space of feedback values that
//! a given sequence length admits; `secret` holds the reference sequence and
//! the scoring routine; `solver` holds the candidate-set state machine and
//! the minimax selection of the next guess; `parse` turns user-entered text
//! into a recorded guess.

pub mod feedback;
pub mod parse;
pub mod secret;
pub mod solver;
