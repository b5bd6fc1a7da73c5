//! A verified lexical scanner for Portable Game Notation (PGN), the standard
//! textual format for recording chess games.
//!
//! The crate has two layers:
//! - [`scan`] holds the mathematical model of the scanner: pure functions on
//!   byte sequences that say which token starts at a given position and where
//!   the following token begins, together with the laws that hold of them.
//! - [`lexer`] holds the executable scanner, whose contracts tie every call
//!   of [`lexer::Lexer::next_token`] to the model.

pub mod lexer;
pub mod scan;
