//! A solver for single-player capture-chain chess puzzles.
//!
//! The player controls one piece at a time; every move must capture an
//! opposing piece, after which the player controls the piece that was just
//! captured (a solitaire "recapture" variant).  The library models the board
//! as a 64-bit square set, generates moves with bit-level set algebra, and
//! finds a minimal capture sequence with a breadth-first search over compact
//! progress states.

pub mod board;
pub mod engine;
pub mod pieces;
pub mod puzzle;
pub mod solver;
pub mod state;
