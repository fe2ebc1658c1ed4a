//! Engines for three small browser-playable grid games — tic-tac-toe,
//! connect-four and battleship — built to survive a stateless
//! request/response cycle: a board is a plain value, every move is
//! validated against it, terminal states are detected exactly, the
//! engine's reply move is drawn from the legal ones, and the two
//! turn-based boards round-trip through a compact transport string.

pub mod battleship;
pub mod connect;
pub mod grid;
mod rng;
pub mod ttt;

use vstd::prelude::*;

verus! {

/// Outcome of one game from the human player's point of view.
#[derive(Clone, Copy, PartialEq, Eq, Structural, Debug)]
pub enum GameStatus {
    InProgress,
    Win,
    Loss,
    Draw,
}

/// Why a transport string could not be turned back into game state.
#[derive(Clone, Copy, PartialEq, Eq, Structural, Debug)]
pub enum DecodeError {
    /// The string does not follow the game's encoding grammar.
    Malformed,
    /// The string parses, but an index in it lies outside the board.
    OutOfRange,
}

/// A move that the rules reject: an occupied cell, a full column, or a
/// coordinate outside the board. The board is left untouched.
#[derive(Clone, Copy, PartialEq, Eq, Structural, Debug)]
pub struct IllegalMoveError;

} // verus!
