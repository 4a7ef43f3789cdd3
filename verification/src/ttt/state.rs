//! The state of a game.

use vstd::prelude::*;

verus! {

/// How far a game has come.
#[derive(Clone, Copy, Debug, PartialEq, Eq)]
pub enum State {
    /// Moves can still be made.
    InProgress,
    /// One side has completed a line.
    Won,
    /// The board is full and no side has completed a line.
    Drawn,
}

} // verus!
