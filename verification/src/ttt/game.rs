//! A game: a board and how far play on it has come.

use vstd::prelude::*;
use crate::ttt::board::Board;
use crate::ttt::state::State;

verus! {

/// A game of tic-tac-toe.
pub struct Game {
    pub board: Board,
    pub state: State,
}

impl Game {
    /// Returns the game set back to its start: a clear board, in progress.
    pub fn initialize(self) -> (game: Game)
        ensures
            game.board.is_clear(),
            game.state == State::InProgress,
    {
        let mut game = self;
        game.board = Board::default();
        game.state = State::InProgress;
        game
    }
}

} // verus!
