//! The board.

use vstd::prelude::*;
use crate::ttt::tile::Tile;

verus! {

/// The nine tiles of the board, row by row.
#[derive(Clone, Copy, Debug, PartialEq, Eq)]
pub struct Board {
    pub tiles: [Tile; 9],
}

impl Board {
    /// No tile of the board is taken.
    pub open spec fn is_clear(self) -> bool {
        forall|i: int| 0 <= i < 9 ==> self.tiles[i] == Tile::Empty
    }
}

impl Default for Board {
    /// The board on which no tile is taken.
    fn default() -> (board: Self)
        ensures
            board.is_clear(),
    {
        Board {
            tiles: [
                Tile::Empty,
                Tile::Empty,
                Tile::Empty,
                Tile::Empty,
                Tile::Empty,
                Tile::Empty,
                Tile::Empty,
                Tile::Empty,
                Tile::Empty,
            ],
        }
    }
}

} // verus!
