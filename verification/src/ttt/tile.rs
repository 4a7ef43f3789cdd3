//! One tile of the board.

use vstd::prelude::*;

verus! {

/// What a tile of the board holds.
#[derive(Clone, Copy, Debug, PartialEq, Eq)]
pub enum Tile {
    Empty,
    Cross,
    Naught,
}

impl Tile {
    /// The character that shows the tile.
    pub open spec fn symbol(self) -> char {
        match self {
            Tile::Cross => 'X',
            Tile::Naught => 'O',
            Tile::Empty => ' ',
        }
    }

    /// Returns the text that shows the tile: its symbol, alone.
    pub fn to_string(&self) -> (text: String)
        ensures
            text@ == seq![self.symbol()],
    {
        proof {
            reveal_strlit("X");
            reveal_strlit("O");
            reveal_strlit(" ");
        }
        let text = match self {
            Tile::Cross => "X".to_owned(),
            Tile::Naught => "O".to_owned(),
            Tile::Empty => " ".to_owned(),
        };
        assert(text@ =~= seq![self.symbol()]);
        text
    }
}

} // verus!
