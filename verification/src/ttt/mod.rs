//! Tic-tac-toe: the tiles, the board and the state of a game.

pub mod board;
pub mod game;
pub mod state;
pub mod tile;
