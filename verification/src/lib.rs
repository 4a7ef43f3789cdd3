//! Lazy evaluation of feedforward neural networks: neurons cache their
//! activation and recompute it on demand, after it has been invalidated.
//! Beside it, the pieces of a tic-tac-toe game.

pub mod nn;
pub mod ttt;
