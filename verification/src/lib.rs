//! An adversarial game-tree search engine for N x N generalized
//! tic-tac-toe (win condition: a full row, column, or diagonal of
//! length N).
//!
//! The engine computes the exact game-theoretic value of a position
//! by exhaustive minimax search (`minimax::max`, `minimax::min`) or,
//! equivalently, by alpha-beta pruned search with a transposition
//! cache (`search::search`). Both are proved to return the value of
//! the mathematical minimax recursion `minimax::minimax`, together
//! with a line of play that realizes that value.

pub mod board;
pub mod lines;
pub mod moves;
pub mod minimax;
pub mod cache;
pub mod search;
