//! A time-bounded Monte Carlo Tree Search engine for chess.
//!
//! - [`ucb`]: the UCB1 score on integer statistics, with `floor_log2`.
//! - [`tree`]: the arena of statistics nodes shared through a transposition
//!   table, and selection, expansion and backpropagation over it.
//! - [`time`]: the wall-clock budget.
//! - [`chess`]: the rules engine (`shakmaty`), behind small wrappers.
//! - [`evaluate`]: static scores of positions and moves.
//! - [`mcts`]: the search session and its anytime loop.
//!
//! Values are counted in hundredths of a pawn; a checkmate counts one
//! hundred. Position hashes are trusted not to collide.

pub mod ucb;
pub mod tree;
pub mod time;
pub mod chess;
pub mod evaluate;
pub mod mcts;
