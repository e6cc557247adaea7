//! A two-player disc-flipping board game engine (Othello/Reversi style).
//!
//! The board is a pair of 8-row bitmasks, one per player; moves are validated
//! by line-capture scanning, and the automated player picks its move with a
//! depth-limited negamax search with alpha-beta pruning. Every operation is
//! specified against a mathematical grid model (`Seq<Seq<Option<Player>>>`)
//! and verified: capture semantics, conservation of discs, and the equivalence
//! of pruned and unpruned search.

pub mod board;
pub mod notation;
pub mod player;
pub mod render;
pub mod search;
