//! Rules and game-tree search for the mill game on three concentric rings:
//! a packed board state, move generation with mill captures, a weighted
//! static evaluation, and minimax and alpha-beta searches with
//! transposition tables, all checked against their contracts by Verus.

pub mod alpha_beta_pruning;
pub mod cell;
pub mod coordinate;
pub mod game;
pub mod heuristic;
pub mod mill;
pub mod minimax;
pub mod phase;
pub mod player;
pub mod search;
pub mod state;
