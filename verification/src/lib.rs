//! Game-tree search for two-player, zero-sum games of perfect information.
//!
//! The search is a negamax with alpha-beta pruning and a transposition cache;
//! a symmetry engine collapses board positions that mirror each other, so that
//! only one move of each class has to be searched.

pub mod common;
pub mod iter_util;
pub mod min_max;
pub mod stoplight;
pub mod symmetry;
pub mod ttt;
pub mod ultimate_ttt;
