//! A large-scale simulation of the probabilistic voter model on a periodic
//! grid of side `n` in dimension `d`: at every step each cell adopts the
//! opinion of one of its `2d` neighbours, chosen at random.

pub mod control;
pub mod error;
pub mod grid;
pub mod renderer;
pub mod simulation;
pub mod statistics;
