//! A solver for Sokoban-style pushing puzzles.
//!
//! A rectangular grid holds walls, movable blocks, target cells and a single
//! player. The solver searches for a shortest sequence of player moves that
//! pushes every block onto a target cell. The crate provides the grid
//! geometry, the board model with its parser, the move rule engine, and a
//! breadth-first search engine with path reconstruction.

pub mod geom;
pub mod board;
pub mod engine;
pub mod search;
