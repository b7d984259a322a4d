//! Rules engine for a 2048-style sliding-tile puzzle.
//!
//! A fixed 4x4 grid of power-of-two tiles slides and merges under
//! directional moves; after every move that changed the grid a new tile
//! spawns on a random empty cell, and the game reports whether it is
//! still running, won, or lost.  The move algorithm, the spawn policy
//! and the terminal-state evaluation are verified; randomness enters
//! only through a small trusted wrapper around the `rand` crate.

mod board;
mod controller;
pub mod laws;
pub mod model;
pub mod moves;
mod rng;

pub use board::Cell;
pub use board::GameState;
pub use board::Gameboard;
pub use board::MoveDirection;
pub use board::Position;
pub use board::SIZE;
pub use board::move_outcome;
pub use controller::GameboardController;
