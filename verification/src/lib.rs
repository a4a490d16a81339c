//! The Tower of Hanoi: the optimal move sequence for any number of rings, and a
//! board of three towers on which moves are replayed and checked for legality.

pub mod board;
pub mod game;
pub mod laws;
pub mod moves;
pub mod puzzle;
pub mod shortest;
pub mod solver;
pub mod tower;

pub use game::{Game, IllegalMove};
pub use moves::{HanoiMove, Move};
pub use puzzle::play;
pub use solver::Solver;
pub use tower::Tower;
