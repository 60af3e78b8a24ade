//! Solver for a 5x5 tile-placement laser-routing puzzle.
//!
//! A puzzle consists of a partially filled 25-cell board, a bag of pieces
//! still to be placed, and a required number of lit targets.  The solver
//! explores placements and rotations depth-first, simulating the laser beam
//! on candidate boards until it finds an assignment that lights exactly the
//! required targets without any beam leaving the board.

pub mod orientation;
pub mod token;
pub mod active_laser;
pub mod checker;
pub mod solver_node;
pub mod solver;

pub use active_laser::ActiveLaser;
pub use checker::Checker;
pub use orientation::Orientation;
pub use solver::LaserMazeSolver;
pub use solver_node::SolverNode;
pub use token::{LaserTokenInteractionResult, Token, TokenType};
