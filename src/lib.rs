//! A solver for sliding-tile puzzles on rectangular grids of any size.
//!
//! The board keeps its move history so that every move can be undone, the
//! distance heuristics rank boards against a goal, the bounded lookahead
//! finishes a nearly solved board exactly, and the solver drives a best-first
//! search over all of them.
pub mod board;
pub mod check_mate;
pub mod closed;
pub mod distance_fn;
pub mod random;
pub mod solver;

pub use board::{Board, BoardError, BoardView};
pub use check_mate::{check_mate, check_mate2};
pub use distance_fn::{compute_distance1, compute_distance2, compute_distance3};
pub use solver::{DistanceFn, ScoreFn, Solver, SolverError, State};
