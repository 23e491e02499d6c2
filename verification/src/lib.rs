//! A 9x9 Sudoku board with bit-packed constraints, and solvers for it.
pub mod backtracking_bf;
pub mod backtracking_ds;
pub mod bits;
pub mod board;
pub mod cells;
pub mod grid;
pub mod laws;
pub mod propagation;
pub mod smart_solver;
pub mod solver;
pub mod text;

pub use backtracking_bf::{BacktrackingBruteForceSolver, BBFS};
pub use backtracking_ds::{BacktrackingDynamicSelectionSolver, BDSS};
pub use board::Sudoku;
pub use smart_solver::SmartSolver;
pub use solver::{Outcome, Solver};
pub use text::LoadError;
