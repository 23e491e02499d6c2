//! What every solving strategy promises.
use crate::board::Sudoku;
use crate::grid::{solvable, solves};
use vstd::prelude::*;

verus! {

/// How an attempt to solve a board in place ended.
#[derive(Debug, Clone, Copy, PartialEq, Eq, Structural)]
pub enum Outcome {
    /// The board now holds a solution.
    Solved,
    /// The puzzle has no solution; the board is as it was.
    Unsolvable,
}

/// What a strategy may return for a board: a solution of it, ready
/// to be read, or nothing if it has no solution.
pub open spec fn is_answer(sudoku: Sudoku, r: Option<Sudoku>) -> bool {
    match r {
        Some(s) => s.wf() && s.valid_flag() && solves(s@, sudoku@),
        None => !solvable(sudoku@),
    }
}

/// A solving strategy.
pub trait Solver {
    /// Solves the given sudoku.  A returned board is a solution: every
    /// cell filled, no duplicate in any row, column or square, and every
    /// value of `sudoku` kept.  `None` is returned only if there is no
    /// such board.
    fn solve(&self, sudoku: &Sudoku) -> (r: Option<Sudoku>)
        requires
            sudoku.wf(),
        ensures
            is_answer(*sudoku, r),
    ;
}

impl Sudoku {
    /// Solves the board in place with the given strategy.  If the
    /// puzzle has no solution the board is left as it was.
    pub fn solve(&mut self, solver: &dyn Solver) -> (r: Outcome)
        requires
            old(self).wf(),
        ensures
            match r {
                Outcome::Solved => final(self).wf() && final(self).valid_flag() && solves(
                    final(self)@,
                    old(self)@,
                ),
                Outcome::Unsolvable => !solvable(old(self)@) && *final(self) == *old(self),
            },
    {
        match solver.solve(self) {
            Some(s) => {
                *self = s;
                Outcome::Solved
            },
            None => Outcome::Unsolvable,
        }
    }
}

} // verus!
