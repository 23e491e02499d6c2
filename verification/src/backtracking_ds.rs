//! Backtracking search that always branches on the open cell with the
//! fewest candidates.
use crate::board::Sudoku;
use crate::cells::{lemma_without_len, lemma_without_twice, without_cell};
use crate::grid::{
    candidates, cell, complete, in_grid, lemma_candidates, lemma_extends_valid,
    lemma_place_candidate, lemma_solution_picks_candidate, lemma_solves_placed, place, solvable,
    solves, valid,
};
use crate::solver::Solver;
use vstd::prelude::*;

verus! {

/// Backtracking that branches on the open cell with the fewest
/// candidates and tries only those.
pub struct BacktrackingDynamicSelectionSolver;

/// Short name of the strategy with dynamic selection.
pub type BDSS = BacktrackingDynamicSelectionSolver;

/// Number of candidates of the `i`-th open cell.
pub open spec fn candidate_count(g: Seq<u8>, open: Seq<(usize, usize)>, i: int) -> nat {
    candidates(g, open[i].0 as int, open[i].1 as int).len()
}

/// `k` is the cell that a scan of the open cells in their order picks:
/// the first one with at most one candidate if there is one, else the
/// first among those with the fewest candidates.
pub open spec fn is_least_variable(g: Seq<u8>, open: Seq<(usize, usize)>, k: int) -> bool {
    &&& 0 <= k < open.len()
    &&& forall|j: int|
        0 <= j < k ==> #[trigger] candidate_count(g, open, j) > 1 && candidate_count(g, open, j)
            > candidate_count(g, open, k)
    &&& candidate_count(g, open, k) > 1 ==> forall|j: int|
        k < j < open.len() ==> #[trigger] candidate_count(g, open, j) >= candidate_count(g, open, k)
}

/// The scan of the open cells picks one cell and no other.
pub proof fn lemma_least_variable_unique(g: Seq<u8>, open: Seq<(usize, usize)>, k: int, m: int)
    requires
        is_least_variable(g, open, k),
        is_least_variable(g, open, m),
    ensures
        k == m,
{
    if k < m {
        assert(candidate_count(g, open, k) > 1 && candidate_count(g, open, k) > candidate_count(
            g,
            open,
            m,
        ));
        assert(candidate_count(g, open, m) >= candidate_count(g, open, k));
    } else if m < k {
        assert(candidate_count(g, open, m) > 1 && candidate_count(g, open, m) > candidate_count(
            g,
            open,
            k,
        ));
        assert(candidate_count(g, open, k) >= candidate_count(g, open, m));
    }
}

/// The index of the cell that the scan of the open cells picks.
pub open spec fn least_variable(g: Seq<u8>, open: Seq<(usize, usize)>) -> int {
    choose|k: int| is_least_variable(g, open, k)
}

/// What the search from the grid `g` with the open cells `open`
/// finds: it branches on the cell that the scan picks and tries its
/// candidates in ascending order.
pub open spec fn search_result(g: Seq<u8>, open: Seq<(usize, usize)>) -> Option<Seq<u8>>
    decreases open.len(), 11int,
{
    if open.len() == 0 {
        None
    } else {
        let k = least_variable(g, open);
        attempt(g, open, open[k].0, open[k].1, 0)
    }
}

/// What trying the candidates of the cell from the `n`-th on finds:
/// the grid with the candidate placed if that is complete, else what
/// the search from that grid finds, else what the next candidate gives.
pub open spec fn attempt(
    g: Seq<u8>,
    open: Seq<(usize, usize)>,
    row: usize,
    col: usize,
    n: int,
) -> Option<Seq<u8>>
    decreases open.len(), 10 - n,
{
    let values = candidates(g, row as int, col as int);
    let placed = place(g, row as int, col as int, values[n]);
    let rest = without_cell(open, row, col);
    if n < 0 || n >= values.len() || values.len() > 9 || rest.len() >= open.len() {
        None
    } else if complete(placed) {
        Some(placed)
    } else {
        match search_result(placed, rest) {
            Some(s) => Some(s),
            None => attempt(g, open, row, col, n + 1),
        }
    }
}

/// What backtracking returns for a board with the grid `g` and the
/// open cells `open`: nothing if the grid has a duplicate, the grid
/// itself if it is complete, else what the search finds.
pub open spec fn backtracking_result(g: Seq<u8>, open: Seq<(usize, usize)>) -> Option<Seq<u8>> {
    if !valid(g) {
        None
    } else if complete(g) {
        Some(g)
    } else {
        search_result(g, open)
    }
}

/// The grid of the board that a strategy returned, if any.
pub open spec fn grid_of(r: Option<Sudoku>) -> Option<Seq<u8>> {
    match r {
        Some(s) => Some(s@),
        None => None,
    }
}

impl BacktrackingDynamicSelectionSolver {
    /// The strategy; it keeps no state between calls.
    pub fn new() -> (r: Self) {
        Self {  }
    }

    /// The open cell to branch on, with its candidates in ascending
    /// order.  With no open cell the result is `(0, 0)` with no values.
    pub fn get_least_variable_cell(sudoku: &Sudoku) -> (r: ((usize, usize), Vec<u8>))
        requires
            sudoku.wf(),
        ensures
            sudoku.open_cells().len() == 0 ==> r.0 == (0usize, 0usize) && r.1@.len() == 0,
            sudoku.open_cells().len() > 0 ==> {
                &&& is_least_variable(
                    sudoku@,
                    sudoku.open_cells(),
                    least_variable(sudoku@, sudoku.open_cells()),
                )
                &&& r.0 == sudoku.open_cells()[least_variable(sudoku@, sudoku.open_cells())]
                &&& r.1@ == candidates(sudoku@, r.0.0 as int, r.0.1 as int)
            },
    {
        let open = sudoku.get_open_cells();
        let mut min: usize = 10;
        let mut min_cell: (usize, usize) = (0, 0);
        let mut min_values: Vec<u8> = Vec::new();
        let ghost g = sudoku@;
        let ghost mut best: int = 0;
        let mut i: usize = 0;
        while i < open.len()
            invariant
                i <= open.len(),
                sudoku.wf(),
                g == sudoku@,
                open@ == sudoku.open_cells(),
                i == 0 ==> min == 10 && min_cell == (0usize, 0usize) && min_values@.len() == 0,
                forall|j: int| 0 <= j < i ==> #[trigger] candidate_count(g, open@, j) > 1,
                i > 0 ==> {
                    &&& 0 <= best < i
                    &&& min_cell == open@[best]
                    &&& min_values@ == candidates(g, min_cell.0 as int, min_cell.1 as int)
                    &&& min == candidate_count(g, open@, best)
                    &&& forall|j: int| 0 <= j < best ==> #[trigger] candidate_count(g, open@, j) > min
                    &&& forall|j: int| best < j < i ==> #[trigger] candidate_count(g, open@, j) >= min
                },
            decreases open.len() - i,
        {
            let (row, col) = open[i];
            let values = sudoku.get_pencil_marks(row, col);
            proof {
                lemma_candidates(g, row as int, col as int);
                assert(values@.len() == candidate_count(g, open@, i as int));
            }
            if values.len() <= 1 {
                proof {
                    assert(is_least_variable(g, open@, i as int));
                    lemma_least_variable_unique(g, open@, i as int, least_variable(g, open@));
                }
                return ((row, col), values);
            }
            if values.len() < min {
                min = values.len();
                min_cell = (row, col);
                min_values = values;
                proof {
                    best = i as int;
                }
            }
            i += 1;
        }
        proof {
            if open.len() > 0 {
                assert(is_least_variable(g, open@, best));
                lemma_least_variable_unique(g, open@, best, least_variable(g, open@));
            }
        }
        (min_cell, min_values)
    }

    /// Depth-first search from a valid, incomplete board.
    fn search(&self, sudoku: &Sudoku) -> (r: Option<Sudoku>)
        requires
            sudoku.wf(),
            sudoku.valid_flag(),
            valid(sudoku@),
            !complete(sudoku@),
        ensures
            match r {
                Some(s) => s.wf() && s.valid_flag() && solves(s@, sudoku@),
                None => !solvable(sudoku@),
            },
            grid_of(r) == search_result(sudoku@, sudoku.open_cells()),
        decreases sudoku.open_cells().len(),
    {
        let mut board = sudoku.clone();
        let ghost base = sudoku@;
        let ghost open = sudoku.open_cells();
        proof {
            if open.len() == 0 {
                assert forall|i: int| 0 <= i < base.len() implies #[trigger] base[i] != 0 by {
                    let row = i / 9;
                    let col = i % 9;
                    assert(i == row * 9 + col);
                    if cell(base, row, col) == 0 {
                        assert(open.contains((row as usize, col as usize)));
                    }
                }
            }
        }
        let ((row, col), values) = Self::get_least_variable_cell(&board);
        proof {
            let k = least_variable(base, open);
            assert(in_grid(open[k].0 as int, open[k].1 as int));
            lemma_without_len(open, row, col);
            assert(open.contains((row, col)));
            lemma_candidates(base, row as int, col as int);
        }
        if values.len() == 0 {
            proof {
                if solvable(base) {
                    let s = choose|s: Seq<u8>| solves(s, base);
                    lemma_solution_picks_candidate(base, s, row as int, col as int);
                    assert(values@.contains(cell(s, row as int, col as int)));
                }
            }
            return None;
        }
        let mut n: usize = 0;
        while n < values.len()
            invariant
                n <= values.len(),
                row < 9,
                col < 9,
                base == sudoku@,
                open == sudoku.open_cells(),
                sudoku.wf(),
                valid(base),
                cell(base, row as int, col as int) == 0,
                open.contains((row, col)),
                values@ == candidates(base, row as int, col as int),
                board.wf(),
                board.valid_flag(),
                board@ == (if n == 0 {
                    base
                } else {
                    place(base, row as int, col as int, values@[n - 1])
                }),
                board.open_cells() == (if n == 0 {
                    open
                } else {
                    without_cell(open, row, col)
                }),
                forall|m: int|
                    0 <= m < n ==> !solvable(#[trigger] place(base, row as int, col as int, values@[m])),
                search_result(base, open) == attempt(base, open, row, col, n as int),
            decreases values.len() - n,
        {
            let value = values[n];
            proof {
                lemma_candidates(base, row as int, col as int);
                assert(values@.contains(value));
                lemma_place_candidate(base, row as int, col as int, value);
                lemma_without_twice(open, row, col);
                lemma_without_len(open, row, col);
                assert(place(board@, row as int, col as int, value) =~= place(
                    base,
                    row as int,
                    col as int,
                    value,
                ));
            }
            board.set(row, col, value, true);
            if board.is_solved() {
                proof {
                    lemma_solves_placed(base, board@, row as int, col as int, value);
                }
                return Some(board);
            }
            let result = self.search(&board);
            if result.is_some() {
                proof {
                    lemma_solves_placed(base, result.unwrap()@, row as int, col as int, value);
                }
                return result;
            }
            n += 1;
        }
        proof {
            if solvable(base) {
                let s = choose|s: Seq<u8>| solves(s, base);
                lemma_solution_picks_candidate(base, s, row as int, col as int);
                let v = cell(s, row as int, col as int);
                assert(values@.contains(v));
                let m = choose|m: int| 0 <= m < values@.len() && values@[m] == v;
                assert(!solvable(place(base, row as int, col as int, values@[m])));
            }
        }
        None
    }
}

impl Solver for BacktrackingDynamicSelectionSolver {
    /// The solution returned is the first that the search comes to.
    fn solve(&self, sudoku: &Sudoku) -> (r: Option<Sudoku>)
        ensures
            grid_of(r) == backtracking_result(sudoku@, sudoku.open_cells()),
    {
        let mut board = sudoku.clone();
        if !board.recheck_validity() {
            proof {
                if solvable(sudoku@) {
                    let s = choose|s: Seq<u8>| solves(s, sudoku@);
                    lemma_extends_valid(sudoku@, s);
                }
            }
            return None;
        }
        if board.is_solved() {
            return Some(board);
        }
        self.search(&board)
    }
}

} // verus!
