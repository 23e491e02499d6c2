//! Constraint propagation: naked singles and hidden singles to a fixed
//! point, then backtracking for what is left.
use crate::backtracking_ds::{backtracking_result, grid_of, BacktrackingDynamicSelectionSolver};
use crate::bits::{has_value, is_single, lemma_empty_mask, lemma_value_mask, value_mask};
use crate::board::Sudoku;
use crate::cells::{lemma_without_contains, lemma_without_len, square_cell, square_index};
use crate::grid::{
    cell, complete, extends, in_grid, is_candidate, lemma_extends_valid, lemma_house_cell_geometry,
    lemma_house_geometry, lemma_place_checked, slot_of, solvable, solves, square_of, valid, House,
};
use crate::propagation::{
    agrees, apply_all, hidden_singles, is_pencil_grid, lemma_complete_has_no_hidden_single,
    lemma_hidden_singles_forced, lemma_initial_tracks, lemma_naked_singles_forced,
    lemma_pencil_grid, lemma_strike_all_tracks, mark, naked_singles, narrowed, place_all,
    propagate, settle, start_of, strike, strike_all, struck_mark, tracks, without_all, Propagation,
};
use crate::solver::Solver;
use vstd::prelude::*;

verus! {

/// Propagation of naked and hidden singles, with backtracking for
/// what propagation leaves open.  The candidate grid lives for one
/// call only.
#[derive(Debug, Clone, Copy)]
pub struct SmartSolver;

/// The candidate grid as the row-major sequence of its 81 masks.
pub open spec fn marks_of(marks: [[u16; 9]; 9]) -> Seq<u16> {
    Seq::new(81, |q: int| marks[q / 9][q % 9])
}

/// The state of propagation that a board and a candidate grid stand for.
pub open spec fn state_of(board: Sudoku, marks: [[u16; 9]; 9]) -> Propagation {
    Propagation { grid: board@, marks: marks_of(marks), open: board.open_cells() }
}

/// What propagation with backtracking for the rest returns for a
/// board with the grid `g` and the open cells `open`: nothing if the
/// grid has a duplicate, else what backtracking returns for the board
/// that propagation leaves.
pub open spec fn propagation_result(g: Seq<u8>, open: Seq<(usize, usize)>) -> Option<Seq<u8>> {
    if !valid(g) {
        None
    } else {
        let left = propagate(start_of(g, open));
        backtracking_result(left.grid, left.open)
    }
}

/// Every placement names a cell of the grid and a value from 1 to 9.
pub open spec fn placements_in_range(cells: Seq<(usize, usize, u8)>) -> bool {
    forall|i: int|
        0 <= i < cells.len() ==> (#[trigger] cells[i]).0 < 9 && cells[i].1 < 9 && 1 <= cells[i].2 <= 9
}

/// Reading the candidate grid through its sequence.
pub proof fn lemma_marks_of(marks: [[u16; 9]; 9])
    ensures
        marks_of(marks).len() == 81,
        forall|row: int, col: int|
            in_grid(row, col) ==> #[trigger] mark(marks_of(marks), row, col) == marks[row][col],
{
    assert forall|row: int, col: int| in_grid(row, col) implies #[trigger] mark(
        marks_of(marks),
        row,
        col,
    ) == marks[row][col] by {
        let q = row * 9 + col;
        assert(q / 9 == row && q % 9 == col);
    }
}

/// `None` for an empty list, else the list.
fn option_vec(cells: Vec<(usize, usize, u8)>) -> (r: Option<Vec<(usize, usize, u8)>>)
    ensures
        cells@.len() == 0 ==> r.is_none(),
        cells@.len() > 0 ==> r == Some(cells),
{
    if cells.len() == 0 {
        None
    } else {
        Some(cells)
    }
}

/// Whether the mask has exactly one bit set.
fn has_one_bit(m: u16) -> (r: bool)
    ensures
        r == is_single(m),
{
    m != 0 && m & (m - 1) == 0
}

impl SmartSolver {
    /// The strategy; it keeps no state between calls.
    pub fn new() -> (r: Self) {
        Self {  }
    }

    /// Fills the candidate grid from the board: the pencil marks of each
    /// empty cell, nothing for a filled one.
    pub fn init_pencil_marks(marks: &mut [[u16; 9]; 9], sudoku: &Sudoku)
        requires
            sudoku.wf(),
        ensures
            forall|row: int, col: int|
                in_grid(row, col) ==> (#[trigger] final(marks)[row][col]) <= 0x1ff,
            forall|row: int, col: int, w: u8|
                in_grid(row, col) ==> (#[trigger] has_value(final(marks)[row][col], w) <==> (cell(
                    sudoku@,
                    row,
                    col,
                ) == 0 && is_candidate(sudoku@, row, col, w))),
    {
        let mut row: usize = 0;
        while row < 9
            invariant
                row <= 9,
                sudoku.wf(),
                forall|r: int, c: int| 0 <= r < row && 0 <= c < 9 ==> (#[trigger] marks[r][c]) <= 0x1ff,
                forall|r: int, c: int, w: u8|
                    0 <= r < row && 0 <= c < 9 ==> (#[trigger] has_value(marks[r][c], w) <==> (cell(
                        sudoku@,
                        r,
                        c,
                    ) == 0 && is_candidate(sudoku@, r, c, w))),
            decreases 9 - row,
        {
            let mut col: usize = 0;
            while col < 9
                invariant
                    row < 9,
                    col <= 9,
                    sudoku.wf(),
                    forall|r: int, c: int|
                        (0 <= r < row && 0 <= c < 9) || (r == row && 0 <= c < col) ==> (
                        #[trigger] marks[r][c]) <= 0x1ff,
                    forall|r: int, c: int, w: u8|
                        (0 <= r < row && 0 <= c < 9) || (r == row && 0 <= c < col) ==> (
                        #[trigger] has_value(marks[r][c], w) <==> (cell(sudoku@, r, c) == 0
                            && is_candidate(sudoku@, r, c, w))),
                decreases 9 - col,
            {
                let value = sudoku.get(row, col);
                if value == 0 {
                    marks[row][col] = sudoku.get_pencil_marks_raw(row, col);
                } else {
                    marks[row][col] = 0;
                    proof {
                        lemma_empty_mask();
                    }
                }
                col += 1;
            }
            row += 1;
        }
    }

    /// The cells with a single candidate, row by row, each with that
    /// candidate; `None` if there is no such cell.
    pub fn get_unambiguous_cells(marks: &[[u16; 9]; 9]) -> (r: Option<Vec<(usize, usize, u8)>>)
        ensures
            naked_singles(marks_of(*marks), 81).len() == 0 ==> r.is_none(),
            naked_singles(marks_of(*marks), 81).len() > 0 ==> r.is_some() && r.unwrap()@
                == naked_singles(marks_of(*marks), 81),
    {
        let mut cells: Vec<(usize, usize, u8)> = Vec::new();
        let ghost ms = marks_of(*marks);
        let mut row: usize = 0;
        while row < 9
            invariant
                row <= 9,
                ms == marks_of(*marks),
                cells@ == naked_singles(ms, row * 9),
            decreases 9 - row,
        {
            let mut col: usize = 0;
            while col < 9
                invariant
                    row < 9,
                    col <= 9,
                    ms == marks_of(*marks),
                    cells@ == naked_singles(ms, row * 9 + col),
                decreases 9 - col,
            {
                let m = marks[row][col];
                proof {
                    let q = row * 9 + col;
                    assert(q / 9 == row && q % 9 == col);
                    assert(ms[q] == m);
                }
                if has_one_bit(m) {
                    let value = m.trailing_zeros() as u8 + 1;
                    cells.push((row, col, value));
                }
                col += 1;
            }
            row += 1;
        }
        option_vec(cells)
    }

    /// For each cell, row by row, the value that only this cell has
    /// marked in its row, in its column and in its square, where there
    /// is exactly one such; `None` if nothing was found.
    pub fn get_unique_pencil_marked_cells(marks: &[[u16; 9]; 9]) -> (r: Option<Vec<(usize, usize, u8)>>)
        ensures
            hidden_singles(marks_of(*marks), 81).len() == 0 ==> r.is_none(),
            hidden_singles(marks_of(*marks), 81).len() > 0 ==> r.is_some() && r.unwrap()@
                == hidden_singles(marks_of(*marks), 81),
    {
        let mut cells: Vec<(usize, usize, u8)> = Vec::new();
        let ghost ms = marks_of(*marks);
        proof {
            lemma_marks_of(*marks);
        }
        let mut row: usize = 0;
        while row < 9
            invariant
                row <= 9,
                ms == marks_of(*marks),
                forall|r: int, c: int| in_grid(r, c) ==> #[trigger] mark(ms, r, c) == marks[r][c],
                cells@ == hidden_singles(ms, row * 9),
            decreases 9 - row,
        {
            let mut col: usize = 0;
            while col < 9
                invariant
                    row < 9,
                    col <= 9,
                    ms == marks_of(*marks),
                    forall|r: int, c: int| in_grid(r, c) ==> #[trigger] mark(ms, r, c) == marks[r][c],
                    cells@ == hidden_singles(ms, row * 9 + col),
                decreases 9 - col,
            {
                let mut marks_row = marks[row][col];
                let mut marks_col = marks[row][col];
                let mut marks_square = marks[row][col];
                let square = square_index(row, col);
                let mut i: usize = 0;
                proof {
                    assert(mark(ms, row as int, col as int) == marks[row as int][col as int]);
                }
                while i < 9
                    invariant
                        row < 9,
                        col < 9,
                        i <= 9,
                        square == square_of(row as int, col as int),
                        ms == marks_of(*marks),
                        forall|r: int, c: int|
                            in_grid(r, c) ==> #[trigger] mark(ms, r, c) == marks[r][c],
                        marks_row == narrowed(ms, House::Row, row as int, col as int, i as int),
                        marks_col == narrowed(ms, House::Column, row as int, col as int, i as int),
                        marks_square == narrowed(ms, House::Square, row as int, col as int, i as int),
                    decreases 9 - i,
                {
                    if i != col {
                        proof {
                            assert(mark(ms, row as int, i as int) == marks[row as int][i as int]);
                        }
                        marks_row &= !marks[row][i];
                    }
                    if i != row {
                        proof {
                            assert(mark(ms, i as int, col as int) == marks[i as int][col as int]);
                        }
                        marks_col &= !marks[i][col];
                    }
                    let (peer_row, peer_col) = square_cell(square, i);
                    proof {
                        lemma_house_geometry(House::Square, row as int, col as int);
                        lemma_house_cell_geometry(House::Square, square as int, i as int);
                        assert(mark(ms, peer_row as int, peer_col as int)
                            == marks[peer_row as int][peer_col as int]);
                    }
                    if peer_row != row || peer_col != col {
                        marks_square &= !marks[peer_row][peer_col];
                    }
                    i += 1;
                }
                proof {
                    let n = row * 9 + col + 1;
                    assert((n - 1) / 9 == row && (n - 1) % 9 == col);
                }
                if has_one_bit(marks_row) {
                    let value = marks_row.trailing_zeros() as u8 + 1;
                    cells.push((row, col, value));
                }
                if has_one_bit(marks_col) {
                    let value = marks_col.trailing_zeros() as u8 + 1;
                    cells.push((row, col, value));
                }
                if has_one_bit(marks_square) {
                    let value = marks_square.trailing_zeros() as u8 + 1;
                    cells.push((row, col, value));
                }
                col += 1;
            }
            row += 1;
        }
        option_vec(cells)
    }

    /// Strikes each placed value from the candidate grid: the placed
    /// cell loses all its marks, and every cell in its row, its column
    /// or its square loses the mark of the placed value.
    pub fn update_pencil_marks(marks: &mut [[u16; 9]; 9], placed_cells: &Vec<(usize, usize, u8)>)
        requires
            placements_in_range(placed_cells@),
        ensures
            marks_of(*final(marks)) == strike_all(
                marks_of(*old(marks)),
                placed_cells@,
                placed_cells@.len() as int,
            ),
    {
        let mut n: usize = 0;
        while n < placed_cells.len()
            invariant
                n <= placed_cells.len(),
                placements_in_range(placed_cells@),
                marks_of(*marks) == strike_all(marks_of(*old(marks)), placed_cells@, n as int),
            decreases placed_cells.len() - n,
        {
            let (row, col, value) = placed_cells[n];
            let ghost before = marks_of(*marks);
            proof {
                lemma_marks_of(*marks);
                lemma_value_mask(value);
            }
            let bit: u16 = 1u16 << (value - 1);
            marks[row][col] = 0;
            let mut i: usize = 0;
            while i < 9
                invariant
                    i <= 9,
                    row < 9,
                    col < 9,
                    bit == value_mask(value),
                    forall|r: int, c: int|
                        in_grid(r, c) ==> #[trigger] marks[r][c] == (if r == row && c == col {
                            0
                        } else if (r == row && c < i) || (c == col && r < i) {
                            mark(before, r, c) & !bit
                        } else {
                            mark(before, r, c)
                        }),
                decreases 9 - i,
            {
                proof {
                    assert(0u16 & !bit == 0) by (bit_vector);
                }
                marks[row][i] &= !bit;
                marks[i][col] &= !bit;
                i += 1;
            }
            let square = square_index(row, col);
            i = 0;
            while i < 9
                invariant
                    i <= 9,
                    row < 9,
                    col < 9,
                    square == square_of(row as int, col as int),
                    bit == value_mask(value),
                    forall|r: int, c: int|
                        in_grid(r, c) ==> #[trigger] marks[r][c] == (if r == row && c == col {
                            0
                        } else if r == row || c == col || (square_of(r, c) == square && slot_of(
                            House::Square,
                            r,
                            c,
                        ) < i) {
                            mark(before, r, c) & !bit
                        } else {
                            mark(before, r, c)
                        }),
                decreases 9 - i,
            {
                let (peer_row, peer_col) = square_cell(square, i);
                proof {
                    lemma_house_cell_geometry(House::Square, square as int, i as int);
                    let m = mark(before, peer_row as int, peer_col as int);
                    assert(0u16 & !bit == 0) by (bit_vector);
                    assert((m & !bit) & !bit == m & !bit) by (bit_vector);
                    assert forall|r: int, c: int|
                        in_grid(r, c) && square_of(r, c) == square && slot_of(House::Square, r, c)
                            == i implies r == peer_row && c == peer_col by {
                        lemma_house_geometry(House::Square, r, c);
                    }
                }
                marks[peer_row][peer_col] &= !bit;
                i += 1;
            }
            proof {
                let after = marks_of(*marks);
                lemma_marks_of(*marks);
                assert forall|q: int| 0 <= q < 81 implies after[q] == strike(
                    before,
                    row as int,
                    col as int,
                    value,
                )[q] by {
                    let r = q / 9;
                    let c = q % 9;
                    assert(q == r * 9 + c);
                    lemma_house_geometry(House::Square, r, c);
                    assert(after[q] == marks[r][c]);
                    assert(strike(before, row as int, col as int, value)[q] == struck_mark(
                        before,
                        row as int,
                        col as int,
                        value,
                        r,
                        c,
                    ));
                }
                assert(after =~= strike(before, row as int, col as int, value));
            }
            n += 1;
        }
    }

    /// Writes each placement into the board, in order, with the
    /// validity check.
    fn place_cells(board: &mut Sudoku, cells: &Vec<(usize, usize, u8)>)
        requires
            old(board).wf(),
            placements_in_range(cells@),
            old(board).valid_flag() ==> valid(old(board)@),
        ensures
            final(board).wf(),
            final(board)@ == place_all(old(board)@, cells@, cells@.len() as int),
            final(board).open_cells() == without_all(
                old(board).open_cells(),
                cells@,
                cells@.len() as int,
            ),
            final(board).valid_flag() ==> valid(final(board)@),
            final(board).open_cells().len() <= old(board).open_cells().len(),
            cells@.len() > 0 && cell(old(board)@, cells@[0].0 as int, cells@[0].1 as int) == 0
                ==> final(board).open_cells().len() < old(board).open_cells().len(),
    {
        let mut n: usize = 0;
        while n < cells.len()
            invariant
                n <= cells.len(),
                placements_in_range(cells@),
                board.wf(),
                board@ == place_all(old(board)@, cells@, n as int),
                board.open_cells() == without_all(old(board).open_cells(), cells@, n as int),
                board.valid_flag() ==> valid(board@),
                board.open_cells().len() <= old(board).open_cells().len(),
                n > 0 && cell(old(board)@, cells@[0].0 as int, cells@[0].1 as int) == 0
                    ==> board.open_cells().len() < old(board).open_cells().len(),
            decreases cells.len() - n,
        {
            let (row, col, value) = cells[n];
            let ghost before = *board;
            board.set(row, col, value, false);
            proof {
                if board.valid_flag() {
                    lemma_place_checked(before@, row as int, col as int, value);
                }
                lemma_without_contains(before.open_cells(), row, col);
                lemma_without_len(before.open_cells(), row, col);
                if n == 0 && cell(before@, row as int, col as int) == 0 {
                    assert(before.open_cells().contains((row, col)));
                }
            }
            n += 1;
        }
    }

    /// Fills in what follows from the board by naked and hidden
    /// singles, up to the fixed point.  The result keeps the values of
    /// the board, and every solution of the board keeps the values of
    /// the result.
    fn logic_process(sudoku: &Sudoku) -> (r: Sudoku)
        requires
            sudoku.wf(),
            sudoku.valid_flag() ==> valid(sudoku@),
        ensures
            r.wf(),
            extends(sudoku@, r@),
            agrees(sudoku@, r@),
            r.valid_flag() ==> valid(r@),
            r@ == propagate(start_of(sudoku@, sudoku.open_cells())).grid,
            r.open_cells() == propagate(start_of(sudoku@, sudoku.open_cells())).open,
    {
        let mut marks: [[u16; 9]; 9] = [[0; 9]; 9];
        Self::init_pencil_marks(&mut marks, sudoku);
        let mut board = sudoku.clone();
        let ghost puzzle = sudoku@;
        let ghost start = start_of(sudoku@, sudoku.open_cells());
        proof {
            lemma_marks_of(marks);
            let ms = marks_of(marks);
            assert forall|q: int| 0 <= q < 81 implies #[trigger] ms[q] <= 0x1ff by {
                assert(ms[q] == marks[q / 9][q % 9]);
            }
            assert(is_pencil_grid(puzzle, ms));
            lemma_pencil_grid(puzzle, ms);
            lemma_initial_tracks(puzzle, ms);
        }
        loop
            invariant_except_break
                propagate(start) == propagate(state_of(board, marks)),
            invariant
                board.wf(),
                tracks(puzzle, board@, marks_of(marks)),
                board.valid_flag() ==> valid(board@),
            ensures
                state_of(board, marks) == propagate(start),
            decreases board.open_cells().len(),
        {
            let ghost at_start = state_of(board, marks);
            loop
                invariant
                    board.wf(),
                    tracks(puzzle, board@, marks_of(marks)),
                    board.valid_flag() ==> valid(board@),
                    board.open_cells().len() <= at_start.open.len(),
                    settle(at_start) == settle(state_of(board, marks)),
                ensures
                    naked_singles(marks_of(marks), 81).len() == 0,
                decreases board.open_cells().len(),
            {
                match Self::get_unambiguous_cells(&marks) {
                    None => {
                        break;
                    },
                    Some(cells) => {
                        proof {
                            let ms = marks_of(marks);
                            lemma_naked_singles_forced(puzzle, board@, ms, 81);
                            lemma_strike_all_tracks(puzzle, board@, ms, cells@, cells@.len() as int);
                            assert(cell(board@, cells@[0].0 as int, cells@[0].1 as int) == 0);
                        }
                        let ghost before = state_of(board, marks);
                        Self::place_cells(&mut board, &cells);
                        Self::update_pencil_marks(&mut marks, &cells);
                        proof {
                            assert(state_of(board, marks) == apply_all(before, cells@));
                        }
                    },
                }
            }
            let ghost settled = state_of(board, marks);
            proof {
                assert(settle(settled) == settled);
                assert(settled == settle(at_start));
            }
            if board.is_solved() {
                break;
            }
            match Self::get_unique_pencil_marked_cells(&marks) {
                Some(cells) => {
                    proof {
                        let ms = marks_of(marks);
                        if complete(board@) {
                            lemma_complete_has_no_hidden_single(puzzle, board@, ms, 81);
                        }
                        lemma_hidden_singles_forced(puzzle, board@, ms, 81);
                        lemma_strike_all_tracks(puzzle, board@, ms, cells@, cells@.len() as int);
                        assert(cell(board@, cells@[0].0 as int, cells@[0].1 as int) == 0);
                    }
                    Self::place_cells(&mut board, &cells);
                    Self::update_pencil_marks(&mut marks, &cells);
                    proof {
                        assert(state_of(board, marks) == apply_all(settled, cells@));
                    }
                },
                None => {
                    break;
                },
            }
        }
        board
    }
}

impl Solver for SmartSolver {
    /// The solution returned is the one that backtracking comes to
    /// first on the board that propagation leaves.
    fn solve(&self, sudoku: &Sudoku) -> (r: Option<Sudoku>)
        ensures
            grid_of(r) == propagation_result(sudoku@, sudoku.open_cells()),
    {
        let mut start = sudoku.clone();
        if !start.recheck_validity() {
            proof {
                if solvable(sudoku@) {
                    let s = choose|s: Seq<u8>| solves(s, sudoku@);
                    lemma_extends_valid(sudoku@, s);
                }
            }
            return None;
        }
        let board = Self::logic_process(&start);
        if board.is_solved() {
            return Some(board);
        }
        proof {
            if solvable(sudoku@) {
                let s = choose|s: Seq<u8>| solves(s, sudoku@);
                assert(solves(s, board@));
            }
        }
        match BacktrackingDynamicSelectionSolver::new().solve(&board) {
            Some(solved) => {
                proof {
                    assert(extends(sudoku@, solved@)) by {
                        assert forall|i: int|
                            0 <= i < sudoku@.len() && sudoku@[i] != 0 implies #[trigger] solved@[i]
                            == sudoku@[i] by {
                            assert(board@[i] == sudoku@[i]);
                        }
                    }
                }
                if solved.is_solved() {
                    return Some(solved);
                }
                None
            },
            None => None,
        }
    }
}

} // verus!
