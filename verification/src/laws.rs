//! Laws that relate the operations of the library to one another.
use crate::backtracking_ds::{candidate_count, is_least_variable};
use crate::board::Sudoku;
use crate::cells::row_major;
use crate::grid::{
    complete, houses_ok_at, in_grid, lemma_extends_valid, lemma_place_checked, place, solvable,
    solves, valid,
};
use crate::solver::is_answer;
use crate::text::{char_value, digit_char, loadable, parsed, rendered};
use vstd::prelude::*;

verus! {

/// Writing out what was loaded gives the loaded text back, for a text
/// whose empty cells are written as `'0'`.
pub proof fn lemma_round_trip(text: Seq<char>, null_char: char)
    requires
        loadable(text, null_char),
        forall|i: int| 0 <= i < 81 && text[i] == null_char ==> null_char == '0',
    ensures
        rendered(parsed(text, null_char)) == text,
{
    let out = rendered(parsed(text, null_char));
    assert forall|i: int| 0 <= i < 81 implies out[i] == text[i] by {
        assert(char_value(text[i], null_char).is_some());
        let v = char_value(text[i], null_char).unwrap();
        assert(out[i] == digit_char(v));
    }
    assert(out =~= text);
}

/// Writing out what was loaded gives the loaded text with each blank
/// character replaced by `'0'`.
pub proof fn lemma_round_trip_blanks(text: Seq<char>, null_char: char)
    requires
        loadable(text, null_char),
    ensures
        rendered(parsed(text, null_char)) == Seq::new(
            81,
            |i: int|
                if text[i] == null_char {
                    '0'
                } else {
                    text[i]
                },
        ),
{
    let out = rendered(parsed(text, null_char));
    let want = Seq::new(
        81,
        |i: int|
            if text[i] == null_char {
                '0'
            } else {
                text[i]
            },
    );
    assert forall|i: int| 0 <= i < 81 implies out[i] == want[i] by {
        assert(char_value(text[i], null_char).is_some());
        let v = char_value(text[i], null_char).unwrap();
        assert(out[i] == digit_char(v));
    }
    assert(out =~= want);
}

/// A grid with a duplicate in a row, a column or a square has no
/// solution.
pub proof fn lemma_invalid_is_unsolvable(g: Seq<u8>)
    requires
        g.len() == 81,
        !valid(g),
    ensures
        !solvable(g),
{
    if solvable(g) {
        let s = choose|s: Seq<u8>| solves(s, g);
        lemma_extends_valid(g, s);
    }
}

/// No strategy returns a board for a puzzle without a solution, and
/// none for one with a duplicate in a row, a column or a square.
pub proof fn lemma_unsolvable_gives_none(sudoku: Sudoku, r: Option<Sudoku>)
    requires
        sudoku.wf(),
        is_answer(sudoku, r),
        !solvable(sudoku@) || !valid(sudoku@),
    ensures
        r.is_none(),
{
    if !valid(sudoku@) {
        lemma_invalid_is_unsolvable(sudoku@);
    }
}

/// For a puzzle with exactly one solution, any two strategies return
/// that solution.
pub proof fn lemma_solvers_agree(
    sudoku: Sudoku,
    solution: Seq<u8>,
    first: Option<Sudoku>,
    second: Option<Sudoku>,
)
    requires
        solves(solution, sudoku@),
        forall|s: Seq<u8>| solves(s, sudoku@) ==> s == solution,
        is_answer(sudoku, first),
        is_answer(sudoku, second),
    ensures
        first.is_some(),
        second.is_some(),
        first.unwrap()@ == solution,
        second.unwrap()@ == solution,
{
}

/// Solving a board that is complete and free of duplicates returns
/// that board: the same grid, the flag set, no cell open.
pub proof fn lemma_solved_board_is_returned(sudoku: Sudoku, r: Option<Sudoku>)
    requires
        sudoku.wf(),
        complete(sudoku@),
        valid(sudoku@),
        is_answer(sudoku, r),
    ensures
        r.is_some(),
        r.unwrap()@ == sudoku@,
        r.unwrap().valid_flag(),
        r.unwrap().open_cells() == sudoku.open_cells(),
{
    assert(solves(sudoku@, sudoku@));
    let s = r.unwrap();
    assert(s@ =~= sudoku@);
    lemma_complete_has_no_open_cell(s);
    lemma_complete_has_no_open_cell(sudoku);
}

/// A complete board lists no open cell.
pub proof fn lemma_complete_has_no_open_cell(sudoku: Sudoku)
    requires
        sudoku.wf(),
        complete(sudoku@),
    ensures
        sudoku.open_cells() == Seq::<(usize, usize)>::empty(),
{
    let open = sudoku.open_cells();
    if open.len() > 0 {
        let p = open[0];
        assert(sudoku@[p.0 * 9 + p.1] != 0);
    }
    assert(open =~= Seq::<(usize, usize)>::empty());
}

/// The cell that the scan picks is the first, in the order of the
/// open cells, among those with the fewest candidates.  This holds
/// unless the scan stops at a cell with one candidate before it has
/// seen a cell with none: the law leaves those boards out.
pub proof fn lemma_least_variable_is_first_minimum(g: Seq<u8>, open: Seq<(usize, usize)>, k: int)
    requires
        is_least_variable(g, open, k),
        forall|i: int, j: int|
            0 <= i < open.len() && 0 <= j < open.len() && #[trigger] candidate_count(g, open, i) == 1
                && #[trigger] candidate_count(g, open, j) == 0 ==> exists|e: int|
                0 <= e < i && #[trigger] candidate_count(g, open, e) == 0,
    ensures
        forall|j: int| 0 <= j < open.len() ==> candidate_count(g, open, j) >= candidate_count(g, open, k),
        forall|j: int| 0 <= j < k ==> candidate_count(g, open, j) > candidate_count(g, open, k),
{
    assert forall|j: int| 0 <= j < open.len() implies candidate_count(g, open, j) >= candidate_count(
        g,
        open,
        k,
    ) by {
        if j < k {
            assert(candidate_count(g, open, j) > candidate_count(g, open, k));
        } else if j > k {
            if candidate_count(g, open, k) > 1 {
                assert(candidate_count(g, open, j) >= candidate_count(g, open, k));
            } else if candidate_count(g, open, k) == 1 && candidate_count(g, open, j) == 0 {
                let e = choose|e: int| 0 <= e < k && #[trigger] candidate_count(g, open, e) == 0;
                assert(candidate_count(g, open, e) > 1);
            }
        }
    }
}

/// Where the open cells are listed row by row, the cell that the scan
/// picks comes first in row-major order among the open cells with the
/// fewest candidates.  The boards on which the scan stops at a cell
/// with one candidate before a cell with none are left out.
pub proof fn lemma_least_variable_row_major(g: Seq<u8>, open: Seq<(usize, usize)>, k: int)
    requires
        is_least_variable(g, open, k),
        row_major(open),
        forall|i: int, j: int|
            0 <= i < open.len() && 0 <= j < open.len() && #[trigger] candidate_count(g, open, i) == 1
                && #[trigger] candidate_count(g, open, j) == 0 ==> exists|e: int|
                0 <= e < i && #[trigger] candidate_count(g, open, e) == 0,
    ensures
        forall|j: int|
            0 <= j < open.len() && j != k && #[trigger] candidate_count(g, open, j) == candidate_count(
                g,
                open,
                k,
            ) ==> open[k].0 * 9 + open[k].1 < open[j].0 * 9 + open[j].1,
{
    lemma_least_variable_is_first_minimum(g, open, k);
    assert forall|j: int|
        0 <= j < open.len() && j != k && #[trigger] candidate_count(g, open, j) == candidate_count(
            g,
            open,
            k,
        ) implies open[k].0 * 9 + open[k].1 < open[j].0 * 9 + open[j].1 by {
        assert(j > k);
    }
}

/// Checking the three houses of the written cell is enough: after a
/// value is written into a grid without duplicates, the grid is free
/// of duplicates exactly if the row, the column and the square of
/// that cell are.
pub proof fn lemma_incremental_validity(g: Seq<u8>, row: int, col: int, v: u8)
    requires
        g.len() == 81,
        valid(g),
        in_grid(row, col),
    ensures
        valid(place(g, row, col, v)) == houses_ok_at(place(g, row, col, v), row, col),
{
    if houses_ok_at(place(g, row, col, v), row, col) {
        lemma_place_checked(g, row, col, v);
    }
}

} // verus!
