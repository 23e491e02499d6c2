use sudoku::{SmartSolver, Solver, Sudoku};

const EASY: &str =
    "530070000600195000098000060800060003400803001700020006060000280000419005000080079";

fn marks_of(board: &Sudoku) -> [[u16; 9]; 9] {
    let mut marks = [[0x1ffu16; 9]; 9];
    SmartSolver::init_pencil_marks(&mut marks, board);
    marks
}

/// In the top right square only the corner can take a 1, though the
/// first row and the last column each have other places for it, and
/// no cell has a single candidate.
fn hidden_in_a_square() -> Sudoku {
    let mut board = Sudoku::new();
    board.set(1, 3, 1, false);
    board.set(3, 6, 1, false);
    board.set(0, 7, 2, false);
    board.set(2, 7, 3, false);
    board.set(2, 8, 4, false);
    assert!(board.is_valid());
    board
}

#[test]
fn candidate_grid_starts_from_the_pencil_marks() {
    let mut board = Sudoku::new();
    assert!(board.load_board_from_str(EASY, '0').is_ok());
    let marks = marks_of(&board);
    for row in 0..9 {
        for col in 0..9 {
            if board.get(row, col) == 0 {
                assert_eq!(marks[row][col], board.get_pencil_marks_raw(row, col));
            } else {
                assert_eq!(marks[row][col], 0);
            }
        }
    }
    assert_eq!(marks[0][2], 0b000001011);
    assert_eq!(marks[0][0], 0);
}

#[test]
fn naked_singles_are_listed_row_by_row() {
    let mut board = Sudoku::new();
    assert!(board.load_board_from_str(EASY, '0').is_ok());
    let marks = marks_of(&board);
    let mut want = Vec::new();
    for row in 0..9 {
        for col in 0..9 {
            let values = board.get_pencil_marks(row, col);
            if board.get(row, col) == 0 && values.len() == 1 {
                want.push((row, col, values[0]));
            }
        }
    }
    assert!(want.contains(&(4, 4, 5)));
    assert_eq!(SmartSolver::get_unambiguous_cells(&marks), Some(want));
}

#[test]
fn no_naked_single_gives_none() {
    let marks = marks_of(&Sudoku::new());
    assert_eq!(SmartSolver::get_unambiguous_cells(&marks), None);
    assert_eq!(SmartSolver::get_unambiguous_cells(&[[0u16; 9]; 9]), None);
    assert_eq!(SmartSolver::get_unambiguous_cells(&[[0b11u16; 9]; 9]), None);
}

#[test]
fn naked_single_reads_the_value_of_the_bit() {
    for value in 1..=9u8 {
        let mut marks = [[0u16; 9]; 9];
        marks[8][8] = 1 << (value - 1);
        assert_eq!(SmartSolver::get_unambiguous_cells(&marks), Some(vec![(8, 8, value)]));
    }
}

#[test]
fn hidden_single_in_a_square_is_found() {
    let board = hidden_in_a_square();
    let marks = marks_of(&board);
    for row in 0..9 {
        for col in 0..9 {
            assert_ne!(marks[row][col].count_ones(), 1);
        }
    }
    assert_eq!(SmartSolver::get_unambiguous_cells(&marks), None);
    assert_eq!(SmartSolver::get_unique_pencil_marked_cells(&marks), Some(vec![(0, 8, 1)]));
}

#[test]
fn hidden_single_in_a_row_and_in_a_column_is_found() {
    // Every cell is marked {2, 3}; two cells of one square, in different
    // rows and columns, are marked 1 as well.
    let mut marks = [[0b110u16; 9]; 9];
    marks[4][4] = 0b111;
    marks[3][3] = 0b111;
    let found = SmartSolver::get_unique_pencil_marked_cells(&marks).expect("a hidden single");
    assert_eq!(found, vec![(3, 3, 1), (3, 3, 1), (4, 4, 1), (4, 4, 1)]);
}

#[test]
fn no_hidden_single_gives_none() {
    let marks = marks_of(&Sudoku::new());
    assert_eq!(SmartSolver::get_unique_pencil_marked_cells(&marks), None);
    assert_eq!(SmartSolver::get_unique_pencil_marked_cells(&[[0u16; 9]; 9]), None);
}

#[test]
fn placed_value_is_struck_from_its_houses() {
    let mut marks = [[0x1ffu16; 9]; 9];
    SmartSolver::update_pencil_marks(&mut marks, &vec![(4, 5, 5)]);
    for row in 0..9 {
        for col in 0..9 {
            let want = if (row, col) == (4, 5) {
                0
            } else if row == 4 || col == 5 || (row / 3 == 1 && col / 3 == 1) {
                0x1ef
            } else {
                0x1ff
            };
            assert_eq!(marks[row][col], want);
        }
    }
}

#[test]
fn placed_values_are_struck_one_after_the_other() {
    let mut marks = [[0x1ffu16; 9]; 9];
    SmartSolver::update_pencil_marks(&mut marks, &vec![(0, 0, 1), (8, 8, 9), (0, 8, 1)]);
    assert_eq!(marks[0][0], 0);
    assert_eq!(marks[8][8], 0);
    assert_eq!(marks[0][8], 0);
    assert_eq!(marks[0][4], 0x1fe);
    assert_eq!(marks[8][0], 0x0fe);
    assert_eq!(marks[4][8], 0x0fe);
    assert_eq!(marks[1][1], 0x1fe);
    assert_eq!(marks[7][7], 0x0ff);
    assert_eq!(marks[4][4], 0x1ff);
    let before = marks;
    SmartSolver::update_pencil_marks(&mut marks, &Vec::new());
    assert_eq!(marks, before);
}

#[test]
fn hidden_single_in_a_square_is_kept_by_the_solution() {
    let board = hidden_in_a_square();
    let solved = SmartSolver::new().solve(&board).expect("a solution");
    assert!(solved.is_solved());
    assert_eq!(solved.get(0, 8), 1);
}
