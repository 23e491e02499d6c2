use sudoku::Sudoku;

const EASY: &str =
    "530070000600195000098000060800060003400803001700020006060000280000419005000080079";
const EASY_SOLVED: &str =
    "534678912672195348198342567859761423426853791713924856961537284287419635345286179";

fn loaded(text: &str) -> Sudoku {
    let mut board = Sudoku::new();
    assert!(board.load_board_from_str(text, '0').is_ok());
    board
}

/// Whether no row, column or square of the board holds a value twice.
fn scan_is_valid(board: &Sudoku) -> bool {
    for i in 0..9 {
        let mut row = [0u8; 10];
        let mut col = [0u8; 10];
        let mut square = [0u8; 10];
        for j in 0..9 {
            row[board.get(i, j) as usize] += 1;
            col[board.get(j, i) as usize] += 1;
            square[board.get((i / 3) * 3 + j / 3, (i % 3) * 3 + j % 3) as usize] += 1;
        }
        for v in 1..10 {
            if row[v] > 1 || col[v] > 1 || square[v] > 1 {
                return false;
            }
        }
    }
    true
}

/// The candidates of a cell, found by looking at every cell of its houses.
fn scan_candidates(board: &Sudoku, row: usize, col: usize) -> Vec<u8> {
    let mut out = Vec::new();
    for v in 1..=9u8 {
        let mut seen = false;
        for k in 0..9 {
            if board.get(row, k) == v || board.get(k, col) == v {
                seen = true;
            }
            if board.get((row / 3) * 3 + k / 3, (col / 3) * 3 + k % 3) == v {
                seen = true;
            }
        }
        if !seen {
            out.push(v);
        }
    }
    out
}

#[test]
fn new_board_is_empty_valid_and_open() {
    let board = Sudoku::new();
    for row in 0..9 {
        for col in 0..9 {
            assert_eq!(board.get(row, col), 0);
        }
    }
    assert!(board.is_valid());
    assert!(!board.is_solved());
    let open = board.get_open_cells();
    assert_eq!(open.len(), 81);
    for (i, cell) in open.iter().enumerate() {
        assert_eq!(*cell, (i / 9, i % 9));
    }
}

#[test]
fn index_to_row_col_splits_by_nine() {
    assert_eq!(Sudoku::index_to_row_col(0), (0, 0));
    assert_eq!(Sudoku::index_to_row_col(8), (0, 8));
    assert_eq!(Sudoku::index_to_row_col(9), (1, 0));
    assert_eq!(Sudoku::index_to_row_col(40), (4, 4));
    assert_eq!(Sudoku::index_to_row_col(80), (8, 8));
}

#[test]
fn set_writes_one_cell_and_closes_it() {
    let mut board = Sudoku::new();
    board.set(4, 7, 3, false);
    for row in 0..9 {
        for col in 0..9 {
            let want = if (row, col) == (4, 7) { 3 } else { 0 };
            assert_eq!(board.get(row, col), want);
        }
    }
    let open = board.get_open_cells();
    assert_eq!(open.len(), 80);
    assert!(!open.contains(&(4, 7)));
    let mut want = Vec::new();
    for i in 0..81 {
        if i != 4 * 9 + 7 {
            want.push((i / 9, i % 9));
        }
    }
    assert_eq!(open, want);
    assert!(board.is_valid());
}

#[test]
fn set_accepts_every_value_in_every_corner() {
    for value in 1..=9u8 {
        let mut board = Sudoku::new();
        board.set(0, 0, value, false);
        board.set(8, 8, value, false);
        board.set(0, 8, 10 - value, true);
        assert_eq!(board.get(0, 0), value);
        assert_eq!(board.get(8, 8), value);
        assert_eq!(board.get(0, 8), 10 - value);
        assert_eq!(board.get(8, 0), 0);
    }
}

#[test]
fn set_overwrites_the_old_value() {
    let mut board = Sudoku::new();
    board.set(0, 0, 5, false);
    board.set(0, 0, 7, false);
    assert_eq!(board.get(0, 0), 7);
    assert_eq!(board.get_open_cells().len(), 80);
    assert_eq!(board.get_pencil_marks(0, 1), vec![1, 2, 3, 4, 5, 6, 8, 9]);
    assert_eq!(board.get_pencil_marks(1, 1), vec![1, 2, 3, 4, 5, 6, 8, 9]);
    assert_eq!(board.get_pencil_marks(8, 0), vec![1, 2, 3, 4, 5, 6, 8, 9]);
    assert!(board.is_valid());
}

#[test]
fn unset_of_an_empty_cell_changes_nothing() {
    let mut board = loaded(EASY);
    let before = board.get_open_cells();
    board.unset(0, 2, true);
    assert_eq!(board.get_open_cells(), before);
    assert_eq!(board.get_board_as_str(), EASY);
    assert!(board.is_valid());
}

#[test]
fn unset_empties_the_cell_and_lists_it_last() {
    let mut board = loaded(EASY);
    let mut want = board.get_open_cells();
    board.unset(0, 0, false);
    want.push((0, 0));
    assert_eq!(board.get(0, 0), 0);
    assert_eq!(board.get_open_cells(), want);
    assert_eq!(board.get_pencil_marks(0, 0), vec![1, 2, 5]);
}

#[test]
fn checked_set_finds_a_duplicate_in_a_row() {
    let mut board = Sudoku::new();
    board.set(2, 0, 5, false);
    assert!(board.is_valid());
    board.set(2, 8, 5, false);
    assert!(!board.is_valid());
}

#[test]
fn checked_set_finds_a_duplicate_in_a_column() {
    let mut board = Sudoku::new();
    board.set(0, 3, 9, false);
    board.set(8, 3, 9, false);
    assert!(!board.is_valid());
}

#[test]
fn checked_set_finds_a_duplicate_in_a_square() {
    let mut board = Sudoku::new();
    board.set(3, 3, 1, false);
    board.set(5, 4, 1, false);
    assert!(!board.is_valid());
}

#[test]
fn different_values_in_one_house_are_valid() {
    let mut board = Sudoku::new();
    for col in 0..9 {
        board.set(0, col, col as u8 + 1, false);
    }
    assert!(board.is_valid());
    assert!(scan_is_valid(&board));
}

#[test]
fn unchecked_set_leaves_the_flag_alone() {
    let mut board = Sudoku::new();
    board.set(0, 0, 5, true);
    board.set(0, 1, 5, true);
    assert!(board.is_valid());
    assert!(!scan_is_valid(&board));
    assert!(!board.recheck_validity());
    assert!(!board.is_valid());
}

#[test]
fn set_does_not_raise_the_flag_again() {
    let mut board = Sudoku::new();
    board.set(0, 0, 5, false);
    board.set(0, 1, 5, false);
    assert!(!board.is_valid());
    board.set(0, 1, 6, false);
    assert!(scan_is_valid(&board));
    assert!(!board.is_valid());
    assert!(board.recheck_validity());
    assert!(board.is_valid());
}

#[test]
fn unset_with_check_looks_at_the_houses_of_the_cell() {
    let mut board = Sudoku::new();
    board.set(0, 0, 5, false);
    board.set(0, 1, 5, false);
    assert!(!board.is_valid());
    board.unset(0, 1, true);
    assert!(board.is_valid());
    board.set(0, 1, 5, false);
    board.set(4, 4, 2, false);
    board.unset(4, 4, true);
    assert!(board.is_valid());
    assert!(!scan_is_valid(&board));
}

#[test]
fn unset_without_check_leaves_the_flag_alone() {
    let mut board = Sudoku::new();
    board.set(0, 0, 5, false);
    board.set(0, 1, 5, false);
    board.unset(0, 1, false);
    assert!(!board.is_valid());
    assert!(scan_is_valid(&board));
}

#[test]
fn flag_tells_the_truth_while_calls_start_from_a_valid_board() {
    let mut state: u64 = 0x2545F4914F6CDD1D;
    for _ in 0..40 {
        let mut board = Sudoku::new();
        for _ in 0..60 {
            state = state.wrapping_mul(6364136223846793005).wrapping_add(1442695040888963407);
            let row = ((state >> 33) % 9) as usize;
            let col = ((state >> 40) % 9) as usize;
            let value = ((state >> 47) % 9) as u8 + 1;
            let kind = (state >> 60) % 4;
            if kind == 0 {
                board.unset(row, col, (state >> 59) % 2 == 0);
            } else {
                board.set(row, col, value, false);
            }
            assert_eq!(board.is_valid(), scan_is_valid(&board));
            if !board.is_valid() {
                break;
            }
        }
    }
}

#[test]
fn recheck_agrees_with_a_scan_after_any_calls() {
    let mut state: u64 = 0x9E3779B97F4A7C15;
    let mut board = Sudoku::new();
    for _ in 0..2000 {
        state = state.wrapping_mul(6364136223846793005).wrapping_add(1442695040888963407);
        let row = ((state >> 33) % 9) as usize;
        let col = ((state >> 40) % 9) as usize;
        let value = ((state >> 47) % 9) as u8 + 1;
        match (state >> 60) % 4 {
            0 => board.unset(row, col, true),
            1 => board.unset(row, col, false),
            2 => board.set(row, col, value, true),
            _ => board.set(row, col, value, false),
        }
        let before = board.get_board_as_str();
        let open = board.get_open_cells();
        assert_eq!(board.recheck_validity(), scan_is_valid(&board));
        assert_eq!(board.is_valid(), scan_is_valid(&board));
        assert_eq!(board.get_board_as_str(), before);
        assert_eq!(board.get_open_cells(), open);
        let mut empty = 0;
        for r in 0..9 {
            for c in 0..9 {
                if board.get(r, c) == 0 {
                    empty += 1;
                    assert!(open.contains(&(r, c)));
                }
            }
        }
        assert_eq!(open.len(), empty);
    }
}

#[test]
fn solved_needs_every_cell_filled_and_the_flag() {
    let board = loaded(EASY_SOLVED);
    assert!(board.is_valid());
    assert!(board.is_solved());
    assert!(board.get_open_cells().is_empty());

    let open = loaded(EASY);
    assert!(open.is_valid());
    assert!(!open.is_solved());

    let mut wrong = loaded(EASY_SOLVED);
    wrong.set(0, 0, 3, false);
    assert!(wrong.get_open_cells().is_empty());
    assert!(!wrong.is_valid());
    assert!(!wrong.is_solved());

    let mut one_missing = loaded(EASY_SOLVED);
    one_missing.unset(8, 8, true);
    assert!(one_missing.is_valid());
    assert!(!one_missing.is_solved());
}

#[test]
fn pencil_marks_of_a_known_cell() {
    let board = loaded(EASY);
    assert_eq!(board.get_pencil_marks(0, 2), vec![1, 2, 4]);
    assert_eq!(board.get_pencil_marks_raw(0, 2), 0b000001011);
    assert_eq!(board.get_pencil_marks(4, 4), vec![5]);
    assert_eq!(board.get_pencil_marks_raw(4, 4), 0b000010000);
}

#[test]
fn pencil_marks_of_the_empty_board_are_all_values() {
    let board = Sudoku::new();
    assert_eq!(board.get_pencil_marks(3, 5), vec![1, 2, 3, 4, 5, 6, 7, 8, 9]);
    assert_eq!(board.get_pencil_marks_raw(3, 5), 0b111111111);
}

#[test]
fn pencil_marks_are_the_values_absent_from_the_houses() {
    let board = loaded(EASY);
    for row in 0..9 {
        for col in 0..9 {
            let want = scan_candidates(&board, row, col);
            assert_eq!(board.get_pencil_marks(row, col), want);
            let mut mask = 0u16;
            for v in &want {
                mask |= 1 << (v - 1);
            }
            assert_eq!(board.get_pencil_marks_raw(row, col), mask);
        }
    }
}

#[test]
fn pencil_marks_of_a_filled_cell_leave_out_its_own_value() {
    let board = loaded(EASY_SOLVED);
    for row in 0..9 {
        for col in 0..9 {
            assert!(board.get_pencil_marks(row, col).is_empty());
            assert_eq!(board.get_pencil_marks_raw(row, col), 0);
        }
    }
}

#[test]
fn clone_is_independent_of_its_source() {
    let board = loaded(EASY);
    let mut copy = board.clone();
    copy.set(0, 2, 4, false);
    assert_eq!(board.get(0, 2), 0);
    assert_eq!(copy.get(0, 2), 4);
    assert_eq!(board.get_board_as_str(), EASY);
    assert_eq!(board.get_open_cells().len(), copy.get_open_cells().len() + 1);
}
