use sudoku::{Outcome, SmartSolver, Solver, Sudoku, BBFS, BDSS};

const EASY: &str =
    "530070000600195000098000060800060003400803001700020006060000280000419005000080079";
const EASY_SOLVED: &str =
    "534678912672195348198342567859761423426853791713924856961537284287419635345286179";
const MEDIUM: &str =
    "003020600900305001001806400008102900700000008006708200002609500800203009005010300";
const MEDIUM_SOLVED: &str =
    "483921657967345821251876493548132976729564138136798245372689514814253769695417382";
const HARD: &str =
    "000000010400000000020000000000050407008000300001090000300400200050100000000806000";
const HARD_SOLVED: &str =
    "693784512487512936125963874932651487568247391741398625319475268856129743274836159";

fn loaded(text: &str) -> Sudoku {
    let mut board = Sudoku::new();
    assert!(board.load_board_from_str(text, '0').is_ok());
    board
}

/// Whether the text is a complete grid without duplicates that keeps
/// the values of the puzzle.
fn is_solution_of(text: &str, puzzle: &str) -> bool {
    let s: Vec<u8> = text.bytes().map(|b| b - b'0').collect();
    let p: Vec<u8> = puzzle.bytes().map(|b| b - b'0').collect();
    if s.len() != 81 || s.iter().any(|v| *v < 1 || *v > 9) {
        return false;
    }
    for i in 0..81 {
        if p[i] != 0 && p[i] != s[i] {
            return false;
        }
    }
    for u in 0..9 {
        let mut row = [false; 10];
        let mut col = [false; 10];
        let mut square = [false; 10];
        for k in 0..9 {
            let r = s[u * 9 + k] as usize;
            let c = s[k * 9 + u] as usize;
            let q = s[((u / 3) * 3 + k / 3) * 9 + (u % 3) * 3 + k % 3] as usize;
            if row[r] || col[c] || square[q] {
                return false;
            }
            row[r] = true;
            col[c] = true;
            square[q] = true;
        }
    }
    true
}

fn two_fives_in_a_row() -> Sudoku {
    let mut board = Sudoku::new();
    board.set(0, 0, 5, false);
    board.set(0, 1, 5, false);
    board
}

/// Valid, but the last cell of the first row has no candidate.
fn blocked_cell() -> Sudoku {
    let mut board = Sudoku::new();
    for col in 0..8 {
        board.set(0, col, col as u8 + 1, false);
    }
    board.set(1, 8, 9, false);
    assert!(board.is_valid());
    board
}

#[test]
fn easy_puzzle_by_backtracking() {
    let board = loaded(EASY);
    let solved = BDSS::new().solve(&board).expect("a solution");
    assert_eq!(solved.get_board_as_str(), EASY_SOLVED);
    assert!(solved.is_solved());
    assert!(solved.is_valid());
    assert!(solved.get_open_cells().is_empty());
    assert_eq!(board.get_board_as_str(), EASY);
}

#[test]
fn easy_puzzle_by_propagation() {
    let board = loaded(EASY);
    let solved = SmartSolver::new().solve(&board).expect("a solution");
    assert_eq!(solved.get_board_as_str(), EASY_SOLVED);
    assert!(solved.is_solved());
    assert_eq!(board.get_board_as_str(), EASY);
}

#[test]
fn easy_puzzle_by_brute_force() {
    let board = loaded(EASY);
    let solved = BBFS::new().solve(&board).expect("a solution");
    assert_eq!(solved.get_board_as_str(), EASY_SOLVED);
    assert!(solved.is_solved());
    assert_eq!(board.get_board_as_str(), EASY);
}

#[test]
fn easy_puzzle_in_place() {
    let mut board = loaded(EASY);
    assert_eq!(board.solve(&SmartSolver::new()), Outcome::Solved);
    assert_eq!(board.get_board_as_str(), EASY_SOLVED);
    assert!(board.is_solved());
    let mut board = loaded(EASY);
    assert_eq!(board.solve(&BDSS::new()), Outcome::Solved);
    assert_eq!(board.get_board_as_str(), EASY_SOLVED);
    let mut board = loaded(EASY);
    assert_eq!(board.solve(&BBFS::new()), Outcome::Solved);
    assert_eq!(board.get_board_as_str(), EASY_SOLVED);
}

#[test]
fn strategies_are_interchangeable() {
    let strategies: Vec<Box<dyn Solver>> =
        vec![Box::new(BBFS::new()), Box::new(BDSS::new()), Box::new(SmartSolver::new())];
    for strategy in &strategies {
        let mut board = loaded(MEDIUM);
        assert_eq!(board.solve(strategy.as_ref()), Outcome::Solved);
        assert_eq!(board.get_board_as_str(), MEDIUM_SOLVED);
    }
}

#[test]
fn solvers_agree_on_a_puzzle_with_one_solution() {
    for (puzzle, solution) in [(EASY, EASY_SOLVED), (MEDIUM, MEDIUM_SOLVED), (HARD, HARD_SOLVED)] {
        assert!(is_solution_of(solution, puzzle));
        let board = loaded(puzzle);
        let by_search = BDSS::new().solve(&board).expect("a solution");
        let by_logic = SmartSolver::new().solve(&board).expect("a solution");
        assert_eq!(by_search.get_board_as_str(), solution);
        assert_eq!(by_logic.get_board_as_str(), solution);
    }
}

#[test]
fn two_equal_values_in_a_row_have_no_solution() {
    let board = two_fives_in_a_row();
    assert!(BDSS::new().solve(&board).is_none());
    assert!(SmartSolver::new().solve(&board).is_none());
    assert!(BBFS::new().solve(&board).is_none());
}

#[test]
fn a_duplicate_is_found_whatever_the_flag_says() {
    let mut board = Sudoku::new();
    board.set(0, 0, 5, true);
    board.set(0, 1, 5, true);
    assert!(board.is_valid());
    assert!(BDSS::new().solve(&board).is_none());
    assert!(SmartSolver::new().solve(&board).is_none());
    assert!(BBFS::new().solve(&board).is_none());

    let mut text = String::from("55");
    text.push_str(&"0".repeat(79));
    let board = loaded(&text);
    assert!(BDSS::new().solve(&board).is_none());
    assert!(SmartSolver::new().solve(&board).is_none());
}

#[test]
fn a_cell_without_candidates_has_no_solution() {
    let board = blocked_cell();
    assert!(board.get_pencil_marks(0, 8).is_empty());
    assert!(BDSS::new().solve(&board).is_none());
    assert!(SmartSolver::new().solve(&board).is_none());
}

#[test]
fn unsolvable_in_place_leaves_the_board() {
    let mut board = two_fives_in_a_row();
    let text = board.get_board_as_str();
    let open = board.get_open_cells();
    assert_eq!(board.solve(&BDSS::new()), Outcome::Unsolvable);
    assert_eq!(board.solve(&SmartSolver::new()), Outcome::Unsolvable);
    assert_eq!(board.solve(&BBFS::new()), Outcome::Unsolvable);
    assert_eq!(board.get_board_as_str(), text);
    assert_eq!(board.get_open_cells(), open);
    assert!(!board.is_valid());
}

#[test]
fn solving_a_solved_board_returns_it() {
    let board = loaded(EASY_SOLVED);
    assert!(board.is_solved());
    for solved in [
        BDSS::new().solve(&board).expect("the board"),
        SmartSolver::new().solve(&board).expect("the board"),
        BBFS::new().solve(&board).expect("the board"),
    ] {
        assert_eq!(solved.get_board_as_str(), EASY_SOLVED);
        assert!(solved.is_solved());
        assert!(solved.get_open_cells().is_empty());
    }
}

#[test]
fn a_stale_flag_does_not_hide_a_solution() {
    let mut board = loaded(EASY);
    board.set(0, 2, 5, false);
    assert!(!board.is_valid());
    board.unset(0, 2, false);
    assert!(!board.is_valid());
    let solved = BDSS::new().solve(&board).expect("a solution");
    assert_eq!(solved.get_board_as_str(), EASY_SOLVED);
    assert!(solved.is_solved());
    let solved = SmartSolver::new().solve(&board).expect("a solution");
    assert_eq!(solved.get_board_as_str(), EASY_SOLVED);
    assert!(solved.is_solved());
}

#[test]
fn the_empty_board_is_solved_by_search() {
    let board = Sudoku::new();
    let empty = "0".repeat(81);
    let solved = BDSS::new().solve(&board).expect("a solution");
    assert!(is_solution_of(&solved.get_board_as_str(), &empty));
    let solved = SmartSolver::new().solve(&board).expect("a solution");
    assert!(is_solution_of(&solved.get_board_as_str(), &empty));
}

#[test]
fn a_puzzle_with_several_solutions_gets_one_of_them() {
    let mut text = String::from(&EASY[..27]);
    text.push_str(&"0".repeat(54));
    let board = loaded(&text);
    let solved = BDSS::new().solve(&board).expect("a solution");
    assert!(is_solution_of(&solved.get_board_as_str(), &text));
    let solved = SmartSolver::new().solve(&board).expect("a solution");
    assert!(is_solution_of(&solved.get_board_as_str(), &text));
}

#[test]
fn brute_force_returns_the_least_solution() {
    // Four cells of the solved grid that can be filled in two ways.
    let mut board = loaded(EASY_SOLVED);
    for (row, col) in [(2, 4), (2, 5), (5, 4), (5, 5)] {
        board.unset(row, col, true);
    }
    assert_eq!(board.get_open_cells(), vec![(2, 4), (2, 5), (5, 4), (5, 5)]);
    assert_eq!(board.get_pencil_marks(2, 4), vec![2, 4]);
    let puzzle = board.get_board_as_str();
    assert!(is_solution_of(EASY_SOLVED, &puzzle));
    let solved = BBFS::new().solve(&board).expect("a solution");
    assert!(is_solution_of(&solved.get_board_as_str(), &puzzle));
    assert_eq!(solved.get(2, 4), 2);
    assert_eq!(solved.get(2, 5), 4);
    assert_eq!(solved.get(5, 4), 4);
    assert_eq!(solved.get(5, 5), 2);
    assert_ne!(solved.get_board_as_str(), EASY_SOLVED);
    for solved in [
        BDSS::new().solve(&board).expect("a solution"),
        SmartSolver::new().solve(&board).expect("a solution"),
    ] {
        assert!(is_solution_of(&solved.get_board_as_str(), &puzzle));
    }
}

#[test]
fn least_variable_cell_is_the_first_with_the_fewest_candidates() {
    let board = loaded(MEDIUM);
    let open = board.get_open_cells();
    let counts: Vec<usize> =
        open.iter().map(|(r, c)| board.get_pencil_marks(*r, *c).len()).collect();
    let ((row, col), values) = BDSS::get_least_variable_cell(&board);
    let want = match counts.iter().position(|n| *n <= 1) {
        Some(i) => i,
        None => {
            let least = *counts.iter().min().expect("an open cell");
            counts.iter().position(|n| *n == least).expect("an open cell")
        },
    };
    assert_eq!((row, col), open[want]);
    assert_eq!(values, board.get_pencil_marks(row, col));
}

#[test]
fn least_variable_cell_stops_at_a_single_candidate() {
    let board = loaded(EASY);
    let ((row, col), values) = BDSS::get_least_variable_cell(&board);
    assert_eq!((row, col), (4, 4));
    assert_eq!(values, vec![5]);
}

#[test]
fn least_variable_cell_of_the_empty_board_is_the_first_cell() {
    let board = Sudoku::new();
    let ((row, col), values) = BDSS::get_least_variable_cell(&board);
    assert_eq!((row, col), (0, 0));
    assert_eq!(values, vec![1, 2, 3, 4, 5, 6, 7, 8, 9]);
}

#[test]
fn least_variable_cell_breaks_ties_by_the_order_of_the_open_cells() {
    let mut board = Sudoku::new();
    board.set(4, 4, 1, false);
    board.set(4, 5, 2, false);
    // (4, 0) and (3, 3) both have seven candidates; (3, 3) comes first.
    let ((row, col), values) = BDSS::get_least_variable_cell(&board);
    assert_eq!((row, col), (3, 3));
    assert_eq!(values, vec![3, 4, 5, 6, 7, 8, 9]);
    // After (3, 3) was filled and emptied again it is listed last.
    board.set(3, 3, 9, false);
    board.unset(3, 3, true);
    let ((row, col), _) = BDSS::get_least_variable_cell(&board);
    assert_eq!((row, col), (3, 4));
}

#[test]
fn least_variable_cell_takes_one_candidate_before_a_later_cell_with_none() {
    let mut board = Sudoku::new();
    // (0, 8) is left with 9 only; (8, 8) with nothing.
    for col in 0..8 {
        board.set(0, col, col as u8 + 1, false);
        board.set(8, col, ((col + 3) % 8) as u8 + 1, false);
    }
    board.set(7, 7, 9, false);
    assert_eq!(board.get_pencil_marks(0, 8), vec![9]);
    assert!(board.get_pencil_marks(8, 8).is_empty());
    let ((row, col), values) = BDSS::get_least_variable_cell(&board);
    assert_eq!((row, col), (0, 8));
    assert_eq!(values, vec![9]);
}

#[test]
fn least_variable_cell_without_open_cells() {
    let board = loaded(EASY_SOLVED);
    let ((row, col), values) = BDSS::get_least_variable_cell(&board);
    assert_eq!((row, col), (0, 0));
    assert!(values.is_empty());
}
