use sudoku::{LoadError, Sudoku};

const EASY: &str =
    "530070000600195000098000060800060003400803001700020006060000280000419005000080079";
const EASY_DOTS: &str =
    "53..7....6..195....98....6.8...6...34..8.3..17...2...6.6....28....419..5....8..79";

/// The picture of a board, drawn cell by cell.
fn drawn(board: &Sudoku) -> String {
    let mut out = String::new();
    out.push_str("╔═══╤═══╤═══╦═══╤═══╤═══╦═══╤═══╤═══╗\n");
    for row in 0..9 {
        out.push('║');
        for col in 0..9 {
            let value = board.get(row, col);
            if value == 0 {
                out.push_str("   ");
            } else {
                out.push_str(&format!(" {} ", value));
            }
            if col == 2 || col == 5 {
                out.push('║');
            } else if col != 8 {
                out.push('│');
            }
        }
        out.push_str("║\n");
        if row == 2 || row == 5 {
            out.push_str("╠═══╪═══╪═══╬═══╪═══╪═══╬═══╪═══╪═══╣\n");
        } else if row != 8 {
            out.push_str("╟───┼───┼───╫───┼───┼───╫───┼───┼───╢\n");
        }
    }
    out.push_str("╚═══╧═══╧═══╩═══╧═══╧═══╩═══╧═══╧═══╝");
    out
}

#[test]
fn load_then_dump_gives_the_text_back() {
    let mut board = Sudoku::new();
    assert_eq!(board.load_board_from_str(EASY, '0'), Ok(()));
    assert_eq!(board.get_board_as_str(), EASY);
    let all_nines = "9".repeat(81);
    assert_eq!(board.load_board_from_str(&all_nines, '0'), Ok(()));
    assert_eq!(board.get_board_as_str(), all_nines);
    let empty = "0".repeat(81);
    assert_eq!(board.load_board_from_str(&empty, '0'), Ok(()));
    assert_eq!(board.get_board_as_str(), empty);
}

#[test]
fn load_reads_row_by_row() {
    let mut board = Sudoku::new();
    assert!(board.load_board_from_str(EASY, '0').is_ok());
    assert_eq!(board.get(0, 0), 5);
    assert_eq!(board.get(0, 1), 3);
    assert_eq!(board.get(0, 4), 7);
    assert_eq!(board.get(1, 0), 6);
    assert_eq!(board.get(8, 8), 9);
    assert_eq!(board.get(8, 7), 7);
    assert_eq!(board.get(0, 2), 0);
    assert_eq!(board.get_open_cells().len(), 51);
    assert!(board.is_valid());
}

#[test]
fn load_lists_the_open_cells_row_by_row() {
    let mut board = Sudoku::new();
    board.set(8, 8, 1, true);
    board.unset(8, 8, false);
    assert!(board.load_board_from_str(EASY, '0').is_ok());
    let mut want = Vec::new();
    for (i, c) in EASY.chars().enumerate() {
        if c == '0' {
            want.push((i / 9, i % 9));
        }
    }
    assert_eq!(board.get_open_cells(), want);
}

#[test]
fn load_with_another_blank_character() {
    let mut board = Sudoku::new();
    assert_eq!(board.load_board_from_str(EASY_DOTS, '.'), Ok(()));
    assert_eq!(board.get_board_as_str(), EASY);
    let mut wide = Sudoku::new();
    let text: String = EASY.chars().map(|c| if c == '0' { '·' } else { c }).collect();
    assert_eq!(wide.load_board_from_str(&text, '·'), Ok(()));
    assert_eq!(wide.get_board_as_str(), EASY);
}

#[test]
fn load_takes_the_blank_character_before_the_digit() {
    let mut board = Sudoku::new();
    assert_eq!(board.load_board_from_str(EASY, '5'), Err(LoadError::InvalidCharacter));
    let text = EASY.replace('0', "5");
    assert_eq!(board.load_board_from_str(&text, '5'), Ok(()));
    assert_eq!(board.get(0, 0), 0);
    assert_eq!(board.get(0, 1), 3);
}

#[test]
fn load_sets_the_flag_by_the_grid() {
    let mut board = Sudoku::new();
    let mut text = String::from("55");
    text.push_str(&"0".repeat(79));
    assert_eq!(board.load_board_from_str(&text, '0'), Ok(()));
    assert!(!board.is_valid());
    assert_eq!(board.get(0, 0), 5);
    assert_eq!(board.get(0, 1), 5);
    assert_eq!(board.load_board_from_str(EASY, '0'), Ok(()));
    assert!(board.is_valid());
}

#[test]
fn load_refuses_another_length() {
    let mut board = Sudoku::new();
    assert_eq!(board.load_board_from_str("", '0'), Err(LoadError::WrongLength));
    assert_eq!(board.load_board_from_str(&EASY[..80], '0'), Err(LoadError::WrongLength));
    let mut long = String::from(EASY);
    long.push('1');
    assert_eq!(board.load_board_from_str(&long, '0'), Err(LoadError::WrongLength));
    let mut long_and_wrong = String::from(EASY);
    long_and_wrong.push('x');
    assert_eq!(board.load_board_from_str(&long_and_wrong, '0'), Err(LoadError::WrongLength));
}

#[test]
fn load_refuses_another_character() {
    let mut board = Sudoku::new();
    let text = EASY.replacen('7', "x", 1);
    assert_eq!(board.load_board_from_str(&text, '0'), Err(LoadError::InvalidCharacter));
    assert_eq!(board.load_board_from_str(EASY, '.'), Err(LoadError::InvalidCharacter));
    assert_eq!(board.load_board_from_str(EASY_DOTS, '0'), Err(LoadError::InvalidCharacter));
    let text = EASY.replacen('7', " ", 1);
    assert_eq!(board.load_board_from_str(&text, '0'), Err(LoadError::InvalidCharacter));
}

#[test]
fn refused_load_leaves_the_board_as_it_was() {
    let mut board = Sudoku::new();
    assert!(board.load_board_from_str(EASY, '0').is_ok());
    board.set(0, 2, 4, false);
    let text = board.get_board_as_str();
    let open = board.get_open_cells();
    assert!(board.load_board_from_str("123", '0').is_err());
    assert!(board.load_board_from_str(&EASY.replacen('7', "x", 1), '0').is_err());
    assert_eq!(board.get_board_as_str(), text);
    assert_eq!(board.get_open_cells(), open);
    assert!(board.is_valid());
}

#[test]
fn dump_writes_zero_for_an_empty_cell() {
    let mut board = Sudoku::new();
    assert_eq!(board.get_board_as_str(), "0".repeat(81));
    board.set(0, 0, 1, false);
    board.set(8, 8, 9, false);
    board.set(4, 0, 7, false);
    let mut want = String::from("1");
    want.push_str(&"0".repeat(35));
    want.push('7');
    want.push_str(&"0".repeat(43));
    want.push('9');
    assert_eq!(board.get_board_as_str(), want);
}

#[test]
fn picture_of_the_empty_board() {
    let board = Sudoku::new();
    let text = board.to_string();
    let lines: Vec<&str> = text.split('\n').collect();
    assert_eq!(lines.len(), 19);
    assert_eq!(lines[0], "╔═══╤═══╤═══╦═══╤═══╤═══╦═══╤═══╤═══╗");
    assert_eq!(lines[1], "║   │   │   ║   │   │   ║   │   │   ║");
    assert_eq!(lines[2], "╟───┼───┼───╫───┼───┼───╫───┼───┼───╢");
    assert_eq!(lines[6], "╠═══╪═══╪═══╬═══╪═══╪═══╬═══╪═══╪═══╣");
    assert_eq!(lines[12], "╠═══╪═══╪═══╬═══╪═══╪═══╬═══╪═══╪═══╣");
    assert_eq!(lines[18], "╚═══╧═══╧═══╩═══╧═══╧═══╩═══╧═══╧═══╝");
    assert_eq!(text, drawn(&board));
}

#[test]
fn picture_of_a_puzzle() {
    let mut board = Sudoku::new();
    assert!(board.load_board_from_str(EASY, '0').is_ok());
    let text = board.to_string();
    let lines: Vec<&str> = text.split('\n').collect();
    assert_eq!(lines.len(), 19);
    assert_eq!(lines[1], "║ 5 │ 3 │   ║   │ 7 │   ║   │   │   ║");
    assert_eq!(lines[3], "║ 6 │   │   ║ 1 │ 9 │ 5 ║   │   │   ║");
    assert_eq!(lines[17], "║   │   │   ║   │ 8 │   ║   │ 7 │ 9 ║");
    assert_eq!(text, drawn(&board));
    assert!(!text.ends_with('\n'));
}
