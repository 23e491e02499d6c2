//! The 81-character text form of a grid: reading it into a board and
//! writing a board out.
use crate::board::Sudoku;
use crate::cells::{lemma_all_cells_row_major, lemma_without_row_major, row_major};
use crate::grid::{cell, valid};
use vstd::prelude::*;
use vstd::string::StrSliceExecFns;
use vstd::string::StringExecFns;

verus! {

/// Why a text was not loaded.
#[derive(Debug, Clone, Copy, PartialEq, Eq, Structural)]
pub enum LoadError {
    /// The text is not 81 characters long.
    WrongLength,
    /// A character is neither the blank character nor a digit from 1 to 9.
    InvalidCharacter,
}

/// The cell value a character stands for: 0 for the blank character,
/// the digit for `'1'` to `'9'`, nothing for any other character.
pub open spec fn char_value(c: char, null_char: char) -> Option<u8> {
    if c == null_char {
        Some(0u8)
    } else if '1' <= c <= '9' {
        Some((c as u32 - '0' as u32) as u8)
    } else {
        None
    }
}

/// The text can be loaded: 81 characters, each with a value.
pub open spec fn loadable(text: Seq<char>, null_char: char) -> bool {
    text.len() == 81 && forall|i: int| 0 <= i < 81 ==> (#[trigger] char_value(text[i], null_char)).is_some()
}

/// The grid that a loadable text stands for.
pub open spec fn parsed(text: Seq<char>, null_char: char) -> Seq<u8> {
    Seq::new(81, |i: int| char_value(text[i], null_char).unwrap())
}

/// The error for a text that cannot be loaded.
pub open spec fn load_error(text: Seq<char>) -> LoadError {
    if text.len() != 81 {
        LoadError::WrongLength
    } else {
        LoadError::InvalidCharacter
    }
}

/// The character written for a cell value: `'0'` for an empty cell.
pub open spec fn digit_char(v: u8) -> char {
    ('0' as u32 + v as u32) as char
}

/// The text form of a grid: one digit per cell, row by row.
pub open spec fn rendered(g: Seq<u8>) -> Seq<char> {
    Seq::new(g.len(), |i: int| digit_char(g[i]))
}

/// The picture of one cell: its digit between two blanks, or three
/// blanks if it is empty.
pub open spec fn cell_picture(v: u8) -> Seq<char> {
    if v == 0 {
        "   "@
    } else {
        " "@ + seq![digit_char(v)] + " "@
    }
}

/// The bar to the right of column `col`: double at the edge of a
/// square, single within one, none after the last column.
pub open spec fn bar_after(col: int) -> Seq<char> {
    if col == 2 || col == 5 {
        "║"@
    } else if col != 8 {
        "│"@
    } else {
        Seq::empty()
    }
}

/// The rule below row `row`, with its line break: double at the edge
/// of a square, single within one, none below the last row.
pub open spec fn rule_after(row: int) -> Seq<char> {
    if row == 2 || row == 5 {
        "╠═══╪═══╪═══╬═══╪═══╪═══╬═══╪═══╪═══╣"@ + "\n"@
    } else if row != 8 {
        "╟───┼───┼───╫───┼───┼───╫───┼───┼───╢"@ + "\n"@
    } else {
        Seq::empty()
    }
}

/// The picture of a row up to and without column `n`.
pub open spec fn row_picture(g: Seq<u8>, row: int, n: int) -> Seq<char>
    decreases n,
{
    if n <= 0 {
        "║"@
    } else {
        row_picture(g, row, n - 1) + cell_picture(cell(g, row, n - 1)) + bar_after(n - 1)
    }
}

/// The picture of the grid up to and without row `n`.
pub open spec fn rows_picture(g: Seq<u8>, n: int) -> Seq<char>
    decreases n,
{
    if n <= 0 {
        "╔═══╤═══╤═══╦═══╤═══╤═══╦═══╤═══╤═══╗"@ + "\n"@
    } else {
        rows_picture(g, n - 1) + (row_picture(g, n - 1, 9) + "║"@ + "\n"@) + rule_after(n - 1)
    }
}

/// The picture of the grid: a frame of box-drawing characters, heavy
/// lines round the squares, one line of text per row and per rule.
pub open spec fn picture(g: Seq<u8>) -> Seq<char> {
    rows_picture(g, 9) + "╚═══╧═══╧═══╩═══╧═══╧═══╩═══╧═══╧═══╝"@
}

/// The value of one character of a board text.
fn value_of_char(c: char, null_char: char) -> (r: Option<u8>)
    ensures
        r == char_value(c, null_char),
{
    if c == null_char {
        Some(0)
    } else if '1' <= c && c <= '9' {
        Some((c as u32 - '0' as u32) as u8)
    } else {
        None
    }
}

/// The one-character text of a cell value.
fn digit_str(value: u8) -> (r: &'static str)
    requires
        value <= 9,
    ensures
        r@ == seq![digit_char(value)],
{
    proof {
        reveal_strlit("0");
        reveal_strlit("1");
        reveal_strlit("2");
        reveal_strlit("3");
        reveal_strlit("4");
        reveal_strlit("5");
        reveal_strlit("6");
        reveal_strlit("7");
        reveal_strlit("8");
        reveal_strlit("9");
    }
    let r = match value {
        0 => "0",
        1 => "1",
        2 => "2",
        3 => "3",
        4 => "4",
        5 => "5",
        6 => "6",
        7 => "7",
        8 => "8",
        _ => "9",
    };
    proof {
        assert(r@ =~= seq![digit_char(value)]);
    }
    r
}

impl Sudoku {
    /// Replaces the board by the grid that `board` spells out, row by
    /// row: `null_char` for an empty cell, `'1'` to `'9'` for a value.
    /// The validity flag then says whether that grid is free of
    /// duplicates.  A text of another length or with another character
    /// is refused, and the board is left as it was.
    pub fn load_board_from_str(&mut self, board: &str, null_char: char) -> (r: Result<(), LoadError>)
        ensures
            r.is_ok() <==> loadable(board@, null_char),
            r.is_ok() ==> {
                &&& final(self).wf()
                &&& final(self)@ == parsed(board@, null_char)
                &&& final(self).valid_flag() == valid(final(self)@)
                &&& row_major(final(self).open_cells())
            },
            r.is_err() ==> r == Err::<(), LoadError>(load_error(board@)) && *final(self) == *old(self),
    {
        if board.unicode_len() != 81 {
            return Err(LoadError::WrongLength);
        }
        let mut fresh = Sudoku::new();
        let mut i: usize = 0;
        proof {
            lemma_all_cells_row_major();
        }
        while i < 81
            invariant
                i <= 81,
                board@.len() == 81,
                fresh.wf(),
                row_major(fresh.open_cells()),
                forall|j: int| 0 <= j < i ==> (#[trigger] char_value(board@[j], null_char)).is_some(),
                forall|j: int|
                    0 <= j < 81 ==> #[trigger] fresh@[j] == (if j < i {
                        char_value(board@[j], null_char).unwrap()
                    } else {
                        0
                    }),
            decreases 81 - i,
        {
            let c = board.get_char(i);
            match value_of_char(c, null_char) {
                None => {
                    return Err(LoadError::InvalidCharacter);
                },
                Some(value) => {
                    if value != 0 {
                        proof {
                            lemma_without_row_major(fresh.open_cells(), i / 9, i % 9);
                        }
                        fresh.set(i / 9, i % 9, value, true);
                    }
                },
            }
            i += 1;
        }
        fresh.recheck_validity();
        proof {
            assert(fresh@ =~= parsed(board@, null_char));
        }
        *self = fresh;
        Ok(())
    }

    /// The picture of one cell.
    fn cell_to_string(value: u8) -> (r: String)
        requires
            value <= 9,
        ensures
            r@ == cell_picture(value),
    {
        let mut text = String::new();
        if value == 0 {
            text.append("   ");
        } else {
            text.append(" ");
            text.append(digit_str(value));
            text.append(" ");
        }
        text
    }

    /// The picture of one row, from the left edge to the right one.
    fn row_to_string(&self, row: usize) -> (r: String)
        requires
            self.wf(),
            row < 9,
        ensures
            r@ == row_picture(self@, row as int, 9) + "║"@ + "\n"@,
    {
        let mut text = String::new();
        text.append("║");
        let mut col: usize = 0;
        while col < 9
            invariant
                col <= 9,
                row < 9,
                self.wf(),
                text@ == row_picture(self@, row as int, col as int),
            decreases 9 - col,
        {
            let value = self.get(row, col);
            let shown = Self::cell_to_string(value);
            text.append(shown.as_str());
            if col == 2 || col == 5 {
                text.append("║");
            } else if col != 8 {
                text.append("│");
            } else {
                proof {
                    assert(text@ + Seq::<char>::empty() =~= text@);
                }
            }
            col += 1;
        }
        text.append("║");
        text.append("\n");
        text
    }

    /// The picture of the board: the grid in a frame of box-drawing
    /// characters with heavy lines round the squares.
    pub fn to_string(&self) -> (r: String)
        requires
            self.wf(),
        ensures
            r@ == picture(self@),
    {
        let mut result = String::new();
        result.append("╔═══╤═══╤═══╦═══╤═══╤═══╦═══╤═══╤═══╗");
        result.append("\n");
        let mut row: usize = 0;
        while row < 9
            invariant
                row <= 9,
                self.wf(),
                result@ == rows_picture(self@, row as int),
            decreases 9 - row,
        {
            let line = self.row_to_string(row);
            result.append(line.as_str());
            if row == 2 || row == 5 {
                let ghost before = result@;
                result.append("╠═══╪═══╪═══╬═══╪═══╪═══╬═══╪═══╪═══╣");
                result.append("\n");
                proof {
                    assert(result@ =~= before + rule_after(row as int));
                }
            } else if row != 8 {
                let ghost before = result@;
                result.append("╟───┼───┼───╫───┼───┼───╫───┼───┼───╢");
                result.append("\n");
                proof {
                    assert(result@ =~= before + rule_after(row as int));
                }
            } else {
                proof {
                    assert(result@ + Seq::<char>::empty() =~= result@);
                }
            }
            row += 1;
        }
        result.append("╚═══╧═══╧═══╩═══╧═══╧═══╩═══╧═══╧═══╝");
        result
    }

    /// The board as 81 digits, row by row, `'0'` for an empty cell.
    pub fn get_board_as_str(&self) -> (r: String)
        requires
            self.wf(),
        ensures
            r@ == rendered(self@),
    {
        let mut board = String::new();
        let mut row: usize = 0;
        while row < 9
            invariant
                row <= 9,
                self.wf(),
                board@ == rendered(self@.take(row * 9)),
            decreases 9 - row,
        {
            let mut col: usize = 0;
            while col < 9
                invariant
                    row < 9,
                    col <= 9,
                    self.wf(),
                    board@ == rendered(self@.take(row * 9 + col)),
                decreases 9 - col,
            {
                let value = self.get(row, col);
                board.append(digit_str(value));
                proof {
                    assert(rendered(self@.take(row * 9 + col + 1)) =~= rendered(
                        self@.take(row * 9 + col),
                    ) + seq![digit_char(value)]);
                }
                col += 1;
            }
            row += 1;
        }
        proof {
            assert(self@.take(81) =~= self@);
        }
        board
    }
}

} // verus!
