//! Cells by their coordinates: where a cell lies in its square, and
//! the list of open cells, what it must hold and what removing a cell
//! from it does.
use crate::grid::{
    cell, empty_grid, house_col, house_row, in_grid, lemma_cell_place, place, slot_in_square,
    square_of, well_formed, House,
};
use vstd::prelude::*;

verus! {

/// Number of the square that holds the cell.
pub fn square_index(row: usize, col: usize) -> (r: usize)
    requires
        row < 9,
        col < 9,
    ensures
        r == square_of(row as int, col as int),
        r < 9,
{
    (row / 3) * 3 + col / 3
}

/// Position of the cell inside its square, row by row.
pub fn index_in_square(row: usize, col: usize) -> (r: usize)
    requires
        row < 9,
        col < 9,
    ensures
        r == slot_in_square(row as int, col as int),
        r < 9,
{
    (row % 3) * 3 + col % 3
}

/// The cell at position `index` of a square.
pub fn square_cell(square: usize, index: usize) -> (r: (usize, usize))
    requires
        square < 9,
        index < 9,
    ensures
        r.0 == house_row(House::Square, square as int, index as int),
        r.1 == house_col(House::Square, square as int, index as int),
        r.0 < 9,
        r.1 < 9,
{
    ((square / 3) * 3 + index / 3, (square % 3) * 3 + index % 3)
}

/// All 81 coordinates in row-major order.
pub open spec fn all_cells() -> Seq<(usize, usize)> {
    Seq::new(81, |i: int| ((i / 9) as usize, (i % 9) as usize))
}

/// `open` lists exactly the empty cells of `g`, each once.
pub open spec fn lists_open_cells(g: Seq<u8>, open: Seq<(usize, usize)>) -> bool {
    &&& open.no_duplicates()
    &&& forall|i: int|
        0 <= i < open.len() ==> in_grid((#[trigger] open[i]).0 as int, open[i].1 as int) && cell(
            g,
            open[i].0 as int,
            open[i].1 as int,
        ) == 0
    &&& forall|row: int, col: int|
        in_grid(row, col) && #[trigger] cell(g, row, col) == 0 ==> open.contains(
            (row as usize, col as usize),
        )
}

/// The cells come in row-major order: row by row, and from left to
/// right within a row.
pub open spec fn row_major(open: Seq<(usize, usize)>) -> bool {
    forall|i: int, j: int|
        0 <= i < j < open.len() ==> (#[trigger] open[i]).0 * 9 + open[i].1 < (#[trigger] open[j]).0 * 9
            + open[j].1
}

/// Whether `p` is a cell other than `(row, col)`.
pub open spec fn is_other_cell(p: (usize, usize), row: usize, col: usize) -> bool {
    p.0 != row || p.1 != col
}

/// The list without `(row, col)`, the order of the others kept.
pub open spec fn without_cell(open: Seq<(usize, usize)>, row: usize, col: usize) -> Seq<
    (usize, usize),
> {
    open.filter(|p: (usize, usize)| is_other_cell(p, row, col))
}

/// The row-major list of all cells lists the open cells of the empty grid.
pub proof fn lemma_all_cells_list_empty_grid()
    ensures
        lists_open_cells(empty_grid(), all_cells()),
        well_formed(empty_grid()),
{
    let open = all_cells();
    assert forall|row: int, col: int| in_grid(row, col) implies open.contains(
        (row as usize, col as usize),
    ) by {
        let p = row * 9 + col;
        assert(p / 9 == row && p % 9 == col);
        assert(open[p] == (row as usize, col as usize));
    }
}

/// Removing a cell from a list that ends in `p`.
pub proof fn lemma_without_push(open: Seq<(usize, usize)>, p: (usize, usize), row: usize, col: usize)
    ensures
        without_cell(open.push(p), row, col) == (if is_other_cell(p, row, col) {
            without_cell(open, row, col).push(p)
        } else {
            without_cell(open, row, col)
        }),
{
    reveal(Seq::filter);
    assert(open.push(p).drop_last() =~= open);
}

/// What the list without a cell contains.
pub proof fn lemma_without_contains(open: Seq<(usize, usize)>, row: usize, col: usize)
    ensures
        forall|p: (usize, usize)| #[trigger]
            without_cell(open, row, col).contains(p) <==> (open.contains(p) && is_other_cell(
                p,
                row,
                col,
            )),
        without_cell(open, row, col).len() <= open.len(),
    decreases open.len(),
{
    let out = without_cell(open, row, col);
    if open.len() == 0 {
        reveal(Seq::filter);
        assert(out =~= open);
    } else {
        let front = open.drop_last();
        let last = open.last();
        assert(open =~= front.push(last));
        lemma_without_push(front, last, row, col);
        lemma_without_contains(front, row, col);
        let sub = without_cell(front, row, col);
        assert forall|p: (usize, usize)| #[trigger]
            out.contains(p) <==> (open.contains(p) && is_other_cell(p, row, col)) by {
            if out.contains(p) {
                let i = choose|i: int| 0 <= i < out.len() && out[i] == p;
                if i < sub.len() {
                    assert(sub[i] == p);
                    assert(sub.contains(p));
                    let j = choose|j: int| 0 <= j < front.len() && front[j] == p;
                    assert(open[j] == p);
                } else {
                    assert(p == last);
                    assert(open[open.len() - 1] == p);
                }
            }
            if open.contains(p) && is_other_cell(p, row, col) {
                let j = choose|j: int| 0 <= j < open.len() && open[j] == p;
                if j < front.len() {
                    assert(front[j] == p);
                    assert(front.contains(p));
                    assert(sub.contains(p));
                    let i = choose|i: int| 0 <= i < sub.len() && sub[i] == p;
                    assert(out[i] == p);
                } else {
                    assert(out[out.len() - 1] == p);
                }
            }
        }
    }
}

/// Removing a cell keeps the list free of duplicates.
pub proof fn lemma_without_no_duplicates(open: Seq<(usize, usize)>, row: usize, col: usize)
    requires
        open.no_duplicates(),
    ensures
        without_cell(open, row, col).no_duplicates(),
    decreases open.len(),
{
    let out = without_cell(open, row, col);
    if open.len() == 0 {
        reveal(Seq::filter);
        assert(out =~= open);
    } else {
        let front = open.drop_last();
        let last = open.last();
        assert(open =~= front.push(last));
        lemma_without_push(front, last, row, col);
        lemma_without_no_duplicates(front, row, col);
        lemma_without_contains(front, row, col);
        let sub = without_cell(front, row, col);
        if is_other_cell(last, row, col) {
            assert forall|i: int, j: int| 0 <= i < out.len() && 0 <= j < out.len() && i != j implies out[i]
                != out[j] by {
                if i < sub.len() && j < sub.len() {
                } else if i < sub.len() {
                    assert(sub.contains(sub[i]));
                    if sub[i] == last {
                        let k = choose|k: int| 0 <= k < front.len() && front[k] == last;
                        assert(open[k] == open[open.len() - 1]);
                    }
                } else {
                    assert(sub.contains(sub[j]));
                    if sub[j] == last {
                        let k = choose|k: int| 0 <= k < front.len() && front[k] == last;
                        assert(open[k] == open[open.len() - 1]);
                    }
                }
            }
        }
    }
}

/// Removing a cell that is not listed changes nothing; removing one
/// that is listed (once) shortens the list by one.
pub proof fn lemma_without_len(open: Seq<(usize, usize)>, row: usize, col: usize)
    requires
        open.no_duplicates(),
    ensures
        !open.contains((row, col)) ==> without_cell(open, row, col) == open,
        open.contains((row, col)) ==> without_cell(open, row, col).len() + 1 == open.len(),
    decreases open.len(),
{
    let out = without_cell(open, row, col);
    if open.len() == 0 {
        reveal(Seq::filter);
        assert(out =~= open);
    } else {
        let front = open.drop_last();
        let last = open.last();
        assert(open =~= front.push(last));
        lemma_without_push(front, last, row, col);
        lemma_without_len(front, row, col);
        if front.contains((row, col)) {
            let k = choose|k: int| 0 <= k < front.len() && front[k] == (row, col);
            assert(open[k] == (row, col));
            assert(open.contains((row, col)));
            assert(last != (row, col)) by {
                if last == (row, col) {
                    assert(open[k] == open[open.len() - 1]);
                }
            }
        } else {
            if open.contains((row, col)) {
                let k = choose|k: int| 0 <= k < open.len() && open[k] == (row, col);
                if k < front.len() {
                    assert(front[k] == (row, col));
                }
                assert(last == (row, col));
            } else {
                assert(last != (row, col)) by {
                    if last == (row, col) {
                        assert(open[open.len() - 1] == (row, col));
                    }
                }
            }
        }
    }
}

/// Removing a cell keeps the order of the others, so a row-major list
/// stays row-major.
pub proof fn lemma_without_row_major(open: Seq<(usize, usize)>, row: usize, col: usize)
    requires
        row_major(open),
    ensures
        row_major(without_cell(open, row, col)),
        forall|i: int|
            0 <= i < without_cell(open, row, col).len() ==> open.contains(
                #[trigger] without_cell(open, row, col)[i],
            ),
    decreases open.len(),
{
    let out = without_cell(open, row, col);
    if open.len() == 0 {
        reveal(Seq::filter);
        assert(out =~= open);
    } else {
        let front = open.drop_last();
        let last = open.last();
        assert(open =~= front.push(last));
        lemma_without_push(front, last, row, col);
        assert(row_major(front)) by {
            assert forall|i: int, j: int| 0 <= i < j < front.len() implies (#[trigger] front[i]).0 * 9
                + front[i].1 < (#[trigger] front[j]).0 * 9 + front[j].1 by {
                assert(front[i] == open[i] && front[j] == open[j]);
            }
        }
        lemma_without_row_major(front, row, col);
        let sub = without_cell(front, row, col);
        assert forall|i: int| 0 <= i < out.len() implies open.contains(#[trigger] out[i]) by {
            if i < sub.len() {
                assert(front.contains(sub[i]));
                let k = choose|k: int| 0 <= k < front.len() && front[k] == sub[i];
                assert(open[k] == out[i]);
            } else {
                assert(open[open.len() - 1] == out[i]);
            }
        }
        assert forall|i: int, j: int| 0 <= i < j < out.len() implies (#[trigger] out[i]).0 * 9
            + out[i].1 < (#[trigger] out[j]).0 * 9 + out[j].1 by {
            if j >= sub.len() {
                assert(front.contains(sub[i]));
                let k = choose|k: int| 0 <= k < front.len() && front[k] == sub[i];
                assert(open[k] == sub[i] && open[open.len() - 1] == last);
            } else {
                assert(out[i] == sub[i] && out[j] == sub[j]);
            }
        }
    }
}

/// The list of all cells is in row-major order.
pub proof fn lemma_all_cells_row_major()
    ensures
        row_major(all_cells()),
{
}

/// Removing a cell twice is removing it once.
pub proof fn lemma_without_twice(open: Seq<(usize, usize)>, row: usize, col: usize)
    requires
        open.no_duplicates(),
    ensures
        without_cell(without_cell(open, row, col), row, col) == without_cell(open, row, col),
{
    let once = without_cell(open, row, col);
    lemma_without_no_duplicates(open, row, col);
    lemma_without_contains(open, row, col);
    assert(!once.contains((row, col)));
    lemma_without_len(once, row, col);
}

/// Removing a cell from the empty list.
pub proof fn lemma_without_empty(row: usize, col: usize)
    ensures
        without_cell(Seq::empty(), row, col) == Seq::<(usize, usize)>::empty(),
{
    reveal(Seq::filter);
}

/// After a filled cell is emptied, the list with that cell appended
/// lists the open cells.
pub proof fn lemma_open_after_unset(g: Seq<u8>, open: Seq<(usize, usize)>, row: usize, col: usize)
    requires
        g.len() == 81,
        lists_open_cells(g, open),
        in_grid(row as int, col as int),
        cell(g, row as int, col as int) != 0,
    ensures
        lists_open_cells(place(g, row as int, col as int, 0), open.push((row, col))),
        !open.contains((row, col)),
{
    let g2 = place(g, row as int, col as int, 0);
    let open2 = open.push((row, col));
    if open.contains((row, col)) {
        let i = choose|i: int| 0 <= i < open.len() && open[i] == (row, col);
        assert(cell(g, open[i].0 as int, open[i].1 as int) == 0);
    }
    assert forall|i: int| 0 <= i < open2.len() implies in_grid(
        (#[trigger] open2[i]).0 as int,
        open2[i].1 as int,
    ) && cell(g2, open2[i].0 as int, open2[i].1 as int) == 0 by {
        if i < open.len() {
            assert(open2[i] == open[i]);
            lemma_cell_place(g, row as int, col as int, 0, open[i].0 as int, open[i].1 as int);
        } else {
            lemma_cell_place(g, row as int, col as int, 0, row as int, col as int);
        }
    }
    assert forall|r: int, c: int| in_grid(r, c) && #[trigger] cell(g2, r, c) == 0 implies open2.contains(
        (r as usize, c as usize),
    ) by {
        lemma_cell_place(g, row as int, col as int, 0, r, c);
        if r == row && c == col {
            assert(open2[open.len() as int] == (row, col));
        } else {
            assert(cell(g, r, c) == 0);
            let i = choose|i: int| 0 <= i < open.len() && open[i] == (r as usize, c as usize);
            assert(open2[i] == (r as usize, c as usize));
        }
    }
    assert forall|i: int, j: int| 0 <= i < open2.len() && 0 <= j < open2.len() && i != j implies open2[i]
        != open2[j] by {
        if i < open.len() && j < open.len() {
        } else if i < open.len() {
            assert(open.contains(open[i]));
        } else {
            assert(open.contains(open[j]));
        }
    }
}

/// After a value is written, the list without that cell lists the
/// open cells.
pub proof fn lemma_open_after_set(
    g: Seq<u8>,
    open: Seq<(usize, usize)>,
    row: usize,
    col: usize,
    v: u8,
)
    requires
        g.len() == 81,
        lists_open_cells(g, open),
        in_grid(row as int, col as int),
        v != 0,
    ensures
        lists_open_cells(place(g, row as int, col as int, v), without_cell(open, row, col)),
{
    let g2 = place(g, row as int, col as int, v);
    let open2 = without_cell(open, row, col);
    lemma_without_contains(open, row, col);
    lemma_without_no_duplicates(open, row, col);
    assert forall|i: int| 0 <= i < open2.len() implies in_grid(
        (#[trigger] open2[i]).0 as int,
        open2[i].1 as int,
    ) && cell(g2, open2[i].0 as int, open2[i].1 as int) == 0 by {
        let p = open2[i];
        assert(open2.contains(p));
        assert(open.contains(p) && is_other_cell(p, row, col));
        let j = choose|j: int| 0 <= j < open.len() && open[j] == p;
        assert(in_grid(open[j].0 as int, open[j].1 as int));
        lemma_cell_place(g, row as int, col as int, v, p.0 as int, p.1 as int);
    }
    assert forall|r: int, c: int| in_grid(r, c) && #[trigger] cell(g2, r, c) == 0 implies open2.contains(
        (r as usize, c as usize),
    ) by {
        lemma_cell_place(g, row as int, col as int, v, r, c);
        assert(cell(g, r, c) == 0);
        assert(open.contains((r as usize, c as usize)));
        assert(is_other_cell((r as usize, c as usize), row, col));
    }
}

} // verus!
