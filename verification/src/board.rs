//! The board: three packed views of one grid, a cached validity flag
//! and the list of cells that are still open.
use crate::bits::{
    has_value, lemma_clear_value, lemma_full_mask, lemma_sub_mask_bound, lemma_sub_mask_clear,
    lemma_sub_mask_or, lemma_sub_mask_shift, lemma_sub_mask_zero, lemma_value_mask,
    lemma_value_masks_overlap, mask_value, sub_mask, value_mask, CELL_MASK, CELL_MASK_LEN,
};
use crate::cells::{
    all_cells, index_in_square, lemma_all_cells_list_empty_grid, lemma_all_cells_row_major,
    lemma_open_after_set,
    lemma_open_after_unset, lemma_without_empty, lemma_without_push, lemma_without_row_major,
    lists_open_cells, row_major, square_index, without_cell,
};
use crate::grid::{
    candidates, candidates_below, cell, complete, empty_grid, extends, house_cell, house_of,
    house_ok, houses_ok_at, in_grid, is_candidate, lemma_candidates_below, lemma_candidates_step,
    lemma_cell_place, lemma_empty_grid_valid, lemma_extends_valid, lemma_house_cell_geometry,
    lemma_house_cell_place, lemma_house_geometry, lemma_place_checked, place, slot_of, square_of,
    valid, well_formed, House,
};
use vstd::prelude::*;

verus! {

/// A 9x9 board.  Each row, column and square is one packed line of
/// nine 9-bit sub-masks, one per cell, with the bit of the value that
/// the cell holds; the same placements are kept in all three views.
pub struct Sudoku {
    rows: [u128; 9],
    cols: [u128; 9],
    squares: [u128; 9],
    valid: bool,
    open_cells: Vec<(usize, usize)>,
}

/// The sub-masks of a line are pairwise disjoint.
pub open spec fn line_disjoint(line: u128) -> bool {
    forall|i: int, j: int|
        0 <= i < j < 9 ==> #[trigger] sub_mask(line, i) & #[trigger] sub_mask(line, j) == 0
}

impl View for Sudoku {
    type V = Seq<u8>;

    /// The grid: 81 cell values in row-major order, 0 for an empty cell.
    closed spec fn view(&self) -> Seq<u8> {
        Seq::new(81, |p: int| mask_value(sub_mask(self.rows[p / 9], p % 9)))
    }
}

impl Sudoku {
    /// The packed line of house `u` of family `h`.
    pub closed spec fn line(&self, h: House, u: int) -> u128 {
        match h {
            House::Row => self.rows[u],
            House::Column => self.cols[u],
            House::Square => self.squares[u],
        }
    }

    /// The three packed views agree with the grid: each sub-mask is the
    /// mask of the value of the cell it stands for.
    pub closed spec fn packed(&self) -> bool {
        forall|h: House, u: int, k: int|
            0 <= u < 9 && 0 <= k < 9 ==> #[trigger] sub_mask(self.line(h, u), k) == value_mask(
                house_cell(self@, h, u, k),
            )
    }

    /// The cached validity flag.
    pub closed spec fn valid_flag(&self) -> bool {
        self.valid
    }

    /// The open cells in the order in which they are scanned.
    pub closed spec fn open_cells(&self) -> Seq<(usize, usize)> {
        self.open_cells@
    }

    /// The representation invariant.
    pub open spec fn wf(&self) -> bool {
        &&& self.packed()
        &&& well_formed(self@)
        &&& lists_open_cells(self@, self.open_cells())
    }

    /// Under the invariant the view reads the row masks.
    proof fn lemma_view(&self)
        ensures
            self@.len() == 81,
            forall|row: int, col: int|
                in_grid(row, col) ==> #[trigger] cell(self@, row, col) == mask_value(
                    sub_mask(self.rows[row], col),
                ),
    {
        assert forall|row: int, col: int| in_grid(row, col) implies #[trigger] cell(self@, row, col)
            == mask_value(sub_mask(self.rows[row], col)) by {
            let p = row * 9 + col;
            assert(p / 9 == row && p % 9 == col);
        }
    }

    /// A board whose three views all hold the masks of `g` is packed.
    proof fn lemma_packed_from_masks(&self, g: Seq<u8>)
        requires
            well_formed(g),
            forall|h: House, u: int, k: int|
                0 <= u < 9 && 0 <= k < 9 ==> #[trigger] sub_mask(self.line(h, u), k) == value_mask(
                    house_cell(g, h, u, k),
                ),
        ensures
            self@ == g,
            self.packed(),
    {
        self.lemma_view();
        assert forall|p: int| 0 <= p < 81 implies self@[p] == g[p] by {
            let row = p / 9;
            let col = p % 9;
            assert(p == row * 9 + col);
            assert(cell(self@, row, col) == mask_value(sub_mask(self.rows[row], col)));
            assert(sub_mask(self.line(House::Row, row), col) == value_mask(
                house_cell(g, House::Row, row, col),
            ));
            lemma_value_mask(g[p]);
        }
        assert(self@ =~= g);
    }

    /// Row and column of the cell with the given row-major index.
    pub fn index_to_row_col(index: usize) -> (r: (usize, usize))
        ensures
            r.0 == index / 9,
            r.1 == index % 9,
    {
        (index / 9, index % 9)
    }

    /// The list of all 81 cells, row by row.
    fn every_cell() -> (r: Vec<(usize, usize)>)
        ensures
            r@ == all_cells(),
    {
        let mut cells: Vec<(usize, usize)> = Vec::with_capacity(81);
        let mut i: usize = 0;
        while i < 81
            invariant
                i <= 81,
                cells@.len() == i,
                forall|j: int| 0 <= j < i ==> cells@[j] == all_cells()[j],
            decreases 81 - i,
        {
            cells.push(Self::index_to_row_col(i));
            i += 1;
        }
        assert(cells@ =~= all_cells());
        cells
    }

    /// An empty board: no value placed, valid, every cell open.
    pub fn new() -> (r: Self)
        ensures
            r.wf(),
            r@ == empty_grid(),
            r.valid_flag(),
            valid(r@),
            r.open_cells() == all_cells(),
            row_major(r.open_cells()),
    {
        let r = Self {
            rows: [0; 9],
            cols: [0; 9],
            squares: [0; 9],
            valid: true,
            open_cells: Self::every_cell(),
        };
        proof {
            let g = empty_grid();
            assert forall|h: House, u: int, k: int| 0 <= u < 9 && 0 <= k < 9 implies #[trigger] sub_mask(
                r.line(h, u),
                k,
            ) == value_mask(house_cell(g, h, u, k)) by {
                lemma_sub_mask_zero(k);
                lemma_house_cell_geometry(h, u, k);
            }
            r.lemma_packed_from_masks(g);
            lemma_all_cells_list_empty_grid();
            lemma_all_cells_row_major();
            lemma_empty_grid_valid();
        }
        r
    }

    /// A packed line is disjoint exactly when its house has no duplicate.
    proof fn lemma_line_house(&self, h: House, u: int)
        requires
            self.packed(),
            well_formed(self@),
            0 <= u < 9,
        ensures
            line_disjoint(self.line(h, u)) == house_ok(self@, h, u),
    {
        let l = self.line(h, u);
        let g = self@;
        assert forall|i: int, j: int| 0 <= i < 9 && 0 <= j < 9 && i != j implies ((sub_mask(l, i)
            & sub_mask(l, j) == 0) <==> !(house_cell(g, h, u, i) != 0 && house_cell(g, h, u, i)
            == house_cell(g, h, u, j))) by {
            lemma_house_cell_geometry(h, u, i);
            lemma_house_cell_geometry(h, u, j);
            assert(sub_mask(self.line(h, u), i) == value_mask(house_cell(g, h, u, i)));
            assert(sub_mask(self.line(h, u), j) == value_mask(house_cell(g, h, u, j)));
            lemma_value_masks_overlap(house_cell(g, h, u, i), house_cell(g, h, u, j));
        }
        if line_disjoint(l) {
            assert forall|i: int, j: int|
                0 <= i < 9 && 0 <= j < 9 && i != j && #[trigger] house_cell(g, h, u, i)
                    != 0 implies house_cell(g, h, u, i) != #[trigger] house_cell(g, h, u, j) by {
                let a = sub_mask(l, i);
                let b = sub_mask(l, j);
                assert(a & b == b & a) by (bit_vector);
                if i < j {
                    assert(sub_mask(l, i) & sub_mask(l, j) == 0);
                } else {
                    assert(sub_mask(l, j) & sub_mask(l, i) == 0);
                }
            }
        }
        if house_ok(g, h, u) {
            assert forall|i: int, j: int| 0 <= i < j < 9 implies #[trigger] sub_mask(l, i)
                & #[trigger] sub_mask(l, j) == 0 by {
                if house_cell(g, h, u, i) != 0 {
                    assert(house_cell(g, h, u, i) != house_cell(g, h, u, j));
                }
            }
        }
    }

    /// Whether the sub-masks of line `index` of `arr` are pairwise disjoint.
    fn is_valid_helper(index: usize, arr: &[u128; 9]) -> (r: bool)
        requires
            index < 9,
        ensures
            r == line_disjoint(arr[index as int]),
    {
        let line = arr[index];
        let mut relevant: u128 = line;
        let mut seen: u16 = 0;
        let mut k: usize = 0;
        proof {
            assert(forall|x: u16| 0u16 & x == 0) by (bit_vector);
        }
        while k < 9
            invariant
                k <= 9,
                forall|j: int| 0 <= j < 9 - k ==> #[trigger] sub_mask(relevant, j) == sub_mask(line, k + j),
                forall|i: int, j: int|
                    0 <= i < j < k ==> #[trigger] sub_mask(line, i) & #[trigger] sub_mask(line, j) == 0,
                forall|j: int| 0 <= j < k ==> #[trigger] sub_mask(line, j) & !seen == 0,
                forall|x: u16| #[trigger]
                    (seen & x) != 0 ==> exists|j: int| 0 <= j < k && #[trigger] sub_mask(line, j) & x != 0,
                index < 9,
                line == arr[index as int],
            ensures
                k == 9,
                line_disjoint(line),
            decreases 9 - k,
        {
            proof {
                assert(relevant & 0x1ffu128 <= 0x1ff) by (bit_vector);
            }
            let sub = (relevant & CELL_MASK) as u16;
            proof {
                assert((relevant >> 0u128) & 0x1ffu128 == relevant & 0x1ffu128) by (bit_vector);
                assert(sub == sub_mask(relevant, 0));
                assert(sub == sub_mask(line, k as int));
            }
            if sub != 0 {
                if seen & sub != 0 {
                    proof {
                        let j = choose|j: int| 0 <= j < k && #[trigger] sub_mask(line, j) & sub != 0;
                        assert(sub_mask(line, j) & sub_mask(line, k as int) != 0);
                    }
                    return false;
                }
                proof {
                    let old_seen = seen;
                    assert forall|j: int| 0 <= j < k implies #[trigger] sub_mask(line, j) & sub == 0 by {
                        let a = sub_mask(line, j);
                        assert(a & !old_seen == 0 && old_seen & sub == 0 ==> a & sub == 0) by (bit_vector);
                    }
                    assert forall|j: int| 0 <= j < k + 1 implies #[trigger] sub_mask(line, j) & !(old_seen
                        | sub) == 0 by {
                        let a = sub_mask(line, j);
                        assert(a & !old_seen == 0 ==> a & !(old_seen | sub) == 0) by (bit_vector);
                        assert(sub & !(old_seen | sub) == 0) by (bit_vector);
                    }
                    assert forall|x: u16| #[trigger] ((old_seen | sub) & x) != 0 implies exists|j: int|
                        0 <= j < k + 1 && #[trigger] sub_mask(line, j) & x != 0 by {
                        assert((old_seen | sub) & x != 0 ==> (old_seen & x != 0 || sub & x != 0))
                            by (bit_vector);
                        if old_seen & x != 0 {
                            let j = choose|j: int| 0 <= j < k && #[trigger] sub_mask(line, j) & x != 0;
                            assert(0 <= j < k + 1 && sub_mask(line, j) & x != 0);
                        } else {
                            assert(0 <= k < k + 1 && sub_mask(line, k as int) & x != 0);
                        }
                    }
                }
                seen |= sub;
            } else {
                proof {
                    assert forall|j: int| 0 <= j < k implies #[trigger] sub_mask(line, j) & sub == 0 by {
                        let a = sub_mask(line, j);
                        assert(a & 0u16 == 0) by (bit_vector);
                    }
                    assert(0u16 & !seen == 0) by (bit_vector);
                }
            }
            proof {
                assert forall|j: int| 0 <= j < 9 - (k + 1) implies #[trigger] sub_mask(
                    relevant >> 9u128,
                    j,
                ) == sub_mask(line, k + 1 + j) by {
                    lemma_sub_mask_shift(relevant, j);
                    assert(sub_mask(relevant, j + 1) == sub_mask(line, k + (j + 1)));
                }
            }
            relevant >>= CELL_MASK_LEN;
            k += 1;
        }
        true
    }

    fn is_valid_row(&self, row: usize) -> (r: bool)
        requires
            self.packed(),
            well_formed(self@),
            row < 9,
        ensures
            r == house_ok(self@, House::Row, row as int),
    {
        proof {
            self.lemma_line_house(House::Row, row as int);
        }
        Self::is_valid_helper(row, &self.rows)
    }

    fn is_valid_column(&self, col: usize) -> (r: bool)
        requires
            self.packed(),
            well_formed(self@),
            col < 9,
        ensures
            r == house_ok(self@, House::Column, col as int),
    {
        proof {
            self.lemma_line_house(House::Column, col as int);
        }
        Self::is_valid_helper(col, &self.cols)
    }

    fn is_valid_square(&self, square: usize) -> (r: bool)
        requires
            self.packed(),
            well_formed(self@),
            square < 9,
        ensures
            r == house_ok(self@, House::Square, square as int),
    {
        proof {
            self.lemma_line_house(House::Square, square as int);
        }
        Self::is_valid_helper(square, &self.squares)
    }

    /// Whether the row, the column and the square through the cell are
    /// free of duplicates.
    fn is_valid_cell(&self, row: usize, col: usize) -> (r: bool)
        requires
            self.packed(),
            well_formed(self@),
            row < 9,
            col < 9,
        ensures
            r == houses_ok_at(self@, row as int, col as int),
    {
        self.is_valid_row(row) && self.is_valid_column(col) && self.is_valid_square(
            square_index(row, col),
        )
    }

    /// Sets the bits of `mask` in the sub-mask of the cell, in all three
    /// views at once.
    fn mark(&mut self, row: usize, col: usize, mask: u16)
        requires
            row < 9,
            col < 9,
            mask <= 0x1ff,
        ensures
            forall|h: House, u: int, k: int|
                0 <= u < 9 && 0 <= k < 9 ==> #[trigger] sub_mask(final(self).line(h, u), k) == (
                if u == house_of(h, row as int, col as int) && k == slot_of(h, row as int, col as int) {
                    sub_mask(old(self).line(h, u), k) | mask
                } else {
                    sub_mask(old(self).line(h, u), k)
                }),
            final(self).valid_flag() == old(self).valid_flag(),
            final(self).open_cells() == old(self).open_cells(),
    {
        let square = square_index(row, col);
        let slot = index_in_square(row, col);
        proof {
            lemma_sub_mask_or(self.rows[row as int], mask, col as int);
            lemma_sub_mask_or(self.cols[col as int], mask, row as int);
            lemma_sub_mask_or(self.squares[square as int], mask, slot as int);
        }
        self.rows[row] |= (mask as u128) << (col * CELL_MASK_LEN);
        self.cols[col] |= (mask as u128) << (row * CELL_MASK_LEN);
        self.squares[square] |= (mask as u128) << (slot * CELL_MASK_LEN);
        proof {
            assert(self.rows[row as int] == old(self).rows[row as int] | ((mask as u128) << ((col
                * 9) as u128)));
            assert(self.cols[col as int] == old(self).cols[col as int] | ((mask as u128) << ((row
                * 9) as u128)));
            assert(self.squares[square as int] == old(self).squares[square as int] | ((mask as u128) << ((slot
                * 9) as u128)));
            assert forall|h: House, u: int, k: int| 0 <= u < 9 && 0 <= k < 9 implies #[trigger] sub_mask(
                self.line(h, u),
                k,
            ) == (if u == house_of(h, row as int, col as int) && k == slot_of(
                h,
                row as int,
                col as int,
            ) {
                sub_mask(old(self).line(h, u), k) | mask
            } else {
                sub_mask(old(self).line(h, u), k)
            }) by {
                match h {
                    House::Row => {
                        if u != row {
                            assert(self.rows[u] == old(self).rows[u]);
                        }
                    },
                    House::Column => {
                        if u != col {
                            assert(self.cols[u] == old(self).cols[u]);
                        }
                    },
                    House::Square => {
                        if u != square {
                            assert(self.squares[u] == old(self).squares[u]);
                        }
                    },
                }
            }
        }
    }

    /// Clears the bits of `mask` in the sub-mask of the cell, in all
    /// three views at once.
    fn erase(&mut self, row: usize, col: usize, mask: u16)
        requires
            row < 9,
            col < 9,
            mask <= 0x1ff,
        ensures
            forall|h: House, u: int, k: int|
                0 <= u < 9 && 0 <= k < 9 ==> #[trigger] sub_mask(final(self).line(h, u), k) == (
                if u == house_of(h, row as int, col as int) && k == slot_of(h, row as int, col as int) {
                    sub_mask(old(self).line(h, u), k) & !mask
                } else {
                    sub_mask(old(self).line(h, u), k)
                }),
            final(self).valid_flag() == old(self).valid_flag(),
            final(self).open_cells() == old(self).open_cells(),
    {
        let square = square_index(row, col);
        let slot = index_in_square(row, col);
        proof {
            lemma_sub_mask_clear(self.rows[row as int], mask, col as int);
            lemma_sub_mask_clear(self.cols[col as int], mask, row as int);
            lemma_sub_mask_clear(self.squares[square as int], mask, slot as int);
        }
        self.rows[row] &= !((mask as u128) << (col * CELL_MASK_LEN));
        self.cols[col] &= !((mask as u128) << (row * CELL_MASK_LEN));
        self.squares[square] &= !((mask as u128) << (slot * CELL_MASK_LEN));
        proof {
            assert(self.rows[row as int] == old(self).rows[row as int] & !((mask as u128) << ((col
                * 9) as u128)));
            assert(self.cols[col as int] == old(self).cols[col as int] & !((mask as u128) << ((row
                * 9) as u128)));
            assert(self.squares[square as int] == old(self).squares[square as int] & !((mask as u128) << ((slot
                * 9) as u128)));
            assert forall|h: House, u: int, k: int| 0 <= u < 9 && 0 <= k < 9 implies #[trigger] sub_mask(
                self.line(h, u),
                k,
            ) == (if u == house_of(h, row as int, col as int) && k == slot_of(
                h,
                row as int,
                col as int,
            ) {
                sub_mask(old(self).line(h, u), k) & !mask
            } else {
                sub_mask(old(self).line(h, u), k)
            }) by {
                match h {
                    House::Row => {
                        if u != row {
                            assert(self.rows[u] == old(self).rows[u]);
                        }
                    },
                    House::Column => {
                        if u != col {
                            assert(self.cols[u] == old(self).cols[u]);
                        }
                    },
                    House::Square => {
                        if u != square {
                            assert(self.squares[u] == old(self).squares[u]);
                        }
                    },
                }
            }
        }
    }

    /// The one-hot mask of a value.
    fn mask_of(value: u8) -> (r: u16)
        requires
            1 <= value <= 9,
        ensures
            r == value_mask(value),
            r <= 0x1ff,
    {
        proof {
            lemma_value_mask(value);
        }
        1u16 << (value - 1)
    }

    /// Value of the cell: 0 if empty, else 1 to 9.
    pub fn get(&self, row: usize, col: usize) -> (r: u8)
        requires
            self.wf(),
            row < 9,
            col < 9,
        ensures
            r == cell(self@, row as int, col as int),
            r <= 9,
    {
        proof {
            self.lemma_view();
            lemma_sub_mask_bound(self.rows[row as int], col as int);
        }
        let mask = ((self.rows[row] >> (col * CELL_MASK_LEN)) & CELL_MASK) as u16;
        if mask == 0 {
            return 0;
        }
        proof {
            assert(sub_mask(self.line(House::Row, row as int), col as int) == value_mask(
                house_cell(self@, House::Row, row as int, col as int),
            ));
            lemma_value_mask(cell(self@, row as int, col as int));
        }
        mask.trailing_zeros() as u8 + 1
    }

    /// A board with the same three views holds the same grid.
    proof fn lemma_same_lines(&self, other: &Self)
        requires
            self.rows == other.rows,
            self.cols == other.cols,
            self.squares == other.squares,
        ensures
            self@ == other@,
            other.packed() ==> self.packed(),
    {
        assert(self@ =~= other@);
        if other.packed() {
            assert forall|h: House, u: int, k: int| 0 <= u < 9 && 0 <= k < 9 implies #[trigger] sub_mask(
                self.line(h, u),
                k,
            ) == value_mask(house_cell(self@, h, u, k)) by {
                assert(self.line(h, u) == other.line(h, u));
                assert(sub_mask(other.line(h, u), k) == value_mask(house_cell(other@, h, u, k)));
            }
        }
    }

    /// After the sub-mask of one cell was replaced by the mask of `v`,
    /// the board is packed again and holds the grid with `v` placed.
    proof fn lemma_replaced(&self, before: &Self, row: int, col: int, v: u8)
        requires
            before.packed(),
            well_formed(before@),
            in_grid(row, col),
            v <= 9,
            forall|h: House, u: int, k: int|
                0 <= u < 9 && 0 <= k < 9 ==> #[trigger] sub_mask(self.line(h, u), k) == (if u
                    == house_of(h, row, col) && k == slot_of(h, row, col) {
                    value_mask(v)
                } else {
                    sub_mask(before.line(h, u), k)
                }),
        ensures
            self@ == place(before@, row, col, v),
            self.packed(),
            well_formed(self@),
    {
        let g = place(before@, row, col, v);
        assert forall|h: House, u: int, k: int| 0 <= u < 9 && 0 <= k < 9 implies #[trigger] sub_mask(
            self.line(h, u),
            k,
        ) == value_mask(house_cell(g, h, u, k)) by {
            lemma_house_cell_place(before@, row, col, v, h, u, k);
            assert(sub_mask(before.line(h, u), k) == value_mask(house_cell(before@, h, u, k)));
        }
        self.lemma_packed_from_masks(g);
    }

    /// Writes `value` into the cell, over whatever it held.  Unless the
    /// check is skipped, the validity flag stays set only if the row, the
    /// column and the square of the cell are now free of duplicates; a
    /// flag that is down stays down.
    pub fn set(&mut self, row: usize, col: usize, value: u8, skip_validity_check: bool)
        requires
            old(self).wf(),
            row < 9,
            col < 9,
            1 <= value <= 9,
        ensures
            final(self).wf(),
            final(self)@ == place(old(self)@, row as int, col as int, value),
            final(self).open_cells() == without_cell(old(self).open_cells(), row, col),
            final(self).valid_flag() == (if skip_validity_check {
                old(self).valid_flag()
            } else {
                old(self).valid_flag() && houses_ok_at(final(self)@, row as int, col as int)
            }),
            !skip_validity_check && old(self).valid_flag() && valid(old(self)@)
                ==> final(self).valid_flag() == valid(final(self)@),
            row_major(old(self).open_cells()) ==> row_major(final(self).open_cells()),
    {
        let mask = Self::mask_of(value);
        self.unset(row, col, false);
        let ghost cleared = *self;
        self.mark(row, col, mask);
        proof {
            assert forall|h: House, u: int, k: int| 0 <= u < 9 && 0 <= k < 9 implies #[trigger] sub_mask(
                self.line(h, u),
                k,
            ) == (if u == house_of(h, row as int, col as int) && k == slot_of(
                h,
                row as int,
                col as int,
            ) {
                value_mask(value)
            } else {
                sub_mask(cleared.line(h, u), k)
            }) by {
                if u == house_of(h, row as int, col as int) && k == slot_of(h, row as int, col as int) {
                    lemma_house_geometry(h, row as int, col as int);
                    lemma_cell_place(old(self)@, row as int, col as int, 0, row as int, col as int);
                    assert(sub_mask(cleared.line(h, u), k) == value_mask(house_cell(cleared@, h, u, k)));
                    assert(0u16 | mask == mask) by (bit_vector);
                }
            }
            self.lemma_replaced(&cleared, row as int, col as int, value);
            assert(place(cleared@, row as int, col as int, value) =~= place(
                old(self)@,
                row as int,
                col as int,
                value,
            ));
            lemma_open_after_set(cleared@, cleared.open_cells(), row, col, value);
            lemma_without_push(old(self).open_cells(), (row, col), row, col);
            if valid(old(self)@) && houses_ok_at(self@, row as int, col as int) {
                lemma_place_checked(old(self)@, row as int, col as int, value);
            }
            if row_major(old(self).open_cells()) {
                lemma_without_row_major(old(self).open_cells(), row, col);
            }
        }
        let ghost marked = *self;
        if !skip_validity_check {
            let ok = self.is_valid_cell(row, col);
            self.valid = self.valid && ok;
        }
        self.open_cells = Self::without(&self.open_cells, row, col);
        proof {
            self.lemma_same_lines(&marked);
        }
    }

    /// Empties the cell.  An empty cell is left as it is, and so is the
    /// rest of the board.  Otherwise the cell joins the open cells at the
    /// end of the list, and with `check` the validity flag becomes
    /// whether the row, the column and the square of the cell are free
    /// of duplicates.
    pub fn unset(&mut self, row: usize, col: usize, check: bool)
        requires
            old(self).wf(),
            row < 9,
            col < 9,
        ensures
            final(self).wf(),
            final(self)@ == place(old(self)@, row as int, col as int, 0),
            final(self).open_cells() == (if cell(old(self)@, row as int, col as int) == 0 {
                old(self).open_cells()
            } else {
                old(self).open_cells().push((row, col))
            }),
            final(self).valid_flag() == (if check && cell(old(self)@, row as int, col as int) != 0 {
                houses_ok_at(final(self)@, row as int, col as int)
            } else {
                old(self).valid_flag()
            }),
            old(self).valid_flag() && valid(old(self)@) ==> final(self).valid_flag() && valid(
                final(self)@,
            ),
    {
        let value = self.get(row, col);
        if value == 0 {
            proof {
                assert(place(self@, row as int, col as int, 0) =~= self@);
            }
            return;
        }
        let mask = Self::mask_of(value);
        self.erase(row, col, mask);
        proof {
            assert forall|h: House, u: int, k: int| 0 <= u < 9 && 0 <= k < 9 implies #[trigger] sub_mask(
                self.line(h, u),
                k,
            ) == (if u == house_of(h, row as int, col as int) && k == slot_of(
                h,
                row as int,
                col as int,
            ) {
                value_mask(0)
            } else {
                sub_mask(old(self).line(h, u), k)
            }) by {
                if u == house_of(h, row as int, col as int) && k == slot_of(h, row as int, col as int) {
                    lemma_house_geometry(h, row as int, col as int);
                    assert(sub_mask(old(self).line(h, u), k) == value_mask(
                        house_cell(old(self)@, h, u, k),
                    ));
                    assert(mask & !mask == 0) by (bit_vector);
                }
            }
            self.lemma_replaced(old(self), row as int, col as int, 0);
            lemma_open_after_unset(old(self)@, old(self).open_cells(), row, col);
            if valid(old(self)@) {
                assert(extends(self@, old(self)@));
                lemma_extends_valid(self@, old(self)@);
            }
        }
        let ghost erased = *self;
        if check {
            self.valid = self.is_valid_cell(row, col);
        }
        self.open_cells.push((row, col));
        proof {
            self.lemma_same_lines(&erased);
        }
    }

    /// The list without the given cell.
    fn without(open: &Vec<(usize, usize)>, row: usize, col: usize) -> (r: Vec<(usize, usize)>)
        ensures
            r@ == without_cell(open@, row, col),
    {
        let mut out: Vec<(usize, usize)> = Vec::with_capacity(open.len());
        let mut i: usize = 0;
        proof {
            lemma_without_empty(row, col);
            assert(open@.take(0) =~= Seq::empty());
        }
        while i < open.len()
            invariant
                i <= open.len(),
                out@ == without_cell(open@.take(i as int), row, col),
            decreases open.len() - i,
        {
            let p = open[i];
            proof {
                lemma_without_push(open@.take(i as int), p, row, col);
                assert(open@.take(i + 1) =~= open@.take(i as int).push(p));
            }
            if p.0 != row || p.1 != col {
                out.push(p);
            }
            i += 1;
        }
        proof {
            assert(open@.take(open.len() as int) =~= open@);
        }
        out
    }

    /// The cached validity flag.
    pub fn is_valid(&self) -> (r: bool)
        ensures
            r == self.valid_flag(),
    {
        self.valid
    }

    /// Whether the flag is set and no cell is open.
    pub fn is_solved(&self) -> (r: bool)
        requires
            self.wf(),
        ensures
            r == (self.valid_flag() && complete(self@)),
    {
        proof {
            if self.open_cells@.len() == 0 {
                assert forall|i: int| 0 <= i < self@.len() implies #[trigger] self@[i] != 0 by {
                    let row = i / 9;
                    let col = i % 9;
                    assert(i == row * 9 + col);
                    if cell(self@, row, col) == 0 {
                        assert(self.open_cells().contains((row as usize, col as usize)));
                    }
                }
            } else {
                let p = self.open_cells@[0];
                assert(cell(self@, p.0 as int, p.1 as int) == 0);
            }
        }
        self.valid && self.open_cells.len() == 0
    }

    /// Scans every row, column and square and sets the validity flag to
    /// what the scan found, which is also returned.
    pub fn recheck_validity(&mut self) -> (r: bool)
        requires
            old(self).wf(),
        ensures
            final(self).wf(),
            final(self)@ == old(self)@,
            final(self).open_cells() == old(self).open_cells(),
            final(self).valid_flag() == valid(final(self)@),
            r == final(self).valid_flag(),
    {
        let mut ok = true;
        let mut u: usize = 0;
        while u < 9
            invariant
                u <= 9,
                self.packed(),
                well_formed(self@),
                ok == (forall|h: House, w: int| 0 <= w < u ==> #[trigger] house_ok(self@, h, w)),
            decreases 9 - u,
        {
            let row_ok = self.is_valid_row(u);
            let column_ok = self.is_valid_column(u);
            let square_ok = self.is_valid_square(u);
            if !(row_ok && column_ok && square_ok) {
                ok = false;
            }
            proof {
                if row_ok && column_ok && square_ok {
                    assert forall|h: House, w: int| 0 <= w < u + 1 && (forall|h: House, w: int|
                        0 <= w < u ==> #[trigger] house_ok(self@, h, w)) implies #[trigger] house_ok(
                        self@,
                        h,
                        w,
                    ) by {
                        if w == u {
                            match h {
                                House::Row => {},
                                House::Column => {},
                                House::Square => {},
                            }
                        }
                    }
                }
            }
            u += 1;
        }
        let ghost scanned = *self;
        self.valid = ok;
        proof {
            self.lemma_same_lines(&scanned);
        }
        ok
    }

    /// The candidates of the cell as a bit mask: bit `v - 1` is set
    /// exactly if `v` occurs nowhere in the row, the column or the
    /// square of the cell.
    pub fn get_pencil_marks_raw(&self, row: usize, col: usize) -> (r: u16)
        requires
            self.wf(),
            row < 9,
            col < 9,
        ensures
            r <= 0x1ff,
            forall|v: u8| has_value(r, v) <==> is_candidate(self@, row as int, col as int, v),
    {
        let mut marks: u16 = 0b111111111;
        let square = square_index(row, col);
        let ghost g = self@;
        let mut i: usize = 0;
        proof {
            lemma_full_mask();
        }
        while i < 9
            invariant
                i <= 9,
                row < 9,
                col < 9,
                square == square_of(row as int, col as int),
                g == self@,
                self.wf(),
                marks <= 0x1ff,
                forall|v: u8|
                    has_value(marks, v) <==> (1 <= v <= 9 && forall|h: House, k: int|
                        0 <= k < i ==> #[trigger] house_cell(g, h, house_of(h, row as int, col as int), k)
                            != v),
            decreases 9 - i,
        {
            proof {
                lemma_sub_mask_bound(self.rows[row as int], i as int);
                lemma_sub_mask_bound(self.cols[col as int], i as int);
                lemma_sub_mask_bound(self.squares[square as int], i as int);
            }
            let in_row = ((self.rows[row] >> (i * CELL_MASK_LEN)) & CELL_MASK) as u16;
            let in_col = ((self.cols[col] >> (i * CELL_MASK_LEN)) & CELL_MASK) as u16;
            let in_square = ((self.squares[square] >> (i * CELL_MASK_LEN)) & CELL_MASK) as u16;
            let ghost before = marks;
            let ghost a = house_cell(g, House::Row, row as int, i as int);
            let ghost b = house_cell(g, House::Column, col as int, i as int);
            let ghost c = house_cell(g, House::Square, square as int, i as int);
            proof {
                lemma_house_cell_geometry(House::Row, row as int, i as int);
                lemma_house_cell_geometry(House::Column, col as int, i as int);
                lemma_house_cell_geometry(House::Square, square as int, i as int);
                assert(in_row == sub_mask(self.line(House::Row, row as int), i as int));
                assert(in_col == sub_mask(self.line(House::Column, col as int), i as int));
                assert(in_square == sub_mask(self.line(House::Square, square as int), i as int));
                assert(in_row == value_mask(a));
                assert(in_col == value_mask(b));
                assert(in_square == value_mask(c));
                lemma_clear_value(before, a, 0);
                lemma_clear_value((before & !in_row), b, 0);
                lemma_clear_value(((before & !in_row) & !in_col), c, 0);
            }
            marks &= !in_row;
            marks &= !in_col;
            marks &= !in_square;
            proof {
                assert forall|v: u8|
                    has_value(marks, v) <==> (1 <= v <= 9 && forall|h: House, k: int|
                        0 <= k < i + 1 ==> #[trigger] house_cell(
                            g,
                            h,
                            house_of(h, row as int, col as int),
                            k,
                        ) != v) by {
                    let below = forall|h: House, k: int|
                        0 <= k < i ==> #[trigger] house_cell(g, h, house_of(h, row as int, col as int), k)
                            != v;
                    let upto = forall|h: House, k: int|
                        0 <= k < i + 1 ==> #[trigger] house_cell(
                            g,
                            h,
                            house_of(h, row as int, col as int),
                            k,
                        ) != v;
                    let m1 = before & !value_mask(a);
                    let m2 = m1 & !value_mask(b);
                    let m3 = m2 & !value_mask(c);
                    assert(marks == m3);
                    lemma_clear_value(before, a, v);
                    lemma_clear_value(m1, b, v);
                    lemma_clear_value(m2, c, v);
                    if 1 <= v <= 9 {
                        if below && v != a && v != b && v != c {
                            assert forall|h: House, k: int| 0 <= k < i + 1 implies #[trigger] house_cell(
                                g,
                                h,
                                house_of(h, row as int, col as int),
                                k,
                            ) != v by {
                                if k == i {
                                    match h {
                                        House::Row => {},
                                        House::Column => {},
                                        House::Square => {},
                                    }
                                }
                            }
                        }
                        if upto {
                            assert(house_cell(
                                g,
                                House::Row,
                                house_of(House::Row, row as int, col as int),
                                i as int,
                            ) != v);
                            assert(house_cell(
                                g,
                                House::Column,
                                house_of(House::Column, row as int, col as int),
                                i as int,
                            ) != v);
                            assert(house_cell(
                                g,
                                House::Square,
                                house_of(House::Square, row as int, col as int),
                                i as int,
                            ) != v);
                        }
                    }
                }
            }
            i += 1;
        }
        marks
    }

    /// The candidates of the cell in ascending order: the values from 1
    /// to 9 that occur nowhere in its row, its column or its square.
    pub fn get_pencil_marks(&self, row: usize, col: usize) -> (r: Vec<u8>)
        requires
            self.wf(),
            row < 9,
            col < 9,
        ensures
            r@ == candidates(self@, row as int, col as int),
            forall|v: u8| r@.contains(v) <==> is_candidate(self@, row as int, col as int, v),
            forall|i: int, j: int| 0 <= i < j < r@.len() ==> r@[i] < r@[j],
    {
        let marks = self.get_pencil_marks_raw(row, col);
        let mut result: Vec<u8> = Vec::with_capacity(9);
        let mut value: u8 = 1;
        proof {
            lemma_candidates_below(self@, row as int, col as int, 0);
            assert(result@ =~= candidates_below(self@, row as int, col as int, 0));
        }
        while value <= 9
            invariant
                1 <= value <= 10,
                result@ == candidates_below(self@, row as int, col as int, value - 1),
                forall|v: u8| has_value(marks, v) <==> is_candidate(self@, row as int, col as int, v),
            decreases 10 - value,
        {
            proof {
                lemma_candidates_step(self@, row as int, col as int, value - 1);
            }
            if marks & (1u16 << (value - 1)) != 0 {
                proof {
                    assert(has_value(marks, value));
                }
                result.push(value);
            } else {
                proof {
                    assert(!has_value(marks, value));
                }
            }
            value += 1;
        }
        proof {
            lemma_candidates_below(self@, row as int, col as int, 9);
        }
        result
    }

    /// A copy of the list of open cells.
    pub fn get_open_cells(&self) -> (r: Vec<(usize, usize)>)
        ensures
            r@ == self.open_cells(),
    {
        let mut out: Vec<(usize, usize)> = Vec::with_capacity(self.open_cells.len());
        let mut i: usize = 0;
        while i < self.open_cells.len()
            invariant
                i <= self.open_cells.len(),
                out@ == self.open_cells@.take(i as int),
            decreases self.open_cells.len() - i,
        {
            out.push(self.open_cells[i]);
            proof {
                assert(self.open_cells@.take(i + 1) =~= self.open_cells@.take(i as int).push(
                    self.open_cells@[i as int],
                ));
            }
            i += 1;
        }
        proof {
            assert(self.open_cells@.take(self.open_cells.len() as int) =~= self.open_cells@);
        }
        out
    }
}

impl Clone for Sudoku {
    fn clone(&self) -> (r: Self)
        ensures
            r@ == self@,
            r.valid_flag() == self.valid_flag(),
            r.open_cells() == self.open_cells(),
            self.wf() ==> r.wf(),
    {
        let r = Sudoku {
            rows: self.rows,
            cols: self.cols,
            squares: self.squares,
            valid: self.valid,
            open_cells: self.get_open_cells(),
        };
        proof {
            r.lemma_same_lines(self);
        }
        r
    }
}

} // verus!
