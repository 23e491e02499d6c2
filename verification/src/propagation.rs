//! The reasoning behind constraint propagation: what the candidate
//! grid has to say about the board, which placements are forced, and
//! why placing forced values keeps every solution.
use crate::bits::{
    has_value, is_single, lemma_clear_mask, lemma_clear_value, lemma_empty_mask, lemma_same_values,
    lemma_single_is_value_mask, lemma_value_mask, mask_value, value_mask,
};
use crate::cells::without_cell;
use crate::grid::{
    cell, complete, extends, house_cell, house_col, house_of, house_ok, house_row, in_grid, is_candidate,
    lemma_cell_place, lemma_full_house_has_value, lemma_house_cell_geometry, lemma_house_cell_place,
    lemma_house_geometry, lemma_solution_picks_candidate, place, slot_of, solves, square_of,
    well_formed, House,
};
use vstd::prelude::*;

verus! {

/// The candidate mask of the cell at `(row, col)`.
pub open spec fn mark(ms: Seq<u16>, row: int, col: int) -> u16 {
    ms[row * 9 + col]
}

/// The two cells lie in a common row, column or square.
pub open spec fn shares_house(r: int, c: int, row: int, col: int) -> bool {
    r == row || c == col || square_of(r, c) == square_of(row, col)
}

/// The mask of `(r, c)` after `v` was placed at `(row, col)`: empty
/// for the cell itself, without `v` for a cell that shares a house
/// with it, unchanged elsewhere.
pub open spec fn struck_mark(ms: Seq<u16>, row: int, col: int, v: u8, r: int, c: int) -> u16 {
    if r == row && c == col {
        0
    } else if shares_house(r, c, row, col) {
        mark(ms, r, c) & !value_mask(v)
    } else {
        mark(ms, r, c)
    }
}

/// The candidate grid after `v` was placed at `(row, col)`.
pub open spec fn strike(ms: Seq<u16>, row: int, col: int, v: u8) -> Seq<u16> {
    Seq::new(81, |q: int| struck_mark(ms, row, col, v, q / 9, q % 9))
}

/// The candidate grid after the first `k` placements of `cells`.
pub open spec fn strike_all(ms: Seq<u16>, cells: Seq<(usize, usize, u8)>, k: int) -> Seq<u16>
    decreases k,
{
    if k <= 0 {
        ms
    } else {
        let e = cells[k - 1];
        strike(strike_all(ms, cells, k - 1), e.0 as int, e.1 as int, e.2)
    }
}

/// The grid after the first `k` placements of `cells`.
pub open spec fn place_all(g: Seq<u8>, cells: Seq<(usize, usize, u8)>, k: int) -> Seq<u8>
    decreases k,
{
    if k <= 0 {
        g
    } else {
        let e = cells[k - 1];
        place(place_all(g, cells, k - 1), e.0 as int, e.1 as int, e.2)
    }
}

/// Every solution of the puzzle keeps the values that `g` has placed.
pub open spec fn agrees(puzzle: Seq<u8>, g: Seq<u8>) -> bool {
    forall|s: Seq<u8>| #[trigger] solves(s, puzzle) ==> extends(g, s)
}

/// A value is marked only for an empty cell of `g`, and only if it is
/// a candidate there.
pub open spec fn marks_sound(g: Seq<u8>, ms: Seq<u16>) -> bool {
    forall|row: int, col: int, w: u8|
        in_grid(row, col) && #[trigger] has_value(mark(ms, row, col), w) ==> cell(g, row, col) == 0
            && is_candidate(g, row, col, w)
}

/// For each empty cell of `g`, the value that a solution of the puzzle
/// has there is marked.
pub open spec fn marks_cover(puzzle: Seq<u8>, g: Seq<u8>, ms: Seq<u16>) -> bool {
    forall|s: Seq<u8>, row: int, col: int|
        solves(s, puzzle) && in_grid(row, col) && cell(g, row, col) == 0 ==> #[trigger] has_value(
            mark(ms, row, col),
            cell(s, row, col),
        )
}

/// 81 masks of nine bits.
pub open spec fn marks_bounded(ms: Seq<u16>) -> bool {
    ms.len() == 81 && forall|q: int| 0 <= q < 81 ==> #[trigger] ms[q] <= 0x1ff
}

/// The grid `g` and the candidate grid `ms` are a sound state of
/// propagation on `puzzle`: `g` fills in the puzzle with values that
/// every solution has, and `ms` neither marks an excluded value nor
/// misses the value of a solution.
pub open spec fn tracks(puzzle: Seq<u8>, g: Seq<u8>, ms: Seq<u16>) -> bool {
    &&& well_formed(puzzle)
    &&& well_formed(g)
    &&& extends(puzzle, g)
    &&& agrees(puzzle, g)
    &&& marks_bounded(ms)
    &&& marks_sound(g, ms)
    &&& marks_cover(puzzle, g, ms)
}

/// The placement is into a cell that the puzzle leaves empty, and
/// every solution of the puzzle has that value there.
pub open spec fn is_forced(puzzle: Seq<u8>, e: (usize, usize, u8)) -> bool {
    &&& in_grid(e.0 as int, e.1 as int)
    &&& 1 <= e.2 <= 9
    &&& cell(puzzle, e.0 as int, e.1 as int) == 0
    &&& forall|s: Seq<u8>| #[trigger] solves(s, puzzle) ==> cell(s, e.0 as int, e.1 as int) == e.2
}

/// Every placement of the list is forced.
pub open spec fn forced(puzzle: Seq<u8>, cells: Seq<(usize, usize, u8)>) -> bool {
    forall|i: int| 0 <= i < cells.len() ==> is_forced(puzzle, #[trigger] cells[i])
}

/// Reading a mask after a placement was struck.
pub proof fn lemma_mark_strike(ms: Seq<u16>, row: int, col: int, v: u8, r: int, c: int)
    requires
        in_grid(r, c),
    ensures
        mark(strike(ms, row, col, v), r, c) == struck_mark(ms, row, col, v, r, c),
{
    let q = r * 9 + c;
    assert(q / 9 == r && q % 9 == c);
}

/// The pencil marks of a grid are a sound state of propagation on it.
pub proof fn lemma_initial_tracks(g: Seq<u8>, ms: Seq<u16>)
    requires
        well_formed(g),
        marks_bounded(ms),
        forall|row: int, col: int, w: u8|
            in_grid(row, col) ==> (#[trigger] has_value(mark(ms, row, col), w) <==> (cell(g, row, col)
                == 0 && is_candidate(g, row, col, w))),
    ensures
        tracks(g, g, ms),
{
    assert forall|s: Seq<u8>, row: int, col: int|
        solves(s, g) && in_grid(row, col) && cell(g, row, col) == 0 implies #[trigger] has_value(
        mark(ms, row, col),
        cell(s, row, col),
    ) by {
        lemma_solution_picks_candidate(g, s, row, col);
    }
}

/// Two different cells of one house differ in every solution.
proof fn lemma_solution_separates(s: Seq<u8>, puzzle: Seq<u8>, r: int, c: int, row: int, col: int)
    requires
        solves(s, puzzle),
        in_grid(r, c),
        in_grid(row, col),
        shares_house(r, c, row, col),
        !(r == row && c == col),
    ensures
        cell(s, r, c) != cell(s, row, col),
{
    let h = if r == row {
        House::Row
    } else if c == col {
        House::Column
    } else {
        House::Square
    };
    let u = house_of(h, row, col);
    lemma_house_geometry(h, row, col);
    lemma_house_geometry(h, r, c);
    assert(house_of(h, r, c) == u);
    let i = slot_of(h, r, c);
    let j = slot_of(h, row, col);
    assert(i != j);
    assert(house_ok(s, h, u));
    assert(s[r * 9 + c] != 0);
    assert(house_cell(s, h, u, i) != house_cell(s, h, u, j));
}

/// Placing a forced value and striking it from the candidate grid
/// leads from one sound state of propagation to another.
pub proof fn lemma_strike_tracks(puzzle: Seq<u8>, g: Seq<u8>, ms: Seq<u16>, e: (usize, usize, u8))
    requires
        tracks(puzzle, g, ms),
        is_forced(puzzle, e),
    ensures
        tracks(puzzle, place(g, e.0 as int, e.1 as int, e.2), strike(ms, e.0 as int, e.1 as int, e.2)),
{
    let row = e.0 as int;
    let col = e.1 as int;
    let v = e.2;
    let g2 = place(g, row, col, v);
    let ms2 = strike(ms, row, col, v);
    assert(extends(puzzle, g2)) by {
        assert forall|i: int| 0 <= i < puzzle.len() && puzzle[i] != 0 implies #[trigger] g2[i]
            == puzzle[i] by {
            assert(g[i] == puzzle[i]);
        }
    }
    assert(agrees(puzzle, g2)) by {
        assert forall|s: Seq<u8>| #[trigger] solves(s, puzzle) implies extends(g2, s) by {
            assert(extends(g, s));
            assert(cell(s, row, col) == v);
            assert forall|i: int| 0 <= i < g2.len() && g2[i] != 0 implies #[trigger] s[i] == g2[i] by {
                if i != row * 9 + col {
                    assert(g2[i] == g[i]);
                }
            }
        }
    }
    assert(marks_bounded(ms2)) by {
        assert forall|q: int| 0 <= q < 81 implies #[trigger] ms2[q] <= 0x1ff by {
            let r = q / 9;
            let c = q % 9;
            assert(q == r * 9 + c);
            lemma_clear_value(ms[q], v, 0);
        }
    }
    assert(marks_sound(g2, ms2)) by {
        assert forall|r: int, c: int, w: u8|
            in_grid(r, c) && #[trigger] has_value(mark(ms2, r, c), w) implies cell(g2, r, c) == 0
            && is_candidate(g2, r, c, w) by {
            lemma_mark_strike(ms, row, col, v, r, c);
            lemma_empty_mask();
            lemma_clear_value(mark(ms, r, c), v, w);
            assert(!(r == row && c == col));
            assert(has_value(mark(ms, r, c), w));
            lemma_cell_place(g, row, col, v, r, c);
            assert forall|h: House, k: int| 0 <= k < 9 implies #[trigger] house_cell(
                g2,
                h,
                house_of(h, r, c),
                k,
            ) != w by {
                lemma_house_geometry(h, r, c);
                lemma_house_cell_place(g, row, col, v, h, house_of(h, r, c), k);
                assert(house_cell(g, h, house_of(h, r, c), k) != w);
                if house_of(h, r, c) == house_of(h, row, col) {
                    assert(shares_house(r, c, row, col));
                }
            }
        }
    }
    assert(marks_cover(puzzle, g2, ms2)) by {
        assert forall|s: Seq<u8>, r: int, c: int|
            solves(s, puzzle) && in_grid(r, c) && cell(g2, r, c) == 0 implies #[trigger] has_value(
            mark(ms2, r, c),
            cell(s, r, c),
        ) by {
            lemma_cell_place(g, row, col, v, r, c);
            lemma_mark_strike(ms, row, col, v, r, c);
            assert(has_value(mark(ms, r, c), cell(s, r, c)));
            lemma_clear_value(mark(ms, r, c), v, cell(s, r, c));
            if shares_house(r, c, row, col) {
                lemma_solution_separates(s, puzzle, r, c, row, col);
                assert(cell(s, row, col) == v);
            }
        }
    }
}

/// Placing forced values one after the other, striking each, leads
/// from one sound state of propagation to another.
pub proof fn lemma_strike_all_tracks(
    puzzle: Seq<u8>,
    g: Seq<u8>,
    ms: Seq<u16>,
    cells: Seq<(usize, usize, u8)>,
    k: int,
)
    requires
        tracks(puzzle, g, ms),
        forced(puzzle, cells),
        0 <= k <= cells.len(),
    ensures
        tracks(puzzle, place_all(g, cells, k), strike_all(ms, cells, k)),
    decreases k,
{
    if k > 0 {
        lemma_strike_all_tracks(puzzle, g, ms, cells, k - 1);
        lemma_strike_tracks(
            puzzle,
            place_all(g, cells, k - 1),
            strike_all(ms, cells, k - 1),
            cells[k - 1],
        );
    }
}

/// A cell whose mask has a single bit is empty, and every solution
/// has the value of that bit there.
pub proof fn lemma_naked_single_forced(puzzle: Seq<u8>, g: Seq<u8>, ms: Seq<u16>, row: int, col: int)
    requires
        tracks(puzzle, g, ms),
        in_grid(row, col),
        is_single(mark(ms, row, col)),
    ensures
        cell(g, row, col) == 0,
        is_forced(puzzle, (row as usize, col as usize, mask_value(mark(ms, row, col)))),
{
    let m = mark(ms, row, col);
    let v = mask_value(m);
    assert(m <= 0x1ff);
    lemma_single_is_value_mask(m);
    lemma_value_mask(v);
    assert(has_value(m, v));
    assert(cell(g, row, col) == 0);
    assert(puzzle[row * 9 + col] == 0);
    assert forall|s: Seq<u8>| #[trigger] solves(s, puzzle) implies cell(s, row, col) == v by {
        assert(has_value(mark(ms, row, col), cell(s, row, col)));
    }
}

/// A marked value that no other cell of one house of the cell has
/// marked belongs there in every solution.
pub proof fn lemma_hidden_single_forced(
    puzzle: Seq<u8>,
    g: Seq<u8>,
    ms: Seq<u16>,
    h: House,
    row: int,
    col: int,
    w: u8,
)
    requires
        tracks(puzzle, g, ms),
        in_grid(row, col),
        has_value(mark(ms, row, col), w),
        forall|k: int|
            0 <= k < 9 && k != slot_of(h, row, col) ==> !has_value(
                mark(
                    ms,
                    #[trigger] house_row(h, house_of(h, row, col), k),
                    house_col(h, house_of(h, row, col), k),
                ),
                w,
            ),
    ensures
        cell(g, row, col) == 0,
        is_forced(puzzle, (row as usize, col as usize, w)),
{
    let u = house_of(h, row, col);
    let slot = slot_of(h, row, col);
    lemma_house_geometry(h, row, col);
    assert(cell(g, row, col) == 0 && is_candidate(g, row, col, w));
    assert(puzzle[row * 9 + col] == 0);
    assert forall|s: Seq<u8>| #[trigger] solves(s, puzzle) implies cell(s, row, col) == w by {
        assert(house_ok(s, h, u));
        lemma_full_house_has_value(s, h, u, w);
        let k = choose|k: int| 0 <= k < 9 && #[trigger] house_cell(s, h, u, k) == w;
        if k != slot {
            lemma_house_cell_geometry(h, u, k);
            let r = house_row(h, u, k);
            let c = house_col(h, u, k);
            assert(!has_value(mark(ms, r, c), w));
            if cell(g, r, c) == 0 {
                assert(has_value(mark(ms, r, c), cell(s, r, c)));
            } else {
                assert(extends(g, s));
                assert(s[r * 9 + c] == g[r * 9 + c]);
                assert(house_cell(g, h, house_of(h, row, col), k) != w);
            }
        }
    }
}

/// The naked singles among the first `n` cells, in row-major order:
/// each cell whose mask has a single bit, with the value of that bit.
pub open spec fn naked_singles(ms: Seq<u16>, n: int) -> Seq<(usize, usize, u8)>
    decreases n,
{
    if n <= 0 {
        Seq::empty()
    } else {
        with_single(naked_singles(ms, n - 1), (n - 1) / 9, (n - 1) % 9, ms[n - 1])
    }
}

/// The list, with the cell and the value of `m` appended if `m` has a
/// single bit.
pub open spec fn with_single(list: Seq<(usize, usize, u8)>, row: int, col: int, m: u16) -> Seq<
    (usize, usize, u8),
> {
    if is_single(m) {
        list.push((row as usize, col as usize, mask_value(m)))
    } else {
        list
    }
}

/// The mask of the cell without what the first `k` cells of its house
/// of family `h` have marked, the cell itself not counted.
pub open spec fn narrowed(ms: Seq<u16>, h: House, row: int, col: int, k: int) -> u16
    decreases k,
{
    if k <= 0 {
        mark(ms, row, col)
    } else if k - 1 == slot_of(h, row, col) {
        narrowed(ms, h, row, col, k - 1)
    } else {
        narrowed(ms, h, row, col, k - 1) & !mark(
            ms,
            house_row(h, house_of(h, row, col), k - 1),
            house_col(h, house_of(h, row, col), k - 1),
        )
    }
}

/// The values marked for the cell and for no other cell of its house
/// of family `h`.
pub open spec fn alone(ms: Seq<u16>, h: House, row: int, col: int) -> u16 {
    narrowed(ms, h, row, col, 9)
}

/// The hidden singles among the first `n` cells, in row-major order:
/// for each cell, the value that only it has marked in its row, then
/// in its column, then in its square, where there is exactly one such.
pub open spec fn hidden_singles(ms: Seq<u16>, n: int) -> Seq<(usize, usize, u8)>
    decreases n,
{
    if n <= 0 {
        Seq::empty()
    } else {
        let row = (n - 1) / 9;
        let col = (n - 1) % 9;
        with_single(
            with_single(
                with_single(hidden_singles(ms, n - 1), row, col, alone(ms, House::Row, row, col)),
                row,
                col,
                alone(ms, House::Column, row, col),
            ),
            row,
            col,
            alone(ms, House::Square, row, col),
        )
    }
}

/// Every placement is into a cell that `g` leaves empty.
pub open spec fn all_empty(g: Seq<u8>, cells: Seq<(usize, usize, u8)>) -> bool {
    forall|i: int| 0 <= i < cells.len() ==> cell(g, (#[trigger] cells[i]).0 as int, cells[i].1 as int) == 0
}

/// What a narrowed mask holds.
pub proof fn lemma_narrowed(ms: Seq<u16>, h: House, row: int, col: int, k: int, w: u8)
    requires
        0 <= k <= 9,
    ensures
        has_value(narrowed(ms, h, row, col, k), w) <==> (has_value(mark(ms, row, col), w) && forall|
            j: int,
        |
            0 <= j < k && j != slot_of(h, row, col) ==> !has_value(
                mark(
                    ms,
                    #[trigger] house_row(h, house_of(h, row, col), j),
                    house_col(h, house_of(h, row, col), j),
                ),
                w,
            )),
        mark(ms, row, col) <= 0x1ff ==> narrowed(ms, h, row, col, k) <= 0x1ff,
    decreases k,
{
    if k > 0 {
        lemma_narrowed(ms, h, row, col, k - 1, w);
        let u = house_of(h, row, col);
        let other = mark(ms, house_row(h, u, k - 1), house_col(h, u, k - 1));
        lemma_clear_mask(narrowed(ms, h, row, col, k - 1), other, w);
        let below = forall|j: int|
            0 <= j < k - 1 && j != slot_of(h, row, col) ==> !has_value(
                mark(ms, #[trigger] house_row(h, u, j), house_col(h, u, j)),
                w,
            );
        let upto = forall|j: int|
            0 <= j < k && j != slot_of(h, row, col) ==> !has_value(
                mark(ms, #[trigger] house_row(h, u, j), house_col(h, u, j)),
                w,
            );
        if upto {
            assert(below);
            if k - 1 != slot_of(h, row, col) {
                assert(!has_value(mark(ms, house_row(h, u, k - 1), house_col(h, u, k - 1)), w));
            }
        }
        if below && (k - 1 == slot_of(h, row, col) || !has_value(other, w)) {
            assert(upto);
        }
    }
}

/// A cell with a single value alone in one of its houses is empty, and
/// every solution has that value there.
pub proof fn lemma_alone_forced(puzzle: Seq<u8>, g: Seq<u8>, ms: Seq<u16>, h: House, row: int, col: int)
    requires
        tracks(puzzle, g, ms),
        in_grid(row, col),
        is_single(alone(ms, h, row, col)),
    ensures
        cell(g, row, col) == 0,
        is_forced(puzzle, (row as usize, col as usize, mask_value(alone(ms, h, row, col)))),
{
    let m = alone(ms, h, row, col);
    let w = mask_value(m);
    assert(mark(ms, row, col) <= 0x1ff);
    lemma_narrowed(ms, h, row, col, 9, w);
    lemma_single_is_value_mask(m);
    lemma_value_mask(w);
    assert(has_value(m, w));
    lemma_hidden_single_forced(puzzle, g, ms, h, row, col, w);
}

/// Appending a forced placement into an empty cell keeps a list so.
proof fn lemma_with_single(
    puzzle: Seq<u8>,
    g: Seq<u8>,
    list: Seq<(usize, usize, u8)>,
    row: int,
    col: int,
    m: u16,
)
    requires
        forced(puzzle, list),
        all_empty(g, list),
        in_grid(row, col),
        is_single(m) ==> cell(g, row, col) == 0 && is_forced(
            puzzle,
            (row as usize, col as usize, mask_value(m)),
        ),
    ensures
        forced(puzzle, with_single(list, row, col, m)),
        all_empty(g, with_single(list, row, col, m)),
{
    let out = with_single(list, row, col, m);
    assert forall|i: int| 0 <= i < out.len() implies is_forced(puzzle, #[trigger] out[i]) && cell(
        g,
        out[i].0 as int,
        out[i].1 as int,
    ) == 0 by {
        if i < list.len() {
            assert(out[i] == list[i]);
        }
    }
}

/// The naked singles of a sound state are forced placements into
/// empty cells.
pub proof fn lemma_naked_singles_forced(puzzle: Seq<u8>, g: Seq<u8>, ms: Seq<u16>, n: int)
    requires
        tracks(puzzle, g, ms),
        0 <= n <= 81,
    ensures
        forced(puzzle, naked_singles(ms, n)),
        all_empty(g, naked_singles(ms, n)),
    decreases n,
{
    if n > 0 {
        lemma_naked_singles_forced(puzzle, g, ms, n - 1);
        let row = (n - 1) / 9;
        let col = (n - 1) % 9;
        assert(n - 1 == row * 9 + col);
        if is_single(ms[n - 1]) {
            lemma_naked_single_forced(puzzle, g, ms, row, col);
        }
        lemma_with_single(puzzle, g, naked_singles(ms, n - 1), row, col, ms[n - 1]);
    }
}

/// The hidden singles of a sound state are forced placements into
/// empty cells.
pub proof fn lemma_hidden_singles_forced(puzzle: Seq<u8>, g: Seq<u8>, ms: Seq<u16>, n: int)
    requires
        tracks(puzzle, g, ms),
        0 <= n <= 81,
    ensures
        forced(puzzle, hidden_singles(ms, n)),
        all_empty(g, hidden_singles(ms, n)),
    decreases n,
{
    if n > 0 {
        lemma_hidden_singles_forced(puzzle, g, ms, n - 1);
        let row = (n - 1) / 9;
        let col = (n - 1) % 9;
        let a = alone(ms, House::Row, row, col);
        let b = alone(ms, House::Column, row, col);
        let c = alone(ms, House::Square, row, col);
        if is_single(a) {
            lemma_alone_forced(puzzle, g, ms, House::Row, row, col);
        }
        if is_single(b) {
            lemma_alone_forced(puzzle, g, ms, House::Column, row, col);
        }
        if is_single(c) {
            lemma_alone_forced(puzzle, g, ms, House::Square, row, col);
        }
        let l0 = hidden_singles(ms, n - 1);
        lemma_with_single(puzzle, g, l0, row, col, a);
        let l1 = with_single(l0, row, col, a);
        lemma_with_single(puzzle, g, l1, row, col, b);
        let l2 = with_single(l1, row, col, b);
        lemma_with_single(puzzle, g, l2, row, col, c);
    }
}

/// The candidate grid holds the pencil marks of `g`: for an empty
/// cell the mask of its candidates, for a filled cell nothing.
pub open spec fn is_pencil_grid(g: Seq<u8>, ms: Seq<u16>) -> bool {
    &&& marks_bounded(ms)
    &&& forall|row: int, col: int, w: u8|
        in_grid(row, col) ==> (#[trigger] has_value(mark(ms, row, col), w) <==> (cell(g, row, col) == 0
            && is_candidate(g, row, col, w)))
}

/// The pencil marks of `g`.
pub open spec fn pencil_grid(g: Seq<u8>) -> Seq<u16> {
    choose|ms: Seq<u16>| is_pencil_grid(g, ms)
}

/// What propagation works on: the grid, the candidate grid and the
/// list of open cells.
pub struct Propagation {
    pub grid: Seq<u8>,
    pub marks: Seq<u16>,
    pub open: Seq<(usize, usize)>,
}

/// The list of open cells after the first `k` placements of `cells`.
pub open spec fn without_all(
    open: Seq<(usize, usize)>,
    cells: Seq<(usize, usize, u8)>,
    k: int,
) -> Seq<(usize, usize)>
    decreases k,
{
    if k <= 0 {
        open
    } else {
        without_cell(without_all(open, cells, k - 1), cells[k - 1].0, cells[k - 1].1)
    }
}

/// The state after every placement of `cells` was made and struck.
pub open spec fn apply_all(st: Propagation, cells: Seq<(usize, usize, u8)>) -> Propagation {
    Propagation {
        grid: place_all(st.grid, cells, cells.len() as int),
        marks: strike_all(st.marks, cells, cells.len() as int),
        open: without_all(st.open, cells, cells.len() as int),
    }
}

/// The state after naked singles were placed until none was left.
pub open spec fn settle(st: Propagation) -> Propagation
    decreases st.open.len(),
{
    let cells = naked_singles(st.marks, 81);
    let next = apply_all(st, cells);
    if cells.len() == 0 || next.open.len() >= st.open.len() {
        st
    } else {
        settle(next)
    }
}

/// The state at the fixed point: naked singles are placed until none
/// is left, then the hidden singles, and so on until the grid is
/// complete or neither rule finds a placement.
pub open spec fn propagate(st: Propagation) -> Propagation
    decreases st.open.len(),
{
    let settled = settle(st);
    let cells = hidden_singles(settled.marks, 81);
    let next = apply_all(settled, cells);
    if complete(settled.grid) || cells.len() == 0 || next.open.len() >= st.open.len() {
        settled
    } else {
        propagate(next)
    }
}

/// The state in which propagation starts on a board.
pub open spec fn start_of(g: Seq<u8>, open: Seq<(usize, usize)>) -> Propagation {
    Propagation { grid: g, marks: pencil_grid(g), open: open }
}

/// A grid has one pencil-mark grid only.
pub proof fn lemma_pencil_grid(g: Seq<u8>, ms: Seq<u16>)
    requires
        is_pencil_grid(g, ms),
    ensures
        ms == pencil_grid(g),
{
    let other = pencil_grid(g);
    assert(is_pencil_grid(g, other));
    assert forall|q: int| 0 <= q < 81 implies ms[q] == other[q] by {
        let row = q / 9;
        let col = q % 9;
        assert(q == row * 9 + col);
        assert forall|w: u8| has_value(ms[q], w) == has_value(other[q], w) by {
            assert(has_value(mark(ms, row, col), w) <==> (cell(g, row, col) == 0 && is_candidate(
                g,
                row,
                col,
                w,
            )));
            assert(has_value(mark(other, row, col), w) <==> (cell(g, row, col) == 0 && is_candidate(
                g,
                row,
                col,
                w,
            )));
        }
        lemma_same_values(ms[q], other[q]);
    }
    assert(ms =~= other);
}

/// Once the grid is complete there is no hidden single.
pub proof fn lemma_complete_has_no_hidden_single(puzzle: Seq<u8>, g: Seq<u8>, ms: Seq<u16>, n: int)
    requires
        tracks(puzzle, g, ms),
        complete(g),
        0 <= n <= 81,
    ensures
        hidden_singles(ms, n).len() == 0,
    decreases n,
{
    if n > 0 {
        lemma_complete_has_no_hidden_single(puzzle, g, ms, n - 1);
        let row = (n - 1) / 9;
        let col = (n - 1) % 9;
        assert(n - 1 == row * 9 + col);
        assert(g[n - 1] != 0);
        lemma_empty_mask();
        assert forall|w: u8| has_value(mark(ms, row, col), w) == has_value(0, w) by {
            if has_value(mark(ms, row, col), w) {
                assert(cell(g, row, col) == 0);
            }
        }
        lemma_same_values(mark(ms, row, col), 0);
        lemma_narrowed_of_nothing(ms, House::Row, row, col, 9);
        lemma_narrowed_of_nothing(ms, House::Column, row, col, 9);
        lemma_narrowed_of_nothing(ms, House::Square, row, col, 9);
    }
}

/// Narrowing a mask that holds nothing leaves nothing.
proof fn lemma_narrowed_of_nothing(ms: Seq<u16>, h: House, row: int, col: int, k: int)
    requires
        mark(ms, row, col) == 0,
        0 <= k <= 9,
    ensures
        narrowed(ms, h, row, col, k) == 0,
    decreases k,
{
    if k > 0 {
        lemma_narrowed_of_nothing(ms, h, row, col, k - 1);
        let other = mark(
            ms,
            house_row(h, house_of(h, row, col), k - 1),
            house_col(h, house_of(h, row, col), k - 1),
        );
        assert(0u16 & !other == 0) by (bit_vector);
    }
}

} // verus!
