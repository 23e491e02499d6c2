//! The mathematical model of a Sudoku grid.
//!
//! A grid is the row-major sequence of its 81 cell values, 0 standing
//! for an empty cell.  Everything here is specification and proof.
use vstd::prelude::*;

verus! {

/// The three families of constraint: rows, columns and 3x3 squares.
pub enum House {
    Row,
    Column,
    Square,
}

/// Value of the cell at `(row, col)`.
pub open spec fn cell(g: Seq<u8>, row: int, col: int) -> u8 {
    g[row * 9 + col]
}

/// The grid with `v` written at `(row, col)`.
pub open spec fn place(g: Seq<u8>, row: int, col: int, v: u8) -> Seq<u8> {
    g.update(row * 9 + col, v)
}

/// Row and column are between 0 and 8.
pub open spec fn in_grid(row: int, col: int) -> bool {
    0 <= row < 9 && 0 <= col < 9
}

/// 81 cells, each empty or holding a value from 1 to 9.
pub open spec fn well_formed(g: Seq<u8>) -> bool {
    g.len() == 81 && forall|i: int| 0 <= i < 81 ==> #[trigger] g[i] <= 9
}

/// The grid with no value placed.
pub open spec fn empty_grid() -> Seq<u8> {
    Seq::new(81, |i: int| 0u8)
}

/// Number of the square that holds `(row, col)`.
pub open spec fn square_of(row: int, col: int) -> int {
    (row / 3) * 3 + col / 3
}

/// Position of `(row, col)` inside its square, row-major.
pub open spec fn slot_in_square(row: int, col: int) -> int {
    (row % 3) * 3 + col % 3
}

/// Row of the `k`-th cell of house `u` of family `h`.
pub open spec fn house_row(h: House, u: int, k: int) -> int {
    match h {
        House::Row => u,
        House::Column => k,
        House::Square => (u / 3) * 3 + k / 3,
    }
}

/// Column of the `k`-th cell of house `u` of family `h`.
pub open spec fn house_col(h: House, u: int, k: int) -> int {
    match h {
        House::Row => k,
        House::Column => u,
        House::Square => (u % 3) * 3 + k % 3,
    }
}

/// The house of family `h` that holds `(row, col)`.
pub open spec fn house_of(h: House, row: int, col: int) -> int {
    match h {
        House::Row => row,
        House::Column => col,
        House::Square => square_of(row, col),
    }
}

/// The position of `(row, col)` within its house of family `h`.
pub open spec fn slot_of(h: House, row: int, col: int) -> int {
    match h {
        House::Row => col,
        House::Column => row,
        House::Square => slot_in_square(row, col),
    }
}

/// Value of the `k`-th cell of house `u` of family `h`.
pub open spec fn house_cell(g: Seq<u8>, h: House, u: int, k: int) -> u8 {
    cell(g, house_row(h, u, k), house_col(h, u, k))
}

/// No value occurs twice among the filled cells of the house.
pub open spec fn house_ok(g: Seq<u8>, h: House, u: int) -> bool {
    forall|i: int, j: int|
        0 <= i < 9 && 0 <= j < 9 && i != j && #[trigger] house_cell(g, h, u, i) != 0
            ==> house_cell(g, h, u, i) != #[trigger] house_cell(g, h, u, j)
}

/// No row, column or square holds two equal non-empty values.
pub open spec fn valid(g: Seq<u8>) -> bool {
    forall|h: House, u: int| 0 <= u < 9 ==> #[trigger] house_ok(g, h, u)
}

/// The row, the column and the square through `(row, col)` are free
/// of duplicates.
pub open spec fn houses_ok_at(g: Seq<u8>, row: int, col: int) -> bool {
    &&& house_ok(g, House::Row, row)
    &&& house_ok(g, House::Column, col)
    &&& house_ok(g, House::Square, square_of(row, col))
}

/// Every cell is filled.
pub open spec fn complete(g: Seq<u8>) -> bool {
    forall|i: int| 0 <= i < g.len() ==> #[trigger] g[i] != 0
}

/// `s` keeps every value that `g` has placed.
pub open spec fn extends(g: Seq<u8>, s: Seq<u8>) -> bool {
    s.len() == g.len() && forall|i: int| 0 <= i < g.len() && g[i] != 0 ==> #[trigger] s[i] == g[i]
}

/// `s` is a solution of the puzzle `g`.
pub open spec fn solves(s: Seq<u8>, g: Seq<u8>) -> bool {
    well_formed(s) && complete(s) && valid(s) && extends(g, s)
}

/// The puzzle has at least one solution.
pub open spec fn solvable(g: Seq<u8>) -> bool {
    exists|s: Seq<u8>| solves(s, g)
}

/// `v` is between 1 and 9 and occurs nowhere in the row, the column
/// or the square of `(row, col)`.
pub open spec fn is_candidate(g: Seq<u8>, row: int, col: int, v: u8) -> bool {
    1 <= v <= 9 && forall|h: House, k: int|
        0 <= k < 9 ==> #[trigger] house_cell(g, h, house_of(h, row, col), k) != v
}

/// The values 1 to 9 in ascending order.
pub open spec fn digits() -> Seq<u8> {
    Seq::new(9, |i: int| (i + 1) as u8)
}

/// The test that picks the candidates of `(row, col)`.
pub open spec fn candidate_test(g: Seq<u8>, row: int, col: int) -> spec_fn(u8) -> bool {
    |v: u8| is_candidate(g, row, col, v)
}

/// The candidates of `(row, col)` in ascending order.
pub open spec fn candidates(g: Seq<u8>, row: int, col: int) -> Seq<u8> {
    digits().filter(candidate_test(g, row, col))
}

/// The candidates of `(row, col)` that are at most `n`, in ascending order.
pub open spec fn candidates_below(g: Seq<u8>, row: int, col: int, n: int) -> Seq<u8> {
    digits().take(n).filter(candidate_test(g, row, col))
}

/// The cells of a house lie in the grid, and a cell sits in each of
/// its three houses at its own slot.
pub proof fn lemma_house_geometry(h: House, row: int, col: int)
    requires
        in_grid(row, col),
    ensures
        0 <= house_of(h, row, col) < 9,
        0 <= slot_of(h, row, col) < 9,
        house_row(h, house_of(h, row, col), slot_of(h, row, col)) == row,
        house_col(h, house_of(h, row, col), slot_of(h, row, col)) == col,
{
}

/// Going from a house and a slot to the cell and back gives the house
/// and the slot again.
pub proof fn lemma_house_cell_geometry(h: House, u: int, k: int)
    requires
        0 <= u < 9,
        0 <= k < 9,
    ensures
        in_grid(house_row(h, u, k), house_col(h, u, k)),
        house_of(h, house_row(h, u, k), house_col(h, u, k)) == u,
        slot_of(h, house_row(h, u, k), house_col(h, u, k)) == k,
{
}

/// Reading a cell after a placement.
pub proof fn lemma_cell_place(g: Seq<u8>, row: int, col: int, v: u8, r: int, c: int)
    requires
        g.len() == 81,
        in_grid(row, col),
        in_grid(r, c),
    ensures
        cell(place(g, row, col, v), r, c) == (if r == row && c == col {
            v
        } else {
            cell(g, r, c)
        }),
{
}

/// Reading a house after a placement: only the slot of the written
/// cell in its own houses changes.
pub proof fn lemma_house_cell_place(g: Seq<u8>, row: int, col: int, v: u8, h: House, u: int, k: int)
    requires
        g.len() == 81,
        in_grid(row, col),
        0 <= u < 9,
        0 <= k < 9,
    ensures
        house_cell(place(g, row, col, v), h, u, k) == (if u == house_of(h, row, col) && k
            == slot_of(h, row, col) {
            v
        } else {
            house_cell(g, h, u, k)
        }),
{
    lemma_house_geometry(h, row, col);
    lemma_house_cell_geometry(h, u, k);
    lemma_cell_place(g, row, col, v, house_row(h, u, k), house_col(h, u, k));
}

/// The grid with no value placed has no duplicate.
pub proof fn lemma_empty_grid_valid()
    ensures
        well_formed(empty_grid()),
        valid(empty_grid()),
{
    let g = empty_grid();
    assert forall|h: House, u: int| 0 <= u < 9 implies #[trigger] house_ok(g, h, u) by {
        assert forall|i: int, j: int|
            0 <= i < 9 && 0 <= j < 9 && i != j && #[trigger] house_cell(g, h, u, i) != 0 implies house_cell(
            g,
            h,
            u,
            i,
        ) != #[trigger] house_cell(g, h, u, j) by {
            lemma_house_cell_geometry(h, u, i);
        }
    }
}

/// A grid whose filled cells all recur in a valid grid is valid.
pub proof fn lemma_extends_valid(g: Seq<u8>, s: Seq<u8>)
    requires
        g.len() == 81,
        extends(g, s),
        valid(s),
    ensures
        valid(g),
{
    assert forall|h: House, u: int| 0 <= u < 9 implies #[trigger] house_ok(g, h, u) by {
        assert(house_ok(s, h, u));
        assert forall|i: int, j: int|
            0 <= i < 9 && 0 <= j < 9 && i != j && #[trigger] house_cell(g, h, u, i) != 0 implies house_cell(
            g,
            h,
            u,
            i,
        ) != #[trigger] house_cell(g, h, u, j) by {
            lemma_house_cell_geometry(h, u, i);
            lemma_house_cell_geometry(h, u, j);
            let p = house_row(h, u, i) * 9 + house_col(h, u, i);
            let q = house_row(h, u, j) * 9 + house_col(h, u, j);
            assert(s[p] == g[p]);
            if g[q] != 0 {
                assert(s[q] == g[q]);
                assert(house_cell(s, h, u, i) != house_cell(s, h, u, j));
            }
        }
    }
}

/// Writing a candidate into a cell of a valid grid leaves it valid.
pub proof fn lemma_place_candidate(g: Seq<u8>, row: int, col: int, v: u8)
    requires
        well_formed(g),
        valid(g),
        in_grid(row, col),
        is_candidate(g, row, col, v),
    ensures
        well_formed(place(g, row, col, v)),
        valid(place(g, row, col, v)),
{
    let g2 = place(g, row, col, v);
    assert forall|h: House, u: int| 0 <= u < 9 implies #[trigger] house_ok(g2, h, u) by {
        assert(house_ok(g, h, u));
        assert forall|i: int, j: int|
            0 <= i < 9 && 0 <= j < 9 && i != j && #[trigger] house_cell(g2, h, u, i) != 0 implies house_cell(
            g2,
            h,
            u,
            i,
        ) != #[trigger] house_cell(g2, h, u, j) by {
            lemma_house_cell_place(g, row, col, v, h, u, i);
            lemma_house_cell_place(g, row, col, v, h, u, j);
            if u == house_of(h, row, col) {
                assert(house_cell(g, h, house_of(h, row, col), i) != v);
                assert(house_cell(g, h, house_of(h, row, col), j) != v);
                if i != slot_of(h, row, col) && j != slot_of(h, row, col) {
                    assert(house_cell(g, h, u, i) != house_cell(g, h, u, j));
                }
            } else {
                assert(house_cell(g, h, u, i) != house_cell(g, h, u, j));
            }
        }
    }
}

/// In a solution, the value of a cell that the puzzle leaves empty is
/// one of that cell's candidates, and the solution also solves the
/// puzzle with that value filled in.
pub proof fn lemma_solution_picks_candidate(g: Seq<u8>, s: Seq<u8>, row: int, col: int)
    requires
        g.len() == 81,
        solves(s, g),
        in_grid(row, col),
        cell(g, row, col) == 0,
    ensures
        is_candidate(g, row, col, cell(s, row, col)),
        solves(s, place(g, row, col, cell(s, row, col))),
{
    let v = cell(s, row, col);
    assert(s[row * 9 + col] != 0);
    assert forall|h: House, k: int| 0 <= k < 9 implies #[trigger] house_cell(
        g,
        h,
        house_of(h, row, col),
        k,
    ) != v by {
        let u = house_of(h, row, col);
        let slot = slot_of(h, row, col);
        lemma_house_geometry(h, row, col);
        lemma_house_cell_geometry(h, u, k);
        let q = house_row(h, u, k) * 9 + house_col(h, u, k);
        if g[q] != 0 {
            assert(s[q] == g[q]);
            assert(k != slot);
            assert(house_ok(s, h, u));
            assert(house_cell(s, h, u, slot) != house_cell(s, h, u, k));
        }
    }
}

/// A solution of the puzzle with one more cell filled in solves the
/// puzzle itself.
pub proof fn lemma_solves_placed(g: Seq<u8>, s: Seq<u8>, row: int, col: int, v: u8)
    requires
        g.len() == 81,
        in_grid(row, col),
        cell(g, row, col) == 0,
        solves(s, place(g, row, col, v)),
    ensures
        solves(s, g),
{
    let g2 = place(g, row, col, v);
    assert forall|i: int| 0 <= i < g.len() && g[i] != 0 implies #[trigger] s[i] == g[i] by {
        assert(g2[i] == g[i]);
    }
}

/// There are at most `n` distinct natural numbers below `n`.
pub proof fn lemma_pigeonhole(f: Seq<int>, n: int)
    requires
        n >= 0,
        forall|i: int| 0 <= i < f.len() ==> 0 <= #[trigger] f[i] < n,
        forall|i: int, j: int| 0 <= i < j < f.len() ==> f[i] != f[j],
    ensures
        f.len() <= n,
    decreases n,
{
    if f.len() == 0 {
    } else if n == 0 {
        let first = f[0];
        assert(0 <= first && first < n);
    } else {
        let top = n - 1;
        if exists|i: int| 0 <= i < f.len() && f[i] == top {
            let i = choose|i: int| 0 <= i < f.len() && f[i] == top;
            let rest = f.remove(i);
            assert forall|a: int| 0 <= a < rest.len() implies 0 <= #[trigger] rest[a] < top by {
                if a < i {
                    assert(rest[a] == f[a]);
                } else {
                    assert(rest[a] == f[a + 1]);
                }
            }
            assert forall|a: int, b: int| 0 <= a < b < rest.len() implies rest[a] != rest[b] by {
                let fa = if a < i {
                    a
                } else {
                    a + 1
                };
                let fb = if b < i {
                    b
                } else {
                    b + 1
                };
                assert(rest[a] == f[fa] && rest[b] == f[fb]);
            }
            lemma_pigeonhole(rest, top);
        } else {
            let rest = f.drop_last();
            assert forall|a: int| 0 <= a < rest.len() implies 0 <= #[trigger] rest[a] < top by {
                assert(rest[a] == f[a]);
            }
            lemma_pigeonhole(rest, top);
        }
    }
}

/// A complete house without duplicates holds every value from 1 to 9.
pub proof fn lemma_full_house_has_value(s: Seq<u8>, h: House, u: int, w: u8)
    requires
        well_formed(s),
        complete(s),
        house_ok(s, h, u),
        0 <= u < 9,
        1 <= w <= 9,
    ensures
        exists|k: int| 0 <= k < 9 && #[trigger] house_cell(s, h, u, k) == w,
{
    if !exists|k: int| 0 <= k < 9 && #[trigger] house_cell(s, h, u, k) == w {
        // Nine distinct values from 1 to 9 without `w`, renumbered to 0..8.
        let f = Seq::new(
            9,
            |k: int|
                if house_cell(s, h, u, k) > w {
                    house_cell(s, h, u, k) - 2
                } else {
                    house_cell(s, h, u, k) - 1
                },
        );
        assert forall|k: int| 0 <= k < 9 implies 1 <= #[trigger] house_cell(s, h, u, k) <= 9
            && house_cell(s, h, u, k) != w by {
            lemma_house_cell_geometry(h, u, k);
            let q = house_row(h, u, k) * 9 + house_col(h, u, k);
            assert(s[q] != 0 && s[q] <= 9);
        }
        assert forall|i: int| 0 <= i < f.len() implies 0 <= #[trigger] f[i] < 8 by {
            assert(1 <= house_cell(s, h, u, i) <= 9);
        }
        assert forall|i: int, j: int| 0 <= i < j < f.len() implies f[i] != f[j] by {
            assert(1 <= house_cell(s, h, u, i) <= 9);
            assert(1 <= house_cell(s, h, u, j) <= 9);
            assert(house_cell(s, h, u, i) != house_cell(s, h, u, j));
        }
        lemma_pigeonhole(f, 8);
    }
}

/// Writing a value into a cell of a valid grid leaves it valid if the
/// three houses of that cell are then free of duplicates.
pub proof fn lemma_place_checked(g: Seq<u8>, row: int, col: int, v: u8)
    requires
        g.len() == 81,
        valid(g),
        in_grid(row, col),
        houses_ok_at(place(g, row, col, v), row, col),
    ensures
        valid(place(g, row, col, v)),
{
    let g2 = place(g, row, col, v);
    assert forall|h: House, u: int| 0 <= u < 9 implies #[trigger] house_ok(g2, h, u) by {
        if u == house_of(h, row, col) {
            match h {
                House::Row => {},
                House::Column => {},
                House::Square => {},
            }
        } else {
            assert(house_ok(g, h, u));
            assert forall|i: int, j: int|
                0 <= i < 9 && 0 <= j < 9 && i != j && #[trigger] house_cell(g2, h, u, i)
                    != 0 implies house_cell(g2, h, u, i) != #[trigger] house_cell(g2, h, u, j) by {
                lemma_house_cell_place(g, row, col, v, h, u, i);
                lemma_house_cell_place(g, row, col, v, h, u, j);
                assert(house_cell(g, h, u, i) != house_cell(g, h, u, j));
            }
        }
    }
}

/// Raising the bound by one adds the next value if it is a candidate.
pub proof fn lemma_candidates_step(g: Seq<u8>, row: int, col: int, n: int)
    requires
        0 <= n < 9,
    ensures
        candidates_below(g, row, col, n + 1) == (if is_candidate(g, row, col, (n + 1) as u8) {
            candidates_below(g, row, col, n).push((n + 1) as u8)
        } else {
            candidates_below(g, row, col, n)
        }),
{
    reveal(Seq::filter);
    let s = digits().take(n + 1);
    assert(s.drop_last() =~= digits().take(n));
    assert(s.last() == (n + 1) as u8);
}

/// What the candidates up to a bound are: exactly the candidate values
/// within the bound, each once, in ascending order.
pub proof fn lemma_candidates_below(g: Seq<u8>, row: int, col: int, n: int)
    requires
        0 <= n <= 9,
    ensures
        candidates_below(g, row, col, n).len() <= n,
        forall|v: u8|
            candidates_below(g, row, col, n).contains(v) <==> (v <= n && is_candidate(g, row, col, v)),
        forall|i: int, j: int|
            0 <= i < j < candidates_below(g, row, col, n).len() ==> candidates_below(g, row, col, n)[i]
                < candidates_below(g, row, col, n)[j],
        n == 9 ==> candidates_below(g, row, col, n) == candidates(g, row, col),
    decreases n,
{
    let c = candidates_below(g, row, col, n);
    if n == 0 {
        reveal(Seq::filter);
        assert(digits().take(0) =~= Seq::<u8>::empty());
        assert(c =~= Seq::<u8>::empty());
    } else {
        let b = candidates_below(g, row, col, n - 1);
        lemma_candidates_below(g, row, col, n - 1);
        lemma_candidates_step(g, row, col, n - 1);
        assert forall|v: u8| c.contains(v) <==> (v <= n && is_candidate(g, row, col, v)) by {
            if c.contains(v) {
                let i = choose|i: int| 0 <= i < c.len() && c[i] == v;
                if i < b.len() {
                    assert(b[i] == v);
                    assert(b.contains(v));
                }
            }
            if v <= n && is_candidate(g, row, col, v) {
                if v < n {
                    assert(b.contains(v));
                    let i = choose|i: int| 0 <= i < b.len() && b[i] == v;
                    assert(c[i] == v);
                } else {
                    assert(c[c.len() - 1] == v);
                }
            }
        }
        assert forall|i: int, j: int| 0 <= i < j < c.len() implies c[i] < c[j] by {
            if j >= b.len() {
                assert(b.contains(b[i]));
            }
        }
    }
    if n == 9 {
        assert(digits().take(9) =~= digits());
    }
}

/// The candidate list holds exactly the candidates, each once, in
/// ascending order.
pub proof fn lemma_candidates(g: Seq<u8>, row: int, col: int)
    ensures
        candidates(g, row, col).len() <= 9,
        forall|v: u8| candidates(g, row, col).contains(v) <==> is_candidate(g, row, col, v),
        forall|i: int, j: int|
            0 <= i < j < candidates(g, row, col).len() ==> candidates(g, row, col)[i] < candidates(
                g,
                row,
                col,
            )[j],
{
    lemma_candidates_below(g, row, col, 9);
}

} // verus!
