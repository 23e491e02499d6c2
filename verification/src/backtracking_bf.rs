//! Brute-force backtracking: the open cells are filled in their order,
//! each with the values 1 to 9 in turn.
use crate::board::Sudoku;
use crate::cells::lists_open_cells;
use crate::grid::{
    cell, complete, extends, houses_ok_at, in_grid, lemma_cell_place, lemma_extends_valid,
    lemma_place_checked, place, solvable, solves, valid, well_formed,
};
use crate::solver::Solver;
use vstd::prelude::*;

verus! {

/// Backtracking over the open cells in their order, every value in turn.
pub struct BacktrackingBruteForceSolver {}

/// Short name of the brute-force strategy.
pub type BBFS = BacktrackingBruteForceSolver;

/// Value of the `j`-th listed cell.
pub open spec fn value_at(g: Seq<u8>, open: Seq<(usize, usize)>, j: int) -> int {
    cell(g, open[j].0 as int, open[j].1 as int) as int
}

/// The two grids have the same values in the first `k` listed cells.
pub open spec fn same_prefix(s: Seq<u8>, g: Seq<u8>, open: Seq<(usize, usize)>, k: int) -> bool {
    forall|j: int| 0 <= j < k ==> #[trigger] value_at(s, open, j) == value_at(g, open, j)
}

/// No solution of `base` lies before the state of the search: one that
/// has the values of `g` in the listed cells before the `k`-th has at
/// least the value of `g` in the `k`-th, and more than it in the
/// `i`-th, the cell that the search stands at.
pub open spec fn explored(base: Seq<u8>, g: Seq<u8>, open: Seq<(usize, usize)>, i: int) -> bool {
    forall|s: Seq<u8>, k: int|
        #[trigger] solves(s, base) && 0 <= k <= i && #[trigger] same_prefix(s, g, open, k)
            ==> value_at(s, open, k) >= value_at(g, open, k) + (if k == i {
            1int
        } else {
            0int
        })
}

/// No solution of `base` comes before `s` when the listed cells are
/// read in their order: where a solution has the values of `s` in
/// the cells before the `k`-th, it has at least the value of `s` in
/// the `k`-th.
pub open spec fn is_least_solution(base: Seq<u8>, s: Seq<u8>, open: Seq<(usize, usize)>) -> bool {
    forall|t: Seq<u8>, k: int|
        #[trigger] solves(t, base) && 0 <= k < open.len() && #[trigger] same_prefix(t, s, open, k)
            ==> value_at(t, open, k) >= value_at(s, open, k)
}

/// Ten to the power `k`.
pub open spec fn pow10(k: nat) -> nat
    decreases k,
{
    if k == 0 {
        1
    } else {
        10 * pow10((k - 1) as nat)
    }
}

/// The values of the first `k` listed cells read as a decimal number.
pub open spec fn prefix_number(g: Seq<u8>, open: Seq<(usize, usize)>, k: int) -> int
    decreases k,
{
    if k <= 0 {
        0
    } else {
        prefix_number(g, open, k - 1) * 10 + value_at(g, open, k - 1)
    }
}

/// How far the search has come: the number that it will try next,
/// read over all listed cells.  It never falls, and it stays below
/// ten to the number of listed cells.
pub open spec fn progress(g: Seq<u8>, open: Seq<(usize, usize)>, i: int) -> int {
    (prefix_number(g, open, i + 1) + 1) * pow10((open.len() - 1 - i) as nat)
}

proof fn lemma_pow10_positive(k: nat)
    ensures
        pow10(k) > 0,
    decreases k,
{
    if k > 0 {
        lemma_pow10_positive((k - 1) as nat);
    }
}

proof fn lemma_pow10_add(a: nat, b: nat)
    ensures
        pow10(a) * pow10(b) == pow10(a + b),
    decreases a,
{
    if a == 0 {
        assert(1 * pow10(b) == pow10(b));
    } else {
        lemma_pow10_add((a - 1) as nat, b);
        let x = pow10((a - 1) as nat);
        let y = pow10(b);
        assert((10 * x) * y == 10 * (x * y)) by (nonlinear_arith);
    }
}

/// The number read from the first `k` cells has at most `k` digits.
proof fn lemma_prefix_number_bound(g: Seq<u8>, open: Seq<(usize, usize)>, k: int)
    requires
        0 <= k <= open.len(),
        forall|j: int| 0 <= j < k ==> 0 <= #[trigger] value_at(g, open, j) <= 9,
    ensures
        0 <= prefix_number(g, open, k) < pow10(k as nat),
    decreases k,
{
    if k > 0 {
        lemma_prefix_number_bound(g, open, k - 1);
        assert(0 <= value_at(g, open, k - 1) <= 9);
    }
}

/// The number read from the first `k` cells depends on those cells only.
proof fn lemma_prefix_number_same(g: Seq<u8>, g2: Seq<u8>, open: Seq<(usize, usize)>, k: int)
    requires
        0 <= k <= open.len(),
        forall|j: int| 0 <= j < k ==> #[trigger] value_at(g, open, j) == value_at(g2, open, j),
    ensures
        prefix_number(g, open, k) == prefix_number(g2, open, k),
    decreases k,
{
    if k > 0 {
        lemma_prefix_number_same(g, g2, open, k - 1);
        assert(value_at(g, open, k - 1) == value_at(g2, open, k - 1));
    }
}

/// The progress of the search stays within ten to the number of cells.
proof fn lemma_progress_bound(g: Seq<u8>, open: Seq<(usize, usize)>, i: int)
    requires
        0 <= i < open.len(),
        forall|j: int| 0 <= j <= i ==> 0 <= #[trigger] value_at(g, open, j) <= 9,
    ensures
        0 <= progress(g, open, i) <= pow10(open.len()),
{
    lemma_prefix_number_bound(g, open, i + 1);
    let h = prefix_number(g, open, i + 1) + 1;
    let a = pow10((i + 1) as nat);
    let b = pow10((open.len() - 1 - i) as nat);
    lemma_pow10_positive((open.len() - 1 - i) as nat);
    lemma_pow10_add((i + 1) as nat, (open.len() - 1 - i) as nat);
    assert(0 <= h * b <= a * b) by (nonlinear_arith)
        requires
            0 <= h <= a,
            b > 0,
    ;
}

/// Raising the value of the cell that the search stands at raises
/// the progress.
proof fn lemma_progress_next_value(g: Seq<u8>, g2: Seq<u8>, open: Seq<(usize, usize)>, i: int)
    requires
        0 <= i < open.len(),
        forall|j: int| 0 <= j < i ==> #[trigger] value_at(g, open, j) == value_at(g2, open, j),
        value_at(g2, open, i) == value_at(g, open, i) + 1,
    ensures
        progress(g2, open, i) > progress(g, open, i),
{
    lemma_prefix_number_same(g, g2, open, i);
    let h = prefix_number(g, open, i + 1) + 1;
    let b = pow10((open.len() - 1 - i) as nat);
    lemma_pow10_positive((open.len() - 1 - i) as nat);
    assert((h + 1) * b > h * b) by (nonlinear_arith)
        requires
            b > 0,
    ;
}

/// Raising the value of the cell that the search stands at and going
/// on to the next cell, which is empty, raises the progress.
proof fn lemma_progress_advance(g: Seq<u8>, g2: Seq<u8>, open: Seq<(usize, usize)>, i: int)
    requires
        0 <= i,
        i + 1 < open.len(),
        forall|j: int| 0 <= j < i ==> #[trigger] value_at(g, open, j) == value_at(g2, open, j),
        value_at(g2, open, i) == value_at(g, open, i) + 1,
        value_at(g2, open, i + 1) == 0,
    ensures
        progress(g2, open, i + 1) > progress(g, open, i),
{
    lemma_prefix_number_same(g, g2, open, i);
    let h = prefix_number(g, open, i + 1);
    let q = pow10((open.len() - 2 - i) as nat);
    lemma_pow10_positive((open.len() - 2 - i) as nat);
    assert(pow10((open.len() - 1 - i) as nat) == 10 * q);
    assert(prefix_number(g2, open, i + 1) == h + 1);
    assert(prefix_number(g2, open, i + 2) == (h + 1) * 10);
    assert(((h + 1) * 10 + 1) * q > (h + 1) * (10 * q)) by (nonlinear_arith)
        requires
            q > 0,
    ;
}

/// Emptying a cell that holds 9 and going back to the cell before it
/// leaves the progress as it is.
proof fn lemma_progress_back(g: Seq<u8>, g2: Seq<u8>, open: Seq<(usize, usize)>, i: int)
    requires
        0 < i < open.len(),
        forall|j: int| 0 <= j < i ==> #[trigger] value_at(g, open, j) == value_at(g2, open, j),
        value_at(g, open, i) == 9,
    ensures
        progress(g2, open, i - 1) == progress(g, open, i),
{
    lemma_prefix_number_same(g, g2, open, i);
    let h = prefix_number(g, open, i);
    let p = pow10((open.len() - 1 - i) as nat);
    assert(pow10((open.len() - i) as nat) == 10 * p);
    assert((h + 1) * (10 * p) == (h * 10 + 9 + 1) * p) by (nonlinear_arith);
}

/// What holds whenever the search stands at the `i`-th listed cell
/// with the grid `g`: the cells before it are filled, those after it
/// are empty, without the value of the `i`-th cell the grid is valid,
/// and no solution has been passed over.
pub open spec fn search_state(base: Seq<u8>, g: Seq<u8>, open: Seq<(usize, usize)>, i: int) -> bool {
    &&& well_formed(base)
    &&& valid(base)
    &&& lists_open_cells(base, open)
    &&& well_formed(g)
    &&& extends(base, g)
    &&& 0 <= i < open.len()
    &&& forall|j: int| 0 <= j < i ==> #[trigger] value_at(g, open, j) != 0
    &&& forall|j: int| i < j < open.len() ==> #[trigger] value_at(g, open, j) == 0
    &&& valid(place(g, open[i].0 as int, open[i].1 as int, 0))
    &&& explored(base, g, open, i)
}

/// Reading the listed cells after one of them was written.
proof fn lemma_value_at_place(g: Seq<u8>, open: Seq<(usize, usize)>, i: int, v: u8, j: int)
    requires
        g.len() == 81,
        open.no_duplicates(),
        0 <= i < open.len(),
        0 <= j < open.len(),
        in_grid(open[i].0 as int, open[i].1 as int),
        in_grid(open[j].0 as int, open[j].1 as int),
    ensures
        value_at(place(g, open[i].0 as int, open[i].1 as int, v), open, j) == (if j == i {
            v as int
        } else {
            value_at(g, open, j)
        }),
{
    lemma_cell_place(
        g,
        open[i].0 as int,
        open[i].1 as int,
        v,
        open[j].0 as int,
        open[j].1 as int,
    );
    if j != i {
        assert(open[i] != open[j]);
    }
}

/// A solution that has the values of `g` in the listed cells up to
/// the `i`-th, where the later ones are empty in `g`, keeps every
/// value of `g`.
proof fn lemma_matching_solution(
    base: Seq<u8>,
    g: Seq<u8>,
    open: Seq<(usize, usize)>,
    i: int,
    s: Seq<u8>,
)
    requires
        lists_open_cells(base, open),
        well_formed(g),
        extends(base, g),
        0 <= i < open.len(),
        forall|j: int| i < j < open.len() ==> #[trigger] value_at(g, open, j) == 0,
        solves(s, base),
        same_prefix(s, g, open, i + 1),
    ensures
        extends(g, s),
{
    assert forall|p: int| 0 <= p < g.len() && g[p] != 0 implies #[trigger] s[p] == g[p] by {
        let row = p / 9;
        let col = p % 9;
        assert(p == row * 9 + col);
        if base[p] != 0 {
            assert(g[p] == base[p]);
            assert(s[p] == base[p]);
        } else {
            assert(cell(base, row, col) == 0);
            assert(open.contains((row as usize, col as usize)));
            let j = choose|j: int| 0 <= j < open.len() && open[j] == (row as usize, col as usize);
            assert(value_at(g, open, j) == g[p]);
            assert(value_at(s, open, j) == value_at(g, open, j));
        }
    }
}

/// The search may start at the first open cell of a valid board.
proof fn lemma_search_start(base: Seq<u8>, open: Seq<(usize, usize)>)
    requires
        well_formed(base),
        valid(base),
        lists_open_cells(base, open),
        open.len() > 0,
    ensures
        search_state(base, base, open, 0),
{
    assert(place(base, open[0].0 as int, open[0].1 as int, 0) =~= base);
    assert forall|s: Seq<u8>, k: int|
        #[trigger] solves(s, base) && 0 <= k <= 0 && #[trigger] same_prefix(
            s,
            base,
            open,
            k,
        ) implies value_at(s, open, k) >= value_at(base, open, k) + (if k == 0 {
        1int
    } else {
        0int
    }) by {
        assert(s[open[0].0 * 9 + open[0].1] != 0);
    }
}

/// The next value for the cell was tried and the grid is not valid:
/// the search stays at the cell.
proof fn lemma_search_stay(base: Seq<u8>, g: Seq<u8>, open: Seq<(usize, usize)>, i: int)
    requires
        search_state(base, g, open, i),
        value_at(g, open, i) < 9,
        !valid(place(g, open[i].0 as int, open[i].1 as int, (value_at(g, open, i) + 1) as u8)),
    ensures
        search_state(
            base,
            place(g, open[i].0 as int, open[i].1 as int, (value_at(g, open, i) + 1) as u8),
            open,
            i,
        ),
{
    let row = open[i].0 as int;
    let col = open[i].1 as int;
    let t = value_at(g, open, i);
    let g2 = place(g, row, col, (t + 1) as u8);
    assert(base[row * 9 + col] == 0);
    assert forall|j: int| 0 <= j < open.len() implies #[trigger] value_at(g2, open, j) == (if j == i {
        t + 1
    } else {
        value_at(g, open, j)
    }) by {
        lemma_value_at_place(g, open, i, (t + 1) as u8, j);
    }
    assert(place(g2, row, col, 0) =~= place(g, row, col, 0));
    assert forall|s: Seq<u8>, k: int|
        #[trigger] solves(s, base) && 0 <= k <= i && #[trigger] same_prefix(
            s,
            g2,
            open,
            k,
        ) implies value_at(s, open, k) >= value_at(g2, open, k) + (if k == i {
        1int
    } else {
        0int
    }) by {
        assert(same_prefix(s, g, open, k)) by {
            assert forall|j: int| 0 <= j < k implies #[trigger] value_at(s, open, j) == value_at(
                g,
                open,
                j,
            ) by {
                assert(value_at(s, open, j) == value_at(g2, open, j));
            }
        }
        if k == i && value_at(s, open, i) == t + 1 {
            assert(same_prefix(s, g2, open, i + 1));
            lemma_matching_solution(base, g2, open, i, s);
            lemma_extends_valid(g2, s);
        }
    }
}

/// The next value for the cell was tried and the grid is valid but
/// not complete: the search goes on to the next cell.
proof fn lemma_search_advance(base: Seq<u8>, g: Seq<u8>, open: Seq<(usize, usize)>, i: int)
    requires
        search_state(base, g, open, i),
        value_at(g, open, i) < 9,
        valid(place(g, open[i].0 as int, open[i].1 as int, (value_at(g, open, i) + 1) as u8)),
        !complete(place(g, open[i].0 as int, open[i].1 as int, (value_at(g, open, i) + 1) as u8)),
    ensures
        i + 1 < open.len(),
        search_state(
            base,
            place(g, open[i].0 as int, open[i].1 as int, (value_at(g, open, i) + 1) as u8),
            open,
            i + 1,
        ),
{
    let row = open[i].0 as int;
    let col = open[i].1 as int;
    let t = value_at(g, open, i);
    let g2 = place(g, row, col, (t + 1) as u8);
    assert(base[row * 9 + col] == 0);
    assert forall|j: int| 0 <= j < open.len() implies #[trigger] value_at(g2, open, j) == (if j == i {
        t + 1
    } else {
        value_at(g, open, j)
    }) by {
        lemma_value_at_place(g, open, i, (t + 1) as u8, j);
    }
    // Some cell is empty, and it can only be a listed cell after the `i`-th.
    let p = choose|p: int| 0 <= p < g2.len() && g2[p] == 0;
    let r = p / 9;
    let c = p % 9;
    assert(p == r * 9 + c);
    assert(base[p] == 0) by {
        if base[p] != 0 {
            assert(g2[p] == base[p]);
        }
    }
    assert(cell(base, r, c) == 0);
    assert(open.contains((r as usize, c as usize)));
    let m = choose|m: int| 0 <= m < open.len() && open[m] == (r as usize, c as usize);
    assert(value_at(g2, open, m) == 0);
    assert(m > i);
    assert(value_at(g2, open, i + 1) == 0);
    assert(place(g2, open[i + 1].0 as int, open[i + 1].1 as int, 0) =~= g2);
    assert forall|s: Seq<u8>, k: int|
        #[trigger] solves(s, base) && 0 <= k <= i + 1 && #[trigger] same_prefix(
            s,
            g2,
            open,
            k,
        ) implies value_at(s, open, k) >= value_at(g2, open, k) + (if k == i + 1 {
        1int
    } else {
        0int
    }) by {
        if k <= i {
            assert(same_prefix(s, g, open, k)) by {
                assert forall|j: int| 0 <= j < k implies #[trigger] value_at(s, open, j) == value_at(
                    g,
                    open,
                    j,
                ) by {
                    assert(value_at(s, open, j) == value_at(g2, open, j));
                }
            }
        } else {
            assert(s[open[i + 1].0 * 9 + open[i + 1].1] != 0);
        }
    }
}

/// The next value for the cell was tried and the grid is complete:
/// it is the first solution in the order of the search.
proof fn lemma_search_found(base: Seq<u8>, g: Seq<u8>, open: Seq<(usize, usize)>, i: int)
    requires
        search_state(base, g, open, i),
        value_at(g, open, i) < 9,
        complete(place(g, open[i].0 as int, open[i].1 as int, (value_at(g, open, i) + 1) as u8)),
    ensures
        is_least_solution(
            base,
            place(g, open[i].0 as int, open[i].1 as int, (value_at(g, open, i) + 1) as u8),
            open,
        ),
{
    let row = open[i].0 as int;
    let col = open[i].1 as int;
    let v = value_at(g, open, i);
    let g2 = place(g, row, col, (v + 1) as u8);
    assert forall|j: int| 0 <= j < open.len() implies #[trigger] value_at(g2, open, j) == (if j == i {
        v + 1
    } else {
        value_at(g, open, j)
    }) by {
        lemma_value_at_place(g, open, i, (v + 1) as u8, j);
    }
    assert forall|t: Seq<u8>, k: int|
        #[trigger] solves(t, base) && 0 <= k < open.len() && #[trigger] same_prefix(
            t,
            g2,
            open,
            k,
        ) implies value_at(t, open, k) >= value_at(g2, open, k) by {
        if k > i {
            assert(value_at(g2, open, k) == 0);
            assert(g2[open[k].0 * 9 + open[k].1] != 0);
        } else {
            assert(same_prefix(t, g, open, k)) by {
                assert forall|j: int| 0 <= j < k implies #[trigger] value_at(t, open, j) == value_at(
                    g,
                    open,
                    j,
                ) by {
                    assert(value_at(t, open, j) == value_at(g2, open, j));
                }
            }
        }
    }
}

/// The cell holds 9, so every value was tried there: the cell is
/// emptied and the search goes back to the cell before it.
proof fn lemma_search_back(base: Seq<u8>, g: Seq<u8>, open: Seq<(usize, usize)>, i: int)
    requires
        search_state(base, g, open, i),
        value_at(g, open, i) == 9,
        i > 0,
    ensures
        search_state(base, place(g, open[i].0 as int, open[i].1 as int, 0), open, i - 1),
{
    let row = open[i].0 as int;
    let col = open[i].1 as int;
    let g2 = place(g, row, col, 0);
    assert forall|j: int| 0 <= j < open.len() implies #[trigger] value_at(g2, open, j) == (if j == i {
        0
    } else {
        value_at(g, open, j)
    }) by {
        lemma_value_at_place(g, open, i, 0, j);
    }
    let g3 = place(g2, open[i - 1].0 as int, open[i - 1].1 as int, 0);
    assert(extends(g3, g2));
    lemma_extends_valid(g3, g2);
    assert forall|s: Seq<u8>, k: int|
        #[trigger] solves(s, base) && 0 <= k <= i - 1 && #[trigger] same_prefix(
            s,
            g2,
            open,
            k,
        ) implies value_at(s, open, k) >= value_at(g2, open, k) + (if k == i - 1 {
        1int
    } else {
        0int
    }) by {
        assert(same_prefix(s, g, open, k)) by {
            assert forall|j: int| 0 <= j < k implies #[trigger] value_at(s, open, j) == value_at(
                g,
                open,
                j,
            ) by {
                assert(value_at(s, open, j) == value_at(g2, open, j));
            }
        }
        if k == i - 1 && value_at(s, open, k) == value_at(g, open, k) {
            assert(same_prefix(s, g, open, i));
            assert(value_at(s, open, i) >= 10);
            assert(s[open[i].0 * 9 + open[i].1] <= 9);
        }
    }
}

/// The first listed cell holds 9, so every value was tried there:
/// there is no solution.
proof fn lemma_search_exhausted(base: Seq<u8>, g: Seq<u8>, open: Seq<(usize, usize)>)
    requires
        search_state(base, g, open, 0),
        value_at(g, open, 0) == 9,
    ensures
        !solvable(base),
{
    if solvable(base) {
        let s = choose|s: Seq<u8>| solves(s, base);
        assert(same_prefix(s, g, open, 0));
        assert(value_at(s, open, 0) >= 10);
        assert(s[open[0].0 * 9 + open[0].1] <= 9);
    }
}

impl BacktrackingBruteForceSolver {
    /// The strategy; it keeps no state between calls.
    pub fn new() -> (r: Self) {
        Self {  }
    }
}

impl Solver for BacktrackingBruteForceSolver {
    /// The solution returned is the first in the order of the search:
    /// the least when the open cells are read in their order.
    fn solve(&self, sudoku: &Sudoku) -> (r: Option<Sudoku>)
        ensures
            r.is_some() ==> is_least_solution(sudoku@, r.unwrap()@, sudoku.open_cells()),
    {
        let mut board = sudoku.clone();
        if !board.recheck_validity() {
            proof {
                if solvable(sudoku@) {
                    let s = choose|s: Seq<u8>| solves(s, sudoku@);
                    lemma_extends_valid(sudoku@, s);
                }
            }
            return None;
        }
        if board.is_solved() {
            return Some(board);
        }
        let open = board.get_open_cells();
        let ghost base = sudoku@;
        let mut i: usize = 0;
        proof {
            if open@.len() == 0 {
                assert forall|p: int| 0 <= p < base.len() implies #[trigger] base[p] != 0 by {
                    let row = p / 9;
                    let col = p % 9;
                    assert(p == row * 9 + col);
                    if cell(base, row, col) == 0 {
                        assert(open@.contains((row as usize, col as usize)));
                    }
                }
            }
            lemma_search_start(base, open@);
            lemma_progress_bound(base, open@, 0);
        }
        loop
            invariant_except_break
                search_state(base, board@, open@, i as int),
                board.valid_flag() == valid(board@),
                0 <= progress(board@, open@, i as int) <= pow10(open@.len()),
            invariant
                board.wf(),
                base == sudoku@,
                open@ == sudoku.open_cells(),
            ensures
                board.wf(),
                board.valid_flag(),
                solves(board@, base),
                is_least_solution(base, board@, open@),
            decreases pow10(open@.len()) - progress(board@, open@, i as int), i,
        {
            assert(open@.len() == open.len());
            let (row, col) = open[i];
            let value = board.get(row, col);
            let ghost g = board@;
            proof {
                assert(value == value_at(g, open@, i as int));
            }
            if value < 9 {
                board.unset(row, col, true);
                proof {
                    let cleared = place(g, row as int, col as int, 0);
                    if value == 0 {
                        assert(cleared =~= g);
                    }
                    assert(board.valid_flag());
                    assert(place(cleared, row as int, col as int, (value + 1) as u8) =~= place(
                        g,
                        row as int,
                        col as int,
                        (value + 1) as u8,
                    ));
                    if houses_ok_at(
                        place(cleared, row as int, col as int, (value + 1) as u8),
                        row as int,
                        col as int,
                    ) {
                        lemma_place_checked(cleared, row as int, col as int, (value + 1) as u8);
                    }
                }
                board.set(row, col, value + 1, false);
                proof {
                    assert forall|j: int| 0 <= j < open@.len() implies #[trigger] value_at(
                        board@,
                        open@,
                        j,
                    ) == (if j == i {
                        value + 1
                    } else {
                        value_at(g, open@, j)
                    }) by {
                        lemma_value_at_place(g, open@, i as int, (value + 1) as u8, j);
                    }
                }
                if board.is_solved() {
                    proof {
                        assert(extends(base, board@));
                        lemma_search_found(base, g, open@, i as int);
                    }
                    break;
                }
                if board.is_valid() {
                    proof {
                        lemma_search_advance(base, g, open@, i as int);
                        lemma_progress_advance(g, board@, open@, i as int);
                        lemma_progress_bound(board@, open@, i + 1);
                        assert(i + 1 < open@.len());
                    }
                    i += 1;
                } else {
                    proof {
                        lemma_search_stay(base, g, open@, i as int);
                        lemma_progress_next_value(g, board@, open@, i as int);
                        lemma_progress_bound(board@, open@, i as int);
                    }
                }
            } else {
                if i == 0 {
                    proof {
                        lemma_search_exhausted(base, g, open@);
                    }
                    return None;
                }
                board.unset(row, col, true);
                proof {
                    lemma_search_back(base, g, open@, i as int);
                    assert forall|j: int| 0 <= j < open@.len() implies #[trigger] value_at(
                        board@,
                        open@,
                        j,
                    ) == (if j == i {
                        0
                    } else {
                        value_at(g, open@, j)
                    }) by {
                        lemma_value_at_place(g, open@, i as int, 0, j);
                    }
                    lemma_progress_back(g, board@, open@, i as int);
                }
                i -= 1;
            }
        }
        Some(board)
    }
}

} // verus!
