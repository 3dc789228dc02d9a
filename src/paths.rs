//! Best path sums of the four pieces, from a cell down to the bottom row.

use crate::grid::{lemma_next_row, lemma_row_fits, lemma_sum_from_antitone, sum_from, Grid};
use vstd::math::{max, max3};
use vstd::prelude::*;

verus! {

/// The piece whose forward moves a path follows.
#[derive(Debug, Clone, Copy, PartialEq, Eq, Structural)]
pub enum Piece {
    /// Straight down only.
    Pawn,
    /// One row down and one column left or right.
    Bishop,
    /// One row down and two columns left or right.
    Knight,
    /// One row down: straight, or one column left or right.
    King,
}

/// The best sum of a path for `piece` from flat index `c` to the bottom row of the board
/// with cells `s` and `cols` columns. A move that leaves the board is not taken; a side
/// without a move counts the cell's own value alone.
pub open spec fn best(s: Seq<usize>, cols: int, piece: Piece, c: int) -> int
    decreases s.len() + cols - c,
{
    if cols <= 0 || c < 0 || c >= s.len() {
        0
    } else if c + cols >= s.len() {
        s[c] as int
    } else {
        let here = s[c] as int;
        let col = c % cols;
        match piece {
            Piece::Pawn => here + best(s, cols, piece, c + cols),
            Piece::Bishop => max(
                if col != 0 { here + best(s, cols, piece, c + cols - 1) } else { here },
                if col != cols - 1 { here + best(s, cols, piece, c + cols + 1) } else { here },
            ),
            Piece::Knight => max(
                if col > 1 { here + best(s, cols, piece, c + cols - 2) } else { here },
                if col < cols - 2 { here + best(s, cols, piece, c + cols + 2) } else { here },
            ),
            Piece::King => max3(
                here + best(s, cols, piece, c + cols),
                if col != 0 { here + best(s, cols, piece, c + cols - 1) } else { here },
                if col != cols - 1 { here + best(s, cols, piece, c + cols + 1) } else { here },
            ),
        }
    }
}

/// A best path sum is at least the starting cell's value, and at most the sum of that
/// cell and every cell after it.
pub proof fn lemma_best_bounds(s: Seq<usize>, cols: int, piece: Piece, c: int)
    requires
        cols > 0,
        s.len() % (cols as nat) == 0,
        0 <= c < s.len(),
    ensures
        s[c] <= best(s, cols, piece, c) <= sum_from(s, c),
    decreases s.len() + cols - c,
{
    lemma_sum_from_antitone(s, c + 1, s.len() as int);
    if c + cols < s.len() {
        let col = c % cols;
        // Each move lands in the row below, after `c`.
        lemma_next_row(s.len() as int, cols, c, col);
        lemma_best_bounds(s, cols, piece, c + cols);
        lemma_sum_from_antitone(s, c + 1, c + cols);
        if col != 0 {
            lemma_next_row(s.len() as int, cols, c, col - 1);
            lemma_best_bounds(s, cols, piece, c + cols - 1);
            lemma_sum_from_antitone(s, c + 1, c + cols - 1);
        }
        if col != cols - 1 {
            lemma_next_row(s.len() as int, cols, c, col + 1);
            lemma_best_bounds(s, cols, piece, c + cols + 1);
            lemma_sum_from_antitone(s, c + 1, c + cols + 1);
        }
        if col > 1 {
            lemma_next_row(s.len() as int, cols, c, col - 2);
            lemma_best_bounds(s, cols, piece, c + cols - 2);
            lemma_sum_from_antitone(s, c + 1, c + cols - 2);
        }
        if col < cols - 2 {
            lemma_next_row(s.len() as int, cols, c, col + 2);
            lemma_best_bounds(s, cols, piece, c + cols + 2);
            lemma_sum_from_antitone(s, c + 1, c + cols + 2);
        }
    }
}

/// The best sum for `piece` from `c`, given the best sums of the cells after `c` in `known`.
fn best_at(grid: &Grid, piece: Piece, known: &Vec<usize>, c: usize) -> (r: usize)
    requires
        c < grid.cells().len(),
        known@.len() == grid.cells().len(),
        forall|j: int|
            c < j < known@.len() ==> known@[j] == best(grid.cells(), grid.width(), piece, j),
    ensures
        r == best(grid.cells(), grid.width(), piece, c as int),
{
    let ghost s = grid.cells();
    let n = grid.size();
    let cols = grid.cols();
    let here = grid.cell(c);
    proof {
        use_type_invariant(grid);
        lemma_row_fits(n as int, cols as int, c as int);
    }
    if c >= n - cols {
        return here;
    }
    let col = c % cols;
    proof {
        lemma_sum_from_antitone(s, 0, c as int);
        lemma_next_row(n as int, cols as int, c as int, col as int);
        lemma_best_bounds(s, cols as int, piece, c + cols);
        lemma_sum_from_antitone(s, c + 1, c + cols);
        if col != 0 {
            lemma_next_row(n as int, cols as int, c as int, col - 1);
            lemma_best_bounds(s, cols as int, piece, c + cols - 1);
            lemma_sum_from_antitone(s, c + 1, c + cols - 1);
        }
        if col != cols - 1 {
            lemma_next_row(n as int, cols as int, c as int, col + 1);
            lemma_best_bounds(s, cols as int, piece, c + cols + 1);
            lemma_sum_from_antitone(s, c + 1, c + cols + 1);
        }
        if col > 1 {
            lemma_next_row(n as int, cols as int, c as int, col - 2);
            lemma_best_bounds(s, cols as int, piece, c + cols - 2);
            lemma_sum_from_antitone(s, c + 1, c + cols - 2);
        }
        if col + 2 < cols {
            lemma_next_row(n as int, cols as int, c as int, col + 2);
            lemma_best_bounds(s, cols as int, piece, c + cols + 2);
            lemma_sum_from_antitone(s, c + 1, c + cols + 2);
        }
    }
    match piece {
        Piece::Pawn => extend(here, known, c + cols),
        Piece::Bishop => {
            let left = if col != 0 { extend(here, known, c + cols - 1) } else { here };
            let right = if col != cols - 1 { extend(here, known, c + cols + 1) } else { here };
            larger(left, right)
        },
        Piece::Knight => {
            let left = if col > 1 { extend(here, known, c + cols - 2) } else { here };
            let right = if col + 2 < cols { extend(here, known, c + cols + 2) } else { here };
            larger(left, right)
        },
        Piece::King => {
            let down = extend(here, known, c + cols);
            let left = if col != 0 { extend(here, known, c + cols - 1) } else { here };
            let right = if col != cols - 1 { extend(here, known, c + cols + 1) } else { here };
            larger(down, larger(left, right))
        },
    }
}

/// The value of a path that takes `here` and then continues from cell `t`.
fn extend(here: usize, known: &Vec<usize>, t: usize) -> (v: usize)
    requires
        t < known@.len(),
        here + known@[t as int] <= usize::MAX,
    ensures
        v == here + known@[t as int],
{
    here + known[t]
}

/// The larger of `a` and `b`.
fn larger(a: usize, b: usize) -> (r: usize)
    ensures
        r == max(a as int, b as int),
{
    if a >= b {
        a
    } else {
        b
    }
}

/// The best path sum for `piece` from cell `cell` down to the bottom row.
///
/// The sums are tabulated from the last cell back to `cell`, so that each cell is
/// evaluated once.
pub fn path_sum(grid: &Grid, piece: Piece, cell: usize) -> (r: usize)
    requires
        cell < grid.cells().len(),
    ensures
        r == best(grid.cells(), grid.width(), piece, cell as int),
{
    let n = grid.size();
    let mut known: Vec<usize> = vec![0; n];
    let mut i: usize = n;
    while i > cell
        invariant
            cell <= i <= n,
            n == grid.cells().len(),
            known@.len() == n,
            forall|j: int| i <= j < n ==> known@[j] == best(grid.cells(), grid.width(), piece, j),
        decreases i,
    {
        i = i - 1;
        let v = best_at(grid, piece, &known, i);
        known.set(i, v);
    }
    known[cell]
}

/// The sum of the straight-down path from `cell` to the bottom row.
pub fn pawn_sum(grid: &Grid, cell: usize) -> (r: usize)
    requires
        cell < grid.cells().len(),
    ensures
        r == best(grid.cells(), grid.width(), Piece::Pawn, cell as int),
{
    path_sum(grid, Piece::Pawn, cell)
}

/// The best sum of a diagonal path from `cell` to the bottom row.
pub fn bishop_sum(grid: &Grid, cell: usize) -> (r: usize)
    requires
        cell < grid.cells().len(),
    ensures
        r == best(grid.cells(), grid.width(), Piece::Bishop, cell as int),
{
    path_sum(grid, Piece::Bishop, cell)
}

/// The best sum of a path of forward knight jumps from `cell` to the bottom row.
pub fn knight_sum(grid: &Grid, cell: usize) -> (r: usize)
    requires
        cell < grid.cells().len(),
    ensures
        r == best(grid.cells(), grid.width(), Piece::Knight, cell as int),
{
    path_sum(grid, Piece::Knight, cell)
}

/// The best sum of a path of king steps (down, or diagonally down) from `cell` to the
/// bottom row.
pub fn king_sum(grid: &Grid, cell: usize) -> (r: usize)
    requires
        cell < grid.cells().len(),
    ensures
        r == best(grid.cells(), grid.width(), Piece::King, cell as int),
{
    path_sum(grid, Piece::King, cell)
}

} // verus!
