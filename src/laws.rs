//! What holds of the best path sums across pieces, cells and boards.

use crate::grid::{lemma_next_row, well_formed};
use crate::paths::{best, Piece};
use vstd::arithmetic::div_mod::{lemma_fundamental_div_mod, lemma_fundamental_div_mod_converse};
use vstd::prelude::*;

verus! {

/// On the bottom row, the pawn's sum is the cell's own value.
pub proof fn lemma_pawn_bottom_row(s: Seq<usize>, cols: int, c: int)
    requires
        well_formed(s, cols),
        0 <= c < s.len(),
        c + cols >= s.len(),
    ensures
        best(s, cols, Piece::Pawn, c) == s[c],
{
}

/// Above the bottom row, the pawn's sum is the cell's value plus the pawn's sum from the
/// cell straight below.
pub proof fn lemma_pawn_step(s: Seq<usize>, cols: int, c: int)
    requires
        well_formed(s, cols),
        0 <= c,
        c + cols < s.len(),
    ensures
        best(s, cols, Piece::Pawn, c) == s[c] + best(s, cols, Piece::Pawn, c + cols),
{
}

/// The king may always step straight down, so its best sum is at least the pawn's.
pub proof fn lemma_king_covers_pawn(s: Seq<usize>, cols: int, c: int)
    requires
        well_formed(s, cols),
        0 <= c < s.len(),
    ensures
        best(s, cols, Piece::King, c) >= best(s, cols, Piece::Pawn, c),
    decreases s.len() - c,
{
    if c + cols < s.len() {
        lemma_king_covers_pawn(s, cols, c + cols);
    }
}

/// The flat index of the cell in the same row as `c`, at the same distance from the
/// opposite edge.
pub open spec fn mirror(cols: int, c: int) -> int {
    c - c % cols + (cols - 1 - c % cols)
}

/// The board with every row reversed.
pub open spec fn reflect(s: Seq<usize>, cols: int) -> Seq<usize> {
    Seq::new(s.len(), |i: int| s[mirror(cols, i)])
}

/// Mirroring keeps a cell on the board and in its row, reverses its column, and undoes
/// itself.
pub proof fn lemma_mirror(n: int, cols: int, c: int)
    requires
        cols > 0,
        n % cols == 0,
        0 <= c < n,
    ensures
        0 <= mirror(cols, c) < n,
        mirror(cols, c) % cols == cols - 1 - c % cols,
        mirror(cols, mirror(cols, c)) == c,
        mirror(cols, c) + cols < n <==> c + cols < n,
{
    let col = c % cols;
    let m = mirror(cols, c);
    lemma_fundamental_div_mod(c, cols);
    lemma_fundamental_div_mod(n, cols);
    let q = c / cols;
    let rows = n / cols;
    assert(q + 1 <= rows) by (nonlinear_arith)
        requires
            c == cols * q + col,
            n == cols * rows,
            0 <= col < cols,
            c < n,
    ;
    assert(cols * (q + 1) <= cols * rows) by (nonlinear_arith)
        requires
            q + 1 <= rows,
            cols > 0,
    ;
    assert(cols * (q + 1) == cols * q + cols) by (nonlinear_arith);
    assert(q * cols == cols * q) by (nonlinear_arith);
    lemma_fundamental_div_mod_converse(m, cols, q, cols - 1 - col);
    if c + cols < n {
        lemma_next_row(n, cols, c, cols - 1 - col);
    }
    if m + cols < n {
        lemma_next_row(n, cols, m, col);
    }
}

/// Every piece's moves are symmetric left to right: reversing every row and starting from
/// the mirrored cell gives the same best sum.
pub proof fn lemma_reflect_best(s: Seq<usize>, cols: int, piece: Piece, c: int)
    requires
        cols > 0,
        s.len() % (cols as nat) == 0,
        0 <= c < s.len(),
    ensures
        best(reflect(s, cols), cols, piece, mirror(cols, c)) == best(s, cols, piece, c),
    decreases s.len() + cols - c,
{
    let n = s.len() as int;
    let col = c % cols;
    lemma_mirror(n, cols, c);
    if c + cols < n {
        lemma_next_row(n, cols, c, col);
        lemma_reflect_best(s, cols, piece, c + cols);
        if col != 0 {
            lemma_next_row(n, cols, c, col - 1);
            lemma_reflect_best(s, cols, piece, c + cols - 1);
        }
        if col != cols - 1 {
            lemma_next_row(n, cols, c, col + 1);
            lemma_reflect_best(s, cols, piece, c + cols + 1);
        }
        if col > 1 {
            lemma_next_row(n, cols, c, col - 2);
            lemma_reflect_best(s, cols, piece, c + cols - 2);
        }
        if col < cols - 2 {
            lemma_next_row(n, cols, c, col + 2);
            lemma_reflect_best(s, cols, piece, c + cols + 2);
        }
    }
}

} // verus!
