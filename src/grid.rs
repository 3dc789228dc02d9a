//! The board: an immutable, rectangular grid of non-negative integers in row-major order.

use vstd::arithmetic::div_mod::{lemma_fundamental_div_mod, lemma_fundamental_div_mod_converse};
use vstd::arithmetic::mul::lemma_mul_is_commutative;
use vstd::prelude::*;

verus! {

/// Sum of the cells of `s` from flat index `i` to the end.
pub open spec fn sum_from(s: Seq<usize>, i: int) -> int
    decreases s.len() - i,
{
    if i < 0 || i >= s.len() {
        0
    } else {
        s[i] as int + sum_from(s, i + 1)
    }
}

/// Dropping cells from the front never raises the remaining sum.
pub proof fn lemma_sum_from_antitone(s: Seq<usize>, i: int, j: int)
    requires
        0 <= i <= j,
    ensures
        sum_from(s, j) <= sum_from(s, i),
    decreases j - i,
{
    if i < j {
        lemma_sum_from_antitone(s, i + 1, j);
    }
}

/// A board with a cell `c` holds at least one full row.
pub proof fn lemma_row_fits(n: int, cols: int, c: int)
    requires
        cols > 0,
        n % cols == 0,
        0 <= c < n,
    ensures
        cols <= n,
{
    lemma_fundamental_div_mod(n, cols);
    assert(n / cols >= 1) by (nonlinear_arith)
        requires
            n == cols * (n / cols),
            0 <= c < n,
            cols > 0,
    ;
    assert(cols <= n) by (nonlinear_arith)
        requires
            n == cols * (n / cols),
            n / cols >= 1,
            cols > 0,
    ;
}

/// The cell in column `k` of the row below the one of `c` lies on the board, after `c`.
pub proof fn lemma_next_row(n: int, cols: int, c: int, k: int)
    requires
        cols > 0,
        n % cols == 0,
        0 <= c,
        c + cols < n,
        0 <= k < cols,
    ensures
        c < c - c % cols + cols + k < n,
        (c - c % cols + cols + k) % cols == k,
{
    lemma_fundamental_div_mod(n, cols);
    lemma_fundamental_div_mod(c, cols);
    let q = c / cols;
    let rows = n / cols;
    assert(q + 2 <= rows) by (nonlinear_arith)
        requires
            c == cols * q + c % cols,
            n == cols * rows,
            0 <= c % cols,
            c + cols < n,
            cols > 0,
    ;
    assert(cols * (q + 2) <= cols * rows) by (nonlinear_arith)
        requires
            q + 2 <= rows,
            cols > 0,
    ;
    assert(cols * (q + 2) == cols * q + 2 * cols) by (nonlinear_arith);
    assert(c - c % cols + cols + k == (q + 1) * cols + k) by (nonlinear_arith)
        requires
            c == cols * q + c % cols,
    ;
    lemma_fundamental_div_mod_converse(c - c % cols + cols + k, cols, q + 1, k);
}

/// Whether `cells` and `cols` describe a board: at least one column, every row full,
/// and the sum of all cells representable as a `usize`.
pub open spec fn well_formed(cells: Seq<usize>, cols: int) -> bool {
    &&& cols > 0
    &&& cells.len() as int % cols == 0
    &&& sum_from(cells, 0) <= usize::MAX
}

/// Why a sequence of cells does not make a board.
#[derive(Debug, Clone, Copy, PartialEq, Eq, Structural)]
pub enum GridError {
    /// The board would have no columns.
    NoColumns,
    /// The cell count is not a multiple of the column count.
    RaggedRows,
    /// The sum of all cells exceeds `usize::MAX`.
    TooLarge,
}

/// Why `cells` and `cols` do not make a board, when they do not.
pub open spec fn rejection(cells: Seq<usize>, cols: int) -> GridError {
    if cols <= 0 {
        GridError::NoColumns
    } else if cells.len() as int % cols != 0 {
        GridError::RaggedRows
    } else {
        GridError::TooLarge
    }
}

/// A `rows` by `cols` board, stored row by row.
pub struct Grid {
    cells: Vec<usize>,
    cols: usize,
}

impl Grid {
    /// Every grid is well formed.
    #[verifier::type_invariant]
    pub open spec fn wf(&self) -> bool {
        well_formed(self.cells(), self.width())
    }

    /// The cells, in row-major order.
    pub closed spec fn cells(&self) -> Seq<usize> {
        self.cells@
    }

    /// The number of columns.
    pub closed spec fn width(&self) -> int {
        self.cols as int
    }
    /// Builds a board of `cols` columns from `cells`, given row by row.
    pub fn new(cells: Vec<usize>, cols: usize) -> (r: Result<Grid, GridError>)
        ensures
            r is Ok <==> well_formed(cells@, cols as int),
            r matches Ok(g) ==> g.cells() == cells@ && g.width() == cols,
            r matches Err(e) ==> e == rejection(cells@, cols as int),
    {
        if cols == 0 {
            return Err(GridError::NoColumns);
        }
        if cells.len() % cols != 0 {
            return Err(GridError::RaggedRows);
        }
        let mut total: usize = 0;
        let mut i: usize = cells.len();
        while i > 0
            invariant
                cols > 0,
                cells@.len() % (cols as nat) == 0,
                i <= cells@.len(),
                total == sum_from(cells@, i as int),
            decreases i,
        {
            i = i - 1;
            match total.checked_add(cells[i]) {
                Some(t) => total = t,
                None => {
                    proof {
                        lemma_sum_from_antitone(cells@, 0, i as int);
                    }
                    return Err(GridError::TooLarge);
                },
            }
        }
        Ok(Grid { cells, cols })
    }

    /// The number of columns.
    pub fn cols(&self) -> (r: usize)
        ensures
            r == self.width(),
    {
        self.cols
    }

    /// The number of rows.
    pub fn rows(&self) -> (r: usize)
        ensures
            r * self.width() == self.cells().len(),
    {
        proof {
            use_type_invariant(self);
            lemma_fundamental_div_mod(self.cells@.len() as int, self.cols as int);
            lemma_mul_is_commutative(self.cols as int, (self.cells@.len() / self.cols as nat) as int);
        }
        self.cells.len() / self.cols
    }

    /// The number of cells.
    pub fn size(&self) -> (r: usize)
        ensures
            r == self.cells().len(),
    {
        self.cells.len()
    }

    /// The value of the cell at flat index `i`.
    pub fn cell(&self, i: usize) -> (r: usize)
        requires
            i < self.cells().len(),
        ensures
            r == self.cells()[i as int],
    {
        self.cells[i]
    }
}

} // verus!
