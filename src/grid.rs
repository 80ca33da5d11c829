//! The two-dimensional grid of agents, held in an `ndarray` array.

use vstd::prelude::*;
use ndarray::Array2;
use crate::agent::{Agent, AgentView};

verus! {

/// A `rows x cols` grid of agents. Verus cannot see into the `ndarray` array, so
/// the grid is described by `grid_rows`, `grid_cols` and `grid_cells` (row-major).
#[verifier::external_body]
pub struct AgentGrid {
    cells: Array2<Agent>,
}

/// Number of rows of the grid.
pub uninterp spec fn grid_rows(g: AgentGrid) -> nat;

/// Number of columns of the grid.
pub uninterp spec fn grid_cols(g: AgentGrid) -> nat;

/// The agents of the grid, row after row: the cell `(row, col)` is at
/// `row * cols + col`.
pub uninterp spec fn grid_cells(g: AgentGrid) -> Seq<AgentView>;

impl AgentGrid {
    pub open spec fn well_formed(&self) -> bool {
        grid_cells(*self).len() == grid_rows(*self) * grid_cols(*self)
    }

    /// Relies on ndarray's `Array2::from_elem`: an array of the given shape whose
    /// every element is a clone of `agent`. It panics when the product of the
    /// non-zero axis lengths exceeds `isize::MAX`, which `requires` leaves out.
    #[verifier::external_body]
    fn from_elem(rows: usize, cols: usize, agent: Agent) -> (r: AgentGrid)
        requires
            rows <= isize::MAX,
            cols <= isize::MAX,
            rows * cols <= isize::MAX,
        ensures
            grid_rows(r) == rows,
            grid_cols(r) == cols,
            grid_cells(r) == Seq::new((rows * cols) as nat, |_i: int| agent@),
    {
        AgentGrid { cells: Array2::from_elem((rows, cols), agent) }
    }

    /// Relies on ndarray's `nrows`: the length of the first axis.
    #[verifier::external_body]
    fn nrows(&self) -> (r: usize)
        ensures
            r == grid_rows(*self),
    {
        self.cells.nrows()
    }

    /// Relies on ndarray's `ncols`: the length of the second axis.
    #[verifier::external_body]
    fn ncols(&self) -> (r: usize)
        ensures
            r == grid_cols(*self),
    {
        self.cells.ncols()
    }

    /// Relies on ndarray's `Index<[usize; 2]>`: the element at `(row, col)`.
    #[verifier::external_body]
    fn index(&self, row: usize, col: usize) -> (r: &Agent)
        requires
            row < grid_rows(*self),
            col < grid_cols(*self),
        ensures
            r@ == grid_cells(*self)[row * grid_cols(*self) + col],
    {
        &self.cells[[row, col]]
    }

    /// Relies on ndarray's `IndexMut<[usize; 2]>`: replaces the element at
    /// `(row, col)` and nothing else.
    #[verifier::external_body]
    fn index_assign(&mut self, row: usize, col: usize, agent: Agent)
        requires
            row < grid_rows(*old(self)),
            col < grid_cols(*old(self)),
        ensures
            grid_rows(*final(self)) == grid_rows(*old(self)),
            grid_cols(*final(self)) == grid_cols(*old(self)),
            grid_cells(*final(self)) == grid_cells(*old(self)).update(
                row * grid_cols(*old(self)) + col,
                agent@,
            ),
    {
        self.cells[[row, col]] = agent;
    }

    /// A `rows x cols` grid with a copy of `agent` in every cell.
    pub fn filled(rows: usize, cols: usize, agent: Agent) -> (r: AgentGrid)
        requires
            rows <= isize::MAX,
            cols <= isize::MAX,
            rows * cols <= isize::MAX,
        ensures
            r.well_formed(),
            grid_rows(r) == rows,
            grid_cols(r) == cols,
            grid_cells(r) == Seq::new((rows * cols) as nat, |_i: int| agent@),
    {
        AgentGrid::from_elem(rows, cols, agent)
    }

    pub fn rows(&self) -> (r: usize)
        ensures
            r == grid_rows(*self),
    {
        self.nrows()
    }

    pub fn cols(&self) -> (r: usize)
        ensures
            r == grid_cols(*self),
    {
        self.ncols()
    }

    /// The agent at `(row, col)`.
    pub fn get(&self, row: usize, col: usize) -> (r: &Agent)
        requires
            row < grid_rows(*self),
            col < grid_cols(*self),
        ensures
            r@ == grid_cells(*self)[row * grid_cols(*self) + col],
    {
        self.index(row, col)
    }

    /// Puts `agent` at `(row, col)`, leaving every other cell as it was.
    pub fn set(&mut self, row: usize, col: usize, agent: Agent)
        requires
            row < grid_rows(*old(self)),
            col < grid_cols(*old(self)),
        ensures
            grid_rows(*final(self)) == grid_rows(*old(self)),
            grid_cols(*final(self)) == grid_cols(*old(self)),
            grid_cells(*final(self)) == grid_cells(*old(self)).update(
                row * grid_cols(*old(self)) + col,
                agent@,
            ),
    {
        self.index_assign(row, col, agent)
    }
}

/// A side is no larger than its square.
pub proof fn lemma_side_within_square(side: int)
    requires
        side >= 0,
    ensures
        side <= side * side,
{
    if side > 0 {
        assert(side <= side * side) by (nonlinear_arith)
            requires
                side > 0,
        ;
    }
}

/// The row-major position `k` of a `rows x cols` grid is the cell
/// `(k / cols, k % cols)`.
pub proof fn lemma_cell_index(k: int, rows: int, cols: int)
    requires
        0 <= k < rows * cols,
        rows >= 0,
        cols >= 0,
    ensures
        cols > 0,
        0 <= k / cols < rows,
        0 <= k % cols < cols,
        (k / cols) * cols + k % cols == k,
{
    if cols == 0 {
        assert(rows * cols == 0) by (nonlinear_arith)
            requires
                cols == 0,
        ;
    }
    vstd::arithmetic::div_mod::lemma_fundamental_div_mod(k, cols);
    let q = k / cols;
    let r = k % cols;
    assert(0 <= r < cols);
    assert(q * cols == cols * q) by (nonlinear_arith);
    assert(q >= 0) by (nonlinear_arith)
        requires
            k == cols * q + r,
            0 <= r < cols,
            k >= 0,
    ;
    assert(q < rows) by (nonlinear_arith)
        requires
            k == cols * q + r,
            0 <= r,
            k < rows * cols,
            cols > 0,
    ;
}

} // verus!
