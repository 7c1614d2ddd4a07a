//! Cells, corners and the vertex graph that the diagonals form.

use vstd::prelude::*;

verus! {

/// The content of one cell of the puzzle.
#[derive(Copy, Clone, Debug, PartialEq, Eq, Structural)]
pub enum CellState {
    Empty,
    /// A diagonal from the top-right corner to the bottom-left corner.
    Forward,
    /// A diagonal from the top-left corner to the bottom-right corner.
    Backward,
}

/// Index of the corner at row `r`, column `c` on a grid of `cols` cells per row.
pub open spec fn node(r: int, c: int, cols: int) -> int {
    r * (cols + 1) + c
}

/// Number of corners of a `rows` by `cols` grid.
pub open spec fn num_nodes(rows: int, cols: int) -> int {
    (rows + 1) * (cols + 1)
}

/// A corner inside the grid has an index below the number of corners.
pub proof fn lemma_node_bound(r: int, c: int, rows: int, cols: int)
    requires
        0 <= r <= rows,
        0 <= c <= cols,
    ensures
        0 <= node(r, c, cols) < num_nodes(rows, cols),
        cols + 1 <= num_nodes(rows, cols),
        rows + 1 <= num_nodes(rows, cols),
{
    assert(cols + 1 <= (rows + 1) * (cols + 1)) by (nonlinear_arith)
        requires rows >= 0, cols >= 0;
    assert(rows + 1 <= (rows + 1) * (cols + 1)) by (nonlinear_arith)
        requires rows >= 0, cols >= 0;
    assert(r * (cols + 1) <= rows * (cols + 1)) by (nonlinear_arith)
        requires r <= rows, cols >= 0;
    assert(0 <= r * (cols + 1)) by (nonlinear_arith)
        requires r >= 0, cols >= 0;
    assert((rows + 1) * (cols + 1) == rows * (cols + 1) + cols + 1) by (nonlinear_arith);
}

/// Index of the corner at row `r`, column `c`.
pub fn get_node_index(r: usize, c: usize, cols: usize) -> (i: usize)
    requires
        node(r as int, c as int, cols as int) <= usize::MAX,
        c <= cols,
        cols < usize::MAX,
    ensures
        i == node(r as int, c as int, cols as int),
{
    proof {
        assert(r * (cols + 1) <= node(r as int, c as int, cols as int)) by (nonlinear_arith)
            requires c >= 0;
    }
    r * (cols + 1) + c
}

/// A grid seen as a function from (row, column) to the content of that cell.
pub open spec fn flat_cells(g: Seq<CellState>, cols: int) -> spec_fn(int, int) -> CellState {
    |r: int, c: int| g[r * cols + c]
}

/// A grid stored row by row, seen as a function from (row, column) to the cell.
pub open spec fn nested_cells(g: Seq<Vec<CellState>>) -> spec_fn(int, int) -> CellState {
    |r: int, c: int| g[r]@[c]
}

/// How many of the (up to four) cells around corner (`r`, `c`) hold a diagonal
/// that ends at that corner.
pub open spec fn corner_count(
    cell: spec_fn(int, int) -> CellState,
    rows: int,
    cols: int,
    r: int,
    c: int,
) -> int {
    (if r > 0 && c > 0 && cell(r - 1, c - 1) == CellState::Backward { 1int } else { 0int })
        + (if r > 0 && c < cols && cell(r - 1, c) == CellState::Forward { 1int } else { 0int })
        + (if r < rows && c > 0 && cell(r, c - 1) == CellState::Forward { 1int } else { 0int })
        + (if r < rows && c < cols && cell(r, c) == CellState::Backward { 1int } else { 0int })
}

/// Every cell of `g` holds a diagonal.
pub open spec fn complete(g: Seq<CellState>) -> bool {
    forall|i: int| 0 <= i < g.len() ==> #[trigger] g[i] != CellState::Empty
}

/// A cell inside the grid lies inside the flat storage of the grid.
pub proof fn lemma_cell_bound(r: int, c: int, rows: int, cols: int)
    requires
        0 <= r < rows,
        0 <= c < cols,
    ensures
        0 <= r * cols + c < rows * cols,
{
    assert(r * cols + c < rows * cols) by (nonlinear_arith)
        requires 0 <= r < rows, 0 <= c < cols;
    assert(0 <= r * cols) by (nonlinear_arith)
        requires 0 <= r, 0 <= c < cols;
}

/// The content of cell (`r`, `c`) of a grid stored flat, row by row.
pub fn cell_of(grid: &Vec<CellState>, rows: usize, cols: usize, r: usize, c: usize) -> (s: CellState)
    requires
        grid@.len() == rows * cols,
        r < rows,
        c < cols,
    ensures
        s == flat_cells(grid@, cols as int)(r as int, c as int),
{
    proof {
        lemma_cell_bound(r as int, c as int, rows as int, cols as int);
        assert(grid@.len() == grid.len());
    }
    grid[r * cols + c]
}

} // verus!
