//! The corner numbers that a grid of diagonals determines.

use vstd::prelude::*;
use crate::grid::{CellState, cell_of, corner_count, flat_cells};

verus! {

/// The number grid is `rows + 1` rows of `cols + 1` entries.
pub open spec fn number_shape<T>(numbers: Seq<Vec<T>>, rows: int, cols: int) -> bool {
    &&& numbers.len() == rows + 1
    &&& forall|r: int| 0 <= r <= rows ==> (#[trigger] numbers[r])@.len() == cols + 1
}

/// The count at corner (`r`, `c`) of a flat grid.
pub fn corner_number(grid: &Vec<CellState>, rows: usize, cols: usize, r: usize, c: usize) -> (n: u8)
    requires
        grid@.len() == rows * cols,
        r <= rows,
        c <= cols,
    ensures
        n == corner_count(flat_cells(grid@, cols as int), rows as int, cols as int, r as int, c as int),
{
    let mut n: u8 = 0;
    if r > 0 && c > 0 && cell_of(grid, rows, cols, r - 1, c - 1) == CellState::Backward {
        n = n + 1;
    }
    if r > 0 && c < cols && cell_of(grid, rows, cols, r - 1, c) == CellState::Forward {
        n = n + 1;
    }
    if r < rows && c > 0 && cell_of(grid, rows, cols, r, c - 1) == CellState::Forward {
        n = n + 1;
    }
    if r < rows && c < cols && cell_of(grid, rows, cols, r, c) == CellState::Backward {
        n = n + 1;
    }
    n
}

/// The full number grid of a flat grid of diagonals: each corner counts the
/// diagonals that end there.
pub fn calculate_numbers(grid: &Vec<CellState>, rows: usize, cols: usize) -> (numbers: Vec<Vec<u8>>)
    requires
        grid@.len() == rows * cols,
        rows < usize::MAX,
        cols < usize::MAX,
    ensures
        number_shape(numbers@, rows as int, cols as int),
        forall|r: int, c: int|
            0 <= r <= rows && 0 <= c <= cols ==> #[trigger] numbers@[r]@[c] as int == corner_count(
                flat_cells(grid@, cols as int),
                rows as int,
                cols as int,
                r,
                c,
            ),
{
    let mut numbers: Vec<Vec<u8>> = Vec::new();
    let mut r: usize = 0;
    while r <= rows
        invariant
            r <= rows + 1,
            rows < usize::MAX,
            cols < usize::MAX,
            grid@.len() == rows * cols,
            numbers@.len() == r,
            forall|i: int| 0 <= i < r ==> (#[trigger] numbers@[i])@.len() == cols + 1,
            forall|i: int, c: int|
                0 <= i < r && 0 <= c <= cols ==> #[trigger] numbers@[i]@[c] as int == corner_count(
                    flat_cells(grid@, cols as int),
                    rows as int,
                    cols as int,
                    i,
                    c,
                ),
        decreases rows + 1 - r,
    {
        let mut row: Vec<u8> = Vec::new();
        let mut c: usize = 0;
        while c <= cols
            invariant
                r <= rows,
                c <= cols + 1,
                cols < usize::MAX,
                grid@.len() == rows * cols,
                row@.len() == c,
                forall|j: int|
                    0 <= j < c ==> #[trigger] row@[j] as int == corner_count(
                        flat_cells(grid@, cols as int),
                        rows as int,
                        cols as int,
                        r as int,
                        j,
                    ),
            decreases cols + 1 - c,
        {
            let n = corner_number(grid, rows, cols, r, c);
            row.push(n);
            c = c + 1;
        }
        numbers.push(row);
        r = r + 1;
    }
    numbers
}

} // verus!
