//! Loop-freedom of a set of diagonals, stated through the partition of corners
//! that joining them one at a time produces.

use vstd::prelude::*;
use crate::dsu::merged;
use crate::grid::{CellState, flat_cells, lemma_cell_bound};
use crate::solver::ends;

verus! {

/// The partition of `n` corners (each named by a representative) that joining
/// the pairs of `edges`, in order, produces from the partition into single corners.
pub open spec fn joined(n: nat, edges: Seq<(int, int)>) -> Seq<int>
    decreases edges.len(),
{
    if edges.len() == 0 {
        Seq::new(n, |k: int| k)
    } else {
        merged(joined(n, edges.drop_last()), edges.last().0, edges.last().1)
    }
}

/// Each edge joins two corners that the edges before it had left apart: together
/// the edges close no loop.
pub open spec fn no_loop(n: nat, edges: Seq<(int, int)>) -> bool {
    forall|k: int|
        0 <= k < edges.len() ==> #[trigger] joined(n, edges.take(k))[edges[k].0] != joined(
            n,
            edges.take(k),
        )[edges[k].1]
}

/// `e` is the pair of corners joined by the diagonal of some cell of the grid `cell`.
pub open spec fn is_diagonal(cell: spec_fn(int, int) -> CellState, rows: int, cols: int, e: (int, int)) -> bool {
    exists|r: int, c: int|
        0 <= r < rows && 0 <= c < cols && #[trigger] cell(r, c) != CellState::Empty && e == ends(
            r,
            c,
            cols,
            cell(r, c),
        )
}

/// The diagonals of the grid `cell` close no loop: they can be listed so that each
/// joins two corners that the ones before it had left apart.
pub open spec fn loop_free(cell: spec_fn(int, int) -> CellState, rows: int, cols: int) -> bool {
    exists|edges: Seq<(int, int)>|
        no_loop(num_corners(rows, cols), edges) && forall|e: (int, int)|
            #[trigger] edges.contains(e) <==> is_diagonal(cell, rows, cols, e)
}

/// Two grids that agree on every cell are loop-free together.
pub proof fn lemma_loop_free_same_cells(
    f: spec_fn(int, int) -> CellState,
    h: spec_fn(int, int) -> CellState,
    rows: int,
    cols: int,
)
    requires
        loop_free(f, rows, cols),
        forall|r: int, c: int| 0 <= r < rows && 0 <= c < cols ==> #[trigger] f(r, c) == h(r, c),
    ensures
        loop_free(h, rows, cols),
{
    let edges = choose|edges: Seq<(int, int)>|
        no_loop(num_corners(rows, cols), edges) && forall|e: (int, int)|
            #[trigger] edges.contains(e) <==> is_diagonal(f, rows, cols, e);
    assert forall|e: (int, int)| #[trigger] edges.contains(e) <==> is_diagonal(h, rows, cols, e) by {
        if is_diagonal(f, rows, cols, e) {
            let (a, b) = choose|a: int, b: int|
                0 <= a < rows && 0 <= b < cols && #[trigger] f(a, b) != CellState::Empty && e == ends(
                    a,
                    b,
                    cols,
                    f(a, b),
                );
            assert(h(a, b) == f(a, b));
        }
        if is_diagonal(h, rows, cols, e) {
            let (a, b) = choose|a: int, b: int|
                0 <= a < rows && 0 <= b < cols && #[trigger] h(a, b) != CellState::Empty && e == ends(
                    a,
                    b,
                    cols,
                    h(a, b),
                );
            assert(h(a, b) == f(a, b));
        }
    }
}

/// Number of corners, as a `nat`.
pub open spec fn num_corners(rows: int, cols: int) -> nat {
    ((rows + 1) * (cols + 1)) as nat
}

/// `edges` lists the diagonals of `g`, closes no loop, and `rep` is the partition
/// that it produces.
pub open spec fn tracks(rep: Seq<int>, g: Seq<CellState>, rows: int, cols: int, edges: Seq<(int, int)>) -> bool {
    &&& rep == joined(num_corners(rows, cols), edges)
    &&& no_loop(num_corners(rows, cols), edges)
    &&& forall|e: (int, int)| #[trigger] edges.contains(e) <==> is_diagonal(flat_cells(g, cols), rows, cols, e)
}

/// A corner that no edge touches stays a class of its own.
pub proof fn lemma_untouched(n: nat, edges: Seq<(int, int)>, v: int)
    requires
        0 <= v < n,
        forall|k: int|
            0 <= k < edges.len() ==> 0 <= (#[trigger] edges[k]).0 < n && 0 <= edges[k].1 < n && edges[k].0
                != v && edges[k].1 != v,
    ensures
        joined(n, edges).len() == n,
        joined(n, edges)[v] == v,
        forall|u: int| 0 <= u < n && u != v ==> #[trigger] joined(n, edges)[u] != v,
    decreases edges.len(),
{
    if edges.len() > 0 {
        let init = edges.drop_last();
        assert forall|k: int| 0 <= k < init.len() implies 0 <= (#[trigger] init[k]).0 < n && 0 <= init[k].1 < n
            && init[k].0 != v && init[k].1 != v by {
            assert(init[k] == edges[k]);
        }
        lemma_untouched(n, init, v);
        assert(edges.last() == edges[edges.len() - 1]);
    }
}

/// Two cells of the grid that differ have different places in its flat storage.
pub proof fn lemma_index_distinct(a: int, b: int, r: int, c: int, rows: int, cols: int)
    requires
        0 <= a < rows,
        0 <= b < cols,
        0 <= r < rows,
        0 <= c < cols,
        a != r || b != c,
    ensures
        a * cols + b != r * cols + c,
{
    if a < r {
        assert(a * cols + b < r * cols) by (nonlinear_arith)
            requires a < r, 0 <= b < cols;
    } else if a > r {
        assert(r * cols + c < a * cols) by (nonlinear_arith)
            requires r < a, 0 <= c < cols;
    }
}

/// An empty grid has no diagonals, and the empty list tracks it.
pub proof fn lemma_tracks_empty(g: Seq<CellState>, rows: int, cols: int)
    requires
        forall|i: int| 0 <= i < g.len() ==> #[trigger] g[i] == CellState::Empty,
        g.len() == rows * cols,
    ensures
        tracks(Seq::new(num_corners(rows, cols), |k: int| k), g, rows, cols, Seq::empty()),
{
    assert forall|e: (int, int)| !is_diagonal(flat_cells(g, cols), rows, cols, e) by {
        if is_diagonal(flat_cells(g, cols), rows, cols, e) {
            let (r, c) = choose|r: int, c: int|
                0 <= r < rows && 0 <= c < cols && #[trigger] flat_cells(g, cols)(r, c)
                    != CellState::Empty && e == ends(r, c, cols, flat_cells(g, cols)(r, c));
            lemma_cell_bound(r, c, rows, cols);
        }
    }
}

/// Placing a diagonal that joins two corners not yet joined, in an empty cell,
/// extends the list by that diagonal.
pub proof fn lemma_tracks_place(
    rep: Seq<int>,
    g: Seq<CellState>,
    rows: int,
    cols: int,
    edges: Seq<(int, int)>,
    r: int,
    c: int,
    s: CellState,
)
    requires
        tracks(rep, g, rows, cols, edges),
        g.len() == rows * cols,
        0 <= r < rows,
        0 <= c < cols,
        g[r * cols + c] == CellState::Empty,
        s != CellState::Empty,
        rep[ends(r, c, cols, s).0] != rep[ends(r, c, cols, s).1],
    ensures
        tracks(
            merged(rep, ends(r, c, cols, s).0, ends(r, c, cols, s).1),
            g.update(r * cols + c, s),
            rows,
            cols,
            edges.push(ends(r, c, cols, s)),
        ),
{
    let n = num_corners(rows, cols);
    let x = ends(r, c, cols, s);
    let e2 = edges.push(x);
    let g2 = g.update(r * cols + c, s);
    lemma_cell_bound(r, c, rows, cols);
    assert(e2.drop_last() =~= edges);
    assert forall|k: int| 0 <= k < e2.len() implies #[trigger] joined(n, e2.take(k))[e2[k].0] != joined(
        n,
        e2.take(k),
    )[e2[k].1] by {
        if k < edges.len() {
            assert(e2.take(k) =~= edges.take(k));
            assert(joined(n, edges.take(k))[edges[k].0] != joined(n, edges.take(k))[edges[k].1]);
        } else {
            assert(e2.take(k) =~= edges);
        }
    }
    assert forall|e: (int, int)| #[trigger] e2.contains(e) <==> is_diagonal(flat_cells(g2, cols), rows, cols, e) by {
        if e2.contains(e) {
            let k = choose|k: int| 0 <= k < e2.len() && e2[k] == e;
            if k < edges.len() {
                assert(edges.contains(e));
                let (a, b) = choose|a: int, b: int|
                    0 <= a < rows && 0 <= b < cols && #[trigger] flat_cells(g, cols)(a, b)
                        != CellState::Empty && e == ends(a, b, cols, flat_cells(g, cols)(a, b));
                lemma_cell_bound(a, b, rows, cols);
                assert(a != r || b != c);
                lemma_index_distinct(a, b, r, c, rows, cols);
                assert(flat_cells(g2, cols)(a, b) == flat_cells(g, cols)(a, b));
            } else {
                assert(flat_cells(g2, cols)(r, c) == s);
            }
        }
        if is_diagonal(flat_cells(g2, cols), rows, cols, e) {
            let (a, b) = choose|a: int, b: int|
                0 <= a < rows && 0 <= b < cols && #[trigger] flat_cells(g2, cols)(a, b)
                    != CellState::Empty && e == ends(a, b, cols, flat_cells(g2, cols)(a, b));
            if a == r && b == c {
                assert(e2[edges.len() as int] == e);
            } else {
                lemma_index_distinct(a, b, r, c, rows, cols);
                lemma_cell_bound(a, b, rows, cols);
                assert(flat_cells(g2, cols)(a, b) == flat_cells(g, cols)(a, b));
                assert(is_diagonal(flat_cells(g, cols), rows, cols, e));
                assert(edges.contains(e));
                let k = choose|k: int| 0 <= k < edges.len() && edges[k] == e;
                assert(e2[k] == e);
            }
        }
    }
}

} // verus!
