//! Reporting the cells that lie on closed loops of a partly drawn grid.

use vstd::prelude::*;
use crate::dsu::{Dsu, merged};
use crate::forest::{joined, num_corners};
use crate::grid::{CellState, lemma_cell_bound, lemma_node_bound, num_nodes};
use crate::solver::{diagonal_ends, ends};

verus! {

/// The diagonal that the code `x` stands for: 1 forward, 2 backward, anything
/// else none.
pub open spec fn decode(x: u8) -> CellState {
    if x == 1 {
        CellState::Forward
    } else if x == 2 {
        CellState::Backward
    } else {
        CellState::Empty
    }
}

/// Cell (`r`, `c`) of the coded grid holds a diagonal.
pub open spec fn drawn(codes: Seq<u8>, cols: int, r: int, c: int) -> bool {
    decode(codes[r * cols + c]) != CellState::Empty
}

/// The corners that the diagonal of cell (`r`, `c`) joins.
pub open spec fn cell_ends(codes: Seq<u8>, cols: int, r: int, c: int) -> (int, int) {
    ends(r, c, cols, decode(codes[r * cols + c]))
}

/// `a` comes before `b` in row-major order.
pub open spec fn before(a: (usize, usize), b: (usize, usize)) -> bool {
    a.0 < b.0 || (a.0 == b.0 && a.1 < b.1)
}

/// `acc` followed by the diagonals of cells `0..c` of row `r`, leaving out cell `skip`.
pub open spec fn row_edges(acc: Seq<(int, int)>, codes: Seq<u8>, cols: int, skip: (int, int), r: int, c: nat) -> Seq<(int, int)>
    decreases c,
{
    if c == 0 {
        acc
    } else {
        let p = row_edges(acc, codes, cols, skip, r, (c - 1) as nat);
        if drawn(codes, cols, r, c - 1) && (r, c - 1) != skip {
            p.push(cell_ends(codes, cols, r, c - 1))
        } else {
            p
        }
    }
}

/// The diagonals of rows `0..r`, row by row, leaving out cell `skip`.
pub open spec fn grid_edges(codes: Seq<u8>, cols: int, skip: (int, int), r: nat) -> Seq<(int, int)>
    decreases r,
{
    if r == 0 {
        Seq::empty()
    } else {
        row_edges(grid_edges(codes, cols, skip, (r - 1) as nat), codes, cols, skip, r - 1, cols as nat)
    }
}

/// Cell (`r`, `c`) holds a diagonal whose two corners the other diagonals already
/// join: the diagonal lies on a closed loop.
pub open spec fn on_loop(codes: Seq<u8>, rows: int, cols: int, r: int, c: int) -> bool {
    &&& drawn(codes, cols, r, c)
    &&& {
        let p = joined(num_corners(rows, cols), grid_edges(codes, cols, (r, c), rows as nat));
        let e = cell_ends(codes, cols, r, c);
        p[e.0] == p[e.1]
    }
}

/// The diagonal of the coded grid at cell (`r`, `c`).
fn decode_at(codes: &Vec<u8>, rows: usize, cols: usize, r: usize, c: usize) -> (s: CellState)
    requires
        codes@.len() == rows * cols,
        r < rows,
        c < cols,
    ensures
        s == decode(codes@[r * cols + c]),
{
    proof {
        lemma_cell_bound(r as int, c as int, rows as int, cols as int);
        assert(codes@.len() == codes.len());
    }
    let x = codes[r * cols + c];
    if x == 1 {
        CellState::Forward
    } else if x == 2 {
        CellState::Backward
    } else {
        CellState::Empty
    }
}

/// Whether the diagonals of all cells but the drawn cell (`r`, `c`) join the two
/// corners of its diagonal.
fn joined_without(codes: &Vec<u8>, rows: usize, cols: usize, r: usize, c: usize) -> (j: bool)
    requires
        codes@.len() == rows * cols,
        num_nodes(rows as int, cols as int) <= usize::MAX,
        r < rows,
        c < cols,
        drawn(codes@, cols as int, r as int, c as int),
    ensures
        j == on_loop(codes@, rows as int, cols as int, r as int, c as int),
{
    proof {
        lemma_node_bound(0, 0, rows as int, cols as int);
    }
    let ghost nc = num_corners(rows as int, cols as int);
    let ghost skip = (r as int, c as int);
    let nn = (rows + 1) * (cols + 1);
    let mut dsu = Dsu::new(nn);
    proof {
        assert(dsu@ =~= joined(nc, Seq::empty()));
    }
    let mut r2: usize = 0;
    while r2 < rows
        invariant
            r2 <= rows,
            r < rows,
            c < cols,
            codes@.len() == rows * cols,
            nn == num_nodes(rows as int, cols as int),
            nn <= usize::MAX,
            nc == nn,
            skip == (r as int, c as int),
            dsu.wf(),
            dsu@.len() == nn,
            dsu@ == joined(nc, grid_edges(codes@, cols as int, skip, r2 as nat)),
        decreases rows - r2,
    {
        let mut c2: usize = 0;
        while c2 < cols
            invariant
                r2 < rows,
                c2 <= cols,
                codes@.len() == rows * cols,
                nn == num_nodes(rows as int, cols as int),
                nn <= usize::MAX,
                nc == nn,
                skip == (r as int, c as int),
                dsu.wf(),
                dsu@.len() == nn,
                dsu@ == joined(
                    nc,
                    row_edges(grid_edges(codes@, cols as int, skip, r2 as nat), codes@, cols as int, skip, r2 as int, c2 as nat),
                ),
            decreases cols - c2,
        {
            let s = decode_at(codes, rows, cols, r2, c2);
            let ghost es = row_edges(grid_edges(codes@, cols as int, skip, r2 as nat), codes@, cols as int, skip, r2 as int, c2 as nat);
            let ghost nxt = row_edges(grid_edges(codes@, cols as int, skip, r2 as nat), codes@, cols as int, skip, r2 as int, (c2 + 1) as nat);
            assert(nxt == if drawn(codes@, cols as int, r2 as int, c2 as int) && (r2 as int, c2 as int) != skip {
                es.push(cell_ends(codes@, cols as int, r2 as int, c2 as int))
            } else {
                es
            });
            if s != CellState::Empty && (r2 != r || c2 != c) {
                let (u, v) = diagonal_ends(r2, c2, rows, cols, s);
                dsu.union(u, v);
                proof {
                    let x = cell_ends(codes@, cols as int, r2 as int, c2 as int);
                    assert(es.push(x).drop_last() =~= es);
                    assert(drawn(codes@, cols as int, r2 as int, c2 as int));
                    assert((r2 as int, c2 as int) != skip) by {
                        if (r2 as int, c2 as int) == skip {
                            assert((r2 as int, c2 as int).0 == skip.0);
                            assert((r2 as int, c2 as int).1 == skip.1);
                        }
                    }
                    assert(nxt == es.push(x));
                    assert(joined(nc, nxt) == merged(joined(nc, es), x.0, x.1));
                }
            }
            proof {
                if !(s != CellState::Empty && (r2 != r || c2 != c)) {
                    if drawn(codes@, cols as int, r2 as int, c2 as int) {
                        assert(r2 == r && c2 == c);
                        assert((r2 as int, c2 as int) == skip);
                    }
                    assert(nxt == es);
                }
            }
            c2 = c2 + 1;
        }
        r2 = r2 + 1;
    }
    let s = decode_at(codes, rows, cols, r, c);
    let (u, v) = diagonal_ends(r, c, rows, cols, s);
    dsu.connected(u, v)
}

/// The cells of the coded grid `codes` (`rows` by `cols`, row by row; 1 forward,
/// 2 backward, other values empty) whose diagonals lie on a closed loop, each once,
/// in row-major order.
pub fn find_cycles(codes: &Vec<u8>, rows: usize, cols: usize) -> (out: Vec<(usize, usize)>)
    requires
        codes@.len() == rows * cols,
        num_nodes(rows as int, cols as int) <= usize::MAX,
    ensures
        forall|i: int| 0 <= i < out@.len() ==> (#[trigger] out@[i]).0 < rows && out@[i].1 < cols,
        forall|r: usize, c: usize|
            r < rows && c < cols ==> (#[trigger] out@.contains((r, c)) <==> on_loop(
                codes@,
                rows as int,
                cols as int,
                r as int,
                c as int,
            )),
        forall|i: int, j: int| 0 <= i < j < out@.len() ==> before(#[trigger] out@[i], #[trigger] out@[j]),
{
    let mut out: Vec<(usize, usize)> = Vec::new();
    let mut r: usize = 0;
    while r < rows
        invariant
            r <= rows,
            codes@.len() == rows * cols,
            num_nodes(rows as int, cols as int) <= usize::MAX,
            forall|i: int|
                0 <= i < out@.len() ==> (#[trigger] out@[i]).0 < r && out@[i].1 < cols && on_loop(
                    codes@,
                    rows as int,
                    cols as int,
                    out@[i].0 as int,
                    out@[i].1 as int,
                ),
            forall|a: usize, b: usize|
                a < r && b < cols && on_loop(codes@, rows as int, cols as int, a as int, b as int)
                    ==> #[trigger] out@.contains((a, b)),
            forall|i: int, j: int| 0 <= i < j < out@.len() ==> before(#[trigger] out@[i], #[trigger] out@[j]),
        decreases rows - r,
    {
        let mut c: usize = 0;
        while c < cols
            invariant
                r < rows,
                c <= cols,
                codes@.len() == rows * cols,
                num_nodes(rows as int, cols as int) <= usize::MAX,
                forall|i: int|
                    0 <= i < out@.len() ==> (#[trigger] out@[i]).0 <= r && out@[i].1 < cols && on_loop(
                        codes@,
                        rows as int,
                        cols as int,
                        out@[i].0 as int,
                        out@[i].1 as int,
                    ) && before(out@[i], (r, c)),
                forall|a: usize, b: usize|
                    ((a < r && b < cols) || (a == r && b < c)) && on_loop(codes@, rows as int, cols as int, a as int, b as int)
                        ==> #[trigger] out@.contains((a, b)),
                forall|i: int, j: int| 0 <= i < j < out@.len() ==> before(#[trigger] out@[i], #[trigger] out@[j]),
            decreases cols - c,
        {
            let ghost old_out = out@;
            if decode_at(codes, rows, cols, r, c) != CellState::Empty && joined_without(codes, rows, cols, r, c) {
                out.push((r, c));
                proof {
                    assert(out@[out@.len() - 1] == (r, c));
                    assert forall|a: usize, b: usize|
                        ((a < r && b < cols) || (a == r && b < c + 1)) && on_loop(codes@, rows as int, cols as int, a as int, b as int)
                            implies #[trigger] out@.contains((a, b)) by {
                        if a == r && b == c {
                        } else {
                            assert(old_out.contains((a, b)));
                            let k = choose|k: int| 0 <= k < old_out.len() && old_out[k] == (a, b);
                            assert(out@[k] == (a, b));
                        }
                    }
                }
            } else {
                proof {
                    assert forall|a: usize, b: usize|
                        ((a < r && b < cols) || (a == r && b < c + 1)) && on_loop(codes@, rows as int, cols as int, a as int, b as int)
                            implies #[trigger] out@.contains((a, b)) by {
                        if a == r && b == c {
                            assert(!on_loop(codes@, rows as int, cols as int, a as int, b as int));
                        }
                    }
                }
            }
            c = c + 1;
        }
        r = r + 1;
    }
    proof {
        assert forall|a: usize, b: usize| a < rows && b < cols && #[trigger] out@.contains((a, b)) implies on_loop(
            codes@,
            rows as int,
            cols as int,
            a as int,
            b as int,
        ) by {
            let k = choose|k: int| 0 <= k < out@.len() && out@[k] == (a, b);
        }
    }
    out
}

} // verus!
