//! Puzzle generation: a random loop-free grid of diagonals, its corner numbers,
//! and a greedy pass that hides as many numbers as deduction allows.

use vstd::prelude::*;
use rand::rngs::SmallRng;
use crate::dsu::Dsu;
use crate::grid::{
    CellState, cell_of, corner_count, flat_cells, lemma_cell_bound, lemma_node_bound,
    nested_cells, node, num_nodes,
};
use crate::numbers::{calculate_numbers, number_shape};
use crate::random::{coin, seeded_rng, shuffle_pairs};
use crate::deduction::{Deduction, deduce_spec, lemma_deduce_same, place_spec, same_hints, start};
use crate::solver::{check_deductive_solvability, diagonal_ends, ends, hints_hold};
use crate::forest::{
    joined, lemma_loop_free_same_cells, lemma_tracks_empty, lemma_tracks_place, lemma_untouched, loop_free,
    num_corners, tracks,
};

verus! {

/// How many times the generator tries to fill the grid at random before it
/// falls back to a fixed pattern.
pub const ATTEMPTS: usize = 50;

/// A published puzzle: the corner numbers, some hidden (`None`), and the grid of
/// diagonals that they describe.
#[derive(Debug, PartialEq, Eq)]
pub struct Puzzle {
    pub numbers: Vec<Vec<Option<u8>>>,
    pub solution: Vec<Vec<CellState>>,
}

/// `solution` is `rows` rows of `cols` cells, each holding a diagonal.
pub open spec fn full_solution(solution: Seq<Vec<CellState>>, rows: int, cols: int) -> bool {
    &&& solution.len() == rows
    &&& forall|r: int| 0 <= r < rows ==> (#[trigger] solution[r])@.len() == cols
    &&& forall|r: int, c: int|
        0 <= r < rows && 0 <= c < cols ==> #[trigger] solution[r]@[c] != CellState::Empty
}

/// Every cell of the flat grid `g` holds a diagonal.
pub open spec fn filled(g: Seq<CellState>, rows: int, cols: int) -> bool {
    forall|r: int, c: int|
        0 <= r < rows && 0 <= c < cols ==> #[trigger] flat_cells(g, cols)(r, c) != CellState::Empty
}

/// An empty flat grid of `n` cells.
fn empty_grid(n: usize) -> (g: Vec<CellState>)
    ensures
        g@.len() == n,
        forall|k: int| 0 <= k < n ==> #[trigger] g@[k] == CellState::Empty,
{
    let mut g: Vec<CellState> = Vec::new();
    let mut i: usize = 0;
    while i < n
        invariant
            i <= n,
            g@.len() == i,
            forall|k: int| 0 <= k < i ==> #[trigger] g@[k] == CellState::Empty,
        decreases n - i,
    {
        g.push(CellState::Empty);
        i = i + 1;
    }
    g
}

/// The coordinates of every cell, row by row.
fn all_cells(rows: usize, cols: usize) -> (v: Vec<(usize, usize)>)
    requires
        rows * cols <= usize::MAX,
    ensures
        forall|k: int| 0 <= k < v@.len() ==> (#[trigger] v@[k]).0 < rows && v@[k].1 < cols,
        forall|r: usize, c: usize| r < rows && c < cols ==> #[trigger] v@.contains((r, c)),
        v@.no_duplicates(),
{
    let mut v: Vec<(usize, usize)> = Vec::new();
    let mut r: usize = 0;
    while r < rows
        invariant
            r <= rows,
            v@.len() == r * cols,
            rows * cols <= usize::MAX,
            forall|k: int| 0 <= k < v@.len() ==> (#[trigger] v@[k]).0 < rows && v@[k].1 < cols,
            forall|a: usize, b: usize| a < r && b < cols ==> #[trigger] v@.contains((a, b)),
            forall|k: int| 0 <= k < v@.len() ==> (#[trigger] v@[k]).0 < r,
            v@.no_duplicates(),
        decreases rows - r,
    {
        let mut c: usize = 0;
        while c < cols
            invariant
                r < rows,
                c <= cols,
                v@.len() == r * cols + c,
                rows * cols <= usize::MAX,
                forall|k: int| 0 <= k < v@.len() ==> (#[trigger] v@[k]).0 < rows && v@[k].1 < cols,
                forall|a: usize, b: usize|
                    (a < r && b < cols) || (a == r && b < c) ==> #[trigger] v@.contains((a, b)),
                forall|k: int|
                    0 <= k < v@.len() ==> (#[trigger] v@[k]).0 < r || (v@[k].0 == r && v@[k].1 < c),
                v@.no_duplicates(),
            decreases cols - c,
        {
            let ghost old_v = v@;
            v.push((r, c));
            proof {
                assert(v@[v@.len() - 1] == (r, c));
                assert forall|a: usize, b: usize|
                    (a < r && b < cols) || (a == r && b < c + 1) implies #[trigger] v@.contains((a, b)) by {
                    if a == r && b == c {
                        assert(v@[v@.len() - 1] == (a, b));
                    } else {
                        assert(old_v.contains((a, b)));
                        let k = choose|k: int| 0 <= k < old_v.len() && old_v[k] == (a, b);
                        assert(v@[k] == (a, b));
                    }
                }
            }
            c = c + 1;
        }
        proof {
            assert((r + 1) * cols == r * cols + cols) by (nonlinear_arith);
        }
        r = r + 1;
    }
    v
}

/// Places the diagonal `s` in cell (`r`, `c`) of the flat grid.
fn place(grid: &mut Vec<CellState>, rows: usize, cols: usize, r: usize, c: usize, s: CellState)
    requires
        old(grid)@.len() == rows * cols,
        r < rows,
        c < cols,
    ensures
        final(grid)@.len() == old(grid)@.len(),
        final(grid)@ == old(grid)@.update(r * cols + c, s),
        flat_cells(final(grid)@, cols as int)(r as int, c as int) == s,
        forall|a: int, b: int|
            0 <= a < rows && 0 <= b < cols && (a != r || b != c) ==> #[trigger] flat_cells(
                final(grid)@,
                cols as int,
            )(a, b) == flat_cells(old(grid)@, cols as int)(a, b),
{
    proof {
        lemma_cell_bound(r as int, c as int, rows as int, cols as int);
        assert(grid@.len() == grid.len());
    }
    let ghost before = grid@;
    grid.set(r * cols + c, s);
    proof {
        assert forall|a: int, b: int|
            0 <= a < rows && 0 <= b < cols && (a != r || b != c) implies #[trigger] flat_cells(
            grid@,
            cols as int,
        )(a, b) == flat_cells(before, cols as int)(a, b) by {
            lemma_cell_bound(a, b, rows as int, cols as int);
            if a < r {
                assert(a * cols + b < r * cols) by (nonlinear_arith)
                    requires a < r, 0 <= b < cols;
            } else if a > r {
                assert(r * cols + c < a * cols) by (nonlinear_arith)
                    requires r < a, 0 <= c < cols;
            }
        }
    }
}

/// Two sequences with the same multiset of elements contain the same elements.
proof fn lemma_same_elements(s: Seq<(usize, usize)>, t: Seq<(usize, usize)>, x: (usize, usize))
    requires
        s.to_multiset() == t.to_multiset(),
        s.contains(x),
    ensures
        t.contains(x),
{
    s.to_multiset_ensures();
    t.to_multiset_ensures();
    assert(s.to_multiset().count(x) > 0);
    assert(t.to_multiset().count(x) > 0);
}

/// One step of filling, with `used` coins spent so far: cell `cell` takes the
/// diagonal that does not close a loop, or, when neither does, forward exactly when
/// the next coin `coins[used]` is true (spending it); it fails when both would
/// close a loop.
pub open spec fn fill_step(d: Deduction, used: nat, cols: int, cell: (usize, usize), coins: Seq<bool>) -> (Deduction, nat) {
    if d.failed {
        (d, used)
    } else {
        let r = cell.0 as int;
        let c = cell.1 as int;
        let f = ends(r, c, cols, CellState::Forward);
        let b = ends(r, c, cols, CellState::Backward);
        let loop_f = d.rep[f.0] == d.rep[f.1];
        let loop_b = d.rep[b.0] == d.rep[b.1];
        if loop_f && loop_b {
            (Deduction { grid: d.grid, rep: d.rep, failed: true, changed: d.changed }, used)
        } else if loop_f {
            (place_spec(d, cols, r, c, CellState::Backward), used)
        } else if loop_b {
            (place_spec(d, cols, r, c, CellState::Forward), used)
        } else {
            (
                place_spec(d, cols, r, c, if coins[used as int] { CellState::Forward } else { CellState::Backward }),
                used + 1,
            )
        }
    }
}

/// Filling the first `k` cells of `order`, spending the coins of `coins` in turn;
/// also how many coins were spent.
pub open spec fn fill_spec(order: Seq<(usize, usize)>, coins: Seq<bool>, rows: int, cols: int, k: nat) -> (Deduction, nat)
    decreases k,
{
    if k == 0 {
        (start(rows, cols), 0)
    } else {
        let p = fill_spec(order, coins, rows, cols, (k - 1) as nat);
        fill_step(p.0, p.1, cols, order[k - 1], coins)
    }
}

proof fn lemma_fill_sticky(order: Seq<(usize, usize)>, coins: Seq<bool>, rows: int, cols: int, k1: nat, k2: nat)
    requires
        k1 <= k2,
        fill_spec(order, coins, rows, cols, k1).0.failed,
    ensures
        fill_spec(order, coins, rows, cols, k2).0.failed,
    decreases k2,
{
    if k1 < k2 {
        lemma_fill_sticky(order, coins, rows, cols, k1, (k2 - 1) as nat);
    }
}

/// Fills the cells in the order of `cells`, never closing a loop: a cell takes the
/// one diagonal that closes none, or, when both are free, forward exactly when the
/// next unspent coin of `coins` is true. Returns None when some cell can take
/// neither diagonal.
pub fn fill_from_order(cells: &Vec<(usize, usize)>, coins: &Vec<bool>, rows: usize, cols: usize) -> (g: Option<Vec<CellState>>)
    requires
        num_nodes(rows as int, cols as int) <= usize::MAX,
        coins@.len() >= cells@.len(),
        cells@.no_duplicates(),
        forall|k: int| 0 <= k < cells@.len() ==> (#[trigger] cells@[k]).0 < rows && cells@[k].1 < cols,
        forall|r: usize, c: usize| r < rows && c < cols ==> #[trigger] cells@.contains((r, c)),
    ensures
        g is None <==> fill_spec(cells@, coins@, rows as int, cols as int, cells@.len() as nat).0.failed,
        g matches Some(grid) ==> grid@ == fill_spec(cells@, coins@, rows as int, cols as int, cells@.len() as nat).0.grid,
        g matches Some(grid) ==> {
            &&& grid@.len() == rows * cols
            &&& filled(grid@, rows as int, cols as int)
            &&& loop_free(flat_cells(grid@, cols as int), rows as int, cols as int)
        },
{
    proof {
        lemma_node_bound(0, 0, rows as int, cols as int);
        assert(rows * cols <= (rows + 1) * (cols + 1)) by (nonlinear_arith);
    }
    let nn = (rows + 1) * (cols + 1);
    let mut grid = empty_grid(rows * cols);
    let mut dsu = Dsu::new(nn);
    let ghost ordered = cells@;
    let ghost mut edges: Seq<(int, int)> = Seq::empty();
    proof {
        lemma_tracks_empty(grid@, rows as int, cols as int);
        assert(grid@ =~= start(rows as int, cols as int).grid);
        assert(dsu@ =~= Seq::new(nn as nat, |k: int| k));
        assert forall|k: int| 0 <= k < cells@.len() implies #[trigger] flat_cells(grid@, cols as int)(
            cells@[k].0 as int,
            cells@[k].1 as int,
        ) == CellState::Empty by {
            assert(ordered[k].0 < rows);
            lemma_cell_bound(cells@[k].0 as int, cells@[k].1 as int, rows as int, cols as int);
        }
    }
    let mut used: usize = 0;
    let mut idx: usize = 0;
    while idx < cells.len()
        invariant
            idx <= cells@.len(),
            grid@.len() == rows * cols,
            nn == num_nodes(rows as int, cols as int),
            nn <= usize::MAX,
            dsu.wf(),
            dsu@.len() == nn,
            ordered == cells@,
            coins@.len() >= cells@.len(),
            used <= idx,
            forall|k: int| 0 <= k < ordered.len() ==> (#[trigger] ordered[k]).0 < rows && ordered[k].1 < cols,
            fill_spec(cells@, coins@, rows as int, cols as int, idx as nat).0.grid == grid@,
            fill_spec(cells@, coins@, rows as int, cols as int, idx as nat).0.rep == dsu@,
            fill_spec(cells@, coins@, rows as int, cols as int, idx as nat).1 == used,
            !fill_spec(cells@, coins@, rows as int, cols as int, idx as nat).0.failed,
            forall|k: int|
                0 <= k < idx ==> #[trigger] flat_cells(grid@, cols as int)(
                    cells@[k].0 as int,
                    cells@[k].1 as int,
                ) != CellState::Empty,
            cells@.no_duplicates(),
            forall|k: int|
                idx <= k < cells@.len() ==> #[trigger] flat_cells(grid@, cols as int)(
                    cells@[k].0 as int,
                    cells@[k].1 as int,
                ) == CellState::Empty,
            tracks(dsu@, grid@, rows as int, cols as int, edges),
        decreases cells@.len() - idx,
    {
        let (r, c) = cells[idx];
        proof {
            assert(cells@.contains(cells@[idx as int]));
            assert(ordered[idx as int].0 < rows);
        }
        let (uf, vf) = diagonal_ends(r, c, rows, cols, CellState::Forward);
        let (ub, vb) = diagonal_ends(r, c, rows, cols, CellState::Backward);
        let loop_forward = dsu.connected(uf, vf);
        let loop_backward = dsu.connected(ub, vb);
        if loop_forward && loop_backward {
            proof {
                lemma_fill_sticky(cells@, coins@, rows as int, cols as int, (idx + 1) as nat, cells@.len() as nat);
            }
            return None;
        }
        let forward = if loop_forward {
            false
        } else if loop_backward {
            true
        } else {
            let heads = coins[used];
            used = used + 1;
            heads
        };
        let ghost before = grid@;
        let ghost s = if forward { CellState::Forward } else { CellState::Backward };
        proof {
            assert(flat_cells(grid@, cols as int)(r as int, c as int) == CellState::Empty);
            lemma_tracks_place(dsu@, grid@, rows as int, cols as int, edges, r as int, c as int, s);
        }
        if forward {
            place(&mut grid, rows, cols, r, c, CellState::Forward);
            dsu.union(uf, vf);
        } else {
            place(&mut grid, rows, cols, r, c, CellState::Backward);
            dsu.union(ub, vb);
        }
        proof {
            edges = edges.push(ends(r as int, c as int, cols as int, s));
            assert forall|k: int| idx + 1 <= k < cells@.len() implies #[trigger] flat_cells(grid@, cols as int)(
                cells@[k].0 as int,
                cells@[k].1 as int,
            ) == CellState::Empty by {
                assert(cells@[k] != cells@[idx as int]);
                assert(cells@.contains(cells@[k]));
                assert(ordered[k].0 < rows);
                assert(flat_cells(before, cols as int)(cells@[k].0 as int, cells@[k].1 as int) == CellState::Empty);
            }
            assert forall|k: int| 0 <= k < idx + 1 implies #[trigger] flat_cells(grid@, cols as int)(
                cells@[k].0 as int,
                cells@[k].1 as int,
            ) != CellState::Empty by {
                if k < idx {
                    let (a, b) = (cells@[k].0 as int, cells@[k].1 as int);
                    assert(cells@.contains(cells@[k]));
                    assert(ordered[k].0 < rows);
                    assert(flat_cells(before, cols as int)(a, b) != CellState::Empty);
                }
            }
        }
        idx = idx + 1;
    }
    proof {
        assert forall|a: int, b: int| 0 <= a < rows && 0 <= b < cols implies #[trigger] flat_cells(
            grid@,
            cols as int,
        )(a, b) != CellState::Empty by {
            assert(cells@.contains((a as usize, b as usize)));
            let k = choose|k: int| 0 <= k < cells@.len() && cells@[k] == (a as usize, b as usize);
            assert(flat_cells(grid@, cols as int)(cells@[k].0 as int, cells@[k].1 as int) != CellState::Empty);
        }
    }
    Some(grid)
}

/// Tries to fill every cell with a diagonal, in a random order, never closing a
/// loop; a coin is drawn only for a cell where both diagonals are free. Returns
/// None when some cell can take neither.
fn random_fill(rng: &mut SmallRng, rows: usize, cols: usize) -> (g: Option<Vec<CellState>>)
    requires
        num_nodes(rows as int, cols as int) <= usize::MAX,
    ensures
        g matches Some(grid) ==> {
            &&& grid@.len() == rows * cols
            &&& filled(grid@, rows as int, cols as int)
            &&& loop_free(flat_cells(grid@, cols as int), rows as int, cols as int)
        },
{
    proof {
        lemma_node_bound(0, 0, rows as int, cols as int);
        assert(rows * cols <= (rows + 1) * (cols + 1)) by (nonlinear_arith);
    }
    let mut cells = all_cells(rows, cols);
    let ghost shuffled_from = cells@;
    shuffle_pairs(&mut cells, rng);
    proof {
        shuffled_from.lemma_multiset_has_no_duplicates();
        cells@.lemma_multiset_has_no_duplicates_conv();
        assert forall|k: int| 0 <= k < cells@.len() implies (#[trigger] cells@[k]).0 < rows && cells@[k].1 < cols by {
            assert(cells@.contains(cells@[k]));
            lemma_same_elements(cells@, shuffled_from, cells@[k]);
            let j = choose|j: int| 0 <= j < shuffled_from.len() && shuffled_from[j] == cells@[k];
            assert(shuffled_from[j].0 < rows);
        }
        assert forall|r: usize, c: usize| r < rows && c < cols implies #[trigger] cells@.contains((r, c)) by {
            assert(shuffled_from.contains((r, c)));
            lemma_same_elements(shuffled_from, cells@, (r, c));
        }
    }
    let nn = (rows + 1) * (cols + 1);
    let mut grid = empty_grid(rows * cols);
    let mut dsu = Dsu::new(nn);
    let ghost ordered = cells@;
    let ghost mut edges: Seq<(int, int)> = Seq::empty();
    proof {
        lemma_tracks_empty(grid@, rows as int, cols as int);
        assert(dsu@ =~= Seq::new(nn as nat, |k: int| k));
        assert forall|k: int| 0 <= k < cells@.len() implies #[trigger] flat_cells(grid@, cols as int)(
            cells@[k].0 as int,
            cells@[k].1 as int,
        ) == CellState::Empty by {
            assert(ordered[k].0 < rows);
            lemma_cell_bound(cells@[k].0 as int, cells@[k].1 as int, rows as int, cols as int);
        }
    }
    let mut idx: usize = 0;
    while idx < cells.len()
        invariant
            idx <= cells@.len(),
            grid@.len() == rows * cols,
            nn == num_nodes(rows as int, cols as int),
            nn <= usize::MAX,
            dsu.wf(),
            dsu@.len() == nn,
            ordered == cells@,
            forall|k: int| 0 <= k < ordered.len() ==> (#[trigger] ordered[k]).0 < rows && ordered[k].1 < cols,
            forall|k: int|
                0 <= k < idx ==> #[trigger] flat_cells(grid@, cols as int)(
                    cells@[k].0 as int,
                    cells@[k].1 as int,
                ) != CellState::Empty,
            cells@.no_duplicates(),
            forall|k: int|
                idx <= k < cells@.len() ==> #[trigger] flat_cells(grid@, cols as int)(
                    cells@[k].0 as int,
                    cells@[k].1 as int,
                ) == CellState::Empty,
            tracks(dsu@, grid@, rows as int, cols as int, edges),
        decreases cells@.len() - idx,
    {
        let (r, c) = cells[idx];
        proof {
            assert(cells@.contains(cells@[idx as int]));
            assert(ordered[idx as int].0 < rows);
        }
        let (uf, vf) = diagonal_ends(r, c, rows, cols, CellState::Forward);
        let (ub, vb) = diagonal_ends(r, c, rows, cols, CellState::Backward);
        let loop_forward = dsu.connected(uf, vf);
        let loop_backward = dsu.connected(ub, vb);
        if loop_forward && loop_backward {
            return None;
        }
        let forward = if loop_forward {
            false
        } else if loop_backward {
            true
        } else {
            coin(rng)
        };
        let ghost before = grid@;
        let ghost s = if forward { CellState::Forward } else { CellState::Backward };
        proof {
            assert(flat_cells(grid@, cols as int)(r as int, c as int) == CellState::Empty);
            lemma_tracks_place(dsu@, grid@, rows as int, cols as int, edges, r as int, c as int, s);
        }
        if forward {
            place(&mut grid, rows, cols, r, c, CellState::Forward);
            dsu.union(uf, vf);
        } else {
            place(&mut grid, rows, cols, r, c, CellState::Backward);
            dsu.union(ub, vb);
        }
        proof {
            edges = edges.push(ends(r as int, c as int, cols as int, s));
            assert forall|k: int| idx + 1 <= k < cells@.len() implies #[trigger] flat_cells(grid@, cols as int)(
                cells@[k].0 as int,
                cells@[k].1 as int,
            ) == CellState::Empty by {
                assert(cells@[k] != cells@[idx as int]);
                assert(cells@.contains(cells@[k]));
                assert(ordered[k].0 < rows);
                assert(flat_cells(before, cols as int)(cells@[k].0 as int, cells@[k].1 as int) == CellState::Empty);
            }
            assert forall|k: int| 0 <= k < idx + 1 implies #[trigger] flat_cells(grid@, cols as int)(
                cells@[k].0 as int,
                cells@[k].1 as int,
            ) != CellState::Empty by {
                if k < idx {
                    let (a, b) = (cells@[k].0 as int, cells@[k].1 as int);
                    assert(cells@.contains(cells@[k]));
                    assert(ordered[k].0 < rows);
                    assert(flat_cells(before, cols as int)(a, b) != CellState::Empty);
                }
            }
        }
        idx = idx + 1;
    }
    proof {
        assert forall|a: int, b: int| 0 <= a < rows && 0 <= b < cols implies #[trigger] flat_cells(
            grid@,
            cols as int,
        )(a, b) != CellState::Empty by {
            assert(cells@.contains((a as usize, b as usize)));
            let k = choose|k: int| 0 <= k < cells@.len() && cells@[k] == (a as usize, b as usize);
            assert(flat_cells(grid@, cols as int)(cells@[k].0 as int, cells@[k].1 as int) != CellState::Empty);
        }
    }
    Some(grid)
}

/// The pattern used when random filling keeps failing: forward diagonals on even
/// rows, backward ones on odd rows. It never closes a loop.
pub open spec fn stripe(r: int) -> CellState {
    if r % 2 == 0 {
        CellState::Forward
    } else {
        CellState::Backward
    }
}

/// The corner at the lower end of the diagonal of cell (`r`, `c`) in the striped
/// pattern.
pub open spec fn stripe_low(r: int, c: int, cols: int) -> int {
    if r % 2 == 0 {
        node(r + 1, c, cols)
    } else {
        node(r + 1, c + 1, cols)
    }
}

/// Every corner that `edges` touches lies in range and below `bound`.
pub open spec fn below(edges: Seq<(int, int)>, bound: int, n: nat) -> bool {
    forall|k: int|
        0 <= k < edges.len() ==> 0 <= (#[trigger] edges[k]).0 < n && 0 <= edges[k].1 < n && edges[k].0
            < bound && edges[k].1 < bound
}

/// A flat grid filled with the striped pattern. Its diagonals close no loop: in
/// row-major order each one reaches a corner below that no earlier one touched.
fn striped_grid(rows: usize, cols: usize) -> (g: Vec<CellState>)
    requires
        num_nodes(rows as int, cols as int) <= usize::MAX,
    ensures
        g@.len() == rows * cols,
        forall|a: int, b: int|
            0 <= a < rows && 0 <= b < cols ==> #[trigger] flat_cells(g@, cols as int)(a, b) == stripe(a),
        loop_free(flat_cells(g@, cols as int), rows as int, cols as int),
{
    proof {
        lemma_node_bound(0, 0, rows as int, cols as int);
        assert(rows * cols <= (rows + 1) * (cols + 1)) by (nonlinear_arith);
    }
    let ghost nc = num_corners(rows as int, cols as int);
    let mut g = empty_grid(rows * cols);
    let ghost mut edges: Seq<(int, int)> = Seq::empty();
    proof {
        lemma_tracks_empty(g@, rows as int, cols as int);
        assert(joined(nc, edges) =~= Seq::new(nc, |k: int| k));
        assert forall|a: int, b: int| 0 <= a < rows && 0 <= b < cols implies #[trigger] flat_cells(
            g@,
            cols as int,
        )(a, b) == CellState::Empty by {
            lemma_cell_bound(a, b, rows as int, cols as int);
        }
    }
    let mut r: usize = 0;
    while r < rows
        invariant
            r <= rows,
            nc == num_corners(rows as int, cols as int),
            num_nodes(rows as int, cols as int) <= usize::MAX,
            g@.len() == rows * cols,
            forall|a: int, b: int|
                0 <= a < r && 0 <= b < cols ==> #[trigger] flat_cells(g@, cols as int)(a, b) == stripe(a),
            forall|a: int, b: int|
                r <= a < rows && 0 <= b < cols ==> #[trigger] flat_cells(g@, cols as int)(a, b)
                    == CellState::Empty,
            tracks(joined(nc, edges), g@, rows as int, cols as int, edges),
            below(edges, stripe_low(r as int, 0, cols as int), nc),
        decreases rows - r,
    {
        let mut c: usize = 0;
        while c < cols
            invariant
                r < rows,
                c <= cols,
                nc == num_corners(rows as int, cols as int),
                num_nodes(rows as int, cols as int) <= usize::MAX,
                g@.len() == rows * cols,
                forall|a: int, b: int|
                    (0 <= a < r && 0 <= b < cols) || (a == r && 0 <= b < c) ==> #[trigger] flat_cells(
                        g@,
                        cols as int,
                    )(a, b) == stripe(a),
                forall|a: int, b: int|
                    ((r < a < rows && 0 <= b < cols) || (a == r && c <= b < cols)) ==> #[trigger] flat_cells(
                        g@,
                        cols as int,
                    )(a, b) == CellState::Empty,
                tracks(joined(nc, edges), g@, rows as int, cols as int, edges),
                below(edges, stripe_low(r as int, c as int, cols as int), nc),
            decreases cols - c,
        {
            let s = if r % 2 == 0 {
                CellState::Forward
            } else {
                CellState::Backward
            };
            proof {
                let x = ends(r as int, c as int, cols as int, s);
                lemma_node_bound(r as int, c as int, rows as int, cols as int);
                lemma_node_bound(r as int, c + 1, rows as int, cols as int);
                lemma_node_bound(r + 1, c as int, rows as int, cols as int);
                lemma_node_bound(r + 1, c + 1, rows as int, cols as int);
                lemma_node_bound(r as int, cols as int, rows as int, cols as int);
                assert(x.1 == stripe_low(r as int, c as int, cols as int));
                assert(r * (cols + 1) + cols < (r + 1) * (cols + 1)) by (nonlinear_arith);
                assert(x.0 < x.1);
                lemma_untouched(nc, edges, x.1);
                lemma_cell_bound(r as int, c as int, rows as int, cols as int);
                assert(flat_cells(g@, cols as int)(r as int, c as int) == CellState::Empty);
                lemma_tracks_place(joined(nc, edges), g@, rows as int, cols as int, edges, r as int, c as int, s);
            }
            let ghost before = g@;
            place(&mut g, rows, cols, r, c, s);
            proof {
                let x = ends(r as int, c as int, cols as int, s);
                let e2 = edges.push(x);
                assert(e2.drop_last() =~= edges);
                assert(stripe_low(r as int, c + 1, cols as int) == stripe_low(r as int, c as int, cols as int) + 1);
                assert forall|k: int| 0 <= k < e2.len() implies 0 <= (#[trigger] e2[k]).0 < nc && 0 <= e2[k].1 < nc
                    && e2[k].0 < stripe_low(r as int, c + 1, cols as int) && e2[k].1 < stripe_low(
                    r as int,
                    c + 1,
                    cols as int,
                ) by {
                    if k < edges.len() {
                        assert(e2[k] == edges[k]);
                    }
                }
                edges = e2;
            }
            c = c + 1;
        }
        proof {
            assert((r + 1) * (cols + 1) + cols + 1 == (r + 2) * (cols + 1)) by (nonlinear_arith);
            assert(stripe_low(r as int, cols as int, cols as int) <= stripe_low(r + 1, 0, cols as int));
        }
        r = r + 1;
    }
    g
}

/// The flat grid laid out as `rows` rows of `cols` cells.
fn to_rows(grid: &Vec<CellState>, rows: usize, cols: usize) -> (out: Vec<Vec<CellState>>)
    requires
        grid@.len() == rows * cols,
    ensures
        out@.len() == rows,
        forall|r: int| 0 <= r < rows ==> (#[trigger] out@[r])@.len() == cols,
        forall|r: int, c: int|
            0 <= r < rows && 0 <= c < cols ==> #[trigger] out@[r]@[c] == flat_cells(grid@, cols as int)(r, c),
{
    let mut out: Vec<Vec<CellState>> = Vec::new();
    let mut r: usize = 0;
    while r < rows
        invariant
            r <= rows,
            grid@.len() == rows * cols,
            out@.len() == r,
            forall|i: int| 0 <= i < r ==> (#[trigger] out@[i])@.len() == cols,
            forall|i: int, c: int|
                0 <= i < r && 0 <= c < cols ==> #[trigger] out@[i]@[c] == flat_cells(grid@, cols as int)(i, c),
        decreases rows - r,
    {
        let mut row: Vec<CellState> = Vec::new();
        let mut c: usize = 0;
        while c < cols
            invariant
                r < rows,
                c <= cols,
                grid@.len() == rows * cols,
                row@.len() == c,
                forall|j: int| 0 <= j < c ==> #[trigger] row@[j] == flat_cells(grid@, cols as int)(r as int, j),
            decreases cols - c,
        {
            row.push(cell_of(grid, rows, cols, r, c));
            c = c + 1;
        }
        out.push(row);
        r = r + 1;
    }
    out
}

/// Two views of one grid that agree on every cell give the same corner counts.
proof fn lemma_same_counts(g: Seq<CellState>, n: Seq<Vec<CellState>>, rows: int, cols: int)
    requires
        forall|r: int, c: int|
            0 <= r < rows && 0 <= c < cols ==> #[trigger] n[r]@[c] == flat_cells(g, cols)(r, c),
    ensures
        forall|r: int, c: int|
            0 <= r <= rows && 0 <= c <= cols ==> #[trigger] corner_count(nested_cells(n), rows, cols, r, c)
                == corner_count(flat_cells(g, cols), rows, cols, r, c),
{
    assert forall|r: int, c: int| 0 <= r <= rows && 0 <= c <= cols implies #[trigger] corner_count(
        nested_cells(n),
        rows,
        cols,
        r,
        c,
    ) == corner_count(flat_cells(g, cols), rows, cols, r, c) by {
        if r > 0 && c > 0 {
            assert(n[r - 1]@[c - 1] == flat_cells(g, cols)(r - 1, c - 1));
        }
        if r > 0 && c < cols {
            assert(n[r - 1]@[c] == flat_cells(g, cols)(r - 1, c));
        }
        if r < rows && c > 0 {
            assert(n[r]@[c - 1] == flat_cells(g, cols)(r, c - 1));
        }
        if r < rows && c < cols {
            assert(n[r]@[c] == flat_cells(g, cols)(r, c));
        }
    }
}

/// Every number of `numbers`, revealed.
fn reveal_all(numbers: &Vec<Vec<u8>>, rows: usize, cols: usize) -> (masked: Vec<Vec<Option<u8>>>)
    requires
        number_shape(numbers@, rows as int, cols as int),
        rows < usize::MAX,
        cols < usize::MAX,
    ensures
        number_shape(masked@, rows as int, cols as int),
        forall|r: int, c: int|
            0 <= r <= rows && 0 <= c <= cols ==> #[trigger] masked@[r]@[c] == Some(numbers@[r]@[c]),
{
    let mut masked: Vec<Vec<Option<u8>>> = Vec::new();
    let mut r: usize = 0;
    while r <= rows
        invariant
            r <= rows + 1,
            rows < usize::MAX,
            cols < usize::MAX,
            number_shape(numbers@, rows as int, cols as int),
            masked@.len() == r,
            forall|i: int| 0 <= i < r ==> (#[trigger] masked@[i])@.len() == cols + 1,
            forall|i: int, c: int|
                0 <= i < r && 0 <= c <= cols ==> #[trigger] masked@[i]@[c] == Some(numbers@[i]@[c]),
        decreases rows + 1 - r,
    {
        let mut row: Vec<Option<u8>> = Vec::new();
        let mut c: usize = 0;
        while c <= cols
            invariant
                r <= rows,
                c <= cols + 1,
                cols < usize::MAX,
                number_shape(numbers@, rows as int, cols as int),
                row@.len() == c,
                forall|j: int| 0 <= j < c ==> #[trigger] row@[j] == Some(numbers@[r as int]@[j]),
            decreases cols + 1 - c,
        {
            assert(numbers@[r as int]@.len() == cols + 1);
            row.push(Some(numbers[r][c]));
            c = c + 1;
        }
        masked.push(row);
        r = r + 1;
    }
    masked
}

/// Some number of `masked` is hidden.
pub open spec fn has_hidden(masked: Seq<Vec<Option<u8>>>, rows: int, cols: int) -> bool {
    exists|r: int, c: int| 0 <= r <= rows && 0 <= c <= cols && (#[trigger] masked[r]@[c]) is None
}

/// How many of the first `c` entries of a row of numbers are revealed.
pub open spec fn row_revealed(row: Seq<Option<u8>>, c: nat) -> nat
    decreases c,
{
    if c == 0 {
        0
    } else {
        row_revealed(row, (c - 1) as nat) + if row[c - 1] is Some { 1nat } else { 0nat }
    }
}

/// How many numbers of rows `0..r` of `m` (rows of `cols + 1` entries) are revealed.
pub open spec fn revealed(m: Seq<Vec<Option<u8>>>, cols: int, r: nat) -> nat
    decreases r,
{
    if r == 0 {
        0
    } else {
        revealed(m, cols, (r - 1) as nat) + row_revealed(m[r - 1]@, (cols + 1) as nat)
    }
}

proof fn lemma_row_diff(a: Seq<Option<u8>>, b: Seq<Option<u8>>, c0: int, c: nat, differ: bool)
    requires
        forall|j: int| 0 <= j < c && (!differ || j != c0) ==> #[trigger] a[j] == b[j],
        differ ==> 0 <= c0 && a[c0] is Some && b[c0] is None,
    ensures
        row_revealed(b, c) + (if differ && c0 < c { 1nat } else { 0nat }) == row_revealed(a, c),
    decreases c,
{
    if c > 0 {
        lemma_row_diff(a, b, c0, (c - 1) as nat, differ);
    }
}

proof fn lemma_revealed_diff(m: Seq<Vec<Option<u8>>>, m2: Seq<Vec<Option<u8>>>, cols: int, r0: int, c0: int, r: nat, differ: bool)
    requires
        cols >= 0,
        forall|i: int, j: int|
            0 <= i < r && 0 <= j <= cols && (!differ || i != r0 || j != c0) ==> #[trigger] m2[i]@[j] == m[i]@[j],
        differ ==> 0 <= r0 && 0 <= c0 <= cols && m[r0]@[c0] is Some && m2[r0]@[c0] is None,
    ensures
        revealed(m2, cols, r) + (if differ && r0 < r { 1nat } else { 0nat }) == revealed(m, cols, r),
    decreases r,
{
    if r > 0 {
        let i = r - 1;
        lemma_revealed_diff(m, m2, cols, r0, c0, (r - 1) as nat, differ);
        assert forall|j: int| 0 <= j < cols + 1 && (!(differ && i == r0) || j != c0) implies #[trigger] m[i]@[j] == m2[i]@[j] by {
            assert(m2[i]@[j] == m[i]@[j]);
        }
        lemma_row_diff(m[i]@, m2[i]@, c0, (cols + 1) as nat, differ && i == r0);
    }
}

proof fn lemma_revealed_full(m: Seq<Vec<Option<u8>>>, cols: int, r: nat)
    requires
        cols >= 0,
        forall|i: int, j: int| 0 <= i < r && 0 <= j <= cols ==> (#[trigger] m[i]@[j]) is Some,
    ensures
        revealed(m, cols, r) == r * (cols + 1),
    decreases r,
{
    if r > 0 {
        let i = r - 1;
        lemma_revealed_full(m, cols, (r - 1) as nat);
        assert forall|j: int| 0 <= j < cols + 1 implies (#[trigger] m[i]@[j]) is Some by {}
        lemma_row_full(m[i]@, (cols + 1) as nat);
        assert(revealed(m, cols, r) == revealed(m, cols, (r - 1) as nat) + row_revealed(m[i]@, (cols + 1) as nat));
        let rm1: int = r - 1;
        assert(rm1 * (cols + 1) + (cols + 1) == (rm1 + 1) * (cols + 1)) by (nonlinear_arith);
        assert(revealed(m, cols, (r - 1) as nat) == rm1 * (cols + 1));
        assert(row_revealed(m[i]@, (cols + 1) as nat) == cols + 1);
        assert(rm1 + 1 == r);
    } else {
        assert(r * (cols + 1) == 0) by (nonlinear_arith)
            requires r == 0;
    }
}

proof fn lemma_row_full(row: Seq<Option<u8>>, c: nat)
    requires
        forall|j: int| 0 <= j < c ==> (#[trigger] row[j]) is Some,
    ensures
        row_revealed(row, c) == c,
    decreases c,
{
    if c > 0 {
        lemma_row_full(row, (c - 1) as nat);
    }
}

/// Starting from every number of `numbers` revealed, tries to hide the corners of
/// `order` one by one: a number stays hidden when the deduction still succeeds
/// without it, and hiding stops once no more than `max_hints` numbers remain, so
/// at least `max_hints` numbers (or all of them) stay revealed.
pub fn hide_hints(
    numbers: &Vec<Vec<u8>>,
    order: &Vec<(usize, usize)>,
    rows: usize,
    cols: usize,
    max_hints: usize,
) -> (masked: Vec<Vec<Option<u8>>>)
    requires
        number_shape(numbers@, rows as int, cols as int),
        num_nodes(rows as int, cols as int) <= usize::MAX,
        forall|k: int| 0 <= k < order@.len() ==> (#[trigger] order@[k]).0 <= rows && order@[k].1 <= cols,
        order@.no_duplicates(),
    ensures
        revealed(masked@, cols as int, (rows + 1) as nat) == num_nodes(rows as int, cols as int)
            || revealed(masked@, cols as int, (rows + 1) as nat) >= max_hints,
        number_shape(masked@, rows as int, cols as int),
        forall|r: int, c: int|
            0 <= r <= rows && 0 <= c <= cols && (#[trigger] masked@[r]@[c]) is Some ==> masked@[r]@[c] == Some(
                numbers@[r]@[c],
            ),
        forall|r: int, c: int|
            0 <= r <= rows && 0 <= c <= cols && (#[trigger] masked@[r]@[c]) is None ==> exists|k: int|
                0 <= k < order@.len() && order@[k] == (r as usize, c as usize),
        has_hidden(masked@, rows as int, cols as int) ==> deduce_spec(masked@, rows as int, cols as int) is Some,
        max_hints >= num_nodes(rows as int, cols as int) ==> !has_hidden(masked@, rows as int, cols as int),
{
    proof {
        lemma_node_bound(0, 0, rows as int, cols as int);
    }
    let nn = (rows + 1) * (cols + 1);
    let mut masked = reveal_all(numbers, rows, cols);
    let mut hints: usize = nn;
    proof {
        lemma_revealed_full(masked@, cols as int, (rows + 1) as nat);
    }
    let mut idx: usize = 0;
    while idx < order.len()
        invariant
            nn == num_nodes(rows as int, cols as int),
            nn <= usize::MAX,
            rows < usize::MAX,
            cols < usize::MAX,
            hints <= nn,
            idx <= order@.len(),
            forall|k: int| 0 <= k < order@.len() ==> (#[trigger] order@[k]).0 <= rows && order@[k].1 <= cols,
            number_shape(masked@, rows as int, cols as int),
            number_shape(numbers@, rows as int, cols as int),
            forall|r: int, c: int|
                0 <= r <= rows && 0 <= c <= cols && (#[trigger] masked@[r]@[c]) is Some
                    ==> masked@[r]@[c] == Some(numbers@[r]@[c]),
            forall|r: int, c: int|
                0 <= r <= rows && 0 <= c <= cols && (#[trigger] masked@[r]@[c]) is None ==> exists|k: int|
                    0 <= k < idx && order@[k] == (r as usize, c as usize),
            has_hidden(masked@, rows as int, cols as int) ==> deduce_spec(masked@, rows as int, cols as int) is Some,
            max_hints >= nn ==> !has_hidden(masked@, rows as int, cols as int),
            order@.no_duplicates(),
            hints == revealed(masked@, cols as int, (rows + 1) as nat),
            hints == nn || hints >= max_hints,
        decreases order@.len() - idx,
    {
        let (r, c) = order[idx];
        if hints > max_hints {
            assert(masked@[r as int]@.len() == cols + 1);
            let ghost old_masked = masked@;
            proof {
                if masked@[r as int]@[c as int] is None {
                    let k = choose|k: int| 0 <= k < idx && order@[k] == (r, c);
                    assert(order@[k] == order@[idx as int]);
                }
            }
            let original = masked[r][c];
            masked[r][c] = None;
            proof {
                lemma_revealed_diff(old_masked, masked@, cols as int, r as int, c as int, (rows + 1) as nat, true);
                assert(masked@[r as int]@[c as int] is None);
                assert(has_hidden(masked@, rows as int, cols as int));
                assert forall|a: int, b: int|
                    0 <= a <= rows && 0 <= b <= cols && (#[trigger] masked@[a]@[b]) is None implies exists|k: int|
                        0 <= k < idx + 1 && order@[k] == (a as usize, b as usize) by {
                    if a == r && b == c {
                        assert(order@[idx as int] == (a as usize, b as usize));
                    } else {
                        assert(masked@[a]@[b] == old_masked[a]@[b]);
                    }
                }
            }
            if check_deductive_solvability(&masked, rows, cols) {
                hints = hints - 1;
            } else {
                masked[r][c] = original;
                proof {
                    lemma_revealed_diff(old_masked, masked@, cols as int, 0, 0, (rows + 1) as nat, false);
                    assert(same_hints(masked@, old_masked, rows as int, cols as int));
                    lemma_deduce_same(masked@, old_masked, rows as int, cols as int);
                    if has_hidden(masked@, rows as int, cols as int) {
                        let (a, b) = choose|a: int, b: int|
                            0 <= a <= rows && 0 <= b <= cols && (#[trigger] masked@[a]@[b]) is None;
                        assert(old_masked[a]@[b] is None);
                    }
                    assert forall|a: int, b: int|
                        0 <= a <= rows && 0 <= b <= cols && (#[trigger] masked@[a]@[b]) is None implies exists|k: int|
                            0 <= k < idx + 1 && order@[k] == (a as usize, b as usize) by {
                        assert(old_masked[a]@[b] is None);
                        let k = choose|k: int| 0 <= k < idx && order@[k] == (a as usize, b as usize);
                        assert(0 <= k < idx + 1 && order@[k] == (a as usize, b as usize));
                    }
                }
            }
        }
        idx = idx + 1;
    }
    masked
}

/// Generates a puzzle of `rows` by `cols` cells from `seed`. It hides numbers, in
/// a random order, as long as deduction still solves the puzzle and more than
/// `max_hints` numbers remain revealed.
pub fn generate_puzzle(rows: usize, cols: usize, seed: u64, max_hints: usize) -> (p: Puzzle)
    requires
        num_nodes(rows as int, cols as int) <= usize::MAX,
    ensures
        full_solution(p.solution@, rows as int, cols as int),
        number_shape(p.numbers@, rows as int, cols as int),
        hints_hold(nested_cells(p.solution@), p.numbers@, rows as int, cols as int),
        loop_free(nested_cells(p.solution@), rows as int, cols as int),
        has_hidden(p.numbers@, rows as int, cols as int) ==> deduce_spec(p.numbers@, rows as int, cols as int) is Some,
        revealed(p.numbers@, cols as int, (rows + 1) as nat) == num_nodes(rows as int, cols as int)
            || revealed(p.numbers@, cols as int, (rows + 1) as nat) >= max_hints,
        max_hints >= num_nodes(rows as int, cols as int) ==> forall|r: int, c: int|
            0 <= r <= rows && 0 <= c <= cols ==> (#[trigger] p.numbers@[r]@[c]) is Some,
{
    proof {
        lemma_node_bound(0, 0, rows as int, cols as int);
        assert(rows * cols <= (rows + 1) * (cols + 1)) by (nonlinear_arith);
    }
    let nn = (rows + 1) * (cols + 1);
    let mut rng = seeded_rng(seed);
    let mut grid: Option<Vec<CellState>> = None;
    let mut attempt: usize = 0;
    while attempt < ATTEMPTS && grid.is_none()
        invariant
            nn == num_nodes(rows as int, cols as int),
            nn <= usize::MAX,
            grid matches Some(g) ==> {
                &&& g@.len() == rows * cols
                &&& filled(g@, rows as int, cols as int)
                &&& loop_free(flat_cells(g@, cols as int), rows as int, cols as int)
            },
        decreases ATTEMPTS - attempt,
    {
        grid = random_fill(&mut rng, rows, cols);
        attempt = attempt + 1;
    }
    let grid = match grid {
        Some(g) => g,
        None => striped_grid(rows, cols),
    };
    assert(filled(grid@, rows as int, cols as int));
    let numbers = calculate_numbers(&grid, rows, cols);
    let mut coords = all_cells(rows + 1, cols + 1);
    let ghost ordered = coords@;
    shuffle_pairs(&mut coords, &mut rng);
    proof {
        ordered.lemma_multiset_has_no_duplicates();
        coords@.lemma_multiset_has_no_duplicates_conv();
        assert forall|k: int| 0 <= k < coords@.len() implies (#[trigger] coords@[k]).0 <= rows && coords@[k].1 <= cols by {
            assert(coords@.contains(coords@[k]));
            lemma_same_elements(coords@, ordered, coords@[k]);
            let j = choose|j: int| 0 <= j < ordered.len() && ordered[j] == coords@[k];
            assert(ordered[j].0 < rows + 1);
        }
    }
    let masked = hide_hints(&numbers, &coords, rows, cols, max_hints);
    let solution = to_rows(&grid, rows, cols);
    proof {
        lemma_same_counts(grid@, solution@, rows as int, cols as int);
        lemma_loop_free_same_cells(
            flat_cells(grid@, cols as int),
            nested_cells(solution@),
            rows as int,
            cols as int,
        );
    }
    Puzzle { numbers: masked, solution }
}

} // verus!
