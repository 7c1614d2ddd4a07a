//! The deductive solver: constraint propagation from the corner numbers and
//! forced choices that avoid loops, without guessing.

use vstd::prelude::*;
use crate::dsu::Dsu;
use crate::grid::{
    CellState, cell_of, complete, corner_count, flat_cells, get_node_index, lemma_cell_bound,
    lemma_node_bound, node, num_nodes,
};
use crate::numbers::{calculate_numbers, number_shape};
use crate::deduction::{
    all_corners, all_forced, apply_slots, confirmed, corner_spec, deduce_spec, lemma_corner_failure,
    lemma_forced_failure, lemma_slots_sticky, live, on_track, round_spec, row_corners, row_forced,
    run_spec, start, unknown,
};
use crate::dsu::merged;
use crate::forest::{lemma_tracks_empty, lemma_tracks_place, loop_free, tracks};

verus! {

/// Every revealed number of `masked` equals the count at its corner in `cell`.
pub open spec fn hints_hold(
    cell: spec_fn(int, int) -> CellState,
    masked: Seq<Vec<Option<u8>>>,
    rows: int,
    cols: int,
) -> bool {
    forall|r: int, c: int|
        0 <= r <= rows && 0 <= c <= cols && (#[trigger] masked[r]@[c]) is Some ==> corner_count(
            cell,
            rows,
            cols,
            r,
            c,
        ) == masked[r]@[c]->0 as int
}

/// Every revealed number of `masked` is zero.
pub open spec fn all_zero(masked: Seq<Vec<Option<u8>>>, rows: int, cols: int) -> bool {
    forall|r: int, c: int|
        0 <= r <= rows && 0 <= c <= cols && (#[trigger] masked[r]@[c]) is Some ==> masked[r]@[c]->0 == 0
}

/// The two corners that the diagonal `s` of cell (`r`, `c`) joins.
pub open spec fn ends(r: int, c: int, cols: int, s: CellState) -> (int, int) {
    if s == CellState::Forward {
        (node(r, c + 1, cols), node(r + 1, c, cols))
    } else {
        (node(r, c, cols), node(r + 1, c + 1, cols))
    }
}

/// The cell in slot `k` around corner (`r`, `c`), with the diagonal of that cell
/// that ends at the corner.
pub open spec fn touching(r: int, c: int, rows: int, cols: int, k: int) -> Option<(int, int, CellState)> {
    if k == 0 && r > 0 && c > 0 {
        Some((r - 1, c - 1, CellState::Backward))
    } else if k == 1 && r > 0 && c < cols {
        Some((r - 1, c, CellState::Forward))
    } else if k == 2 && r < rows && c > 0 {
        Some((r, c - 1, CellState::Forward))
    } else if k == 3 && r < rows && c < cols {
        Some((r, c, CellState::Backward))
    } else {
        None
    }
}

/// The other diagonal.
pub open spec fn flipped(s: CellState) -> CellState {
    if s == CellState::Forward {
        CellState::Backward
    } else {
        CellState::Forward
    }
}

/// How many cells of `g` are still empty.
pub open spec fn empties(g: Seq<CellState>) -> nat
    decreases g.len(),
{
    if g.len() == 0 {
        0
    } else {
        empties(g.drop_last()) + if g.last() == CellState::Empty { 1nat } else { 0nat }
    }
}

/// Filling an empty cell leaves one empty cell fewer.
pub proof fn lemma_fill_one(g: Seq<CellState>, i: int, v: CellState)
    requires
        0 <= i < g.len(),
        g[i] == CellState::Empty,
        v != CellState::Empty,
    ensures
        empties(g.update(i, v)) + 1 == empties(g),
    decreases g.len(),
{
    if i == g.len() - 1 {
        assert(g.update(i, v).drop_last() =~= g.drop_last());
    } else {
        lemma_fill_one(g.drop_last(), i, v);
        assert(g.update(i, v).drop_last() =~= g.drop_last().update(i, v));
    }
}

/// A grid has no more empty cells than cells.
proof fn lemma_empties_bound(g: Seq<CellState>)
    ensures
        empties(g) <= g.len(),
    decreases g.len(),
{
    if g.len() > 0 {
        lemma_empties_bound(g.drop_last());
    }
}

/// The two corners joined by the diagonal `s` of cell (`r`, `c`).
pub(crate) fn diagonal_ends(r: usize, c: usize, rows: usize, cols: usize, s: CellState) -> (e: (usize, usize))
    requires
        r < rows,
        c < cols,
        num_nodes(rows as int, cols as int) <= usize::MAX,
    ensures
        e.0 < num_nodes(rows as int, cols as int),
        e.1 < num_nodes(rows as int, cols as int),
        (e.0 as int, e.1 as int) == ends(r as int, c as int, cols as int, s),
{
    proof {
        lemma_node_bound(r as int, c as int, rows as int, cols as int);
        lemma_node_bound(r as int, c + 1, rows as int, cols as int);
        lemma_node_bound(r + 1, c as int, rows as int, cols as int);
        lemma_node_bound(r + 1, c + 1, rows as int, cols as int);
    }
    if s == CellState::Forward {
        (get_node_index(r, c + 1, cols), get_node_index(r + 1, c, cols))
    } else {
        (get_node_index(r, c, cols), get_node_index(r + 1, c + 1, cols))
    }
}

/// The cell in slot `k` around corner (`r`, `c`), if the grid has one there.
fn touching_cell(r: usize, c: usize, rows: usize, cols: usize, k: usize) -> (t: Option<(usize, usize, CellState)>)
    requires
        r <= rows,
        c <= cols,
    ensures
        t matches Some(x) ==> touching(r as int, c as int, rows as int, cols as int, k as int)
            == Some((x.0 as int, x.1 as int, x.2)),
        t is None ==> touching(r as int, c as int, rows as int, cols as int, k as int) is None,
        t matches Some(x) ==> x.0 < rows && x.1 < cols && x.2 != CellState::Empty,
{
    if k == 0 && r > 0 && c > 0 {
        Some((r - 1, c - 1, CellState::Backward))
    } else if k == 1 && r > 0 && c < cols {
        Some((r - 1, c, CellState::Forward))
    } else if k == 2 && r < rows && c > 0 {
        Some((r, c - 1, CellState::Forward))
    } else if k == 3 && r < rows && c < cols {
        Some((r, c, CellState::Backward))
    } else {
        None
    }
}

/// Places the diagonal `s` in the empty cell (`r`, `c`) and joins its corners.
/// Returns false, joining nothing, when the corners were already joined: the
/// diagonal would close a loop.
fn commit(
    grid: &mut Vec<CellState>,
    dsu: &mut Dsu,
    rows: usize,
    cols: usize,
    r: usize,
    c: usize,
    s: CellState,
    Ghost(edges): Ghost<Seq<(int, int)>>,
) -> (ok: bool)
    requires
        tracks(old(dsu)@, old(grid)@, rows as int, cols as int, edges),
        old(grid)@.len() == rows * cols,
        old(dsu).wf(),
        old(dsu)@.len() == num_nodes(rows as int, cols as int),
        num_nodes(rows as int, cols as int) <= usize::MAX,
        r < rows,
        c < cols,
        s != CellState::Empty,
        old(grid)@[r * cols + c] == CellState::Empty,
    ensures
        final(grid)@ == old(grid)@.update(r * cols + c, s),
        final(grid)@.len() == old(grid)@.len(),
        empties(final(grid)@) + 1 == empties(old(grid)@),
        final(dsu).wf(),
        final(dsu)@.len() == old(dsu)@.len(),
        ok == (old(dsu)@[ends(r as int, c as int, cols as int, s).0] != old(dsu)@[ends(
            r as int,
            c as int,
            cols as int,
            s,
        ).1]),
        ok ==> final(dsu)@ == merged(
            old(dsu)@,
            ends(r as int, c as int, cols as int, s).0,
            ends(r as int, c as int, cols as int, s).1,
        ),
        ok ==> tracks(
            final(dsu)@,
            final(grid)@,
            rows as int,
            cols as int,
            edges.push(ends(r as int, c as int, cols as int, s)),
        ),
{
    proof {
        lemma_cell_bound(r as int, c as int, rows as int, cols as int);
        lemma_fill_one(grid@, r * cols + c, s);
        assert(grid@.len() == grid.len());
    }
    let ghost g0 = grid@;
    grid.set(r * cols + c, s);
    let (u, v) = diagonal_ends(r, c, rows, cols, s);
    if dsu.connected(u, v) {
        return false;
    }
    proof {
        lemma_tracks_place(dsu@, g0, rows as int, cols as int, edges, r as int, c as int, s);
    }
    dsu.union(u, v);
    true
}

/// The other diagonal, for a cell that holds one.
fn flip(s: CellState) -> (t: CellState)
    ensures
        t == flipped(s),
{
    if s == CellState::Forward {
        CellState::Backward
    } else {
        CellState::Forward
    }
}

/// Runs the deduction on the revealed numbers of `masked` and returns the grid it
/// pins down. It fails (None) when a deduction would close a loop, when some cell
/// stays undecided, or when the grid found disagrees with a revealed number.
pub fn deduce_solution(masked: &Vec<Vec<Option<u8>>>, rows: usize, cols: usize) -> (sol: Option<Vec<CellState>>)
    requires
        number_shape(masked@, rows as int, cols as int),
        num_nodes(rows as int, cols as int) <= usize::MAX,
    ensures
        sol matches Some(g) ==> {
            &&& g@.len() == rows * cols
            &&& complete(g@)
            &&& loop_free(flat_cells(g@, cols as int), rows as int, cols as int)
            &&& hints_hold(flat_cells(g@, cols as int), masked@, rows as int, cols as int)
        },
        rows == 0 || cols == 0 ==> (sol is Some <==> all_zero(masked@, rows as int, cols as int)),
        sol matches Some(g) ==> deduce_spec(masked@, rows as int, cols as int) == Some(g@),
        sol is None ==> deduce_spec(masked@, rows as int, cols as int) is None,
{
    proof {
        lemma_node_bound(0, 0, rows as int, cols as int);
        assert(rows * cols <= (rows + 1) * (cols + 1)) by (nonlinear_arith);
        assert(rows == 0 || cols == 0 ==> rows * cols == 0) by (nonlinear_arith);
    }
    let nn = (rows + 1) * (cols + 1);
    let total = rows * cols;
    let mut grid: Vec<CellState> = Vec::new();
    let mut i: usize = 0;
    while i < total
        invariant
            i <= total,
            grid@.len() == i,
            forall|k: int| 0 <= k < i ==> #[trigger] grid@[k] == CellState::Empty,
        decreases total - i,
    {
        grid.push(CellState::Empty);
        i = i + 1;
    }
    let mut dsu = Dsu::new(nn);
    let ghost mut edges: Seq<(int, int)> = Seq::empty();
    let ghost mut cur = start(rows as int, cols as int);
    let ghost mut fuel: nat = (total + 1) as nat;
    proof {
        lemma_tracks_empty(grid@, rows as int, cols as int);
        assert(dsu@ =~= Seq::new(nn as nat, |k: int| k));
        assert(grid@ =~= cur.grid);
        lemma_empties_bound(grid@);
    }
    loop
        invariant_except_break
            cur.grid == grid@,
            cur.rep == dsu@,
            on_track(cur, masked@, rows as int, cols as int, fuel),
            empties(grid@) < fuel,
        invariant
            number_shape(masked@, rows as int, cols as int),
            nn == num_nodes(rows as int, cols as int),
            nn <= usize::MAX,
            rows < usize::MAX,
            cols < usize::MAX,
            total == rows * cols,
            grid@.len() == total,
            dsu.wf(),
            dsu@.len() == nn,
            tracks(dsu@, grid@, rows as int, cols as int, edges),
        ensures
            rows < usize::MAX,
            cols < usize::MAX,
            number_shape(masked@, rows as int, cols as int),
            nn == num_nodes(rows as int, cols as int),
            nn <= usize::MAX,
            total == rows * cols,
            grid@.len() == total,
            tracks(dsu@, grid@, rows as int, cols as int, edges),
            run_spec(start(rows as int, cols as int), masked@, rows as int, cols as int, (rows * cols + 1) as nat)
                == live(grid@, dsu@, false),
        decreases empties(grid@),
    {
        let ghost before = empties(grid@);
        let ghost d0 = live(grid@, dsu@, false);
        let mut changed = false;
        let mut r: usize = 0;
        while r <= rows
            invariant
                number_shape(masked@, rows as int, cols as int),
                nn == num_nodes(rows as int, cols as int),
                nn <= usize::MAX,
                rows < usize::MAX,
                cols < usize::MAX,
                grid@.len() == total,
                total == rows * cols,
                dsu.wf(),
                dsu@.len() == nn,
                tracks(dsu@, grid@, rows as int, cols as int, edges),
                r <= rows + 1,
                empties(grid@) <= before,
                changed ==> empties(grid@) < before,
                on_track(cur, masked@, rows as int, cols as int, fuel),
                d0 == live(cur.grid, cur.rep, false),
                live(grid@, dsu@, changed) == all_corners(d0, masked@, rows as int, cols as int, r as nat),
            decreases rows + 1 - r,
        {
            let mut c: usize = 0;
            while c <= cols
                invariant
                    number_shape(masked@, rows as int, cols as int),
                    nn == num_nodes(rows as int, cols as int),
                    nn <= usize::MAX,
                    rows < usize::MAX,
                    cols < usize::MAX,
                    grid@.len() == total,
                    total == rows * cols,
                    dsu.wf(),
                    dsu@.len() == nn,
                    tracks(dsu@, grid@, rows as int, cols as int, edges),
                    r <= rows,
                    c <= cols + 1,
                    empties(grid@) <= before,
                    changed ==> empties(grid@) < before,
                    on_track(cur, masked@, rows as int, cols as int, fuel),
                    d0 == live(cur.grid, cur.rep, false),
                    live(grid@, dsu@, changed) == row_corners(
                        all_corners(d0, masked@, rows as int, cols as int, r as nat),
                        masked@,
                        rows as int,
                        cols as int,
                        r as int,
                        c as nat,
                    ),
                decreases cols + 1 - c,
            {
                let ghost pre = live(grid@, dsu@, changed);
                assert(masked@[r as int]@.len() == cols + 1);
                if let Some(t) = masked[r][c] {
                    let target = t as usize;
                    let mut confirmed_in: usize = 0;
                    let mut unknown_in: usize = 0;
                    let mut k: usize = 0;
                    while k < 4
                        invariant
                            k <= 4,
                            confirmed_in <= k,
                            unknown_in <= k,
                            r <= rows,
                            c <= cols,
                            grid@.len() == total,
                            total == rows * cols,
                            confirmed_in == confirmed(grid@, rows as int, cols as int, r as int, c as int, k as nat),
                            unknown_in == unknown(grid@, rows as int, cols as int, r as int, c as int, k as nat),
                        decreases 4 - k,
                    {
                        if let Some((gr, gc, pt)) = touching_cell(r, c, rows, cols, k) {
                            let cur_cell = cell_of(&grid, rows, cols, gr, gc);
                            if cur_cell == CellState::Empty {
                                unknown_in = unknown_in + 1;
                            } else if cur_cell == pt {
                                confirmed_in = confirmed_in + 1;
                            }
                        }
                        k = k + 1;
                    }
                    if unknown_in > 0 && (confirmed_in == target || confirmed_in + unknown_in == target) {
                        let opposite = confirmed_in == target;
                        let mut k: usize = 0;
                        while k < 4
                            invariant
                                k <= 4,
                                nn == num_nodes(rows as int, cols as int),
                                nn <= usize::MAX,
                                rows < usize::MAX,
                                cols < usize::MAX,
                                grid@.len() == total,
                                total == rows * cols,
                                dsu.wf(),
                                dsu@.len() == nn,
                                tracks(dsu@, grid@, rows as int, cols as int, edges),
                                r <= rows,
                                c <= cols,
                                empties(grid@) <= before,
                                changed ==> empties(grid@) < before,
                                on_track(cur, masked@, rows as int, cols as int, fuel),
                                d0 == live(cur.grid, cur.rep, false),
                                pre == row_corners(
                                    all_corners(d0, masked@, rows as int, cols as int, r as nat),
                                    masked@,
                                    rows as int,
                                    cols as int,
                                    r as int,
                                    c as nat,
                                ),
                                corner_spec(pre, masked@, rows as int, cols as int, r as int, c as int)
                                    == apply_slots(pre, rows as int, cols as int, r as int, c as int, 4, opposite),
                                live(grid@, dsu@, changed) == apply_slots(
                                    pre,
                                    rows as int,
                                    cols as int,
                                    r as int,
                                    c as int,
                                    k as nat,
                                    opposite,
                                ),
                            decreases 4 - k,
                        {
                            if let Some((gr, gc, pt)) = touching_cell(r, c, rows, cols, k) {
                                if cell_of(&grid, rows, cols, gr, gc) == CellState::Empty {
                                    let val = if opposite {
                                        flip(pt)
                                    } else {
                                        pt
                                    };
                                    if !commit(&mut grid, &mut dsu, rows, cols, gr, gc, val, Ghost(edges)) {
                                        proof {
                                            let o = opposite;
                                            assert(apply_slots(pre, rows as int, cols as int, r as int, c as int, (k + 1) as nat, o).failed);
                                            lemma_slots_sticky(pre, rows as int, cols as int, r as int, c as int, (k + 1) as nat, 4, o);
                                            lemma_corner_failure(cur, masked@, rows as int, cols as int, fuel, r as nat, c as nat);
                                        }
                                        return None;
                                    }
                                    proof {
                                        edges = edges.push(ends(gr as int, gc as int, cols as int, val));
                                    }
                                    changed = true;
                                }
                            }
                            k = k + 1;
                        }
                    }
                }
                c = c + 1;
            }
            r = r + 1;
        }
        if !changed {
            let ghost d1 = live(grid@, dsu@, false);
            let mut r: usize = 0;
            while r < rows
                invariant
                    nn == num_nodes(rows as int, cols as int),
                    nn <= usize::MAX,
                    rows < usize::MAX,
                    cols < usize::MAX,
                    grid@.len() == total,
                    total == rows * cols,
                    dsu.wf(),
                    dsu@.len() == nn,
                    tracks(dsu@, grid@, rows as int, cols as int, edges),
                    r <= rows,
                    empties(grid@) <= before,
                    changed ==> empties(grid@) < before,
                    on_track(cur, masked@, rows as int, cols as int, fuel),
                    d1 == all_corners(live(cur.grid, cur.rep, false), masked@, rows as int, cols as int, (rows + 1) as nat),
                    !d1.failed && !d1.changed,
                    live(grid@, dsu@, changed) == all_forced(d1, cols as int, r as nat),
                decreases rows - r,
            {
                let mut c: usize = 0;
                while c < cols
                    invariant
                        nn == num_nodes(rows as int, cols as int),
                        nn <= usize::MAX,
                        rows < usize::MAX,
                        cols < usize::MAX,
                        grid@.len() == total,
                        total == rows * cols,
                        dsu.wf(),
                        dsu@.len() == nn,
                        tracks(dsu@, grid@, rows as int, cols as int, edges),
                        r < rows,
                        c <= cols,
                        empties(grid@) <= before,
                        changed ==> empties(grid@) < before,
                        on_track(cur, masked@, rows as int, cols as int, fuel),
                        d1 == all_corners(live(cur.grid, cur.rep, false), masked@, rows as int, cols as int, (rows + 1) as nat),
                        !d1.failed && !d1.changed,
                        live(grid@, dsu@, changed) == row_forced(all_forced(d1, cols as int, r as nat), cols as int, r as int, c as nat),
                    decreases cols - c,
                {
                    if cell_of(&grid, rows, cols, r, c) == CellState::Empty {
                        let (uf, vf) = diagonal_ends(r, c, rows, cols, CellState::Forward);
                        let (ub, vb) = diagonal_ends(r, c, rows, cols, CellState::Backward);
                        let loop_forward = dsu.connected(uf, vf);
                        let loop_backward = dsu.connected(ub, vb);
                        if loop_forward && loop_backward {
                            proof {
                                lemma_forced_failure(cur, masked@, rows as int, cols as int, fuel, r as nat, c as nat);
                            }
                            return None;
                        }
                        if loop_forward {
                            commit(&mut grid, &mut dsu, rows, cols, r, c, CellState::Backward, Ghost(edges));
                            proof {
                                edges = edges.push(ends(r as int, c as int, cols as int, CellState::Backward));
                            }
                            changed = true;
                        } else if loop_backward {
                            commit(&mut grid, &mut dsu, rows, cols, r, c, CellState::Forward, Ghost(edges));
                            proof {
                                edges = edges.push(ends(r as int, c as int, cols as int, CellState::Forward));
                            }
                            changed = true;
                        }
                    }
                    c = c + 1;
                }
                r = r + 1;
            }
        }
        proof {
            assert(live(grid@, dsu@, changed) == round_spec(cur, masked@, rows as int, cols as int));
        }
        if !changed {
            break;
        }
        proof {
            cur = live(grid@, dsu@, changed);
            fuel = (fuel - 1) as nat;
        }
    }
    let mut i: usize = 0;
    while i < total
        invariant
            i <= total,
            grid@.len() == total,
            rows == 0 || cols == 0 ==> total == 0,
            total == rows * cols,
            run_spec(start(rows as int, cols as int), masked@, rows as int, cols as int, (rows * cols + 1) as nat)
                == live(grid@, dsu@, false),
            forall|k: int| 0 <= k < i ==> #[trigger] grid@[k] != CellState::Empty,
        decreases total - i,
    {
        if grid[i] == CellState::Empty {
            assert(!complete(grid@));
            return None;
        }
        i = i + 1;
    }
    assert(loop_free(flat_cells(grid@, cols as int), rows as int, cols as int));
    let numbers = calculate_numbers(&grid, rows, cols);
    let mut r: usize = 0;
    while r <= rows
        invariant
            number_shape(masked@, rows as int, cols as int),
            number_shape(numbers@, rows as int, cols as int),
            r <= rows + 1,
            rows < usize::MAX,
            cols < usize::MAX,
            run_spec(start(rows as int, cols as int), masked@, rows as int, cols as int, (rows * cols + 1) as nat)
                == live(grid@, dsu@, false),
            nn == num_nodes(rows as int, cols as int),
            nn <= usize::MAX,
            forall|r2: int, c2: int|
                0 <= r2 <= rows && 0 <= c2 <= cols ==> #[trigger] numbers@[r2]@[c2] as int
                    == corner_count(flat_cells(grid@, cols as int), rows as int, cols as int, r2, c2),
            forall|r2: int, c2: int|
                0 <= r2 < r && 0 <= c2 <= cols && (#[trigger] masked@[r2]@[c2]) is Some
                    ==> corner_count(flat_cells(grid@, cols as int), rows as int, cols as int, r2, c2)
                    == masked@[r2]@[c2]->0 as int,
        decreases rows + 1 - r,
    {
        let mut c: usize = 0;
        while c <= cols
            invariant
                number_shape(masked@, rows as int, cols as int),
                number_shape(numbers@, rows as int, cols as int),
                r <= rows,
                c <= cols + 1,
                rows < usize::MAX,
                cols < usize::MAX,
                run_spec(start(rows as int, cols as int), masked@, rows as int, cols as int, (rows * cols + 1) as nat)
                    == live(grid@, dsu@, false),
                nn == num_nodes(rows as int, cols as int),
                nn <= usize::MAX,
                forall|r2: int, c2: int|
                    0 <= r2 <= rows && 0 <= c2 <= cols ==> #[trigger] numbers@[r2]@[c2] as int
                        == corner_count(flat_cells(grid@, cols as int), rows as int, cols as int, r2, c2),
                forall|r2: int, c2: int|
                    ((0 <= r2 < r && 0 <= c2 <= cols) || (r2 == r && 0 <= c2 < c))
                        && (#[trigger] masked@[r2]@[c2]) is Some
                        ==> corner_count(flat_cells(grid@, cols as int), rows as int, cols as int, r2, c2)
                        == masked@[r2]@[c2]->0 as int,
            decreases cols + 1 - c,
        {
            assert(masked@[r as int]@.len() == cols + 1);
            assert(numbers@[r as int]@.len() == cols + 1);
            if let Some(t) = masked[r][c] {
                if numbers[r][c] != t {
                    assert(!hints_hold(flat_cells(grid@, cols as int), masked@, rows as int, cols as int));
                    return None;
                }
            }
            c = c + 1;
        }
        r = r + 1;
    }
    Some(grid)
}

/// Whether the revealed numbers of `masked` pin down a full, consistent grid by
/// deduction alone.
pub fn check_deductive_solvability(masked: &Vec<Vec<Option<u8>>>, rows: usize, cols: usize) -> (ok: bool)
    requires
        number_shape(masked@, rows as int, cols as int),
        num_nodes(rows as int, cols as int) <= usize::MAX,
    ensures
        ok ==> exists|g: Seq<CellState>|
            {
                &&& g.len() == rows * cols
                &&& complete(g)
                &&& loop_free(flat_cells(g, cols as int), rows as int, cols as int)
                &&& hints_hold(flat_cells(g, cols as int), masked@, rows as int, cols as int)
            },
        rows == 0 || cols == 0 ==> (ok <==> all_zero(masked@, rows as int, cols as int)),
        ok == deduce_spec(masked@, rows as int, cols as int) is Some,
{
    match deduce_solution(masked, rows, cols) {
        Some(g) => {
            assert(complete(g@) && loop_free(flat_cells(g@, cols as int), rows as int, cols as int));
            true
        },
        None => false,
    }
}

} // verus!
