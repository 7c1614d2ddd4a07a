//! The deduction that the solver runs, stated step by step: the two counting
//! rules at every revealed corner, then (when they decide nothing) the forced
//! choices that avoid a loop, repeated until nothing changes.

use vstd::prelude::*;
use crate::dsu::merged;
use crate::grid::{CellState, complete, corner_count, flat_cells, num_nodes};
use crate::solver::{ends, flipped, hints_hold, touching};

verus! {

/// The state of a deduction: the cells decided so far, the partition of corners
/// that their diagonals join, whether a contradiction was met, and whether the
/// current round decided a cell.
pub struct Deduction {
    pub grid: Seq<CellState>,
    pub rep: Seq<int>,
    pub failed: bool,
    pub changed: bool,
}

/// Places the diagonal `s` in cell (`r`, `c`); a contradiction when its corners
/// were already joined.
pub open spec fn place_spec(d: Deduction, cols: int, r: int, c: int, s: CellState) -> Deduction {
    let e = ends(r, c, cols, s);
    let grid = d.grid.update(r * cols + c, s);
    if d.rep[e.0] == d.rep[e.1] {
        Deduction { grid, rep: d.rep, failed: true, changed: d.changed }
    } else {
        Deduction { grid, rep: merged(d.rep, e.0, e.1), failed: false, changed: true }
    }
}

/// Of the slots `0..k` around corner (`r`, `c`): how many cells already hold the
/// diagonal that ends at the corner.
pub open spec fn confirmed(g: Seq<CellState>, rows: int, cols: int, r: int, c: int, k: nat) -> int
    decreases k,
{
    if k == 0 {
        0
    } else {
        confirmed(g, rows, cols, r, c, (k - 1) as nat) + match touching(r, c, rows, cols, k - 1) {
            Some(x) => if flat_cells(g, cols)(x.0, x.1) == x.2 { 1int } else { 0int },
            None => 0int,
        }
    }
}

/// Of the slots `0..k` around corner (`r`, `c`): how many cells are still empty.
pub open spec fn unknown(g: Seq<CellState>, rows: int, cols: int, r: int, c: int, k: nat) -> int
    decreases k,
{
    if k == 0 {
        0
    } else {
        unknown(g, rows, cols, r, c, (k - 1) as nat) + match touching(r, c, rows, cols, k - 1) {
            Some(x) => if flat_cells(g, cols)(x.0, x.1) == CellState::Empty { 1int } else { 0int },
            None => 0int,
        }
    }
}

/// Fills the empty cells of slots `0..k` around corner (`r`, `c`): with the
/// diagonal that ends at the corner, or with the other one when `opposite`.
pub open spec fn apply_slots(d: Deduction, rows: int, cols: int, r: int, c: int, k: nat, opposite: bool) -> Deduction
    decreases k,
{
    if k == 0 {
        d
    } else {
        let p = apply_slots(d, rows, cols, r, c, (k - 1) as nat, opposite);
        if p.failed {
            p
        } else {
            match touching(r, c, rows, cols, k - 1) {
                Some(x) => if flat_cells(p.grid, cols)(x.0, x.1) == CellState::Empty {
                    place_spec(p, cols, x.0, x.1, if opposite { flipped(x.2) } else { x.2 })
                } else {
                    p
                },
                None => p,
            }
        }
    }
}

/// The counting rules at corner (`r`, `c`): when the diagonals that end there
/// already reach its number, the empty cells around it take the other diagonal;
/// when only the empty cells can reach it, they all take the diagonal that ends there.
pub open spec fn corner_spec(d: Deduction, masked: Seq<Vec<Option<u8>>>, rows: int, cols: int, r: int, c: int) -> Deduction {
    if d.failed {
        d
    } else {
        match masked[r]@[c] {
            None => d,
            Some(t) => {
                let conf = confirmed(d.grid, rows, cols, r, c, 4);
                let unk = unknown(d.grid, rows, cols, r, c, 4);
                if unk > 0 && (conf == t as int || conf + unk == t as int) {
                    apply_slots(d, rows, cols, r, c, 4, conf == t as int)
                } else {
                    d
                }
            },
        }
    }
}

/// The counting rules at corners `0..c` of corner row `r`.
pub open spec fn row_corners(d: Deduction, masked: Seq<Vec<Option<u8>>>, rows: int, cols: int, r: int, c: nat) -> Deduction
    decreases c,
{
    if c == 0 {
        d
    } else {
        corner_spec(row_corners(d, masked, rows, cols, r, (c - 1) as nat), masked, rows, cols, r, c - 1)
    }
}

/// The counting rules at every corner of corner rows `0..r`.
pub open spec fn all_corners(d: Deduction, masked: Seq<Vec<Option<u8>>>, rows: int, cols: int, r: nat) -> Deduction
    decreases r,
{
    if r == 0 {
        d
    } else {
        row_corners(all_corners(d, masked, rows, cols, (r - 1) as nat), masked, rows, cols, r - 1, (cols + 1) as nat)
    }
}

/// The loop rule at the empty cell (`r`, `c`): a contradiction when both diagonals
/// would close a loop, the other diagonal when one of them would.
pub open spec fn forced_spec(d: Deduction, cols: int, r: int, c: int) -> Deduction {
    if d.failed || flat_cells(d.grid, cols)(r, c) != CellState::Empty {
        d
    } else {
        let f = ends(r, c, cols, CellState::Forward);
        let b = ends(r, c, cols, CellState::Backward);
        let loop_f = d.rep[f.0] == d.rep[f.1];
        let loop_b = d.rep[b.0] == d.rep[b.1];
        if loop_f && loop_b {
            Deduction { grid: d.grid, rep: d.rep, failed: true, changed: d.changed }
        } else if loop_f {
            place_spec(d, cols, r, c, CellState::Backward)
        } else if loop_b {
            place_spec(d, cols, r, c, CellState::Forward)
        } else {
            d
        }
    }
}

/// The loop rule at cells `0..c` of row `r`.
pub open spec fn row_forced(d: Deduction, cols: int, r: int, c: nat) -> Deduction
    decreases c,
{
    if c == 0 {
        d
    } else {
        forced_spec(row_forced(d, cols, r, (c - 1) as nat), cols, r, c - 1)
    }
}

/// The loop rule at every cell of rows `0..r`.
pub open spec fn all_forced(d: Deduction, cols: int, r: nat) -> Deduction
    decreases r,
{
    if r == 0 {
        d
    } else {
        row_forced(all_forced(d, cols, (r - 1) as nat), cols, r - 1, cols as nat)
    }
}

/// One round: the counting rules everywhere, then the loop rule if they decided nothing.
pub open spec fn round_spec(d: Deduction, masked: Seq<Vec<Option<u8>>>, rows: int, cols: int) -> Deduction {
    let d0 = Deduction { grid: d.grid, rep: d.rep, failed: d.failed, changed: false };
    let d1 = all_corners(d0, masked, rows, cols, (rows + 1) as nat);
    if d1.failed || d1.changed {
        d1
    } else {
        all_forced(d1, cols, rows as nat)
    }
}

/// Rounds until one fails or decides nothing, at most `fuel` of them.
pub open spec fn run_spec(d: Deduction, masked: Seq<Vec<Option<u8>>>, rows: int, cols: int, fuel: nat) -> Deduction
    decreases fuel,
{
    if fuel == 0 {
        d
    } else {
        let d1 = round_spec(d, masked, rows, cols);
        if d1.failed || !d1.changed {
            d1
        } else {
            run_spec(d1, masked, rows, cols, (fuel - 1) as nat)
        }
    }
}

/// The start of a deduction: every cell empty, every corner apart.
pub open spec fn start(rows: int, cols: int) -> Deduction {
    Deduction {
        grid: Seq::new((rows * cols) as nat, |i: int| CellState::Empty),
        rep: Seq::new(num_nodes(rows, cols) as nat, |k: int| k),
        failed: false,
        changed: false,
    }
}

/// The grid that deduction from the revealed numbers of `masked` pins down: None
/// when it meets a contradiction, leaves a cell empty, or disagrees with a
/// revealed number. Each round decides a cell, so `rows * cols + 1` rounds suffice.
pub open spec fn deduce_spec(masked: Seq<Vec<Option<u8>>>, rows: int, cols: int) -> Option<Seq<CellState>> {
    let d = run_spec(start(rows, cols), masked, rows, cols, (rows * cols + 1) as nat);
    if d.failed || !complete(d.grid) || !hints_hold(flat_cells(d.grid, cols), masked, rows, cols) {
        None
    } else {
        Some(d.grid)
    }
}

/// A state that has met no contradiction.
pub open spec fn live(grid: Seq<CellState>, rep: Seq<int>, changed: bool) -> Deduction {
    Deduction { grid, rep, failed: false, changed }
}

/// `cur` has met no contradiction, and running at most `fuel` more rounds from it
/// gives what the whole deduction gives.
pub open spec fn on_track(cur: Deduction, m: Seq<Vec<Option<u8>>>, rows: int, cols: int, fuel: nat) -> bool {
    &&& !cur.failed
    &&& fuel >= 1
    &&& run_spec(cur, m, rows, cols, fuel) == run_spec(start(rows, cols), m, rows, cols, (rows * cols + 1) as nat)
}

/// A contradiction at a corner of the round that starts from `cur` fails the deduction.
pub proof fn lemma_corner_failure(cur: Deduction, m: Seq<Vec<Option<u8>>>, rows: int, cols: int, fuel: nat, r: nat, c: nat)
    requires
        on_track(cur, m, rows, cols, fuel),
        r <= rows,
        c <= cols,
        row_corners(all_corners(live(cur.grid, cur.rep, false), m, rows, cols, r), m, rows, cols, r as int, c + 1).failed,
    ensures
        deduce_spec(m, rows, cols) is None,
{
    let d0 = live(cur.grid, cur.rep, false);
    lemma_row_sticky(all_corners(d0, m, rows, cols, r), m, rows, cols, r as int, c + 1, (cols + 1) as nat);
    lemma_all_sticky(d0, m, rows, cols, r + 1, (rows + 1) as nat);
}

/// A contradiction of the loop rule in the round that starts from `cur` fails the deduction.
pub proof fn lemma_forced_failure(cur: Deduction, m: Seq<Vec<Option<u8>>>, rows: int, cols: int, fuel: nat, r: nat, c: nat)
    requires
        on_track(cur, m, rows, cols, fuel),
        r < rows,
        c < cols,
        ({
            let d1 = all_corners(live(cur.grid, cur.rep, false), m, rows, cols, (rows + 1) as nat);
            &&& !d1.failed
            &&& !d1.changed
            &&& row_forced(all_forced(d1, cols, r), cols, r as int, c + 1).failed
        }),
    ensures
        deduce_spec(m, rows, cols) is None,
{
    let d1 = all_corners(live(cur.grid, cur.rep, false), m, rows, cols, (rows + 1) as nat);
    lemma_row_forced_sticky(all_forced(d1, cols, r), cols, r as int, c + 1, cols as nat);
    lemma_all_forced_sticky(d1, cols, r + 1, rows as nat);
}

/// `m1` and `m2` reveal the same numbers at every corner.
pub open spec fn same_hints(m1: Seq<Vec<Option<u8>>>, m2: Seq<Vec<Option<u8>>>, rows: int, cols: int) -> bool {
    forall|r: int, c: int| 0 <= r <= rows && 0 <= c <= cols ==> #[trigger] m1[r]@[c] == m2[r]@[c]
}

proof fn lemma_row_same(d: Deduction, m1: Seq<Vec<Option<u8>>>, m2: Seq<Vec<Option<u8>>>, rows: int, cols: int, r: int, c: nat)
    requires
        same_hints(m1, m2, rows, cols),
        0 <= r <= rows,
        c <= cols + 1,
    ensures
        row_corners(d, m1, rows, cols, r, c) == row_corners(d, m2, rows, cols, r, c),
    decreases c,
{
    if c > 0 {
        lemma_row_same(d, m1, m2, rows, cols, r, (c - 1) as nat);
        assert(m1[r]@[c - 1] == m2[r]@[c - 1]);
    }
}

proof fn lemma_all_same(d: Deduction, m1: Seq<Vec<Option<u8>>>, m2: Seq<Vec<Option<u8>>>, rows: int, cols: int, r: nat)
    requires
        same_hints(m1, m2, rows, cols),
        r <= rows + 1,
        cols >= 0,
    ensures
        all_corners(d, m1, rows, cols, r) == all_corners(d, m2, rows, cols, r),
    decreases r,
{
    if r > 0 {
        lemma_all_same(d, m1, m2, rows, cols, (r - 1) as nat);
        lemma_row_same(all_corners(d, m1, rows, cols, (r - 1) as nat), m1, m2, rows, cols, r - 1, (cols + 1) as nat);
    }
}

proof fn lemma_run_same(d: Deduction, m1: Seq<Vec<Option<u8>>>, m2: Seq<Vec<Option<u8>>>, rows: int, cols: int, fuel: nat)
    requires
        same_hints(m1, m2, rows, cols),
        rows >= 0,
        cols >= 0,
    ensures
        run_spec(d, m1, rows, cols, fuel) == run_spec(d, m2, rows, cols, fuel),
    decreases fuel,
{
    if fuel > 0 {
        let d0 = Deduction { grid: d.grid, rep: d.rep, failed: d.failed, changed: false };
        lemma_all_same(d0, m1, m2, rows, cols, (rows + 1) as nat);
        let d1 = round_spec(d, m1, rows, cols);
        lemma_run_same(d1, m1, m2, rows, cols, (fuel - 1) as nat);
    }
}

/// The deduction reads nothing of the number grid but the revealed numbers.
pub proof fn lemma_deduce_same(m1: Seq<Vec<Option<u8>>>, m2: Seq<Vec<Option<u8>>>, rows: int, cols: int)
    requires
        same_hints(m1, m2, rows, cols),
        rows >= 0,
        cols >= 0,
    ensures
        deduce_spec(m1, rows, cols) == deduce_spec(m2, rows, cols),
{
    lemma_run_same(start(rows, cols), m1, m2, rows, cols, (rows * cols + 1) as nat);
    let d = run_spec(start(rows, cols), m1, rows, cols, (rows * cols + 1) as nat);
    let f = flat_cells(d.grid, cols);
    if hints_hold(f, m1, rows, cols) {
        assert forall|r: int, c: int|
            0 <= r <= rows && 0 <= c <= cols && (#[trigger] m2[r]@[c]) is Some implies corner_count(f, rows, cols, r, c)
                == m2[r]@[c]->0 as int by {
            assert(m1[r]@[c] == m2[r]@[c]);
        }
    }
    if hints_hold(f, m2, rows, cols) {
        assert forall|r: int, c: int|
            0 <= r <= rows && 0 <= c <= cols && (#[trigger] m1[r]@[c]) is Some implies corner_count(f, rows, cols, r, c)
                == m1[r]@[c]->0 as int by {
            assert(m1[r]@[c] == m2[r]@[c]);
        }
    }
}

/// A failed deduction stays failed through the slots of a corner.
pub proof fn lemma_slots_sticky(d: Deduction, rows: int, cols: int, r: int, c: int, k1: nat, k2: nat, o: bool)
    requires
        k1 <= k2,
        apply_slots(d, rows, cols, r, c, k1, o).failed,
    ensures
        apply_slots(d, rows, cols, r, c, k2, o).failed,
    decreases k2,
{
    if k1 < k2 {
        lemma_slots_sticky(d, rows, cols, r, c, k1, (k2 - 1) as nat, o);
    }
}

/// A failed deduction stays failed through a corner row.
pub proof fn lemma_row_sticky(d: Deduction, m: Seq<Vec<Option<u8>>>, rows: int, cols: int, r: int, c1: nat, c2: nat)
    requires
        c1 <= c2,
        row_corners(d, m, rows, cols, r, c1).failed,
    ensures
        row_corners(d, m, rows, cols, r, c2).failed,
    decreases c2,
{
    if c1 < c2 {
        lemma_row_sticky(d, m, rows, cols, r, c1, (c2 - 1) as nat);
    }
}

/// A failed deduction stays failed through the corner rows.
pub proof fn lemma_all_sticky(d: Deduction, m: Seq<Vec<Option<u8>>>, rows: int, cols: int, r1: nat, r2: nat)
    requires
        r1 <= r2,
        all_corners(d, m, rows, cols, r1).failed,
    ensures
        all_corners(d, m, rows, cols, r2).failed,
    decreases r2,
{
    if r1 < r2 {
        lemma_all_sticky(d, m, rows, cols, r1, (r2 - 1) as nat);
        lemma_row_sticky(all_corners(d, m, rows, cols, (r2 - 1) as nat), m, rows, cols, r2 - 1, 0, (cols + 1) as nat);
    }
}

/// A failed deduction stays failed through a row of the loop rule.
pub proof fn lemma_row_forced_sticky(d: Deduction, cols: int, r: int, c1: nat, c2: nat)
    requires
        c1 <= c2,
        row_forced(d, cols, r, c1).failed,
    ensures
        row_forced(d, cols, r, c2).failed,
    decreases c2,
{
    if c1 < c2 {
        lemma_row_forced_sticky(d, cols, r, c1, (c2 - 1) as nat);
    }
}

/// A failed deduction stays failed through the rows of the loop rule.
pub proof fn lemma_all_forced_sticky(d: Deduction, cols: int, r1: nat, r2: nat)
    requires
        r1 <= r2,
        all_forced(d, cols, r1).failed,
    ensures
        all_forced(d, cols, r2).failed,
    decreases r2,
{
    if r1 < r2 {
        lemma_all_forced_sticky(d, cols, r1, (r2 - 1) as nat);
        lemma_row_forced_sticky(all_forced(d, cols, (r2 - 1) as nat), cols, r2 - 1, 0, cols as nat);
    }
}

} // verus!
