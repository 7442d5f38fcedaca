//! The board engine: the `Game` state, its invariants, and the commands
//! that drive a round of Minesweeper.
use vstd::prelude::*;
use crate::Cell;
use crate::CellStatus;
use crate::CellValue;
use crate::GameStatus;
use crate::counting::CellTest;
use crate::counting::count_matching;
use crate::counting::lemma_all_safe_revealed;
use crate::counting::lemma_count_pair_le;
use crate::counting::lemma_count_update;
use crate::counting::test_cell;
use crate::neighbors::adjacent;
use rand::seq::SliceRandom;

verus! {

/// Relies on rand's `SliceRandom::shuffle`: a Fisher-Yates in-place
/// permutation of the slice, so the vector afterwards holds exactly the
/// same elements, rearranged. Nothing is assumed about the order.
#[verifier::external_body]
fn shuffle_positions(v: &mut Vec<(usize, usize)>)
    ensures
        final(v)@.to_multiset() == old(v)@.to_multiset(),
{
    v.shuffle(&mut rand::thread_rng());
}

/// A running game: a `rows x columns` grid of cells stored column-major
/// (the cell at `(x, y)` sits at index `x * rows + y`), the progress
/// status, and the two counters the rules are driven by.
pub struct Game {
    pub cells: Vec<Cell>,
    pub rows: usize,
    pub columns: usize,
    pub mine_count: usize,
    pub status: GameStatus,
    pub revealed_count: usize,
    pub flag_count: usize,
}

/// Replace only the status of a cell, keeping its value.
pub open spec fn cell_with_status(c: Cell, s: CellStatus) -> Cell {
    Cell { status: s, value: c.value }
}

/// `b` has the same dimensions, mine count, and cell values as `a`;
/// only statuses, counters and the game status may differ.
pub open spec fn same_config(a: Game, b: Game) -> bool {
    &&& b.rows == a.rows
    &&& b.columns == a.columns
    &&& b.mine_count == a.mine_count
    &&& b.cells@.len() == a.cells@.len()
    &&& forall|i: int|
        0 <= i < a.cells@.len() ==> (#[trigger] b.cells@[i]).value == a.cells@[i].value
}

/// Every status change from `a` to `b` uncovers a cell: a status is either
/// unchanged or went from `Covered` to `Revealed`.
pub open spec fn only_reveals(a: Game, b: Game) -> bool {
    forall|i: int|
        0 <= i < a.cells@.len() ==> ((#[trigger] b.cells@[i]).status == a.cells@[i].status || (
        a.cells@[i].status == CellStatus::Covered && b.cells@[i].status == CellStatus::Revealed))
}

/// Every position of a `rows x columns` grid, column by column, so the
/// element at index `x * rows + y` is `(x, y)`; hence all entries are
/// distinct and in bounds.
fn all_positions(rows: usize, columns: usize) -> (v: Vec<(usize, usize)>)
    requires
        1 <= rows,
        1 <= columns,
        columns * rows <= usize::MAX,
    ensures
        v@.len() == columns * rows,
        v@.no_duplicates(),
        forall|k: int| 0 <= k < v@.len() ==> (#[trigger] v@[k]).0 < columns && v@[k].1 < rows,
{
    let mut v: Vec<(usize, usize)> = Vec::new();
    let mut x: usize = 0;
    while x < columns
        invariant
            x <= columns,
            v@.len() == x * rows,
            forall|k: int|
                0 <= k < v@.len() ==> (#[trigger] v@[k]).0 < columns && v@[k].1 < rows && (
                v@[k].0 * rows + v@[k].1 == k),
        decreases columns - x,
    {
        let mut y: usize = 0;
        while y < rows
            invariant
                x < columns,
                y <= rows,
                v@.len() == x * rows + y,
                forall|k: int|
                    0 <= k < v@.len() ==> (#[trigger] v@[k]).0 < columns && v@[k].1 < rows && (
                    v@[k].0 * rows + v@[k].1 == k),
            decreases rows - y,
        {
            v.push((x, y));
            y = y + 1;
        }
        proof {
            assert((x as int + 1) * rows == x as int * rows + rows) by (nonlinear_arith);
        }
        x = x + 1;
    }
    proof {
        assert forall|k1: int, k2: int|
            0 <= k1 < v@.len() && 0 <= k2 < v@.len() && k1 != k2 implies v@[k1] != v@[k2] by {
            if v@[k1] == v@[k2] {
                assert(v@[k1].0 * rows + v@[k1].1 == k1);
                assert(v@[k2].0 * rows + v@[k2].1 == k2);
            }
        }
    }
    v
}


/// Cell `(x, y)` was covered in `o` and is revealed in `g`: it was
/// uncovered by the call that took `o` to `g`.
pub open spec fn newly_revealed(o: Game, g: Game, x: int, y: int) -> bool {
    o.cell_at(x, y).status == CellStatus::Covered && g.cell_at(x, y).status
        == CellStatus::Revealed
}

/// Every cell newly revealed (from `o` to `g`) whose number is zero has
/// each in-bounds neighbor either already uncovered or waiting in the
/// queue `w`. With an empty queue this says the flood fill is finished:
/// the zero region's whole rim has been uncovered.
/// Kept opaque so that its witness does not feed the solver's matching.
#[verifier::opaque]
pub open spec fn zero_region_saturated(o: Game, g: Game, w: Seq<(usize, usize)>) -> bool {
    forall|a: int, b: int, na: int, nb: int|
        #![trigger newly_revealed(o, g, a, b), adjacent(a, b, na, nb)]
        g.in_bounds(a, b) && newly_revealed(o, g, a, b) && g.cell_at(a, b).value
            == CellValue::Number(0) && adjacent(a, b, na, nb) && g.in_bounds(na, nb) ==> (
        g.cell_at(na, nb).status != CellStatus::Covered || w.contains((na as usize, nb as usize)))
}

/// One flood-fill step keeps the queue honest: after popping `p` from the
/// queue and settling it (it is no longer covered), every newly revealed
/// zero cell still has each neighbor either uncovered or queued, provided
/// the neighbors of a freshly revealed zero `p` were queued or settled.
/// `o` is the state the call started from, `h` the state before the step,
/// `g` the state after it; `wh` and `wg` are the queues before and after.
#[verifier::rlimit(60)]
pub proof fn lemma_saturation_step(
    o: Game,
    h: Game,
    g: Game,
    wh: Seq<(usize, usize)>,
    wg: Seq<(usize, usize)>,
    px: int,
    py: int,
)
    requires
        h.rows == o.rows,
        h.columns == o.columns,
        g.rows == h.rows,
        g.columns == h.columns,
        o.cells@.len() == h.cells@.len(),
        g.cells@.len() == h.cells@.len(),
        h.cells@.len() == h.columns * h.rows,
        forall|i: int|
            0 <= i < h.cells@.len() ==> (#[trigger] g.cells@[i]).value == h.cells@[i].value,
        h.in_bounds(px, py),
        forall|i: int|
            0 <= i < h.cells@.len() && i != h.idx(px, py) ==> (#[trigger] g.cells@[i]).status
                == h.cells@[i].status,
        g.cell_at(px, py).status != CellStatus::Covered,
        wh.len() > 0,
        wh[wh.len() - 1] == (px as usize, py as usize),
        forall|k: int| 0 <= k < wh.len() - 1 ==> #[trigger] wg.contains(wh[k]),
        zero_region_saturated(o, h, wh),
        (newly_revealed(o, g, px, py) && !newly_revealed(o, h, px, py) && g.cell_at(px, py).value
            == CellValue::Number(0)) ==> forall|na: int, nb: int|
            #![trigger adjacent(px, py, na, nb)]
            adjacent(px, py, na, nb) && g.in_bounds(na, nb) ==> (g.cell_at(na, nb).status
                != CellStatus::Covered || wg.contains((na as usize, nb as usize))),
    ensures
        zero_region_saturated(o, g, wg),
{
    reveal(zero_region_saturated);
    lemma_idx_bounds(h.rows as int, h.columns as int, px, py);
    assert forall|a: int, b: int, na: int, nb: int|
        #![trigger newly_revealed(o, g, a, b), adjacent(a, b, na, nb)]
        g.in_bounds(a, b) && newly_revealed(o, g, a, b) && g.cell_at(a, b).value
            == CellValue::Number(0) && adjacent(a, b, na, nb) && g.in_bounds(na, nb) implies (
    g.cell_at(na, nb).status != CellStatus::Covered || wg.contains(
        (na as usize, nb as usize),
    )) by {
        lemma_idx_bounds(h.rows as int, h.columns as int, a, b);
        lemma_idx_bounds(h.rows as int, h.columns as int, na, nb);
        if h.idx(na, nb) == h.idx(px, py) {
            lemma_idx_injective(h.rows as int, na, nb, px, py);
            assert(g.cell_at(na, nb).status != CellStatus::Covered);
        } else {
            if a == px && b == py {
                if newly_revealed(o, h, px, py) {
                    assert(h.cell_at(a, b).value == g.cell_at(a, b).value);
                    if h.cell_at(na, nb).status == CellStatus::Covered {
                        let k = choose|k: int|
                            0 <= k < wh.len() && wh[k] == (na as usize, nb as usize);
                        if k == wh.len() - 1 {
                            assert((na as usize, nb as usize) == (px as usize, py as usize));
                            assert(false);
                        }
                        assert(wg.contains(wh[k]));
                    } else {
                        assert(g.cell_at(na, nb).status == h.cell_at(na, nb).status);
                    }
                }
            } else {
                if h.idx(a, b) == h.idx(px, py) {
                    lemma_idx_injective(h.rows as int, a, b, px, py);
                    assert(false);
                }
                assert(newly_revealed(o, h, a, b));
                assert(h.cell_at(a, b).value == CellValue::Number(0));
                if h.cell_at(na, nb).status == CellStatus::Covered {
                    let k = choose|k: int| 0 <= k < wh.len() && wh[k] == (na as usize, nb as usize);
                    if k == wh.len() - 1 {
                        assert((na as usize, nb as usize) == (px as usize, py as usize));
                        lemma_idx_injective(h.rows as int, na, nb, px, py);
                        assert(false);
                    }
                    assert(wg.contains(wh[k]));
                } else {
                    assert(g.cell_at(na, nb).status == h.cell_at(na, nb).status);
                }
            }
        }
    }
}


/// Law: across any state change that only uncovers cells and keeps the
/// board's layout (which every reveal call guarantees), `revealed_count`
/// grows by exactly the number of newly revealed non-mine cells.
pub proof fn lemma_revealed_count_delta(a: Game, b: Game)
    requires
        a.wf(),
        b.wf(),
        same_config(a, b),
        only_reveals(a, b),
    ensures
        b.revealed_count == a.revealed_count + crate::counting::count_newly_revealed(
            a.cells@,
            b.cells@,
        ),
{
    assert forall|i: int|
        0 <= i < a.cells@.len() implies (test_cell(CellTest::RevealedSafe, #[trigger] a.cells@[i])
        ==> test_cell(CellTest::RevealedSafe, #[trigger] b.cells@[i])) by {
        assert(b.cells@[i].value == a.cells@[i].value);
    }
    crate::counting::lemma_count_revealed_delta(a.cells@, b.cells@);
}


/// A chain of grid positions leading from the seed of a reveal call into
/// the board: consecutive stops are adjacent, every stop but the last is
/// a covered zero cell, and the last stop is covered. All cells are read
/// in `o`, the state the reveal call started from, so the notion is fixed
/// by that state alone; a flagged cell is not covered and blocks a path.
pub open spec fn zero_path(o: Game, sx: int, sy: int, ps: Seq<(int, int)>, x: int, y: int) -> bool {
    &&& ps.len() >= 1
    &&& ps[0] == (sx, sy)
    &&& ps[ps.len() - 1] == (x, y)
    &&& forall|k: int| 0 <= k < ps.len() ==> o.in_bounds((#[trigger] ps[k]).0, ps[k].1)
    &&& forall|k: int|
        0 <= k < ps.len() - 1 ==> {
            &&& o.cell_at((#[trigger] ps[k]).0, ps[k].1).status == CellStatus::Covered
            &&& o.cell_at(ps[k].0, ps[k].1).value == CellValue::Number(0)
            &&& adjacent(ps[k].0, ps[k].1, ps[k + 1].0, ps[k + 1].1)
        }
    &&& o.cell_at(x, y).status == CellStatus::Covered
}

/// `(x, y)` belongs to the region that revealing `(sx, sy)` uncovers in
/// state `o`: the seed, the connected zero cells reachable from it
/// through covered zero cells, and the covered rim bordering them.
/// Kept opaque so that its witness does not feed the solver's matching.
#[verifier::opaque]
pub open spec fn in_zero_region(o: Game, sx: int, sy: int, x: int, y: int) -> bool {
    exists|ps: Seq<(int, int)>| #[trigger] zero_path(o, sx, sy, ps, x, y)
}

/// The seed of a reveal call belongs to its own region.
pub proof fn lemma_region_seed(o: Game, sx: int, sy: int)
    requires
        o.in_bounds(sx, sy),
        o.cell_at(sx, sy).status == CellStatus::Covered,
    ensures
        in_zero_region(o, sx, sy, sx, sy),
{
    reveal(in_zero_region);
    let ps = seq![(sx, sy)];
    assert(zero_path(o, sx, sy, ps, sx, sy));
}

/// A covered neighbor of a zero cell of the region belongs to the region.
pub proof fn lemma_region_extend(o: Game, sx: int, sy: int, px: int, py: int, qx: int, qy: int)
    requires
        in_zero_region(o, sx, sy, px, py),
        o.cell_at(px, py).value == CellValue::Number(0),
        adjacent(px, py, qx, qy),
        o.in_bounds(qx, qy),
        o.cell_at(qx, qy).status == CellStatus::Covered,
    ensures
        in_zero_region(o, sx, sy, qx, qy),
{
    reveal(in_zero_region);
    let ps = choose|ps: Seq<(int, int)>| #[trigger] zero_path(o, sx, sy, ps, px, py);
    let qs = ps.push((qx, qy));
    assert forall|k: int| 0 <= k < qs.len() implies o.in_bounds((#[trigger] qs[k]).0, qs[k].1) by {
        if k < ps.len() {
            assert(qs[k] == ps[k]);
        }
    }
    assert forall|k: int| 0 <= k < qs.len() - 1 implies {
        &&& o.cell_at((#[trigger] qs[k]).0, qs[k].1).status == CellStatus::Covered
        &&& o.cell_at(qs[k].0, qs[k].1).value == CellValue::Number(0)
        &&& adjacent(qs[k].0, qs[k].1, qs[k + 1].0, qs[k + 1].1)
    } by {
        if k < ps.len() - 1 {
            assert(qs[k] == ps[k]);
            assert(qs[k + 1] == ps[k + 1]);
        } else {
            assert(qs[k] == ps[ps.len() - 1]);
            assert(qs[k] == (px, py));
            assert(qs[k + 1] == (qx, qy));
        }
    }
    assert(zero_path(o, sx, sy, qs, qx, qy));
}

/// A region position is covered and on the grid in the starting state.
pub proof fn lemma_region_covered(o: Game, sx: int, sy: int, x: int, y: int)
    requires
        in_zero_region(o, sx, sy, x, y),
    ensures
        o.in_bounds(x, y),
        o.cell_at(x, y).status == CellStatus::Covered,
{
    reveal(in_zero_region);
    let ps = choose|ps: Seq<(int, int)>| #[trigger] zero_path(o, sx, sy, ps, x, y);
    assert(ps[ps.len() - 1] == (x, y));
    assert(o.in_bounds(ps[ps.len() - 1].0, ps[ps.len() - 1].1));
}


/// A neighbor count never exceeds the eight surrounding positions.
pub proof fn lemma_adjacent_mines_bound(o: Game, x: int, y: int)
    ensures
        o.adjacent_mines(x, y) <= 8,
{
    reveal(Game::adjacent_mines);
}

/// A cell next to a position whose neighbor count is zero holds no mine.
pub proof fn lemma_zero_neighbor_not_mined(o: Game, qx: int, qy: int, x: int, y: int)
    requires
        o.grid_wf(),
        o.in_bounds(qx, qy),
        o.in_bounds(x, y),
        o.adjacent_mines(qx, qy) == 0,
        adjacent(qx, qy, x, y),
    ensures
        o.cell_at(x, y).value != CellValue::Mined,
{
    lemma_idx_bounds(o.rows as int, o.columns as int, qx, qy);
    lemma_idx_bounds(o.rows as int, o.columns as int, x, y);
    reveal(Game::adjacent_mines);
    assert(o.mine_at(x, y) == 0);
}

/// A region position never holds a mine: it is the safe seed or borders
/// a zero cell, whose neighbor count rules a mine out.
pub proof fn lemma_region_safe(o: Game, sx: int, sy: int, x: int, y: int)
    requires
        o.grid_wf(),
        o.numbers_wf(),
        o.cell_at(sx, sy).value != CellValue::Mined,
        in_zero_region(o, sx, sy, x, y),
    ensures
        o.cell_at(x, y).value != CellValue::Mined,
{
    reveal(in_zero_region);
    let ps = choose|ps: Seq<(int, int)>| #[trigger] zero_path(o, sx, sy, ps, x, y);
    if ps.len() == 1 {
        assert(ps[0] == (sx, sy));
        assert(ps[ps.len() - 1] == (x, y));
    } else {
        let q = ps[ps.len() - 2];
        assert(o.in_bounds(q.0, q.1));
        assert(o.cell_at(q.0, q.1).value == CellValue::Number(0));
        assert(adjacent(q.0, q.1, x, y));
        lemma_idx_bounds(o.rows as int, o.columns as int, q.0, q.1);
        assert(o.cell_at(q.0, q.1).value == CellValue::Number(o.adjacent_mines(q.0, q.1) as u8));
        lemma_adjacent_mines_bound(o, q.0, q.1);
        assert(o.adjacent_mines(q.0, q.1) == 0);
        lemma_zero_neighbor_not_mined(o, q.0, q.1, x, y);
    }
}

/// Once a reveal call has settled (its queue is empty), every position of
/// the region is revealed: walk the path, one saturation step per stop.
pub proof fn lemma_path_revealed(
    o: Game,
    f: Game,
    sx: int,
    sy: int,
    ps: Seq<(int, int)>,
    x: int,
    y: int,
)
    requires
        f.rows == o.rows,
        f.columns == o.columns,
        f.cells@.len() == o.cells@.len(),
        o.cells@.len() == o.columns * o.rows,
        forall|i: int|
            0 <= i < o.cells@.len() ==> (#[trigger] f.cells@[i]).value == o.cells@[i].value,
        only_reveals(o, f),
        newly_revealed(o, f, sx, sy),
        zero_region_saturated(o, f, Seq::<(usize, usize)>::empty()),
        zero_path(o, sx, sy, ps, x, y),
    ensures
        f.cell_at(x, y).status == CellStatus::Revealed,
    decreases ps.len(),
{
    lemma_idx_bounds(o.rows as int, o.columns as int, x, y);
    if ps.len() == 1 {
        assert(ps[0] == (sx, sy));
        assert(ps[ps.len() - 1] == (x, y));
    } else {
        let q = ps[ps.len() - 2];
        let qs = ps.drop_last();
        assert(o.cell_at(q.0, q.1).status == CellStatus::Covered);
        assert(o.cell_at(q.0, q.1).value == CellValue::Number(0));
        assert(adjacent(q.0, q.1, x, y));
        assert forall|k: int| 0 <= k < qs.len() implies o.in_bounds(
            (#[trigger] qs[k]).0,
            qs[k].1,
        ) by {
            assert(qs[k] == ps[k]);
        }
        assert forall|k: int| 0 <= k < qs.len() - 1 implies {
            &&& o.cell_at((#[trigger] qs[k]).0, qs[k].1).status == CellStatus::Covered
            &&& o.cell_at(qs[k].0, qs[k].1).value == CellValue::Number(0)
            &&& adjacent(qs[k].0, qs[k].1, qs[k + 1].0, qs[k + 1].1)
        } by {
            assert(qs[k] == ps[k]);
            assert(qs[k + 1] == ps[k + 1]);
        }
        assert(zero_path(o, sx, sy, qs, q.0, q.1));
        lemma_path_revealed(o, f, sx, sy, qs, q.0, q.1);
        lemma_idx_bounds(o.rows as int, o.columns as int, q.0, q.1);
        reveal(zero_region_saturated);
        assert(newly_revealed(o, f, q.0, q.1));
        assert(f.cell_at(q.0, q.1).value == CellValue::Number(0));
        assert(f.in_bounds(x, y));
        assert(!Seq::<(usize, usize)>::empty().contains(((x as usize), (y as usize))));
        assert(f.cell_at(x, y).status != CellStatus::Covered);
    }
}

/// Law: once a reveal call has settled, the whole region is revealed.
pub proof fn lemma_region_completeness(o: Game, f: Game, sx: int, sy: int)
    requires
        f.rows == o.rows,
        f.columns == o.columns,
        f.cells@.len() == o.cells@.len(),
        o.cells@.len() == o.columns * o.rows,
        forall|i: int|
            0 <= i < o.cells@.len() ==> (#[trigger] f.cells@[i]).value == o.cells@[i].value,
        only_reveals(o, f),
        newly_revealed(o, f, sx, sy),
        zero_region_saturated(o, f, Seq::<(usize, usize)>::empty()),
    ensures
        forall|a: int, b: int|
            #[trigger] in_zero_region(o, sx, sy, a, b) ==> f.cell_at(a, b).status
                == CellStatus::Revealed,
{
    assert forall|a: int, b: int| #[trigger] in_zero_region(o, sx, sy, a, b) implies f.cell_at(
        a,
        b,
    ).status == CellStatus::Revealed by {
        reveal(in_zero_region);
        let ps = choose|ps: Seq<(int, int)>| #[trigger] zero_path(o, sx, sy, ps, a, b);
        lemma_path_revealed(o, f, sx, sy, ps, a, b);
    }
}

/// A position in bounds maps to an index inside the cell vector.
pub proof fn lemma_idx_bounds(rows: int, columns: int, x: int, y: int)
    by (nonlinear_arith)
    requires
        0 <= x < columns,
        0 <= y < rows,
    ensures
        0 <= x * rows + y < columns * rows,
{
}

/// Distinct in-bounds positions map to distinct indices.
pub proof fn lemma_idx_injective(rows: int, x1: int, y1: int, x2: int, y2: int)
    by (nonlinear_arith)
    requires
        0 <= y1 < rows,
        0 <= y2 < rows,
        0 <= x1,
        0 <= x2,
        x1 * rows + y1 == x2 * rows + y2,
    ensures
        x1 == x2 && y1 == y2,
{
}

impl Game {
    /// `(x, y)` lies on the grid.
    pub open spec fn in_bounds(self, x: int, y: int) -> bool {
        0 <= x < self.columns && 0 <= y < self.rows
    }

    /// Index of `(x, y)` in the cell vector.
    pub open spec fn idx(self, x: int, y: int) -> int {
        x * self.rows + y
    }

    /// The cell at `(x, y)`.
    pub open spec fn cell_at(self, x: int, y: int) -> Cell {
        self.cells@[self.idx(x, y)]
    }

    /// How many cells are not mines; revealing all of them wins.
    pub open spec fn safe_total(self) -> int {
        self.columns * self.rows - self.mine_count
    }

    /// The grid has positive dimensions, one cell per position, and fewer
    /// mines than cells.
    pub open spec fn grid_wf(self) -> bool {
        &&& 1 <= self.rows
        &&& 1 <= self.columns
        &&& self.cells@.len() == self.columns * self.rows
        &&& self.mine_count < self.columns * self.rows
    }

    /// 1 when `(x, y)` is on the grid and mined, else 0.
    pub open spec fn mine_at(self, x: int, y: int) -> nat {
        if self.in_bounds(x, y) && self.cell_at(x, y).value == CellValue::Mined {
            1
        } else {
            0
        }
    }

    /// The number of mines among the up-to-eight neighbors of `(x, y)`.
    /// Kept opaque so that a mention of one neighbor count does not spawn
    /// eight further cell terms in the solver.
    #[verifier::opaque]
    pub open spec fn adjacent_mines(self, x: int, y: int) -> nat {
        self.mine_at(x - 1, y - 1) + self.mine_at(x, y - 1) + self.mine_at(x + 1, y - 1)
            + self.mine_at(x - 1, y) + self.mine_at(x + 1, y) + self.mine_at(x - 1, y + 1)
            + self.mine_at(x, y + 1) + self.mine_at(x + 1, y + 1)
    }

    /// Every non-mine cell carries the true count of its mined neighbors.
    pub open spec fn numbers_wf(self) -> bool {
        forall|x: int, y: int|
            self.in_bounds(x, y) && (#[trigger] self.cell_at(x, y)).value != CellValue::Mined
                ==> self.cell_at(x, y).value == CellValue::Number(
                self.adjacent_mines(x, y) as u8,
            )
    }

    /// The three counters match the grid contents, and flags never exceed
    /// the mine count.
    pub open spec fn counts_wf(self) -> bool {
        &&& count_matching(self.cells@, CellTest::Mined) == self.mine_count
        &&& count_matching(self.cells@, CellTest::Flagged) == self.flag_count
        &&& count_matching(self.cells@, CellTest::RevealedSafe) == self.revealed_count
        &&& self.flag_count <= self.mine_count
    }

    /// The game is won exactly when every safe cell is revealed.
    pub open spec fn status_wf(self) -> bool {
        self.status == GameStatus::Won <==> self.revealed_count == self.safe_total()
    }

    /// Full well-formedness: established by construction, preserved by
    /// every command.
    pub open spec fn wf(self) -> bool {
        &&& self.grid_wf()
        &&& self.numbers_wf()
        &&& self.counts_wf()
        &&& self.status_wf()
    }

    /// Index of `(x, y)` in the cell vector, shown to be in range.
    fn index_of(&self, x: usize, y: usize) -> (i: usize)
        requires
            self.grid_wf(),
            x < self.columns,
            y < self.rows,
        ensures
            i as int == self.idx(x as int, y as int),
            i < self.cells@.len(),
    {
        proof {
            lemma_idx_bounds(self.rows as int, self.columns as int, x as int, y as int);
        }
        let n = self.cells.len();
        x * self.rows + y
    }

    /// Read one cell.
    pub fn cell(&self, x: usize, y: usize) -> (c: Cell)
        requires
            self.grid_wf(),
            x < self.columns,
            y < self.rows,
        ensures
            c == self.cell_at(x as int, y as int),
    {
        let i = self.index_of(x, y);
        self.cells[i]
    }

    /// The "remaining mines" counter a front end shows: mines minus flags.
    pub fn remaining_mines(&self) -> (r: usize)
        requires
            self.wf(),
        ensures
            r == self.mine_count - self.flag_count,
    {
        self.mine_count - self.flag_count
    }

    /// Start a fresh game: `mine_count` mines at distinct positions chosen
    /// uniformly at random (the full position list is shuffled and its
    /// prefix taken), numbers computed, every cell covered, status
    /// `Playing`, counters zero.
    pub fn new(rows: usize, columns: usize, mine_count: usize) -> (g: Game)
        requires
            1 <= rows,
            1 <= columns,
            columns * rows <= usize::MAX,
            mine_count < columns * rows,
        ensures
            g.wf(),
            g.rows == rows,
            g.columns == columns,
            g.mine_count == mine_count,
            g.status == GameStatus::Playing,
            g.revealed_count == 0,
            g.flag_count == 0,
            forall|a: int, b: int|
                g.in_bounds(a, b) ==> (#[trigger] g.cell_at(a, b)).status == CellStatus::Covered,
            count_matching(g.cells@, CellTest::Mined) == mine_count,
    {
        let mut positions = all_positions(rows, columns);
        let ghost p0 = positions@;
        shuffle_positions(&mut positions);
        proof {
            broadcast use vstd::seq_lib::group_to_multiset_ensures;

            assert(positions@.to_multiset().len() == positions@.len());
            assert(p0.to_multiset().len() == p0.len());
            assert(positions@.len() == p0.len());
            p0.lemma_multiset_has_no_duplicates();
            positions@.lemma_multiset_has_no_duplicates_conv();
            assert forall|k: int| 0 <= k < positions@.len() implies (#[trigger] positions@[k]).0
                < columns && positions@[k].1 < rows by {
                let e = positions@[k];
                assert(positions@.contains(e));
                assert(positions@.to_multiset().count(e) > 0);
                assert(p0.to_multiset().count(e) > 0);
                assert(p0.contains(e));
            }
        }
        let ghost p1 = positions@;
        positions.truncate(mine_count);
        proof {
            assert(positions@ =~= p1.subrange(0, mine_count as int));
            assert forall|i: int, j: int|
                0 <= i < positions@.len() && 0 <= j < positions@.len() && i
                    != j implies positions@[i] != positions@[j] by {
                assert(positions@[i] == p1[i]);
                assert(positions@[j] == p1[j]);
            }
        }
        Game::new_with_mines(rows, columns, &positions)
    }

    /// Build a fresh game with the mines at the given positions: every
    /// cell covered, numbers computed, status `Playing`, counters zero.
    /// This is the deterministic core of `new`; it also lets a caller
    /// reproduce a fixed board.
    pub fn new_with_mines(rows: usize, columns: usize, mines: &Vec<(usize, usize)>) -> (g: Game)
        requires
            1 <= rows,
            1 <= columns,
            columns * rows <= usize::MAX,
            mines@.len() < columns * rows,
            mines@.no_duplicates(),
            forall|k: int|
                0 <= k < mines@.len() ==> (#[trigger] mines@[k]).0 < columns && mines@[k].1 < rows,
        ensures
            g.wf(),
            g.rows == rows,
            g.columns == columns,
            g.mine_count == mines@.len(),
            g.status == GameStatus::Playing,
            g.revealed_count == 0,
            g.flag_count == 0,
            forall|a: int, b: int|
                g.in_bounds(a, b) ==> (#[trigger] g.cell_at(a, b)).status == CellStatus::Covered,
            forall|a: int, b: int|
                g.in_bounds(a, b) ==> (((#[trigger] g.cell_at(a, b)).value == CellValue::Mined)
                    <==> mines@.contains((a as usize, b as usize))),
    {
        let total = columns * rows;
        let mut cells: Vec<Cell> = Vec::new();
        let mut i: usize = 0;
        while i < total
            invariant
                i <= total,
                cells@.len() == i,
                forall|j: int|
                    0 <= j < i ==> #[trigger] cells@[j] == (Cell {
                        status: CellStatus::Covered,
                        value: CellValue::Number(0),
                    }),
            decreases total - i,
        {
            cells.push(Cell { status: CellStatus::Covered, value: CellValue::Number(0) });
            i = i + 1;
        }
        let mut g = Game {
            cells,
            rows,
            columns,
            mine_count: mines.len(),
            status: GameStatus::Playing,
            revealed_count: 0,
            flag_count: 0,
        };
        g.add_mines(mines);
        let ghost gm = g;
        g.add_numbers();
        proof {
            crate::counting::lemma_count_pointwise(gm.cells@, g.cells@, CellTest::Mined);
            crate::counting::lemma_count_none(g.cells@, CellTest::Flagged);
            crate::counting::lemma_count_none(g.cells@, CellTest::RevealedSafe);
            assert forall|a: int, b: int| g.in_bounds(a, b) implies (#[trigger] g.cell_at(
                a,
                b,
            )).status == CellStatus::Covered && (((g.cell_at(a, b)).value == CellValue::Mined)
                <==> mines@.contains((a as usize, b as usize))) by {
                lemma_idx_bounds(g.rows as int, g.columns as int, a, b);
                assert((gm.cell_at(a, b).value == CellValue::Mined) <==> mines@.contains(
                    (a as usize, b as usize),
                ));
            }
        }
        g
    }

    /// Turn the cells at the listed positions into mines. The list must
    /// name distinct in-bounds positions, one per mine, on a board that
    /// holds no mine yet.
    pub fn add_mines(&mut self, mines: &Vec<(usize, usize)>)
        requires
            old(self).grid_wf(),
            mines@.len() == old(self).mine_count,
            mines@.no_duplicates(),
            forall|k: int|
                0 <= k < mines@.len() ==> (#[trigger] mines@[k]).0 < old(self).columns
                    && mines@[k].1 < old(self).rows,
            forall|i: int|
                0 <= i < old(self).cells@.len() ==> (#[trigger] old(self).cells@[i]).value
                    != CellValue::Mined,
        ensures
            final(self).grid_wf(),
            final(self).rows == old(self).rows,
            final(self).columns == old(self).columns,
            final(self).mine_count == old(self).mine_count,
            final(self).status == old(self).status,
            final(self).revealed_count == old(self).revealed_count,
            final(self).flag_count == old(self).flag_count,
            final(self).cells@.len() == old(self).cells@.len(),
            forall|i: int|
                0 <= i < old(self).cells@.len() ==> (#[trigger] final(self).cells@[i]).status
                    == old(self).cells@[i].status,
            forall|i: int|
                0 <= i < old(self).cells@.len() ==> ((#[trigger] final(self).cells@[i]).value
                    != CellValue::Mined ==> final(self).cells@[i].value == old(
                    self,
                ).cells@[i].value),
            forall|a: int, b: int|
                final(self).in_bounds(a, b) ==> (((#[trigger] final(self).cell_at(a, b)).value
                    == CellValue::Mined) <==> mines@.contains((a as usize, b as usize))),
            count_matching(final(self).cells@, CellTest::Mined) == old(self).mine_count,
    {
        proof {
            crate::counting::lemma_count_none(self.cells@, CellTest::Mined);
            assert forall|a: int, b: int| self.in_bounds(a, b) implies (#[trigger] self.cell_at(
                a,
                b,
            )).value != CellValue::Mined by {
                lemma_idx_bounds(self.rows as int, self.columns as int, a, b);
            }
            assert(forall|p: (usize, usize)| !mines@.subrange(0, 0).contains(p));
        }
        let mut k: usize = 0;
        while k < mines.len()
            invariant
                k <= mines@.len(),
                mines@.len() == old(self).mine_count,
                mines@.no_duplicates(),
                forall|j: int|
                    0 <= j < mines@.len() ==> (#[trigger] mines@[j]).0 < old(self).columns
                        && mines@[j].1 < old(self).rows,
                self.rows == old(self).rows,
                self.columns == old(self).columns,
                self.mine_count == old(self).mine_count,
                self.status == old(self).status,
                self.revealed_count == old(self).revealed_count,
                self.flag_count == old(self).flag_count,
                self.cells@.len() == old(self).cells@.len(),
                old(self).grid_wf(),
                self.grid_wf(),
                forall|i: int|
                    0 <= i < old(self).cells@.len() ==> (#[trigger] self.cells@[i]).status == old(
                        self,
                    ).cells@[i].status,
                forall|i: int|
                    0 <= i < old(self).cells@.len() ==> ((#[trigger] self.cells@[i]).value
                        != CellValue::Mined ==> self.cells@[i].value == old(self).cells@[i].value),
                forall|a: int, b: int|
                    self.in_bounds(a, b) ==> (((#[trigger] self.cell_at(a, b)).value
                        == CellValue::Mined) <==> mines@.subrange(0, k as int).contains(
                        (a as usize, b as usize),
                    )),
                count_matching(self.cells@, CellTest::Mined) == k,
            decreases mines@.len() - k,
        {
            let p = mines[k];
            let i = self.index_of(p.0, p.1);
            let c = self.cells[i];
            let ghost prev = *self;
            proof {
                assert(mines@.subrange(0, k as int + 1) =~= mines@.subrange(0, k as int).push(
                    mines@[k as int],
                ));
                // the cell is not yet mined: its position is not among the
                // first k, by distinctness
                assert(prev.cell_at(p.0 as int, p.1 as int) == c);
                if c.value == CellValue::Mined {
                    let j = choose|j: int|
                        0 <= j < k && mines@.subrange(0, k as int)[j] == (p.0, p.1);
                    assert(mines@[j] == mines@[k as int]);
                    assert(false);
                }
            }
            self.cells[i] = Cell { status: c.status, value: CellValue::Mined };
            proof {
                lemma_count_update(prev.cells@, CellTest::Mined, i as int, self.cells@[i as int]);
                assert forall|a: int, b: int| self.in_bounds(a, b) implies ((
                #[trigger] self.cell_at(a, b)).value == CellValue::Mined) <==> mines@.subrange(
                    0,
                    k as int + 1,
                ).contains((a as usize, b as usize)) by {
                    lemma_idx_bounds(self.rows as int, self.columns as int, a, b);
                    if self.idx(a, b) == prev.idx(p.0 as int, p.1 as int) {
                        lemma_idx_injective(self.rows as int, a, b, p.0 as int, p.1 as int);
                        assert(mines@.subrange(0, k as int + 1)[k as int] == (a as usize,
                        b as usize));
                    } else {
                        assert(self.cell_at(a, b) == prev.cell_at(a, b));
                        assert forall|j: int|
                            0 <= j < k + 1 && #[trigger] mines@.subrange(0, k as int + 1)[j] == (
                            a as usize,
                            b as usize,
                            ) implies j < k by {
                            if j == k {
                                lemma_idx_bounds(
                                    self.rows as int,
                                    self.columns as int,
                                    p.0 as int,
                                    p.1 as int,
                                );
                            }
                        }
                        assert(mines@.subrange(0, k as int + 1).contains((a as usize, b as usize))
                            ==> mines@.subrange(0, k as int).contains((a as usize, b as usize)));
                    }
                }
            }
            k = k + 1;
        }
        proof {
            assert(mines@.subrange(0, mines@.len() as int) =~= mines@);
        }
    }

    /// Count the mines among the neighbors of `(x, y)` by probing the up
    /// to eight surrounding positions.
    fn count_adjacent_mines(&self, x: usize, y: usize) -> (n: u8)
        requires
            self.grid_wf(),
            x < self.columns,
            y < self.rows,
        ensures
            n as nat == self.adjacent_mines(x as int, y as int),
    {
        proof {
            reveal(Game::adjacent_mines);
        }
        let xi = Ghost(x as int);
        let yi = Ghost(y as int);
        let mut n: u8 = 0;
        if x > 0 && y > 0 && self.cell(x - 1, y - 1).value == CellValue::Mined {
            n = n + 1;
        }
        assert(n as nat == self.mine_at(xi@ - 1, yi@ - 1));
        if y > 0 && self.cell(x, y - 1).value == CellValue::Mined {
            n = n + 1;
        }
        assert(n as nat == self.mine_at(xi@ - 1, yi@ - 1) + self.mine_at(xi@, yi@ - 1));
        if x + 1 < self.columns && y > 0 && self.cell(x + 1, y - 1).value == CellValue::Mined {
            n = n + 1;
        }
        assert(n as nat == self.mine_at(xi@ - 1, yi@ - 1) + self.mine_at(xi@, yi@ - 1)
            + self.mine_at(xi@ + 1, yi@ - 1));
        if x > 0 && self.cell(x - 1, y).value == CellValue::Mined {
            n = n + 1;
        }
        if x + 1 < self.columns && self.cell(x + 1, y).value == CellValue::Mined {
            n = n + 1;
        }
        assert(n as nat == self.mine_at(xi@ - 1, yi@ - 1) + self.mine_at(xi@, yi@ - 1)
            + self.mine_at(xi@ + 1, yi@ - 1) + self.mine_at(xi@ - 1, yi@) + self.mine_at(
            xi@ + 1,
            yi@,
        ));
        if x > 0 && y + 1 < self.rows && self.cell(x - 1, y + 1).value == CellValue::Mined {
            n = n + 1;
        }
        if y + 1 < self.rows && self.cell(x, y + 1).value == CellValue::Mined {
            n = n + 1;
        }
        if x + 1 < self.columns && y + 1 < self.rows && self.cell(x + 1, y + 1).value
            == CellValue::Mined {
            n = n + 1;
        }
        assert(n as nat == self.adjacent_mines(xi@, yi@));
        n
    }

    /// Recompute the number of every non-mine cell from the current mine
    /// layout; mines and all statuses are left as they are.
    pub fn add_numbers(&mut self)
        requires
            old(self).grid_wf(),
        ensures
            final(self).grid_wf(),
            final(self).rows == old(self).rows,
            final(self).columns == old(self).columns,
            final(self).mine_count == old(self).mine_count,
            final(self).status == old(self).status,
            final(self).revealed_count == old(self).revealed_count,
            final(self).flag_count == old(self).flag_count,
            final(self).cells@.len() == old(self).cells@.len(),
            forall|i: int|
                0 <= i < old(self).cells@.len() ==> (#[trigger] final(self).cells@[i]).status
                    == old(self).cells@[i].status,
            forall|i: int|
                0 <= i < old(self).cells@.len() ==> (((#[trigger] final(self).cells@[i]).value
                    == CellValue::Mined) <==> (old(self).cells@[i].value == CellValue::Mined)),
            final(self).numbers_wf(),
    {
        let columns = self.columns;
        let rows = self.rows;
        let mut x: usize = 0;
        while x < columns
            invariant
                x <= columns,
                self.rows == old(self).rows,
                self.columns == old(self).columns,
                self.mine_count == old(self).mine_count,
                self.status == old(self).status,
                self.revealed_count == old(self).revealed_count,
                self.flag_count == old(self).flag_count,
                self.cells@.len() == old(self).cells@.len(),
                old(self).grid_wf(),
                self.grid_wf(),
                rows == self.rows,
                columns == self.columns,
                forall|i: int|
                    0 <= i < old(self).cells@.len() ==> (#[trigger] self.cells@[i]).status == old(
                        self,
                    ).cells@[i].status,
                forall|i: int|
                    0 <= i < old(self).cells@.len() ==> (((#[trigger] self.cells@[i]).value
                        == CellValue::Mined) <==> (old(self).cells@[i].value == CellValue::Mined)),
                forall|a: int, b: int|
                    self.in_bounds(a, b) && a < x && (#[trigger] self.cell_at(a, b)).value
                        != CellValue::Mined ==> self.cell_at(a, b).value == CellValue::Number(
                        self.adjacent_mines(a, b) as u8,
                    ),
            decreases columns - x,
        {
            let mut y: usize = 0;
            while y < rows
                invariant
                    x < columns,
                    y <= rows,
                    self.rows == old(self).rows,
                    self.columns == old(self).columns,
                    self.mine_count == old(self).mine_count,
                    self.status == old(self).status,
                    self.revealed_count == old(self).revealed_count,
                    self.flag_count == old(self).flag_count,
                    self.cells@.len() == old(self).cells@.len(),
                    old(self).grid_wf(),
                    self.grid_wf(),
                    rows == self.rows,
                    columns == self.columns,
                    forall|i: int|
                        0 <= i < old(self).cells@.len() ==> (#[trigger] self.cells@[i]).status
                            == old(self).cells@[i].status,
                    forall|i: int|
                        0 <= i < old(self).cells@.len() ==> (((#[trigger] self.cells@[i]).value
                            == CellValue::Mined) <==> (old(self).cells@[i].value
                            == CellValue::Mined)),
                    forall|a: int, b: int|
                        self.in_bounds(a, b) && (a < x || (a == x && b < y)) && (
                        #[trigger] self.cell_at(a, b)).value != CellValue::Mined ==> self.cell_at(
                            a,
                            b,
                        ).value == CellValue::Number(self.adjacent_mines(a, b) as u8),
                decreases rows - y,
            {
                let i = self.index_of(x, y);
                let c = self.cells[i];
                if c.value != CellValue::Mined {
                    let n = self.count_adjacent_mines(x, y);
                    let ghost prev = *self;
                    self.cells[i] = Cell { status: c.status, value: CellValue::Number(n) };
                    proof {
                        assert forall|a: int, b: int| self.in_bounds(a, b) implies
                            #[trigger] self.adjacent_mines(a, b) == prev.adjacent_mines(a, b) by {
                            lemma_same_mines_same_adjacent(prev, *self, a, b);
                        }
                        assert forall|a: int, b: int|
                            self.in_bounds(a, b) && (a < x as int || (a == x as int && b
                                <= y as int)) && (#[trigger] self.cell_at(a, b)).value
                                != CellValue::Mined implies self.cell_at(a, b).value
                            == CellValue::Number(self.adjacent_mines(a, b) as u8) by {
                            lemma_idx_bounds(
                                self.rows as int,
                                self.columns as int,
                                a,
                                b,
                            );
                            if self.idx(a, b) == prev.idx(x as int, y as int) {
                                lemma_idx_injective(
                                    self.rows as int,
                                    a,
                                    b,
                                    x as int,
                                    y as int,
                                );
                                assert(a == x as int && b == y as int);
                                assert(self.cell_at(a, b).value == CellValue::Number(n));
                                assert(self.adjacent_mines(a, b) == prev.adjacent_mines(a, b));
                                assert(n as nat == self.adjacent_mines(a, b));
                            } else {
                                assert(self.cell_at(a, b) == prev.cell_at(a, b));
                                assert(a < x as int || (a == x as int && b < y as int));
                                assert(prev.cell_at(a, b).value == CellValue::Number(
                                    prev.adjacent_mines(a, b) as u8,
                                ));
                                assert(self.adjacent_mines(a, b) == prev.adjacent_mines(a, b));
                            }
                        }
                    }
                }
                y = y + 1;
            }
            x = x + 1;
        }
    }

    /// Reveal `(x, y)` and flood-fill from it.
    ///
    /// After the game has ended, or when the cell is not covered, this is
    /// a no-op. Revealing a covered mine loses the game and changes no
    /// other cell. Revealing a covered safe cell uncovers it; a zero cell
    /// cascades through its connected zero region and the region's
    /// numbered rim. Revealing the last safe cell wins the game.
    #[verifier::rlimit(100)]
    pub fn reveal_multiple(&mut self, x: usize, y: usize)
        requires
            old(self).wf(),
            x < old(self).columns,
            y < old(self).rows,
        ensures
            final(self).wf(),
            same_config(*old(self), *final(self)),
            only_reveals(*old(self), *final(self)),
            final(self).flag_count == old(self).flag_count,
            old(self).status != GameStatus::Playing ==> *final(self) == *old(self),
            old(self).status == GameStatus::Playing ==> {
                let seed = old(self).cell_at(x as int, y as int);
                &&& (seed.status != CellStatus::Covered ==> *final(self) == *old(self))
                &&& ((seed.status == CellStatus::Covered && seed.value == CellValue::Mined) ==> {
                    &&& final(self).status == GameStatus::Lost
                    &&& final(self).cells@ == old(self).cells@.update(
                        old(self).idx(x as int, y as int),
                        cell_with_status(seed, CellStatus::Revealed),
                    )
                    &&& final(self).revealed_count == old(self).revealed_count
                })
                &&& ((seed.status == CellStatus::Covered && seed.value != CellValue::Mined) ==> {
                    &&& final(self).cell_at(x as int, y as int).status == CellStatus::Revealed
                    &&& final(self).status != GameStatus::Lost
                })
                &&& ((final(self).status == GameStatus::Lost) <==> (seed.status
                    == CellStatus::Covered && seed.value == CellValue::Mined))
                &&& (final(self).status != GameStatus::Lost ==> final(self).status == (
                if final(self).revealed_count == final(self).safe_total() {
                    GameStatus::Won
                } else {
                    GameStatus::Playing
                }))
            },
            final(self).status == GameStatus::Playing ==> zero_region_saturated(
                *old(self),
                *final(self),
                Seq::<(usize, usize)>::empty(),
            ),
            (old(self).status == GameStatus::Playing && old(self).cell_at(
                x as int,
                y as int,
            ).status == CellStatus::Covered && old(self).cell_at(x as int, y as int).value
                != CellValue::Mined) ==> forall|a: int, b: int|
                #![trigger newly_revealed(*old(self), *final(self), a, b)]
                #![trigger in_zero_region(*old(self), x as int, y as int, a, b)]
                old(self).in_bounds(a, b) ==> (newly_revealed(*old(self), *final(self), a, b)
                    <==> in_zero_region(*old(self), x as int, y as int, a, b)),
    {
        if self.status != GameStatus::Playing {
            return ;
        }
        let i0 = self.index_of(x, y);
        let c0 = self.cells[i0];
        if c0.status != CellStatus::Covered {
            proof {
                reveal(zero_region_saturated);
            }
            return ;
        }
        let ghost sx = x as int;
        let ghost sy = y as int;
        if c0.value == CellValue::Mined {
            self.cells[i0] = Cell { status: CellStatus::Revealed, value: c0.value };
            self.status = GameStatus::Lost;
            proof {
                lemma_count_update(
                    old(self).cells@,
                    CellTest::Mined,
                    i0 as int,
                    self.cells@[i0 as int],
                );
                lemma_count_update(
                    old(self).cells@,
                    CellTest::Flagged,
                    i0 as int,
                    self.cells@[i0 as int],
                );
                lemma_count_update(
                    old(self).cells@,
                    CellTest::RevealedSafe,
                    i0 as int,
                    self.cells@[i0 as int],
                );
                lemma_same_values_same_numbers(*old(self), *self);
            }
            return ;
        }
        // covered, safe seed: run the flood fill
        let mut work: Vec<(usize, usize)> = Vec::new();
        work.push((x, y));
        proof {
            reveal(zero_region_saturated);
            lemma_count_pair_le(self.cells@);
            assert(work@[0] == (x, y));
            assert(work@.contains((x, y)));
            lemma_region_seed(*old(self), sx, sy);
        }
        #[verifier::rlimit(100)]
        while work.len() != 0
            invariant
                x < self.columns,
                y < self.rows,
                sx == x as int,
                sy == y as int,
                old(self).status == GameStatus::Playing,
                old(self).cell_at(sx, sy).status == CellStatus::Covered,
                old(self).cell_at(sx, sy).value != CellValue::Mined,
                old(self).wf(),
                self.status == GameStatus::Playing,
                self.grid_wf(),
                self.numbers_wf(),
                count_matching(self.cells@, CellTest::Mined) == self.mine_count,
                count_matching(self.cells@, CellTest::Flagged) == self.flag_count,
                count_matching(self.cells@, CellTest::RevealedSafe) == self.revealed_count,
                self.flag_count <= self.mine_count,
                self.revealed_count < self.safe_total(),
                self.rows == old(self).rows,
                self.columns == old(self).columns,
                self.mine_count == old(self).mine_count,
                self.flag_count == old(self).flag_count,
                self.cells@.len() == old(self).cells@.len(),
                same_config(*old(self), *self),
                only_reveals(*old(self), *self),
                forall|k: int|
                    0 <= k < work@.len() ==> (#[trigger] work@[k]).0 < self.columns
                        && work@[k].1 < self.rows && self.cell_at(
                        work@[k].0 as int,
                        work@[k].1 as int,
                    ).value != CellValue::Mined && in_zero_region(
                        *old(self),
                        sx,
                        sy,
                        work@[k].0 as int,
                        work@[k].1 as int,
                    ),
                forall|a: int, b: int|
                    self.in_bounds(a, b) && #[trigger] newly_revealed(*old(self), *self, a, b)
                        ==> in_zero_region(*old(self), sx, sy, a, b),
                zero_region_saturated(*old(self), *self, work@),
                self.cell_at(sx, sy).status == CellStatus::Revealed || (self.cell_at(sx, sy).status
                    == CellStatus::Covered && work@.contains((x, y))),
            decreases count_matching(self.cells@, CellTest::Covered), work@.len(),
        {
            let ghost head = *self;
            let ghost work_head = work@;
            let p = work.pop().unwrap();
            let px = p.0;
            let py = p.1;
            proof {
                assert(p == work_head[work_head.len() - 1]);
            }
            let i = self.index_of(px, py);
            let c = self.cells[i];
            if c.status == CellStatus::Covered {
                self.cells[i] = Cell { status: CellStatus::Revealed, value: c.value };
                let total = self.cells.len();
                self.revealed_count = self.revealed_count + 1;
                proof {
                    lemma_count_update(
                        head.cells@,
                        CellTest::Mined,
                        i as int,
                        self.cells@[i as int],
                    );
                    lemma_count_update(
                        head.cells@,
                        CellTest::Flagged,
                        i as int,
                        self.cells@[i as int],
                    );
                    lemma_count_update(
                        head.cells@,
                        CellTest::RevealedSafe,
                        i as int,
                        self.cells@[i as int],
                    );
                    lemma_count_update(
                        head.cells@,
                        CellTest::Covered,
                        i as int,
                        self.cells@[i as int],
                    );
                    lemma_same_values_same_numbers(head, *self);
                    lemma_idx_bounds(self.rows as int, self.columns as int, px as int, py as int);
                    assert forall|k: int| 0 <= k < work@.len() implies (#[trigger] work@[k]).0
                        < self.columns && work@[k].1 < self.rows && self.cell_at(
                        work@[k].0 as int,
                        work@[k].1 as int,
                    ).value != CellValue::Mined && in_zero_region(
                        *old(self),
                        sx,
                        sy,
                        work@[k].0 as int,
                        work@[k].1 as int,
                    ) by {
                        assert(work@[k] == work_head[k]);
                        lemma_idx_bounds(
                            self.rows as int,
                            self.columns as int,
                            work@[k].0 as int,
                            work@[k].1 as int,
                        );
                    }
                    assert forall|a: int, b: int|
                        self.in_bounds(a, b) && #[trigger] newly_revealed(
                            *old(self),
                            *self,
                            a,
                            b,
                        ) implies in_zero_region(*old(self), sx, sy, a, b) by {
                        lemma_idx_bounds(self.rows as int, self.columns as int, a, b);
                        if self.idx(a, b) == head.idx(px as int, py as int) {
                            lemma_idx_injective(self.rows as int, a, b, px as int, py as int);
                            assert(in_zero_region(*old(self), sx, sy, px as int, py as int));
                        } else {
                            assert(newly_revealed(*old(self), head, a, b));
                        }
                    }
                }
                if self.revealed_count >= total - self.mine_count {
                    self.status = GameStatus::Won;
                    proof {
                        assert(total as int == self.columns * self.rows);
                        assert(self.revealed_count == self.safe_total());
                        lemma_all_safe_revealed(self.cells@);
                        lemma_idx_bounds(self.rows as int, self.columns as int, sx, sy);
                        assert(self.cell_at(sx, sy).status == CellStatus::Revealed);
                        lemma_same_values_same_numbers(head, *self);
                        assert forall|a: int, b: int|
                            self.in_bounds(a, b) && #[trigger] newly_revealed(
                                *old(self),
                                *self,
                                a,
                                b,
                            ) implies in_zero_region(*old(self), sx, sy, a, b) by {
                            lemma_idx_bounds(self.rows as int, self.columns as int, a, b);
                            if self.idx(a, b) == head.idx(px as int, py as int) {
                                lemma_idx_injective(self.rows as int, a, b, px as int, py as int);
                                assert(in_zero_region(*old(self), sx, sy, px as int, py as int));
                            } else {
                                assert(newly_revealed(*old(self), head, a, b));
                            }
                        }
                        assert forall|a: int, b: int|
                            old(self).in_bounds(a, b) && #[trigger] in_zero_region(
                                *old(self),
                                sx,
                                sy,
                                a,
                                b,
                            ) implies newly_revealed(*old(self), *self, a, b) by {
                            lemma_region_covered(*old(self), sx, sy, a, b);
                            lemma_region_safe(*old(self), sx, sy, a, b);
                            lemma_idx_bounds(self.rows as int, self.columns as int, a, b);
                            assert(self.cell_at(a, b).value == old(self).cell_at(a, b).value);
                            assert(self.cell_at(a, b).status == CellStatus::Revealed);
                        }
                        assert(self.status_wf());
                        assert(self.counts_wf());
                    }
                    return ;
                }
                if c.value == CellValue::Number(0) {
                    proof {
                        lemma_idx_bounds(self.rows as int, self.columns as int, px as int,
                        py as int);
                        assert(self.cell_at(px as int, py as int).value == CellValue::Number(0));
                        assert(newly_revealed(*old(self), *self, px as int, py as int));
                    }
                    let ns = crate::neighbors::with_surrounding_cells(
                        px,
                        py,
                        self.rows,
                        self.columns,
                    );
                    let ghost w1 = work@;
                    let mut j: usize = 0;
                    while j < ns.len()
                        invariant
                            j <= ns@.len(),
                            self.grid_wf(),
                            self.numbers_wf(),
                            self.rows == old(self).rows,
                            self.columns == old(self).columns,
                            old(self).cells@.len() == self.cells@.len(),
                            px < self.columns,
                            py < self.rows,
                            self.cell_at(px as int, py as int).value == CellValue::Number(0),
                            sx == x as int,
                            sy == y as int,
                            newly_revealed(*old(self), *self, px as int, py as int),
                            in_zero_region(*old(self), sx, sy, px as int, py as int),
                            old(self).cell_at(px as int, py as int).value == CellValue::Number(0),
                            only_reveals(*old(self), *self),
                            forall|pp: (usize, usize)| #[trigger]
                                ns@.contains(pp) ==> pp.0 < self.columns && pp.1 < self.rows
                                    && adjacent(px as int, py as int, pp.0 as int, pp.1 as int),
                            forall|nx: usize, ny: usize|
                                nx < self.columns && ny < self.rows && adjacent(
                                    px as int,
                                    py as int,
                                    nx as int,
                                    ny as int,
                                ) ==> #[trigger] ns@.contains((nx, ny)),
                            w1.len() <= work@.len(),
                            forall|k: int| 0 <= k < w1.len() ==> #[trigger] work@[k] == w1[k],
                            forall|k: int|
                                0 <= k < work@.len() ==> (#[trigger] work@[k]).0 < self.columns
                                    && work@[k].1 < self.rows && self.cell_at(
                                    work@[k].0 as int,
                                    work@[k].1 as int,
                                ).value != CellValue::Mined && in_zero_region(
                                    *old(self),
                                    sx,
                                    sy,
                                    work@[k].0 as int,
                                    work@[k].1 as int,
                                ),
                            forall|k: int|
                                0 <= k < j ==> (self.cell_at(
                                    (#[trigger] ns@[k]).0 as int,
                                    ns@[k].1 as int,
                                ).status != CellStatus::Covered || work@.contains(ns@[k])),
                        decreases ns@.len() - j,
                    {
                        let q = ns[j];
                        proof {
                            assert(ns@.contains(ns@[j as int]));
                        }
                        let qi = self.index_of(q.0, q.1);
                        let qc = self.cells[qi];
                        if qc.status == CellStatus::Covered {
                            proof {
                                broadcast use vstd::seq_lib::group_seq_properties;

                                // a neighbor of the zero cell p is never a mine
                                lemma_adjacent_mines_bound(*self, px as int, py as int);
                                assert(self.adjacent_mines(px as int, py as int) == 0);
                                lemma_zero_neighbor_not_mined(
                                    *self,
                                    px as int,
                                    py as int,
                                    q.0 as int,
                                    q.1 as int,
                                );
                                // the entry stays inside the region: the queued
                                // cell is covered now, hence covered at the start
                                lemma_idx_bounds(
                                    self.rows as int,
                                    self.columns as int,
                                    q.0 as int,
                                    q.1 as int,
                                );
                                assert(old(self).cell_at(q.0 as int, q.1 as int).status
                                    == CellStatus::Covered);
                                lemma_region_extend(
                                    *old(self),
                                    sx,
                                    sy,
                                    px as int,
                                    py as int,
                                    q.0 as int,
                                    q.1 as int,
                                );
                            }
                            work.push(q);
                        }
                        j = j + 1;
                    }
                    proof {
                        // every in-bounds neighbor of p is settled or queued
                        assert forall|na: int, nb: int|
                            #![trigger adjacent(px as int, py as int, na, nb)]
                            adjacent(px as int, py as int, na, nb) && self.in_bounds(
                                na,
                                nb,
                            ) implies (self.cell_at(na, nb).status != CellStatus::Covered
                            || work@.contains((na as usize, nb as usize))) by {
                            assert(ns@.contains((na as usize, nb as usize)));
                            let k = choose|k: int|
                                0 <= k < ns@.len() && ns@[k] == (na as usize, nb as usize);
                            assert(self.cell_at(ns@[k].0 as int, ns@[k].1 as int).status
                                != CellStatus::Covered || work@.contains(ns@[k]));
                        }
                        assert forall|k: int|
                            0 <= k < work_head.len() - 1 implies #[trigger] work@.contains(
                            work_head[k]) by {
                            assert(w1[k] == work_head[k]);
                            assert(work@[k] == w1[k]);
                        }
                    }
                }
                proof {
                    assert forall|k: int|
                        0 <= k < work_head.len() - 1 implies #[trigger] work@.contains(
                        work_head[k]) by {
                        assert(work@[k] == work_head[k]);
                    }
                    lemma_saturation_step(
                        *old(self),
                        head,
                        *self,
                        work_head,
                        work@,
                        px as int,
                        py as int,
                    );
                    // the seed is revealed, or still covered and queued
                    lemma_idx_bounds(self.rows as int, self.columns as int, sx, sy);
                    if self.idx(sx, sy) == head.idx(px as int, py as int) {
                        lemma_idx_injective(self.rows as int, sx, sy, px as int, py as int);
                        assert(self.cell_at(sx, sy).status == CellStatus::Revealed);
                    } else {
                        assert(self.cell_at(sx, sy).status == head.cell_at(sx, sy).status);
                        if head.cell_at(sx, sy).status == CellStatus::Covered {
                            let k = choose|k: int|
                                0 <= k < work_head.len() && work_head[k] == (x, y);
                            if k < work_head.len() - 1 {
                                assert(work@[k] == work_head[k]);
                                assert(work@.contains(work_head[k]));
                            } else {
                                lemma_idx_bounds(
                                    self.rows as int,
                                    self.columns as int,
                                    px as int,
                                    py as int,
                                );
                                assert(false);
                            }
                        }
                    }
                }
            } else {
                proof {
                    lemma_idx_bounds(
                        self.rows as int,
                        self.columns as int,
                        px as int,
                        py as int,
                    );
                    assert forall|k: int|
                        0 <= k < work_head.len() - 1 implies #[trigger] work@.contains(
                        work_head[k]) by {
                        assert(work@[k] == work_head[k]);
                    }
                    lemma_saturation_step(
                        *old(self),
                        head,
                        *self,
                        work_head,
                        work@,
                        px as int,
                        py as int,
                    );
                    // the seed is still revealed or still queued
                    if self.cell_at(sx, sy).status == CellStatus::Covered {
                        let k = choose|k: int| 0 <= k < work_head.len() && work_head[k] == (x, y);
                        if k < work_head.len() - 1 {
                            assert(work@[k] == work_head[k]);
                            assert(work@.contains(work_head[k]));
                        } else {
                            lemma_idx_bounds(self.rows as int, self.columns as int, sx, sy);
                            assert(false);
                        }
                    }
                }
            }
        }
        proof {
            assert(work@ =~= Seq::<(usize, usize)>::empty());
            assert(self.cell_at(sx, sy).status == CellStatus::Revealed);
            assert(zero_region_saturated(*old(self), *self, Seq::<(usize, usize)>::empty()));
            assert(newly_revealed(*old(self), *self, sx, sy));
            lemma_region_completeness(*old(self), *self, sx, sy);
            assert forall|a: int, b: int|
                old(self).in_bounds(a, b) && #[trigger] in_zero_region(
                    *old(self),
                    sx,
                    sy,
                    a,
                    b,
                ) implies newly_revealed(*old(self), *self, a, b) by {
                lemma_region_covered(*old(self), sx, sy, a, b);
            }
        }
    }

    /// Toggle the flag on `(x, y)`.
    ///
    /// After the game has ended this is a no-op. Otherwise a covered cell
    /// becomes flagged unless the flag budget (`mine_count`) is already
    /// spent; a flagged cell becomes covered again; a revealed cell is
    /// left alone. The game status and `revealed_count` never change.
    pub fn flag(&mut self, x: usize, y: usize)
        requires
            old(self).wf(),
            x < old(self).columns,
            y < old(self).rows,
        ensures
            final(self).wf(),
            old(self).status != GameStatus::Playing ==> *final(self) == *old(self),
            old(self).status == GameStatus::Playing ==> {
                let c = old(self).cell_at(x as int, y as int);
                &&& (c.status == CellStatus::Covered && old(self).flag_count == old(
                    self,
                ).mine_count) ==> *final(self) == *old(self)
                &&& (c.status == CellStatus::Covered && old(self).flag_count < old(
                    self,
                ).mine_count) ==> {
                    &&& final(self).cells@ == old(self).cells@.update(
                        old(self).idx(x as int, y as int),
                        cell_with_status(c, CellStatus::Flagged),
                    )
                    &&& final(self).flag_count == old(self).flag_count + 1
                }
                &&& c.status == CellStatus::Flagged ==> {
                    &&& final(self).cells@ == old(self).cells@.update(
                        old(self).idx(x as int, y as int),
                        cell_with_status(c, CellStatus::Covered),
                    )
                    &&& final(self).flag_count == old(self).flag_count - 1
                }
                &&& c.status == CellStatus::Revealed ==> *final(self) == *old(self)
            },
            final(self).status == old(self).status,
            final(self).revealed_count == old(self).revealed_count,
            final(self).rows == old(self).rows,
            final(self).columns == old(self).columns,
            final(self).mine_count == old(self).mine_count,
            same_config(*old(self), *final(self)),
    {
        if self.status != GameStatus::Playing {
            return ;
        }
        let i = self.index_of(x, y);
        let c = self.cells[i];
        match c.status {
            CellStatus::Covered => {
                if self.flag_count == self.mine_count {
                    return ;
                }
                self.cells[i] = Cell { status: CellStatus::Flagged, value: c.value };
                self.flag_count = self.flag_count + 1;
                proof {
                    lemma_count_update(
                        old(self).cells@,
                        CellTest::Mined,
                        i as int,
                        self.cells@[i as int],
                    );
                    lemma_count_update(
                        old(self).cells@,
                        CellTest::Flagged,
                        i as int,
                        self.cells@[i as int],
                    );
                    lemma_count_update(
                        old(self).cells@,
                        CellTest::RevealedSafe,
                        i as int,
                        self.cells@[i as int],
                    );
                    lemma_same_values_same_numbers(*old(self), *self);
                }
            },
            CellStatus::Flagged => {
                proof {
                    crate::counting::lemma_count_at_least_one(
                        self.cells@,
                        CellTest::Flagged,
                        i as int,
                    );
                }
                self.cells[i] = Cell { status: CellStatus::Covered, value: c.value };
                self.flag_count = self.flag_count - 1;
                proof {
                    lemma_count_update(
                        old(self).cells@,
                        CellTest::Mined,
                        i as int,
                        self.cells@[i as int],
                    );
                    lemma_count_update(
                        old(self).cells@,
                        CellTest::Flagged,
                        i as int,
                        self.cells@[i as int],
                    );
                    lemma_count_update(
                        old(self).cells@,
                        CellTest::RevealedSafe,
                        i as int,
                        self.cells@[i as int],
                    );
                    lemma_same_values_same_numbers(*old(self), *self);
                }
            },
            CellStatus::Revealed => {},
        }
    }
}

/// Two games with the same dimensions and the same cell values agree on
/// every neighbor-mine count; correct numbers carry over.
pub proof fn lemma_same_values_same_numbers(a: Game, b: Game)
    requires
        b.rows == a.rows,
        b.columns == a.columns,
        b.cells@.len() == a.cells@.len(),
        a.cells@.len() == a.columns * a.rows,
        forall|i: int|
            0 <= i < a.cells@.len() ==> (#[trigger] b.cells@[i]).value == a.cells@[i].value,
        a.numbers_wf(),
    ensures
        b.numbers_wf(),
{
    assert forall|x: int, y: int|
        b.in_bounds(x, y) && (#[trigger] b.cell_at(x, y)).value != CellValue::Mined implies b
        .cell_at(x, y).value == CellValue::Number(b.adjacent_mines(x, y) as u8) by {
        lemma_idx_bounds(a.rows as int, a.columns as int, x, y);
        assert(b.cell_at(x, y).value == a.cell_at(x, y).value);
        lemma_same_mines_same_adjacent(a, b, x, y);
    }
}

/// `adjacent_mines` depends only on where the mines sit: two games whose
/// cells agree pointwise on being mined agree on every neighbor count.
pub proof fn lemma_same_mines_same_adjacent(a: Game, b: Game, x: int, y: int)
    requires
        b.rows == a.rows,
        b.columns == a.columns,
        b.cells@.len() == a.cells@.len(),
        a.cells@.len() == a.columns * a.rows,
        forall|i: int|
            0 <= i < a.cells@.len() ==> (((#[trigger] b.cells@[i]).value == CellValue::Mined)
                <==> (a.cells@[i].value == CellValue::Mined)),
    ensures
        b.adjacent_mines(x, y) == a.adjacent_mines(x, y),
{
    reveal(Game::adjacent_mines);
    assert forall|nx: int, ny: int| true implies #[trigger] b.mine_at(nx, ny) == a.mine_at(
        nx,
        ny,
    ) by {
        if a.in_bounds(nx, ny) {
            lemma_idx_bounds(a.rows as int, a.columns as int, nx, ny);
        }
    }
}

} // verus!
