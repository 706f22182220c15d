//! Flat uniform spatial grid for broad-phase queries. Each entity occupies
//! exactly one cell by centre position; queries scan the cells overlapping
//! the query circle's bounding box and filter by exact distance.
//!
//! Rebuild every frame: clear, insert everything, query. Callers turn
//! positions into cell coordinates; the grid clamps them to its edge.

use vstd::prelude::*;

use crate::id::Id;

verus! {

/// A position on the ground, as bit patterns.
#[derive(Clone, Copy, PartialEq, Eq, Debug, Structural)]
pub struct Spot {
    pub x: u32,
    pub y: u32,
}

/// An entity where it is.
#[derive(Clone, Copy, PartialEq, Eq, Debug, Structural)]
pub struct Placed {
    pub id: Id,
    pub pos: Spot,
}

/// A grid of cells in row order.
pub struct SpatialGrid {
    cols: i32,
    rows: i32,
    cells: Vec<Vec<Placed>>,
}

/// A grid as contracts see it.
#[verifier::ext_equal]
pub struct GridView {
    pub cols: int,
    pub rows: int,
    pub cells: Seq<Seq<Placed>>,
}

/// A coordinate held inside `0 .. n`.
pub open spec fn clamped(c: int, n: int) -> int {
    if c < 0 {
        0
    } else if c >= n {
        n - 1
    } else {
        c
    }
}

/// The cell of a column and row.
pub open spec fn cell_at(g: GridView, cx: int, cy: int) -> int {
    cy * g.cols + cx
}

/// The entries of a cell that pass a test.
pub open spec fn near_in(cell: Seq<Placed>, test: spec_fn(Spot) -> bool) -> Seq<Placed>
    decreases cell.len(),
{
    if cell.len() == 0 {
        Seq::empty()
    } else {
        let before = near_in(cell.drop_last(), test);
        if test(cell.last().pos) {
            before.push(cell.last())
        } else {
            before
        }
    }
}

/// What passes in columns `x0` up to `x` of a row.
pub open spec fn row_near(
    g: GridView,
    y: int,
    x0: int,
    x: int,
    test: spec_fn(Spot) -> bool,
) -> Seq<Placed>
    decreases x - x0,
{
    if x <= x0 {
        Seq::empty()
    } else {
        row_near(g, y, x0, x - 1, test) + near_in(g.cells[cell_at(g, x - 1, y)], test)
    }
}

/// What passes in columns `x0 ..= x1` of rows `y0` up to `y`.
pub open spec fn area_near(
    g: GridView,
    x0: int,
    x1: int,
    y0: int,
    y: int,
    test: spec_fn(Spot) -> bool,
) -> Seq<Placed>
    decreases y - y0,
{
    if y <= y0 {
        Seq::empty()
    } else {
        area_near(g, x0, x1, y0, y - 1, test) + row_near(g, y - 1, x0, x1 + 1, test)
    }
}

/// A coordinate held at or above zero.
pub open spec fn low(c: int) -> int {
    if c < 0 {
        0
    } else {
        c
    }
}

/// A coordinate held below `n`.
pub open spec fn high(c: int, n: int) -> int {
    if c > n - 1 {
        n - 1
    } else {
        c
    }
}

/// Everything within a range of cells that passes: rows in order, columns
/// in order within a row, the range cut to the grid.
pub open spec fn within(
    g: GridView,
    x0: int,
    x1: int,
    y0: int,
    y1: int,
    test: spec_fn(Spot) -> bool,
) -> Seq<Placed> {
    area_near(g, low(x0), high(x1, g.cols), low(y0), high(y1, g.rows) + 1, test)
}

/// A cell of the grid has a place in its list.
proof fn cell_fits(cols: int, rows: int, cx: int, cy: int)
    requires
        0 <= cx < cols,
        0 <= cy < rows,
    ensures
        0 <= cy * cols <= cy * cols + cx < rows * cols,
{
    assert(0 <= cy * cols && cy * cols + cols <= rows * cols) by (nonlinear_arith)
        requires
            0 <= cy < rows,
            0 < cols,
    ;
}

impl View for SpatialGrid {
    type V = GridView;

    closed spec fn view(&self) -> GridView {
        GridView {
            cols: self.cols as int,
            rows: self.rows as int,
            cells: self.cells@.map_values(|c: Vec<Placed>| c@),
        }
    }
}

impl SpatialGrid {
    /// The grid has a cell for every column of every row.
    pub open spec fn wf(&self) -> bool {
        &&& self@.cols >= 1 && self@.rows >= 1
        &&& self@.cols * self@.rows <= i32::MAX
        &&& self@.cells.len() == self@.rows * self@.cols
    }

    /// An empty grid.
    pub fn new(cols: i32, rows: i32) -> (r: Self)
        requires
            cols >= 1,
            rows >= 1,
            cols * rows <= i32::MAX,
        ensures
            r.wf(),
            r@.cols == cols,
            r@.rows == rows,
            forall|k: int| 0 <= k < r@.cells.len() ==> (#[trigger] r@.cells[k]).len() == 0,
    {
        assert(rows * cols == cols * rows) by (nonlinear_arith);
        assert(rows * cols >= 0) by (nonlinear_arith)
            requires
                rows >= 1,
                cols >= 1,
        ;
        let n: usize = (rows * cols) as usize;
        let mut cells: Vec<Vec<Placed>> = Vec::new();
        let mut i: usize = 0;
        while i < n
            invariant
                i <= n,
                cells@.len() == i,
                forall|k: int| 0 <= k < i ==> (#[trigger] cells@[k])@.len() == 0,
            decreases n - i,
        {
            cells.push(Vec::new());
            i += 1;
        }
        SpatialGrid { cols, rows, cells }
    }

    /// Empty every cell.
    pub fn clear(&mut self)
        requires
            old(self).wf(),
        ensures
            final(self).wf(),
            final(self)@.cols == old(self)@.cols,
            final(self)@.rows == old(self)@.rows,
            forall|k: int|
                0 <= k < final(self)@.cells.len() ==> (#[trigger] final(self)@.cells[k]).len()
                    == 0,
    {
        let mut i: usize = 0;
        while i < self.cells.len()
            invariant
                i <= self.cells@.len(),
                self.cells@.len() == old(self).cells@.len(),
                self.cols == old(self).cols,
                self.rows == old(self).rows,
                forall|k: int| 0 <= k < i ==> (#[trigger] self.cells@[k])@.len() == 0,
            decreases self.cells@.len() - i,
        {
            self.cells[i].clear();
            i += 1;
        }
    }

    /// Put an entity in the cell of a column and row, held to the grid's
    /// edge; its position stays exact.
    pub fn insert(&mut self, id: Id, pos: Spot, cx: i32, cy: i32)
        requires
            old(self).wf(),
        ensures
            final(self).wf(),
            ({
                let at = cell_at(
                    old(self)@,
                    clamped(cx as int, old(self)@.cols),
                    clamped(cy as int, old(self)@.rows),
                );
                final(self)@ == (GridView {
                    cells: old(self)@.cells.update(
                        at,
                        old(self)@.cells[at].push(Placed { id, pos }),
                    ),
                    ..old(self)@
                })
            }),
    {
        let x: i32 = if cx < 0 {
            0
        } else if cx >= self.cols {
            self.cols - 1
        } else {
            cx
        };
        let y: i32 = if cy < 0 {
            0
        } else if cy >= self.rows {
            self.rows - 1
        } else {
            cy
        };
        proof {
            cell_fits(self.cols as int, self.rows as int, x as int, y as int);
            assert(self.rows * self.cols == self.cols * self.rows) by (nonlinear_arith);
        }
        let at: usize = (y * self.cols + x) as usize;
        let ghost before = self@;
        self.cells[at].push(Placed { id, pos });
        assert(self@.cells =~= before.cells.update(
            at as int,
            before.cells[at as int].push(Placed { id, pos }),
        ));
    }

    /// Every entity in the range of cells — cut to the grid — that is near,
    /// as `near` tells, always the same of a position.
    pub fn query<F: Fn(Spot) -> bool>(
        &self,
        x0: i32,
        x1: i32,
        y0: i32,
        y1: i32,
        near: &F,
    ) -> (r: Vec<Placed>)
        requires
            self.wf(),
            forall|p: Spot| #[trigger] near.requires((p,)),
            forall|p: Spot| #[trigger] near.ensures((p,), true) ==> !near.ensures((p,), false),
        ensures
            r@ == within(
                self@,
                x0 as int,
                x1 as int,
                y0 as int,
                y1 as int,
                |p: Spot| near.ensures((p,), true),
            ),
    {
        let ghost test = |p: Spot| near.ensures((p,), true);
        let ghost g = self@;
        let left: i32 = if x0 < 0 {
            0
        } else {
            x0
        };
        let right: i32 = if x1 > self.cols - 1 {
            self.cols - 1
        } else {
            x1
        };
        let top: i32 = if y0 < 0 {
            0
        } else {
            y0
        };
        let bottom: i32 = if y1 > self.rows - 1 {
            self.rows - 1
        } else {
            y1
        };
        let mut out: Vec<Placed> = Vec::new();
        let mut cy: i32 = top;
        while cy <= bottom
            invariant
                self.wf(),
                g == self@,
                test == (|p: Spot| near.ensures((p,), true)),
                forall|p: Spot| #[trigger] near.requires((p,)),
                forall|p: Spot| #[trigger] near.ensures((p,), true) ==> !near.ensures((p,), false),
                0 <= left,
                right < self.cols,
                0 <= top <= cy,
                top <= bottom ==> cy <= bottom + 1,
                top > bottom ==> cy == top,
                bottom < self.rows,
                out@ == area_near(g, left as int, right as int, top as int, cy as int, test),
            decreases bottom - cy + 1,
        {
            let ghost start = out@;
            let mut cx: i32 = left;
            while cx <= right
                invariant
                    self.wf(),
                    g == self@,
                    test == (|p: Spot| near.ensures((p,), true)),
                    forall|p: Spot| #[trigger] near.requires((p,)),
                    forall|p: Spot| #[trigger]
                        near.ensures((p,), true) ==> !near.ensures((p,), false),
                    0 <= left <= cx,
                    left <= right ==> cx <= right + 1,
                    left > right ==> cx == left,
                    right < self.cols,
                    0 <= cy < self.rows,
                    out@ == start + row_near(g, cy as int, left as int, cx as int, test),
                decreases right - cx + 1,
            {
                proof {
                    cell_fits(self.cols as int, self.rows as int, cx as int, cy as int);
                    assert(self.rows * self.cols == self.cols * self.rows) by (nonlinear_arith);
                }
                let at: usize = (cy * self.cols + cx) as usize;
                let ghost here = out@;
                self.cell_near(at, near, &mut out);
                assert(out@ =~= start + (row_near(g, cy as int, left as int, cx as int, test)
                    + near_in(g.cells[at as int], test)));
                cx += 1;
            }
            assert(row_near(g, cy as int, left as int, cx as int, test) == row_near(
                g,
                cy as int,
                left as int,
                right + 1,
                test,
            ));
            cy += 1;
        }
        assert(area_near(g, left as int, right as int, top as int, cy as int, test) == area_near(
            g,
            left as int,
            right as int,
            top as int,
            bottom + 1,
            test,
        ));
        out
    }

    /// Append the entries of one cell that are near.
    fn cell_near<F: Fn(Spot) -> bool>(&self, at: usize, near: &F, out: &mut Vec<Placed>)
        requires
            at < self@.cells.len(),
            forall|p: Spot| #[trigger] near.requires((p,)),
            forall|p: Spot| #[trigger] near.ensures((p,), true) ==> !near.ensures((p,), false),
        ensures
            final(out)@ == old(out)@ + near_in(
                self@.cells[at as int],
                |p: Spot| near.ensures((p,), true),
            ),
    {
        let ghost test = |p: Spot| near.ensures((p,), true);
        let cell: &Vec<Placed> = &self.cells[at];
        let mut i: usize = 0;
        assert(cell@.take(0) =~= Seq::<Placed>::empty());
        assert(out@ =~= old(out)@ + near_in(cell@.take(0), test));
        while i < cell.len()
            invariant
                i <= cell@.len(),
                test == (|p: Spot| near.ensures((p,), true)),
                forall|p: Spot| #[trigger] near.requires((p,)),
                forall|p: Spot| #[trigger] near.ensures((p,), true) ==> !near.ensures((p,), false),
                out@ == old(out)@ + near_in(cell@.take(i as int), test),
            decreases cell@.len() - i,
        {
            proof {
                assert(cell@.take(i + 1).drop_last() =~= cell@.take(i as int));
                assert(cell@.take(i + 1).last() == cell@[i as int]);
            }
            let e: Placed = cell[i];
            if near(e.pos) {
                out.push(e);
                assert(out@ =~= old(out)@ + near_in(cell@.take(i as int), test).push(e));
            }
            i += 1;
        }
        assert(cell@.take(i as int) =~= cell@);
    }
}

/// An entity is found from any range that covers its cell, as long as its
/// exact position passes.
pub proof fn covered_entities_are_found(
    g: GridView,
    x0: int,
    x1: int,
    y0: int,
    y1: int,
    test: spec_fn(Spot) -> bool,
    cx: int,
    cy: int,
    k: int,
)
    requires
        0 <= cx < g.cols,
        0 <= cy < g.rows,
        x0 <= cx <= x1,
        y0 <= cy <= y1,
        0 <= k < g.cells[cell_at(g, cx, cy)].len(),
        test(g.cells[cell_at(g, cx, cy)][k].pos),
    ensures
        within(g, x0, x1, y0, y1, test).contains(g.cells[cell_at(g, cx, cy)][k]),
{
    let e = g.cells[cell_at(g, cx, cy)][k];
    cell_holds(g.cells[cell_at(g, cx, cy)], test, k);
    row_holds(g, cy, low(x0), high(x1, g.cols) + 1, test, cx, e);
    area_holds(g, low(x0), high(x1, g.cols), low(y0), high(y1, g.rows) + 1, test, cy, e);
}

proof fn cell_holds(cell: Seq<Placed>, test: spec_fn(Spot) -> bool, k: int)
    requires
        0 <= k < cell.len(),
        test(cell[k].pos),
    ensures
        near_in(cell, test).contains(cell[k]),
    decreases cell.len(),
{
    let before = near_in(cell.drop_last(), test);
    if k == cell.len() - 1 {
        assert(before.push(cell[k])[before.len() as int] == cell[k]);
    } else {
        cell_holds(cell.drop_last(), test, k);
        let j = choose|j: int| 0 <= j < before.len() && before[j] == cell[k];
        assert(near_in(cell, test)[j] == cell[k]);
    }
}

proof fn row_holds(
    g: GridView,
    y: int,
    x0: int,
    x: int,
    test: spec_fn(Spot) -> bool,
    cx: int,
    e: Placed,
)
    requires
        x0 <= cx < x,
        near_in(g.cells[cell_at(g, cx, y)], test).contains(e),
    ensures
        row_near(g, y, x0, x, test).contains(e),
    decreases x - x0,
{
    let before = row_near(g, y, x0, x - 1, test);
    let last = near_in(g.cells[cell_at(g, x - 1, y)], test);
    if cx == x - 1 {
        let j = choose|j: int| 0 <= j < last.len() && last[j] == e;
        assert((before + last)[before.len() + j] == e);
    } else {
        row_holds(g, y, x0, x - 1, test, cx, e);
        let j = choose|j: int| 0 <= j < before.len() && before[j] == e;
        assert((before + last)[j] == e);
    }
}

proof fn area_holds(
    g: GridView,
    x0: int,
    x1: int,
    y0: int,
    y: int,
    test: spec_fn(Spot) -> bool,
    cy: int,
    e: Placed,
)
    requires
        y0 <= cy < y,
        row_near(g, cy, x0, x1 + 1, test).contains(e),
    ensures
        area_near(g, x0, x1, y0, y, test).contains(e),
    decreases y - y0,
{
    let before = area_near(g, x0, x1, y0, y - 1, test);
    let last = row_near(g, y - 1, x0, x1 + 1, test);
    if cy == y - 1 {
        let j = choose|j: int| 0 <= j < last.len() && last[j] == e;
        assert((before + last)[before.len() + j] == e);
    } else {
        area_holds(g, x0, x1, y0, y - 1, test, cy, e);
        let j = choose|j: int| 0 <= j < before.len() && before[j] == e;
        assert((before + last)[j] == e);
    }
}

/// A coordinate off the grid counts to the nearest cell; one on it is its own.
pub proof fn coordinates_clamp_to_the_grid(c: int, n: int)
    requires
        n >= 1,
    ensures
        0 <= clamped(c, n) < n,
        0 <= c < n ==> clamped(c, n) == c,
        c < 0 ==> clamped(c, n) == 0,
        c >= n ==> clamped(c, n) == n - 1,
        low(c) >= 0 && (c >= 0 ==> low(c) == c) && (c < 0 ==> low(c) == 0),
        high(c, n) < n && (c < n ==> high(c, n) == c) && (c >= n ==> high(c, n) == n - 1),
{
}

/// A cell gives up exactly its entities that pass, in order.
pub proof fn a_cell_gives_exactly_its_near(cell: Seq<Placed>, test: spec_fn(Spot) -> bool) -> (at:
    Seq<int>)
    ensures
        near_in(cell, test).len() == at.len(),
        forall|k: int|
            0 <= k < at.len() ==> 0 <= #[trigger] at[k] < cell.len() && near_in(cell, test)[k]
                == cell[at[k]],
        forall|j: int, k: int| 0 <= j < k < at.len() ==> (#[trigger] at[j]) < (#[trigger] at[k]),
        forall|i: int| 0 <= i < cell.len() ==> (#[trigger] at.contains(i) <==> test(cell[i].pos)),
    decreases cell.len(),
{
    if cell.len() == 0 {
        Seq::empty()
    } else {
        let init = cell.drop_last();
        let before = a_cell_gives_exactly_its_near(init, test);
        let n = cell.len() - 1;
        let at = if test(cell[n].pos) {
            before.push(n)
        } else {
            before
        };
        let out = near_in(cell, test);
        assert forall|k: int| 0 <= k < at.len() implies 0 <= #[trigger] at[k] < cell.len() && out[k]
            == cell[at[k]] by {
            if k < before.len() {
                assert(at[k] == before[k]);
                assert(init[before[k]] == cell[at[k]]);
            }
        }
        assert forall|j: int, k: int| 0 <= j < k < at.len() implies (#[trigger] at[j]) < (
        #[trigger] at[k]) by {
            assert(at[j] == before[j]);
            if k < before.len() {
                assert(at[k] == before[k]);
            }
        }
        assert forall|i: int| 0 <= i < cell.len() implies (#[trigger] at.contains(i) <==> test(
            cell[i].pos,
        )) by {
            crate::sort::contains_push(before, n, i);
            if i < n {
                assert(before.contains(i) <==> test(init[i].pos));
            } else if before.contains(i) {
                let k = choose|k: int| 0 <= k < before.len() && before[k] == i;
                assert(before[k] < init.len());
            }
        }
        at
    }
}

/// A search goes through its cells row by row, each from left to right, every
/// cell once.
pub proof fn a_search_goes_row_by_row(
    g: GridView,
    x0: int,
    x1: int,
    y0: int,
    y1: int,
    x: int,
    y: int,
    test: spec_fn(Spot) -> bool,
)
    requires
        x >= x0,
        y >= y0,
    ensures
        cell_at(g, x, y) == x + g.cols * y,
        row_near(g, y, x0, x0, test).len() == 0,
        row_near(g, y, x0, x + 1, test) == row_near(g, y, x0, x, test) + near_in(
            g.cells[cell_at(g, x, y)],
            test,
        ),
        area_near(g, x0, x1, y0, y0, test).len() == 0,
        area_near(g, x0, x1, y0, y + 1, test) == area_near(g, x0, x1, y0, y, test) + row_near(
            g,
            y,
            x0,
            x1 + 1,
            test,
        ),
        within(g, x0, x1, y0, y1, test) == area_near(
            g,
            if x0 < 0 {
                0
            } else {
                x0
            },
            if x1 < g.cols {
                x1
            } else {
                g.cols - 1
            },
            if y0 < 0 {
                0
            } else {
                y0
            },
            if y1 < g.rows {
                y1 + 1
            } else {
                g.rows
            },
            test,
        ),
{
    assert(y * g.cols == g.cols * y) by (nonlinear_arith);
}

} // verus!
