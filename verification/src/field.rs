//! The cost of crossing each cell of a grid.
//!
//! Costs are whole numbers; `BASE_COST` is the cost of a cell that nothing
//! has raised, and `IMPASSABLE` marks a cell that no route may enter.

use crate::geom::{distance_to_segment, segment_distance, Point, Rect};
use crate::grid::{lemma_index_in_total, Grid, GridCoord};
use vstd::prelude::*;

verus! {

/// The cost of a cell that nothing has raised.
pub const BASE_COST: u32 = 1000;

/// The cost that marks a cell as closed to every route.
pub const IMPASSABLE: u32 = 0xffff_ffff;

/// The penalty at the border of an obstacle.
pub const FALLOFF_WEIGHT: u32 = 3000;

/// The penalty on an earlier line.
pub const LINE_WEIGHT: u32 = 1000;

/// The penalty at distance `d` from something whose influence ends at
/// distance `reach`: `weight` at distance zero, falling off linearly.
pub open spec fn falloff_penalty(reach: int, d: int, weight: int) -> int {
    if reach <= 0 || d >= reach || d < 0 {
        0
    } else {
        weight * (reach - d) / reach
    }
}

/// A cost raised by a penalty. An impassable cell stays impassable, and no
/// penalty makes a passable cell impassable.
pub open spec fn raised(cost: u32, penalty: int) -> u32 {
    if cost == IMPASSABLE {
        IMPASSABLE
    } else if cost + penalty >= IMPASSABLE {
        (IMPASSABLE - 1) as u32
    } else {
        (cost + penalty) as u32
    }
}

/// The cost of a cell with middle `center` once an obstacle has been added.
pub open spec fn cost_with_rect(cost: u32, cell: i64, rect: Rect, radius: i64, center: Point) -> u32 {
    if rect.spec_contains(center) {
        IMPASSABLE
    } else {
        raised(cost, falloff_penalty(radius * cell, rect.distance(center), FALLOFF_WEIGHT as int))
    }
}

/// The cost of a cell with middle `center` once the first `n` segments of a
/// polyline have been added.
pub open spec fn cost_with_polyline(
    cost: u32,
    points: Seq<Point>,
    n: nat,
    width: i64,
    center: Point,
) -> u32
    decreases n,
{
    if n == 0 {
        cost
    } else {
        raised(
            cost_with_polyline(cost, points, (n - 1) as nat, width, center),
            falloff_penalty(
                width as int,
                segment_distance(center, points[n - 1], points[n as int]),
                LINE_WEIGHT as int,
            ),
        )
    }
}

/// The number of segments in a polyline of `len` points.
pub open spec fn segment_count(len: nat) -> nat {
    if len == 0 {
        0
    } else {
        (len - 1) as nat
    }
}

/// A cost for every cell of a grid, row after row.
#[derive(Debug, Clone)]
pub struct CostField {
    pub cost: Vec<u32>,
    pub grid: Grid,
}

impl CostField {
    /// The grid is well formed, every cell has its cost, and no cost is
    /// below the base cost.
    pub open spec fn wf(self) -> bool {
        &&& self.grid.wf()
        &&& self.cost.len() == self.grid.cell_total()
        &&& forall|i: int| 0 <= i < self.cost.len() ==> #[trigger] self.cost@[i] >= BASE_COST
    }

    /// The cost of a cell; none outside the grid.
    pub open spec fn spec_cost_at(self, c: GridCoord) -> Option<u32> {
        if self.grid.in_range(c) {
            Some(self.cost@[self.grid.spec_index(c)])
        } else {
            None
        }
    }

    /// The cell lies in the grid and is closed to every route.
    pub open spec fn blocked(self, c: GridCoord) -> bool {
        self.spec_cost_at(c) == Some(IMPASSABLE)
    }

    /// The cell lies in the grid and a route may enter it.
    pub open spec fn passable(self, c: GridCoord) -> bool {
        self.grid.in_range(c) && self.cost@[self.grid.spec_index(c)] != IMPASSABLE
    }

    /// Every cell has the base cost.
    pub open spec fn uniform(self) -> bool {
        forall|i: int| 0 <= i < self.cost.len() ==> self.cost@[i] == BASE_COST
    }

    /// A field in which every cell has the base cost.
    pub fn new(grid: Grid) -> (field: Self)
        requires
            grid.wf(),
            grid.cell_total() <= usize::MAX,
        ensures
            field.wf(),
            field.grid == grid,
            field.uniform(),
    {
        let total: usize = grid.cols * grid.rows;
        let mut cost: Vec<u32> = Vec::new();
        let mut i: usize = 0;
        while i < total
            invariant
                i <= total,
                cost.len() == i,
                forall|k: int| 0 <= k < i ==> cost@[k] == BASE_COST,
            decreases total - i,
        {
            cost.push(BASE_COST);
            i += 1;
        }
        Self { cost, grid }
    }

    /// The cost of a cell; none outside the grid.
    pub fn cost_at(&self, coords: GridCoord) -> (cost: Option<u32>)
        requires
            self.wf(),
        ensures
            cost == self.spec_cost_at(coords),
    {
        if coords.0 < self.grid.cols && coords.1 < self.grid.rows {
            let i: usize = self.grid.to_index(coords);
            Some(self.cost[i])
        } else {
            None
        }
    }

    /// Adds an obstacle: a cell whose middle lies in `block_rectangle`
    /// becomes impassable, and every other cell is raised by a penalty that
    /// is `FALLOFF_WEIGHT` at the rectangle and falls to nothing at `radius`
    /// cell sides from it.
    pub fn add_block_rect(&mut self, block_rectangle: Rect, radius: i64)
        requires
            old(self).wf(),
            block_rectangle.wf(),
        ensures
            final(self).wf(),
            final(self).grid == old(self).grid,
            forall|c: GridCoord| #[trigger]
                old(self).grid.in_range(c) ==> final(self).cost@[old(self).grid.spec_index(c)]
                    == cost_with_rect(
                    old(self).cost@[old(self).grid.spec_index(c)],
                    old(self).grid.cell,
                    block_rectangle,
                    radius,
                    old(self).grid.spec_center(c),
                ),
    {
        let total: usize = self.cost.len();
        let cols: usize = self.grid.cols;
        assert(-0x4000_0000_0000_0000_0000_0000_0000 <= radius * self.grid.cell
            <= 0x4000_0000_0000_0000_0000_0000_0000) by (nonlinear_arith)
            requires
                -0x8000_0000_0000_0000 <= radius <= 0x8000_0000_0000_0000,
                1 <= self.grid.cell <= 0x100_0000_0000,
        ;
        let reach: i128 = (radius as i128) * (self.grid.cell as i128);
        let mut i: usize = 0;
        while i < total
            invariant
                i <= total,
                total == self.cost.len(),
                cols == self.grid.cols,
                self.wf(),
                self.grid == old(self).grid,
                block_rectangle.wf(),
                reach == radius * self.grid.cell,
                -0x4000_0000_0000_0000_0000_0000_0000 <= reach
                    <= 0x4000_0000_0000_0000_0000_0000_0000,
                total == old(self).cost.len(),
                forall|k: int|
                    0 <= k < i ==> self.cost@[k] == cost_with_rect(
                        old(self).cost@[k],
                        self.grid.cell,
                        block_rectangle,
                        radius,
                        self.grid.spec_center(self.grid.spec_coord(k)),
                    ),
                forall|k: int| i <= k < total ==> self.cost@[k] == old(self).cost@[k],
            decreases total - i,
        {
            proof {
                lemma_coord_of_index(self.grid, i as int);
            }
            let coords: GridCoord = (i % cols, i / cols);
            let center: Point = self.grid.cell_center(coords);
            let before: u32 = self.cost[i];
            let after: u32 = if block_rectangle.contains(center) {
                IMPASSABLE
            } else {
                let d: u64 = block_rectangle.distance_to_pos(center);
                raise(before, penalty(reach, d, FALLOFF_WEIGHT))
            };
            self.cost.set(i, after);
            i += 1;
        }
        proof {
            assert forall|c: GridCoord| #[trigger]
                old(self).grid.in_range(c) implies self.cost@[old(self).grid.spec_index(c)]
                == cost_with_rect(
                old(self).cost@[old(self).grid.spec_index(c)],
                old(self).grid.cell,
                block_rectangle,
                radius,
                old(self).grid.spec_center(c),
            ) by {
                lemma_index_in_total(
                    self.grid.cols as int,
                    self.grid.rows as int,
                    c.0 as int,
                    c.1 as int,
                );
            }
        }
    }

    /// Adds an obstacle grown by `margin` on every side.
    pub fn add_obstacle_rect(&mut self, rect: Rect, margin: i64, radius: i64)
        requires
            old(self).wf(),
            rect.wf(),
            0 <= margin,
        ensures
            final(self).wf(),
            final(self).grid == old(self).grid,
            forall|c: GridCoord| #[trigger]
                old(self).grid.in_range(c) ==> final(self).cost@[old(self).grid.spec_index(c)]
                    == cost_with_rect(
                    old(self).cost@[old(self).grid.spec_index(c)],
                    old(self).grid.cell,
                    rect.spec_expand(margin as int),
                    radius,
                    old(self).grid.spec_center(c),
                ),
    {
        let grown: Rect = rect.expand(margin);
        self.add_block_rect(grown, radius);
    }

    /// Adds an earlier line: segment by segment, every cell within `width`
    /// of the segment is raised by a penalty that is `LINE_WEIGHT` on the
    /// segment and falls to nothing at `width` from it.
    pub fn add_polyline_penalty(&mut self, points: &Vec<Point>, width: i64)
        requires
            old(self).wf(),
            forall|k: int| 0 <= k < points.len() ==> (#[trigger] points[k]).wf(),
        ensures
            final(self).wf(),
            final(self).grid == old(self).grid,
            forall|c: GridCoord| #[trigger]
                old(self).grid.in_range(c) ==> final(self).cost@[old(self).grid.spec_index(c)]
                    == cost_with_polyline(
                    old(self).cost@[old(self).grid.spec_index(c)],
                    points@,
                    segment_count(points@.len()),
                    width,
                    old(self).grid.spec_center(c),
                ),
    {
        let total: usize = self.cost.len();
        let cols: usize = self.grid.cols;
        let mut s: usize = 0;
        while points.len() >= 2 && s < points.len() - 1
            invariant
                s <= segment_count(points@.len()),
                total == self.cost.len(),
                total == old(self).cost.len(),
                cols == self.grid.cols,
                self.wf(),
                self.grid == old(self).grid,
                forall|k: int| 0 <= k < points.len() ==> (#[trigger] points[k]).wf(),
                forall|k: int|
                    0 <= k < total ==> self.cost@[k] == cost_with_polyline(
                        old(self).cost@[k],
                        points@,
                        s as nat,
                        width,
                        self.grid.spec_center(self.grid.spec_coord(k)),
                    ),
            decreases points.len() - s,
        {
            let a: Point = points[s];
            let b: Point = points[s + 1];
            let ghost start = self.cost@;
            let mut i: usize = 0;
            while i < total
                invariant
                    i <= total,
                    s + 1 < points.len(),
                    a == points@[s as int],
                    b == points@[s + 1],
                    a.wf(),
                    b.wf(),
                    total == self.cost.len(),
                    total == start.len(),
                    cols == self.grid.cols,
                    self.wf(),
                    self.grid == old(self).grid,
                    forall|k: int|
                        0 <= k < i ==> self.cost@[k] == raised(
                            start[k],
                            falloff_penalty(
                                width as int,
                                segment_distance(
                                    self.grid.spec_center(self.grid.spec_coord(k)),
                                    a,
                                    b,
                                ),
                                LINE_WEIGHT as int,
                            ),
                        ),
                    forall|k: int| i <= k < total ==> self.cost@[k] == start[k],
                decreases total - i,
            {
                proof {
                    lemma_coord_of_index(self.grid, i as int);
                }
                let coords: GridCoord = (i % cols, i / cols);
                let center: Point = self.grid.cell_center(coords);
                let d: u64 = distance_to_segment(center, a, b);
                let before: u32 = self.cost[i];
                let after: u32 = raise(before, penalty(width as i128, d, LINE_WEIGHT));
                self.cost.set(i, after);
                i += 1;
            }
            s += 1;
        }
        proof {
            assert forall|c: GridCoord| #[trigger]
                old(self).grid.in_range(c) implies self.cost@[old(self).grid.spec_index(c)]
                == cost_with_polyline(
                old(self).cost@[old(self).grid.spec_index(c)],
                points@,
                segment_count(points@.len()),
                width,
                old(self).grid.spec_center(c),
            ) by {
                lemma_index_in_total(
                    self.grid.cols as int,
                    self.grid.rows as int,
                    c.0 as int,
                    c.1 as int,
                );
            }
        }
    }
}

/// Computes the penalty at distance `d`.
fn penalty(reach: i128, d: u64, weight: u32) -> (p: u32)
    requires
        -0x4000_0000_0000_0000_0000_0000_0000 <= reach <= 0x4000_0000_0000_0000_0000_0000_0000,
        weight <= 0xffff,
    ensures
        p as int == falloff_penalty(reach as int, d as int, weight as int),
        p <= weight,
{
    if reach <= 0 || d as i128 >= reach {
        0
    } else {
        let left: i128 = reach - d as i128;
        assert(0 <= weight * left <= weight * reach && weight * reach
            <= 0xffff * 0x4000_0000_0000_0000_0000_0000_0000) by (nonlinear_arith)
            requires
                0 < left <= reach,
                reach <= 0x4000_0000_0000_0000_0000_0000_0000,
                0 <= weight <= 0xffff,
        ;
        let scaled: i128 = (weight as i128) * left;
        let q: i128 = scaled / reach;
        assert(0 <= q <= weight) by (nonlinear_arith)
            requires
                q == scaled as int / reach as int,
                0 <= scaled <= weight * reach,
                reach > 0,
        ;
        q as u32
    }
}

/// Raises a cost by a penalty.
fn raise(cost: u32, penalty: u32) -> (r: u32)
    ensures
        r == raised(cost, penalty as int),
{
    if cost == IMPASSABLE {
        IMPASSABLE
    } else if penalty >= IMPASSABLE - cost {
        IMPASSABLE - 1
    } else {
        cost + penalty
    }
}

/// The cell at a place of the row-major array lies in the grid, and the
/// place is its index.
pub proof fn lemma_coord_of_index(grid: Grid, index: int)
    requires
        0 <= index < grid.cell_total(),
    ensures
        grid.cols > 0,
        0 <= index % (grid.cols as int) < grid.cols,
        0 <= index / (grid.cols as int) < grid.rows,
        grid.in_range(grid.spec_coord(index)),
        grid.spec_index(grid.spec_coord(index)) == index,
{
    let cols = grid.cols as int;
    let rows = grid.rows as int;
    assert(cols > 0) by (nonlinear_arith)
        requires
            0 <= index < cols * rows,
            cols >= 0,
    ;
    vstd::arithmetic::div_mod::lemma_fundamental_div_mod(index, cols);
    vstd::arithmetic::div_mod::lemma_mod_bound(index, cols);
    let q = index / cols;
    let r = index % cols;
    assert(cols * q == q * cols) by (nonlinear_arith);
    assert(0 <= q < rows) by (nonlinear_arith)
        requires
            index == q * cols + r,
            0 <= r < cols,
            0 <= index < cols * rows,
    ;
}

/// A cell whose middle lies in an obstacle is impassable once the obstacle
/// has been added, whatever its cost was.
pub proof fn lemma_obstacle_blocks(cost: u32, cell: i64, rect: Rect, radius: i64, center: Point)
    requires
        rect.spec_contains(center),
    ensures
        cost_with_rect(cost, cell, rect, radius, center) == IMPASSABLE,
{
}

/// Adding an obstacle lowers no cost, leaves an impassable cell impassable,
/// and makes a cell impassable only where its middle lies in the obstacle.
pub proof fn lemma_obstacle_raises(cost: u32, cell: i64, rect: Rect, radius: i64, center: Point)
    ensures
        cost_with_rect(cost, cell, rect, radius, center) >= cost,
        cost == IMPASSABLE ==> cost_with_rect(cost, cell, rect, radius, center) == IMPASSABLE,
        cost != IMPASSABLE && !rect.spec_contains(center) ==> cost_with_rect(
            cost,
            cell,
            rect,
            radius,
            center,
        ) != IMPASSABLE,
{
    lemma_penalty_bounds(radius * cell, rect.distance(center), FALLOFF_WEIGHT as int);
}

/// A penalty is not negative and not greater than its weight.
pub proof fn lemma_penalty_bounds(reach: int, d: int, weight: int)
    requires
        0 <= weight,
    ensures
        0 <= falloff_penalty(reach, d, weight) <= weight,
{
    if !(reach <= 0 || d >= reach || d < 0) {
        let left = reach - d;
        assert(0 <= weight * left <= weight * reach) by (nonlinear_arith)
            requires
                0 < left <= reach,
                0 <= weight,
        ;
        assert(0 <= weight * left / reach <= weight) by (nonlinear_arith)
            requires
                0 <= weight * left <= weight * reach,
                reach > 0,
        ;
    }
}

/// Adding a polyline lowers no cost, leaves an impassable cell impassable,
/// and makes no passable cell impassable.
pub proof fn lemma_polyline_raises(cost: u32, points: Seq<Point>, n: nat, width: i64, center: Point)
    ensures
        cost_with_polyline(cost, points, n, width, center) >= cost,
        cost == IMPASSABLE <==> cost_with_polyline(cost, points, n, width, center) == IMPASSABLE,
    decreases n,
{
    if n > 0 {
        lemma_polyline_raises(cost, points, (n - 1) as nat, width, center);
        lemma_penalty_bounds(
            width as int,
            segment_distance(center, points[n - 1], points[n as int]),
            LINE_WEIGHT as int,
        );
    }
}

} // verus!
