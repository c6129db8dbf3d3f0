//! The grid that cuts the scene into square cells.

use crate::geom::{floor_div, lemma_floor_of_negative, Point, Rect, WORLD_LIMIT};
use vstd::prelude::*;

verus! {

/// A cell of a grid: its column, then its row.
pub type GridCoord = (usize, usize);

/// A rectangle of `cols` by `rows` square cells of side `cell`, whose
/// corner of least coordinates lies at `origin`.
#[derive(Clone, Copy, Debug)]
pub struct Grid {
    pub origin: Point,
    pub cols: usize,
    pub rows: usize,
    pub cell: i64,
}

/// `v` held between `0` and `count - 1`.
pub open spec fn clamp_index(v: int, count: int) -> int {
    if v < 0 {
        0
    } else if v >= count {
        count - 1
    } else {
        v
    }
}

/// The sign of `b - a`: -1, 0 or 1.
pub open spec fn step_sign(a: int, b: int) -> int {
    if b > a {
        1
    } else if b < a {
        -1
    } else {
        0
    }
}

/// Two cells share a side.
pub open spec fn adjacent(a: GridCoord, b: GridCoord) -> bool {
    ||| (a.1 == b.1 && (a.0 + 1 == b.0 || b.0 + 1 == a.0))
    ||| (a.0 == b.0 && (a.1 + 1 == b.1 || b.1 + 1 == a.1))
}

/// The number of steps between two cells when each step crosses one side.
pub open spec fn manhattan_distance(a: GridCoord, b: GridCoord) -> int {
    (if a.0 <= b.0 { b.0 - a.0 } else { a.0 - b.0 }) + (if a.1 <= b.1 { b.1 - a.1 } else { a.1 - b.1 })
}

impl Grid {
    /// The cell side is positive and every cell lies within twice the
    /// world limit.
    pub open spec fn wf(self) -> bool {
        &&& 1 <= self.cell <= WORLD_LIMIT
        &&& -2 * WORLD_LIMIT <= self.origin.x
        &&& -2 * WORLD_LIMIT <= self.origin.y
        &&& self.origin.x + self.cols * self.cell <= 2 * WORLD_LIMIT
        &&& self.origin.y + self.rows * self.cell <= 2 * WORLD_LIMIT
    }

    /// The grid has no cell.
    pub open spec fn is_empty(self) -> bool {
        self.cols == 0 || self.rows == 0
    }

    /// The number of cells.
    pub open spec fn cell_total(self) -> int {
        self.cols * self.rows
    }

    pub open spec fn in_range(self, c: GridCoord) -> bool {
        c.0 < self.cols && c.1 < self.rows
    }

    /// The place of a cell in a row-major array of the cells.
    pub open spec fn spec_index(self, c: GridCoord) -> int {
        c.1 * self.cols + c.0
    }

    /// The cell at a place of a row-major array of the cells.
    pub open spec fn spec_coord(self, index: int) -> GridCoord {
        ((index % self.cols as int) as usize, (index / self.cols as int) as usize)
    }

    /// The middle of a cell, each coordinate rounded down.
    pub open spec fn spec_center(self, c: GridCoord) -> Point {
        Point {
            x: (self.origin.x + c.0 * self.cell + self.cell / 2) as i64,
            y: (self.origin.y + c.1 * self.cell + self.cell / 2) as i64,
        }
    }

    /// The cell that holds `p`, or the nearest cell where `p` lies outside
    /// the grid.
    pub open spec fn spec_cell_of(self, p: Point) -> GridCoord {
        (
            clamp_index((p.x - self.origin.x) / self.cell as int, self.cols as int) as usize,
            clamp_index((p.y - self.origin.y) / self.cell as int, self.rows as int) as usize,
        )
    }

    /// The neighbours of a cell across its four sides, as far as they exist:
    /// right, left, below, above.
    pub open spec fn spec_neighbors(self, c: GridCoord) -> Seq<GridCoord> {
        let right: Seq<GridCoord> = if c.0 + 1 < self.cols {
            seq![((c.0 + 1) as usize, c.1)]
        } else {
            seq![]
        };
        let left: Seq<GridCoord> = if c.0 >= 1 {
            seq![((c.0 - 1) as usize, c.1)]
        } else {
            seq![]
        };
        let below: Seq<GridCoord> = if c.1 + 1 < self.rows {
            seq![(c.0, (c.1 + 1) as usize)]
        } else {
            seq![]
        };
        let above: Seq<GridCoord> = if c.1 >= 1 {
            seq![(c.0, (c.1 - 1) as usize)]
        } else {
            seq![]
        };
        right + left + below + above
    }

    /// A scene and a cell side from which a grid with cells can be cut.
    pub open spec fn usable(scene: Rect, cell: i64) -> bool {
        &&& scene.wf()
        &&& 1 <= cell <= WORLD_LIMIT
        &&& scene.spec_width() / cell as int <= usize::MAX
        &&& scene.spec_height() / cell as int <= usize::MAX
    }

    /// The grid cut from `scene` with cells of side `cell`.
    ///
    /// The grid has as many whole cells as fit into the scene each way, and
    /// its origin is the scene's least corner moved down to a multiple of
    /// the cell side. A scene or a cell side that cannot be used gives a
    /// grid without cells.
    pub open spec fn spec_from_scene(scene: Rect, cell: i64) -> Grid {
        if Self::usable(scene, cell) {
            Grid {
                origin: Point {
                    x: (scene.min.x as int / cell as int * cell) as i64,
                    y: (scene.min.y as int / cell as int * cell) as i64,
                },
                cols: (scene.spec_width() / cell as int) as usize,
                rows: (scene.spec_height() / cell as int) as usize,
                cell,
            }
        } else {
            Grid { origin: Point { x: 0, y: 0 }, cols: 0, rows: 0, cell: 1 }
        }
    }

    /// Cuts `scene` into cells of side `cell`.
    pub fn from_scene(scene: Rect, cell: i64) -> (g: Grid)
        ensures
            g.wf(),
            g == Self::spec_from_scene(scene, cell),
    {
        let none = Grid { origin: Point { x: 0, y: 0 }, cols: 0, rows: 0, cell: 1 };
        if !scene.is_valid() || cell < 1 || cell > WORLD_LIMIT {
            return none;
        }
        let wide: i64 = scene.width() / cell;
        let high: i64 = scene.height() / cell;
        if wide as u64 > usize::MAX as u64 || high as u64 > usize::MAX as u64 {
            return none;
        }
        let qx: i64 = floor_div(scene.min.x, cell);
        let qy: i64 = floor_div(scene.min.y, cell);
        proof {
            lemma_aligned_origin(scene.min.x as int, scene.spec_width(), cell as int);
            lemma_aligned_origin(scene.min.y as int, scene.spec_height(), cell as int);
        }
        Grid {
            origin: Point { x: qx * cell, y: qy * cell },
            cols: wide as usize,
            rows: high as usize,
            cell,
        }
    }

    /// The number of cells, where it fits the machine's index type.
    pub fn cell_count(&self) -> (n: Option<usize>)
        ensures
            match n {
                Some(v) => v == self.cell_total(),
                None => self.cell_total() > usize::MAX,
            },
    {
        self.cols.checked_mul(self.rows)
    }

    /// Gets the neighbours of a cell across its four sides that lie inside
    /// the grid.
    pub fn cardinal_neighbors(&self, coords: GridCoord) -> (neighbors: Vec<GridCoord>)
        ensures
            neighbors@ == self.spec_neighbors(coords),
            self.in_range(coords) ==> forall|i: int|
                0 <= i < neighbors.len() ==> self.in_range(#[trigger] neighbors[i]) && adjacent(
                    coords,
                    neighbors[i],
                ),
    {
        let (x, y) = coords;
        let mut neighbors: Vec<GridCoord> = Vec::new();
        if self.cols > 0 && x < self.cols - 1 {
            neighbors.push((x + 1, y));
        }
        if x >= 1 {
            neighbors.push((x - 1, y));
        }
        if self.rows > 0 && y < self.rows - 1 {
            neighbors.push((x, y + 1));
        }
        if y >= 1 {
            neighbors.push((x, y - 1));
        }
        assert(neighbors@ =~= self.spec_neighbors(coords));
        neighbors
    }

    /// Converts a position to the cell that holds it; a position outside
    /// the grid goes to the nearest cell.
    pub fn to_cell(&self, p: Point) -> (c: GridCoord)
        requires
            self.wf(),
            !self.is_empty(),
        ensures
            c == self.spec_cell_of(p),
            self.in_range(c),
    {
        (
            snap(p.x, self.origin.x, self.cell, self.cols),
            snap(p.y, self.origin.y, self.cell, self.rows),
        )
    }

    /// Converts a cell to its place in a row-major array of the cells.
    pub fn to_index(&self, coords: GridCoord) -> (i: usize)
        requires
            self.in_range(coords),
            self.cell_total() <= usize::MAX,
        ensures
            i == self.spec_index(coords),
            i < self.cell_total(),
    {
        proof {
            lemma_index_in_total(self.cols as int, self.rows as int, coords.0 as int, coords.1 as int);
        }
        coords.1 * self.cols + coords.0
    }

    /// Returns the position of the middle of a cell.
    pub fn cell_center(&self, coords: GridCoord) -> (p: Point)
        requires
            self.wf(),
            self.in_range(coords),
        ensures
            p == self.spec_center(coords),
            -2 * WORLD_LIMIT <= p.x <= 2 * WORLD_LIMIT,
            -2 * WORLD_LIMIT <= p.y <= 2 * WORLD_LIMIT,
    {
        Point {
            x: middle(self.origin.x, self.cell, coords.0, self.cols),
            y: middle(self.origin.y, self.cell, coords.1, self.rows),
        }
    }

    /// Returns which way one goes from `a` to `b`, each axis as -1, 0 or 1.
    pub fn get_direction(a: GridCoord, b: GridCoord) -> (d: (i8, i8))
        ensures
            d.0 == step_sign(a.0 as int, b.0 as int),
            d.1 == step_sign(a.1 as int, b.1 as int),
    {
        (sign_of(a.0, b.0), sign_of(a.1, b.1))
    }
}

fn sign_of(a: usize, b: usize) -> (s: i8)
    ensures
        s == step_sign(a as int, b as int),
{
    if b > a {
        1
    } else if b < a {
        -1
    } else {
        0
    }
}

/// One coordinate of `Grid::to_cell`.
fn snap(v: i64, origin: i64, cell: i64, count: usize) -> (k: usize)
    requires
        1 <= cell <= WORLD_LIMIT,
        count > 0,
    ensures
        k == clamp_index((v - origin) / cell as int, count as int),
        k < count,
{
    let rel: i128 = v as i128 - origin as i128;
    if rel < 0 {
        proof {
            lemma_floor_of_negative(rel as int, cell as int);
        }
        0
    } else {
        let q: i128 = rel / (cell as i128);
        assert(q >= 0) by (nonlinear_arith)
            requires
                q == rel as int / cell as int,
                rel >= 0,
                cell > 0,
        ;
        if q >= count as i128 {
            count - 1
        } else {
            q as usize
        }
    }
}

/// One coordinate of `Grid::cell_center`.
fn middle(origin: i64, cell: i64, k: usize, count: usize) -> (m: i64)
    requires
        1 <= cell <= WORLD_LIMIT,
        k < count,
        -2 * WORLD_LIMIT <= origin,
        origin + count * cell <= 2 * WORLD_LIMIT,
    ensures
        m == origin + k * cell + cell / 2,
        origin + k * cell <= m < origin + (k + 1) * cell,
        -2 * WORLD_LIMIT <= m <= 2 * WORLD_LIMIT,
{
    proof {
        lemma_cell_span(cell as int, k as int, count as int);
    }
    let off: i128 = (k as i128) * (cell as i128);
    (origin as i128 + off + (cell / 2) as i128) as i64
}

/// The cells before cell `k` and cell `k` itself fit into the span of the
/// first `count` cells.
pub proof fn lemma_cell_span(cell: int, k: int, count: int)
    requires
        1 <= cell,
        0 <= k < count,
    ensures
        0 <= k * cell,
        (k + 1) * cell == k * cell + cell,
        (k + 1) * cell <= count * cell,
{
    assert(0 <= k * cell) by (nonlinear_arith)
        requires
            0 <= k,
            1 <= cell,
    ;
    assert((k + 1) * cell == k * cell + cell) by (nonlinear_arith);
    assert((k + 1) * cell <= count * cell) by (nonlinear_arith)
        requires
            k + 1 <= count,
            1 <= cell,
    ;
}

/// A row-major index of a cell inside the grid is below the cell count.
pub proof fn lemma_index_in_total(cols: int, rows: int, x: int, y: int)
    requires
        0 <= x < cols,
        0 <= y < rows,
    ensures
        0 <= y * cols + x < cols * rows,
        (y * cols + x) % cols == x,
        (y * cols + x) / cols == y,
{
    assert(y * cols + cols <= rows * cols) by (nonlinear_arith)
        requires
            y + 1 <= rows,
            0 <= cols,
    ;
    assert(rows * cols == cols * rows) by (nonlinear_arith);
    assert(0 <= y * cols) by (nonlinear_arith)
        requires
            0 <= y,
            0 <= cols,
    ;
    assert(y * cols == cols * y) by (nonlinear_arith);
    vstd::arithmetic::div_mod::lemma_fundamental_div_mod_converse(y * cols + x, cols, y, x);
}

/// The origin moved down to a multiple of the cell side stays within twice
/// the world limit, and the whole cells that fit the scene end inside it.
pub proof fn lemma_aligned_origin(min: int, extent: int, cell: int)
    requires
        -WORLD_LIMIT <= min <= WORLD_LIMIT,
        0 <= extent,
        min + extent <= WORLD_LIMIT,
        1 <= cell <= WORLD_LIMIT,
    ensures
        min - cell < min / cell * cell <= min,
        -WORLD_LIMIT <= min / cell <= WORLD_LIMIT,
        0 <= extent / cell <= extent,
        extent / cell * cell <= extent,
        min / cell * cell + extent / cell * cell <= 2 * WORLD_LIMIT,
{
    vstd::arithmetic::div_mod::lemma_fundamental_div_mod(min, cell);
    vstd::arithmetic::div_mod::lemma_mod_bound(min, cell);
    vstd::arithmetic::div_mod::lemma_fundamental_div_mod(extent, cell);
    vstd::arithmetic::div_mod::lemma_mod_bound(extent, cell);
    let q = min / cell;
    let e = extent / cell;
    assert(cell * q == q * cell) by (nonlinear_arith);
    assert(cell * e == e * cell) by (nonlinear_arith);
    assert(-WORLD_LIMIT <= q <= WORLD_LIMIT) by (nonlinear_arith)
        requires
            min - cell < q * cell <= min,
            -WORLD_LIMIT <= min <= WORLD_LIMIT,
            1 <= cell,
    ;
    assert(0 <= e <= extent) by (nonlinear_arith)
        requires
            extent - cell < e * cell <= extent,
            0 <= extent,
            1 <= cell,
    ;
}

/// Converting the middle of a cell back to a cell gives that cell.
pub proof fn lemma_center_round_trip(grid: Grid, c: GridCoord)
    requires
        grid.wf(),
        grid.in_range(c),
    ensures
        grid.spec_cell_of(grid.spec_center(c)) == c,
{
    lemma_axis_round_trip(grid.origin.x as int, grid.cell as int, c.0 as int, grid.cols as int);
    lemma_axis_round_trip(grid.origin.y as int, grid.cell as int, c.1 as int, grid.rows as int);
}

/// One coordinate of the round trip from a cell to its middle and back.
pub proof fn lemma_axis_round_trip(origin: int, cell: int, k: int, count: int)
    requires
        1 <= cell <= WORLD_LIMIT,
        0 <= k < count,
        -2 * WORLD_LIMIT <= origin,
        origin + count * cell <= 2 * WORLD_LIMIT,
    ensures
        -2 * WORLD_LIMIT <= origin + k * cell + cell / 2 <= 2 * WORLD_LIMIT,
        clamp_index((origin + k * cell + cell / 2 - origin) / cell, count) == k,
{
    lemma_cell_span(cell, k, count);
    let half = cell / 2;
    assert(0 <= half < cell);
    assert(k * cell == cell * k) by (nonlinear_arith);
    vstd::arithmetic::div_mod::lemma_fundamental_div_mod_converse(k * cell + half, cell, k, half);
}

} // verus!
