//! Integer geometry of the scene: points, rectangles and distances.
//!
//! World coordinates are whole numbers of a unit that the caller chooses.
//! Distances are Euclidean, rounded down to a whole unit.

use vstd::prelude::*;

verus! {

/// Largest magnitude of a world coordinate.
pub const WORLD_LIMIT: i64 = 1_099_511_627_776;

/// `r` is the square root of `n`, rounded down.
pub open spec fn is_floor_sqrt(n: int, r: int) -> bool {
    0 <= r && r * r <= n && n < (r + 1) * (r + 1)
}

/// The square root of `n`, rounded down.
pub open spec fn floor_sqrt(n: int) -> int {
    choose|r: int| is_floor_sqrt(n, r)
}

/// A number has at most one rounded-down square root.
pub proof fn lemma_floor_sqrt_unique(n: int, a: int, b: int)
    requires
        is_floor_sqrt(n, a),
        is_floor_sqrt(n, b),
    ensures
        a == b,
{
    if a < b {
        assert((a + 1) * (a + 1) <= b * b) by (nonlinear_arith)
            requires
                0 <= a,
                a + 1 <= b,
        ;
    }
    if b < a {
        assert((b + 1) * (b + 1) <= a * a) by (nonlinear_arith)
            requires
                0 <= b,
                b + 1 <= a,
        ;
    }
}

/// Squaring keeps the order of non-negative numbers.
pub proof fn lemma_square_monotone(a: int, b: int)
    requires
        0 <= a <= b,
    ensures
        a * a <= b * b,
{
    assert(a * a <= b * b) by (nonlinear_arith)
        requires
            0 <= a <= b,
    ;
}

/// Computes the square root of `n`, rounded down.
pub fn isqrt(n: u128) -> (r: u64)
    requires
        n < 0x4000_0000_0000_0000_0000_0000_0000_0000,
    ensures
        is_floor_sqrt(n as int, r as int),
        r as int == floor_sqrt(n as int),
{
    let mut lo: u128 = 0;
    let mut hi: u128 = 0x8000_0000_0000_0000;
    assert(0x8000_0000_0000_0000int * 0x8000_0000_0000_0000int
        == 0x4000_0000_0000_0000_0000_0000_0000_0000int) by (nonlinear_arith);
    while hi - lo > 1
        invariant
            lo < hi <= 0x8000_0000_0000_0000,
            lo * lo <= n,
            n < hi * hi,
        decreases hi - lo,
    {
        let mid: u128 = lo + (hi - lo) / 2;
        assert(mid * mid <= 0x4000_0000_0000_0000_0000_0000_0000_0000int) by (nonlinear_arith)
            requires
                0 <= mid <= 0x8000_0000_0000_0000int,
        ;
        if mid * mid <= n {
            lo = mid;
        } else {
            hi = mid;
        }
    }
    proof {
        assert(hi == lo + 1);
        let w = floor_sqrt(n as int);
        assert(is_floor_sqrt(n as int, lo as int));
        lemma_floor_sqrt_unique(n as int, lo as int, w);
    }
    lo as u64
}

/// Computes `a / b` rounded towards negative infinity.
pub fn floor_div(a: i64, b: i64) -> (q: i64)
    requires
        b > 0,
    ensures
        q as int == (a as int) / (b as int),
{
    if a >= 0 {
        a / b
    } else {
        let n: i128 = -(a as i128);
        let d: i128 = b as i128;
        let up: i128 = (n + d - 1) / d;
        proof {
            lemma_floor_of_negative(a as int, b as int);
        }
        (-up) as i64
    }
}

/// For a negative numerator the floor of a quotient is the negated ceiling
/// of the quotient of the magnitudes.
pub proof fn lemma_floor_of_negative(a: int, b: int)
    requires
        a < 0,
        b > 0,
    ensures
        a / b == -((-a + b - 1) / b),
        a <= a / b * b + b - 1,
        a / b * b <= a,
        a / b < 0,
        a / b >= a,
{
    let q = a / b;
    let r = a % b;
    vstd::arithmetic::div_mod::lemma_fundamental_div_mod(a, b);
    vstd::arithmetic::div_mod::lemma_mod_bound(a, b);
    assert(a == b * q + r);
    assert(b * q == q * b) by (nonlinear_arith);
    let m = -a + b - 1;
    // m == b * (-q) + (b - 1 - r), with 0 <= b - 1 - r < b
    assert(m == b * (-q) + (b - 1 - r)) by (nonlinear_arith)
        requires
            m == -a + b - 1,
            a == b * q + r,
    ;
    vstd::arithmetic::div_mod::lemma_fundamental_div_mod_converse(m, b, -q, b - 1 - r);
    assert(q < 0) by (nonlinear_arith)
        requires
            a == b * q + r,
            a < 0,
            0 <= r,
            b > 0,
    ;
    assert(q >= a) by (nonlinear_arith)
        requires
            a == b * q + r,
            a < 0,
            r < b,
            b > 0,
            q < 0,
    ;
}

/// A position in the scene.
#[derive(Clone, Copy, Debug, PartialEq, Eq, Structural)]
pub struct Point {
    pub x: i64,
    pub y: i64,
}

impl Point {
    /// Both coordinates lie within the world limit.
    pub open spec fn wf(self) -> bool {
        &&& -WORLD_LIMIT <= self.x <= WORLD_LIMIT
        &&& -WORLD_LIMIT <= self.y <= WORLD_LIMIT
    }

    pub fn new(x: i64, y: i64) -> (p: Point)
        ensures
            p == (Point { x, y }),
    {
        Point { x, y }
    }

    /// Tells whether the point lies within the world limit.
    pub fn is_valid(&self) -> (b: bool)
        ensures
            b == self.wf(),
    {
        -WORLD_LIMIT <= self.x && self.x <= WORLD_LIMIT && -WORLD_LIMIT <= self.y && self.y
            <= WORLD_LIMIT
    }
}

/// How far `v` lies outside the interval from `lo` to `hi`.
pub open spec fn axis_gap(lo: int, hi: int, v: int) -> int {
    if v < lo {
        lo - v
    } else if v > hi {
        v - hi
    } else {
        0
    }
}

/// The squared length of the vector `(dx, dy)`.
pub open spec fn norm_sq(dx: int, dy: int) -> int {
    dx * dx + dy * dy
}

/// The squared distance between two points.
pub open spec fn point_distance_sq(a: Point, b: Point) -> int {
    norm_sq(b.x - a.x, b.y - a.y)
}

/// The distance from `p` to the segment from `a` to `b`, in whole units.
///
/// Where `p` projects onto the inside of the segment this is the area of
/// the parallelogram of the two vectors divided by the rounded-down length
/// of the segment; elsewhere it is the distance to the nearer end.
pub open spec fn segment_distance(p: Point, a: Point, b: Point) -> int {
    let abx = b.x - a.x;
    let aby = b.y - a.y;
    let apx = p.x - a.x;
    let apy = p.y - a.y;
    let dot = abx * apx + aby * apy;
    let len_sq = norm_sq(abx, aby);
    if dot <= 0 {
        floor_sqrt(point_distance_sq(a, p))
    } else if dot >= len_sq {
        floor_sqrt(point_distance_sq(b, p))
    } else {
        let cross = abx * apy - aby * apx;
        (if cross < 0 { -cross } else { cross }) / floor_sqrt(len_sq)
    }
}

/// An axis-aligned rectangle, corners included.
#[derive(Clone, Copy, Debug, PartialEq, Eq, Structural)]
pub struct Rect {
    pub min: Point,
    pub max: Point,
}

impl Rect {
    /// Both corners are valid points and `min` is not beyond `max`.
    pub open spec fn wf(self) -> bool {
        &&& self.min.wf()
        &&& self.max.wf()
        &&& self.min.x <= self.max.x
        &&& self.min.y <= self.max.y
    }

    pub open spec fn spec_contains(self, p: Point) -> bool {
        &&& self.min.x <= p.x <= self.max.x
        &&& self.min.y <= p.y <= self.max.y
    }

    pub open spec fn spec_width(self) -> int {
        self.max.x - self.min.x
    }

    pub open spec fn spec_height(self) -> int {
        self.max.y - self.min.y
    }

    /// The rectangle grown by `amount` on every side, each corner held
    /// within the world limit.
    pub open spec fn spec_expand(self, amount: int) -> Rect {
        Rect {
            min: Point {
                x: clamp_world(self.min.x - amount),
                y: clamp_world(self.min.y - amount),
            },
            max: Point {
                x: clamp_world(self.max.x + amount),
                y: clamp_world(self.max.y + amount),
            },
        }
    }

    pub open spec fn spec_union(self, other: Rect) -> Rect {
        Rect {
            min: Point {
                x: if self.min.x <= other.min.x { self.min.x } else { other.min.x },
                y: if self.min.y <= other.min.y { self.min.y } else { other.min.y },
            },
            max: Point {
                x: if self.max.x >= other.max.x { self.max.x } else { other.max.x },
                y: if self.max.y >= other.max.y { self.max.y } else { other.max.y },
            },
        }
    }

    /// The horizontal middle, rounded down.
    pub open spec fn spec_center_x(self) -> int {
        (self.min.x + self.max.x) / 2
    }

    /// The squared distance from the rectangle to `p`; zero inside.
    pub open spec fn distance_sq(self, p: Point) -> int {
        norm_sq(
            axis_gap(self.min.x as int, self.max.x as int, p.x as int),
            axis_gap(self.min.y as int, self.max.y as int, p.y as int),
        )
    }

    /// The distance from the rectangle to `p` in whole units; zero inside.
    pub open spec fn distance(self, p: Point) -> int {
        floor_sqrt(self.distance_sq(p))
    }

    pub fn new(min: Point, max: Point) -> (r: Rect)
        ensures
            r == (Rect { min, max }),
    {
        Rect { min, max }
    }

    /// Tells whether the rectangle is well formed.
    pub fn is_valid(&self) -> (b: bool)
        ensures
            b == self.wf(),
    {
        self.min.is_valid() && self.max.is_valid() && self.min.x <= self.max.x && self.min.y
            <= self.max.y
    }

    /// Tells whether `p` lies in the rectangle, borders included.
    pub fn contains(&self, p: Point) -> (b: bool)
        ensures
            b == self.spec_contains(p),
    {
        self.min.x <= p.x && p.x <= self.max.x && self.min.y <= p.y && p.y <= self.max.y
    }

    pub fn width(&self) -> (w: i64)
        requires
            self.wf(),
        ensures
            w == self.spec_width(),
    {
        self.max.x - self.min.x
    }

    pub fn height(&self) -> (h: i64)
        requires
            self.wf(),
        ensures
            h == self.spec_height(),
    {
        self.max.y - self.min.y
    }

    pub fn center_x(&self) -> (c: i64)
        requires
            self.wf(),
        ensures
            c == self.spec_center_x(),
    {
        floor_div(self.min.x + self.max.x, 2)
    }

    /// Grows the rectangle by `amount` on every side.
    pub fn expand(&self, amount: i64) -> (r: Rect)
        requires
            self.wf(),
            0 <= amount,
        ensures
            r == self.spec_expand(amount as int),
            r.wf(),
    {
        Rect {
            min: Point {
                x: clamp_to_world(self.min.x as i128 - amount as i128),
                y: clamp_to_world(self.min.y as i128 - amount as i128),
            },
            max: Point {
                x: clamp_to_world(self.max.x as i128 + amount as i128),
                y: clamp_to_world(self.max.y as i128 + amount as i128),
            },
        }
    }

    /// The smallest rectangle that holds both rectangles.
    pub fn union(&self, other: &Rect) -> (r: Rect)
        ensures
            r == self.spec_union(*other),
            self.wf() && other.wf() ==> r.wf(),
    {
        Rect {
            min: Point {
                x: if self.min.x <= other.min.x { self.min.x } else { other.min.x },
                y: if self.min.y <= other.min.y { self.min.y } else { other.min.y },
            },
            max: Point {
                x: if self.max.x >= other.max.x { self.max.x } else { other.max.x },
                y: if self.max.y >= other.max.y { self.max.y } else { other.max.y },
            },
        }
    }

    /// The distance from the rectangle to `p` in whole units; zero inside.
    pub fn distance_to_pos(&self, p: Point) -> (d: u64)
        requires
            self.wf(),
            in_reach(p),
        ensures
            d as int == self.distance(p),
            d <= 16 * WORLD_LIMIT,
    {
        let gx: u128 = gap(self.min.x, self.max.x, p.x);
        let gy: u128 = gap(self.min.y, self.max.y, p.y);
        proof {
            lemma_norm_bound(gx as int, gy as int);
        }
        let d: u64 = isqrt(gx * gx + gy * gy);
        proof {
            let l: int = 16 * WORLD_LIMIT;
            assert(l * l == 256 * WORLD_LIMIT * WORLD_LIMIT) by (nonlinear_arith)
                requires
                    l == 16 * WORLD_LIMIT,
            ;
            lemma_sqrt_bound((gx * gx + gy * gy) as int, d as int, l);
        }
        d
    }
}

/// Computes the distance from `p` to the segment from `a` to `b`, in whole
/// units.
pub fn distance_to_segment(p: Point, a: Point, b: Point) -> (d: u64)
    requires
        a.wf(),
        b.wf(),
        in_reach(p),
    ensures
        d as int == segment_distance(p, a, b),
{
    let abx: i128 = b.x as i128 - a.x as i128;
    let aby: i128 = b.y as i128 - a.y as i128;
    let apx: i128 = p.x as i128 - a.x as i128;
    let apy: i128 = p.y as i128 - a.y as i128;
    let bpx: i128 = p.x as i128 - b.x as i128;
    let bpy: i128 = p.y as i128 - b.y as i128;
    proof {
        lemma_norm_bound(abx as int, aby as int);
        lemma_norm_bound(apx as int, apy as int);
        lemma_norm_bound(bpx as int, bpy as int);
        lemma_product_bound(abx as int, apx as int);
        lemma_product_bound(aby as int, apy as int);
        lemma_product_bound(abx as int, apy as int);
        lemma_product_bound(aby as int, apx as int);
    }
    let dot: i128 = abx * apx + aby * apy;
    let len_sq: i128 = abx * abx + aby * aby;
    if dot <= 0 {
        let n: i128 = apx * apx + apy * apy;
        let r: u64 = isqrt(n as u128);
        r
    } else if dot >= len_sq {
        let n: i128 = bpx * bpx + bpy * bpy;
        let r: u64 = isqrt(n as u128);
        r
    } else {
        let cross: i128 = abx * apy - aby * apx;
        let area: i128 = if cross < 0 { -cross } else { cross };
        let len: u64 = isqrt(len_sq as u128);
        assert(len >= 1) by {
            if len == 0 {
                assert((len + 1) * (len + 1) == 1) by (nonlinear_arith)
                    requires
                        len == 0,
                ;
            }
        }
        proof {
            lemma_area_bound(abx as int, aby as int, apx as int, apy as int, len as int);
        }
        let q: i128 = area / (len as i128);
        assert(0 <= q <= 16 * WORLD_LIMIT) by (nonlinear_arith)
            requires
                q == area as int / len as int,
                0 <= area <= 16 * WORLD_LIMIT * len,
                len >= 1,
        ;
        q as u64
    }
}

/// The area of the parallelogram of two vectors, the second of bounded
/// components, is at most sixteen world limits times the rounded-down
/// length of the first.
pub proof fn lemma_area_bound(abx: int, aby: int, apx: int, apy: int, len: int)
    requires
        is_floor_sqrt(norm_sq(abx, aby), len),
        -8 * WORLD_LIMIT <= apx <= 8 * WORLD_LIMIT,
        -8 * WORLD_LIMIT <= apy <= 8 * WORLD_LIMIT,
    ensures
        abx * apy - aby * apx <= 16 * WORLD_LIMIT * len,
        aby * apx - abx * apy <= 16 * WORLD_LIMIT * len,
{
    let ax = if abx < 0 { -abx } else { abx };
    let ay = if aby < 0 { -aby } else { aby };
    let m: int = 8 * WORLD_LIMIT;
    assert(ax * ax == abx * abx) by (nonlinear_arith)
        requires
            ax == abx || ax == -abx,
    ;
    assert(ay * ay == aby * aby) by (nonlinear_arith)
        requires
            ay == aby || ay == -aby,
    ;
    assert(0 <= ax * ax && 0 <= ay * ay) by (nonlinear_arith);
    if ax > len {
        lemma_square_monotone(len + 1, ax);
    }
    if ay > len {
        lemma_square_monotone(len + 1, ay);
    }
    assert(-(ax * m) <= abx * apy <= ax * m) by (nonlinear_arith)
        requires
            ax == abx || ax == -abx,
            0 <= ax,
            -m <= apy <= m,
    ;
    assert(-(ay * m) <= aby * apx <= ay * m) by (nonlinear_arith)
        requires
            ay == aby || ay == -aby,
            0 <= ay,
            -m <= apx <= m,
    ;
    assert(ax <= len && ay <= len);
    assert(ax * m <= len * m && ay * m <= len * m) by (nonlinear_arith)
        requires
            0 <= ax <= len,
            0 <= ay <= len,
            0 <= m,
    ;
    assert(ax <= len && ay <= len);
    assert(16 * WORLD_LIMIT * len == 2 * (len * m)) by (nonlinear_arith)
        requires
            m == 8 * WORLD_LIMIT,
    ;
}

/// The product of two bounded numbers is bounded.
pub proof fn lemma_product_bound(a: int, b: int)
    requires
        -8 * WORLD_LIMIT <= a <= 8 * WORLD_LIMIT,
        -8 * WORLD_LIMIT <= b <= 8 * WORLD_LIMIT,
    ensures
        -64 * WORLD_LIMIT * WORLD_LIMIT <= a * b <= 64 * WORLD_LIMIT * WORLD_LIMIT,
        64 * WORLD_LIMIT * WORLD_LIMIT == 0x40_0000_0000_0000_0000_0000,
{
    let l: int = 8 * WORLD_LIMIT;
    assert(-(l * l) <= a * b <= l * l) by (nonlinear_arith)
        requires
            -l <= a <= l,
            -l <= b <= l,
    ;
    assert(l * l == 64 * WORLD_LIMIT * WORLD_LIMIT) by (nonlinear_arith)
        requires
            l == 8 * WORLD_LIMIT,
    ;
    assert(WORLD_LIMIT * WORLD_LIMIT == 0x1_0000_0000_0000_0000_0000int) by (nonlinear_arith)
        requires
            WORLD_LIMIT == 0x100_0000_0000int,
    ;
}

/// `v` held within the world limit.
pub open spec fn clamp_world(v: int) -> i64 {
    if v < -WORLD_LIMIT {
        (-WORLD_LIMIT) as i64
    } else if v > WORLD_LIMIT {
        WORLD_LIMIT
    } else {
        v as i64
    }
}

/// A point within four times the world limit: where the centre of a grid
/// cell can lie.
pub open spec fn in_reach(p: Point) -> bool {
    &&& -4 * WORLD_LIMIT <= p.x <= 4 * WORLD_LIMIT
    &&& -4 * WORLD_LIMIT <= p.y <= 4 * WORLD_LIMIT
}

fn clamp_to_world(v: i128) -> (r: i64)
    ensures
        r == clamp_world(v as int),
        -WORLD_LIMIT <= r <= WORLD_LIMIT,
{
    if v < -(WORLD_LIMIT as i128) {
        -WORLD_LIMIT
    } else if v > WORLD_LIMIT as i128 {
        WORLD_LIMIT
    } else {
        v as i64
    }
}

fn gap(lo: i64, hi: i64, v: i64) -> (g: u128)
    requires
        -WORLD_LIMIT <= lo <= hi <= WORLD_LIMIT,
        -4 * WORLD_LIMIT <= v <= 4 * WORLD_LIMIT,
    ensures
        g as int == axis_gap(lo as int, hi as int, v as int),
        g <= 8 * WORLD_LIMIT,
{
    if v < lo {
        (lo - v) as u128
    } else if v > hi {
        (v - hi) as u128
    } else {
        0
    }
}

/// The squared length of a vector of bounded components stays far below
/// the range of the integers that hold it.
pub proof fn lemma_norm_bound(dx: int, dy: int)
    requires
        -8 * WORLD_LIMIT <= dx <= 8 * WORLD_LIMIT,
        -8 * WORLD_LIMIT <= dy <= 8 * WORLD_LIMIT,
    ensures
        0 <= dx * dx <= 64 * WORLD_LIMIT * WORLD_LIMIT,
        0 <= dy * dy <= 64 * WORLD_LIMIT * WORLD_LIMIT,
        0 <= norm_sq(dx, dy) <= 128 * WORLD_LIMIT * WORLD_LIMIT,
        128 * WORLD_LIMIT * WORLD_LIMIT < 0x4000_0000_0000_0000_0000_0000_0000_0000,
{
    let l: int = 8 * WORLD_LIMIT;
    assert(0 <= dx * dx <= l * l) by (nonlinear_arith)
        requires
            -l <= dx <= l,
    ;
    assert(0 <= dy * dy <= l * l) by (nonlinear_arith)
        requires
            -l <= dy <= l,
    ;
    assert(l * l == 64 * WORLD_LIMIT * WORLD_LIMIT) by (nonlinear_arith)
        requires
            l == 8 * WORLD_LIMIT,
    ;
    assert(WORLD_LIMIT * WORLD_LIMIT == 0x1_0000_0000_0000_0000_0000int) by (nonlinear_arith)
        requires
            WORLD_LIMIT == 0x100_0000_0000int,
    ;
}

/// The rounded-down square root of a number no greater than `bound * bound`
/// is no greater than `bound`.
pub proof fn lemma_sqrt_bound(n: int, r: int, bound: int)
    requires
        is_floor_sqrt(n, r),
        0 <= bound,
        n <= bound * bound,
    ensures
        r <= bound,
{
    if r > bound {
        assert(r * r > bound * bound) by (nonlinear_arith)
            requires
                r > bound,
                bound >= 0,
        ;
    }
}

} // verus!
