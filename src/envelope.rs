use vstd::prelude::*;

verus! {

/// A point of the plane with integer coordinates.
#[derive(Clone, Copy, Debug, PartialEq, Eq, Structural)]
pub struct Point {
    pub x: i32,
    pub y: i32,
}

/// An axis-aligned rectangle given by its lower and upper corners.
/// The empty rectangle has its lower corner above its upper corner.
#[derive(Clone, Copy, Debug, PartialEq, Eq, Structural)]
pub struct Aabb {
    pub lower: Point,
    pub upper: Point,
}

pub open spec fn min_i32(a: i32, b: i32) -> i32 {
    if a <= b { a } else { b }
}

pub open spec fn max_i32(a: i32, b: i32) -> i32 {
    if a >= b { a } else { b }
}

pub open spec fn min_int(a: int, b: int) -> int {
    if a <= b { a } else { b }
}

pub open spec fn coord(p: Point, axis: int) -> int {
    if axis == 0 { p.x as int } else { p.y as int }
}

/// The rectangle that contains nothing: merging it changes no rectangle.
pub open spec fn empty_aabb() -> Aabb {
    Aabb {
        lower: Point { x: i32::MAX, y: i32::MAX },
        upper: Point { x: i32::MIN, y: i32::MIN },
    }
}

pub open spec fn point_aabb(p: Point) -> Aabb {
    Aabb { lower: p, upper: p }
}

pub open spec fn is_nonempty(e: Aabb) -> bool {
    e.lower.x <= e.upper.x && e.lower.y <= e.upper.y
}

/// The smallest rectangle holding both `a` and `b`.
pub open spec fn merge(a: Aabb, b: Aabb) -> Aabb {
    Aabb {
        lower: Point { x: min_i32(a.lower.x, b.lower.x), y: min_i32(a.lower.y, b.lower.y) },
        upper: Point { x: max_i32(a.upper.x, b.upper.x), y: max_i32(a.upper.y, b.upper.y) },
    }
}

/// The common part of `a` and `b` (empty where they are disjoint).
pub open spec fn intersection(a: Aabb, b: Aabb) -> Aabb {
    Aabb {
        lower: Point { x: max_i32(a.lower.x, b.lower.x), y: max_i32(a.lower.y, b.lower.y) },
        upper: Point { x: min_i32(a.upper.x, b.upper.x), y: min_i32(a.upper.y, b.upper.y) },
    }
}

pub open spec fn area(e: Aabb) -> int {
    if is_nonempty(e) {
        (e.upper.x - e.lower.x) * (e.upper.y - e.lower.y)
    } else {
        0
    }
}

/// Sum of the extents: the perimeter surrogate of the R*-tree.
pub open spec fn margin(e: Aabb) -> int {
    if is_nonempty(e) {
        (e.upper.x - e.lower.x) + (e.upper.y - e.lower.y)
    } else {
        0
    }
}

pub open spec fn intersection_area(a: Aabb, b: Aabb) -> int {
    area(intersection(a, b))
}

/// `b` lies inside `a`.
pub open spec fn contains_aabb(a: Aabb, b: Aabb) -> bool {
    a.lower.x <= b.lower.x && a.lower.y <= b.lower.y && b.upper.x <= a.upper.x && b.upper.y
        <= a.upper.y
}

pub open spec fn contains_point(e: Aabb, p: Point) -> bool {
    e.lower.x <= p.x <= e.upper.x && e.lower.y <= p.y <= e.upper.y
}

pub open spec fn sq(v: int) -> int {
    v * v
}

pub open spec fn point_distance_2(p: Point, q: Point) -> int {
    sq(p.x - q.x) + sq(p.y - q.y)
}

/// Gap between `v` and the interval `[lo, hi]` (0 inside it).
pub open spec fn gap(lo: int, hi: int, v: int) -> int {
    if v < lo {
        lo - v
    } else if v > hi {
        v - hi
    } else {
        0
    }
}

/// Squared distance from `p` to the closest point of `e`.
pub open spec fn distance_2(e: Aabb, p: Point) -> int {
    sq(gap(e.lower.x as int, e.upper.x as int, p.x as int)) + sq(
        gap(e.lower.y as int, e.upper.y as int, p.y as int),
    )
}

/// Squared distance from `v` to the nearer of the two bounds `lo` and `hi`.
pub open spec fn near_edge_2(lo: int, hi: int, v: int) -> int {
    if 2 * v <= lo + hi { sq(v - lo) } else { sq(v - hi) }
}

/// Squared distance from `v` to the farther of the two bounds `lo` and `hi`.
pub open spec fn far_edge_2(lo: int, hi: int, v: int) -> int {
    if 2 * v >= lo + hi { sq(v - lo) } else { sq(v - hi) }
}

/// MINMAXDIST: on one axis take the nearer face, on the other the farther one,
/// and keep the smaller of the two choices.
pub open spec fn min_max_dist_2(e: Aabb, p: Point) -> int {
    let (lx, hx, px) = (e.lower.x as int, e.upper.x as int, p.x as int);
    let (ly, hy, py) = (e.lower.y as int, e.upper.y as int, p.y as int);
    min_int(
        near_edge_2(lx, hx, px) + far_edge_2(ly, hy, py),
        far_edge_2(lx, hx, px) + near_edge_2(ly, hy, py),
    )
}

/// Squared distance between the centres of `a` and `b`, scaled by four
/// (centres are taken doubled so that they stay integral).
pub open spec fn center_distance_2(a: Aabb, b: Aabb) -> int {
    sq((a.lower.x + a.upper.x) - (b.lower.x + b.upper.x)) + sq(
        (a.lower.y + a.upper.y) - (b.lower.y + b.upper.y),
    )
}

pub fn new_empty() -> (r: Aabb)
    ensures
        r == empty_aabb(),
{
    Aabb {
        lower: Point { x: i32::MAX, y: i32::MAX },
        upper: Point { x: i32::MIN, y: i32::MIN },
    }
}

pub fn from_point(p: Point) -> (r: Aabb)
    ensures
        r == point_aabb(p),
{
    Aabb { lower: p, upper: p }
}

fn min_of(a: i32, b: i32) -> (r: i32)
    ensures
        r == min_i32(a, b),
{
    if a <= b { a } else { b }
}

fn max_of(a: i32, b: i32) -> (r: i32)
    ensures
        r == max_i32(a, b),
{
    if a >= b { a } else { b }
}

fn sq_i128(v: i64) -> (r: i128)
    requires
        -0x1_0000_0000 <= v <= 0x1_0000_0000,
    ensures
        r == sq(v as int),
        0 <= r <= 0x1_0000_0000_0000_0000,
{
    assert(-0x1_0000_0000 <= v <= 0x1_0000_0000 ==> 0 <= (v as int) * (v as int)
        <= 0x1_0000_0000_0000_0000) by (nonlinear_arith);
    let w = v as i128;
    w * w
}

impl Aabb {
    pub fn merged(&self, other: &Aabb) -> (r: Aabb)
        ensures
            r == merge(*self, *other),
    {
        Aabb {
            lower: Point {
                x: min_of(self.lower.x, other.lower.x),
                y: min_of(self.lower.y, other.lower.y),
            },
            upper: Point {
                x: max_of(self.upper.x, other.upper.x),
                y: max_of(self.upper.y, other.upper.y),
            },
        }
    }

    pub fn merge(&mut self, other: &Aabb)
        ensures
            *final(self) == merge(*old(self), *other),
    {
        *self = self.merged(other);
    }

    pub fn area(&self) -> (r: i128)
        ensures
            r == area(*self),
            0 <= r <= 0x1_0000_0000_0000_0000,
    {
        if self.lower.x <= self.upper.x && self.lower.y <= self.upper.y {
            let dx = self.upper.x as i128 - self.lower.x as i128;
            let dy = self.upper.y as i128 - self.lower.y as i128;
            assert(0 <= dx <= 0xffff_ffff && 0 <= dy <= 0xffff_ffff ==> 0 <= dx * dy
                <= 0x1_0000_0000_0000_0000) by (nonlinear_arith);
            dx * dy
        } else {
            0
        }
    }

    pub fn margin_value(&self) -> (r: i128)
        ensures
            r == margin(*self),
            0 <= r <= 0x2_0000_0000,
    {
        if self.lower.x <= self.upper.x && self.lower.y <= self.upper.y {
            (self.upper.x as i128 - self.lower.x as i128) + (self.upper.y as i128
                - self.lower.y as i128)
        } else {
            0
        }
    }

    pub fn intersection_area(&self, other: &Aabb) -> (r: i128)
        ensures
            r == intersection_area(*self, *other),
            0 <= r <= 0x1_0000_0000_0000_0000,
    {
        let common = Aabb {
            lower: Point {
                x: max_of(self.lower.x, other.lower.x),
                y: max_of(self.lower.y, other.lower.y),
            },
            upper: Point {
                x: min_of(self.upper.x, other.upper.x),
                y: min_of(self.upper.y, other.upper.y),
            },
        };
        common.area()
    }

    pub fn contains_envelope(&self, other: &Aabb) -> (r: bool)
        ensures
            r == contains_aabb(*self, *other),
    {
        self.lower.x <= other.lower.x && self.lower.y <= other.lower.y && other.upper.x
            <= self.upper.x && other.upper.y <= self.upper.y
    }

    pub fn distance_2(&self, p: &Point) -> (r: i128)
        ensures
            r == distance_2(*self, *p),
            0 <= r,
    {
        let gx = gap_of(self.lower.x, self.upper.x, p.x);
        let gy = gap_of(self.lower.y, self.upper.y, p.y);
        sq_i128(gx) + sq_i128(gy)
    }

    pub fn min_max_dist_2(&self, p: &Point) -> (r: i128)
        ensures
            r == min_max_dist_2(*self, *p),
    {
        let (lx, hx, px) = (self.lower.x as i64, self.upper.x as i64, p.x as i64);
        let (ly, hy, py) = (self.lower.y as i64, self.upper.y as i64, p.y as i64);
        let near_x = if 2 * px <= lx + hx { sq_i128(px - lx) } else { sq_i128(px - hx) };
        let far_x = if 2 * px >= lx + hx { sq_i128(px - lx) } else { sq_i128(px - hx) };
        let near_y = if 2 * py <= ly + hy { sq_i128(py - ly) } else { sq_i128(py - hy) };
        let far_y = if 2 * py >= ly + hy { sq_i128(py - ly) } else { sq_i128(py - hy) };
        let a = near_x + far_y;
        let b = far_x + near_y;
        if a <= b { a } else { b }
    }

    /// Squared distance between the centres of `self` and `other`, times four.
    pub fn center_distance_2(&self, other: &Aabb) -> (r: i128)
        ensures
            r == center_distance_2(*self, *other),
    {
        let dx = (self.lower.x as i64 + self.upper.x as i64) - (other.lower.x as i64
            + other.upper.x as i64);
        let dy = (self.lower.y as i64 + self.upper.y as i64) - (other.lower.y as i64
            + other.upper.y as i64);
        let sx = dx as i128;
        let sy = dy as i128;
        assert(-0x4_0000_0000 <= sx <= 0x4_0000_0000 ==> 0 <= sx * sx
            <= 0x10_0000_0000_0000_0000) by (nonlinear_arith);
        assert(-0x4_0000_0000 <= sy <= 0x4_0000_0000 ==> 0 <= sy * sy
            <= 0x10_0000_0000_0000_0000) by (nonlinear_arith);
        sx * sx + sy * sy
    }
}

fn gap_of(lo: i32, hi: i32, v: i32) -> (r: i64)
    ensures
        r == gap(lo as int, hi as int, v as int),
        0 <= r <= 0xffff_ffff,
{
    if v < lo {
        lo as i64 - v as i64
    } else if v > hi {
        v as i64 - hi as i64
    } else {
        0
    }
}

impl Point {
    /// Squared Euclidean distance between two points.
    pub fn distance_2(&self, other: &Point) -> (r: i128)
        ensures
            r == point_distance_2(*self, *other),
            0 <= r,
    {
        sq_i128(self.x as i64 - other.x as i64) + sq_i128(self.y as i64 - other.y as i64)
    }
}

} // verus!
