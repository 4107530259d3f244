//! Two-dimensional fixed-point geometry: points, interpolation, and the
//! straight-segment intersection test used by the curved growth strategy.

use vstd::prelude::*;

verus! {

/// One display cell spans this many coordinate steps.
pub const SCALE: i64 = 1000;

/// All coordinates the library manipulates stay within this magnitude
/// (2^29 milli-units). The bound is far above anything a generated tree
/// reaches and keeps every product formed by the geometry within `i64`.
pub const COORD_LIMIT: i64 = 536870912;

/// A point of the plane in milli-unit coordinates.
#[derive(Clone, Copy, Debug, PartialEq, Eq, Structural)]
pub struct Point {
    pub x: i64,
    pub y: i64,
}

/// Truncating division by a positive divisor, the rounding executable
/// integer division performs: toward zero for either sign of `a`.
pub open spec fn div_trunc(a: int, b: int) -> int {
    if a >= 0 {
        a / b
    } else {
        -((-a) / b)
    }
}

/// Truncating division by any non-zero divisor: toward zero for every sign
/// combination, as executable integer division rounds.
pub open spec fn div_trunc_signed(a: int, b: int) -> int {
    if b >= 0 {
        div_trunc(a, b)
    } else {
        -div_trunc(a, -b)
    }
}

/// Both coordinates within `COORD_LIMIT` in magnitude.
pub open spec fn in_range(p: Point) -> bool {
    -COORD_LIMIT <= p.x <= COORD_LIMIT && -COORD_LIMIT <= p.y <= COORD_LIMIT
}

/// Half of `COORD_LIMIT` (2^28). Node coordinates and leaf offsets each stay
/// within this bound, so their sum is still `in_range`.
pub const HALF_LIMIT: i64 = 268435456;

/// Both coordinates within `HALF_LIMIT` in magnitude.
pub open spec fn half_range(p: Point) -> bool {
    -HALF_LIMIT <= p.x <= HALF_LIMIT && -HALF_LIMIT <= p.y <= HALF_LIMIT
}

/// The exact point `linear_interpolate` returns: each coordinate moves from
/// `start` toward `end` by the fraction `t / 1000`, rounded toward zero.
pub open spec fn lerp(start: Point, end: Point, t: int) -> Point {
    Point {
        x: (start.x + div_trunc((end.x - start.x) * t, SCALE as int)) as i64,
        y: (start.y + div_trunc((end.y - start.y) * t, SCALE as int)) as i64,
    }
}

/// Truncating division of `a` by the positive constant `b`.
pub(crate) fn div_trunc_exec(a: i64, b: i64) -> (r: i64)
    requires
        b > 0,
        -0x4000_0000_0000_0000 < a < 0x4000_0000_0000_0000,
    ensures
        r == div_trunc(a as int, b as int),
        a >= 0 ==> 0 <= r <= a,
        a < 0 ==> a <= r <= 0,
{
    if a >= 0 {
        let q = (a as u64 / b as u64) as i64;
        proof {
            assert(a as u64 / b as u64 == a as int / b as int) by (nonlinear_arith)
                requires a >= 0, b > 0;
            assert(a as int / b as int <= a as int) by (nonlinear_arith)
                requires a >= 0, b > 0;
            assert(a as int / b as int >= 0) by (nonlinear_arith)
                requires a >= 0, b > 0;
        }
        q
    } else {
        let neg = -a;
        let q = (neg as u64 / b as u64) as i64;
        proof {
            assert(neg as u64 / b as u64 == neg as int / b as int) by (nonlinear_arith)
                requires neg > 0, b > 0;
            assert(neg as int / b as int <= neg as int) by (nonlinear_arith)
                requires neg > 0, b > 0;
            assert(neg as int / b as int >= 0) by (nonlinear_arith)
                requires neg > 0, b > 0;
        }
        -q
    }
}

impl Point {
    /// The point with the given milli-unit coordinates.
    pub fn new(x: i64, y: i64) -> (r: Point)
        ensures
            r.x == x,
            r.y == y,
    {
        Point { x, y }
    }

    /// Component-wise sum.
    pub fn add(self, other: Point) -> (r: Point)
        requires
            in_range(self),
            in_range(other),
        ensures
            r.x == self.x + other.x,
            r.y == self.y + other.y,
    {
        Point { x: self.x + other.x, y: self.y + other.y }
    }

    /// Component-wise difference.
    pub fn sub(self, other: Point) -> (r: Point)
        requires
            in_range(self),
            in_range(other),
        ensures
            r.x == self.x - other.x,
            r.y == self.y - other.y,
    {
        Point { x: self.x - other.x, y: self.y - other.y }
    }

    /// Scaling by an integer factor.
    pub fn mul(self, s: i64) -> (r: Point)
        requires
            in_range(self),
            -SCALE <= s <= SCALE,
        ensures
            r.x == self.x * s,
            r.y == self.y * s,
    {
        proof {
            assert(-COORD_LIMIT * SCALE <= self.x * s <= COORD_LIMIT * SCALE)
                by (nonlinear_arith)
                requires -COORD_LIMIT <= self.x <= COORD_LIMIT, -SCALE <= s <= SCALE;
            assert(-COORD_LIMIT * SCALE <= self.y * s <= COORD_LIMIT * SCALE)
                by (nonlinear_arith)
                requires -COORD_LIMIT <= self.y <= COORD_LIMIT, -SCALE <= s <= SCALE;
        }
        Point { x: self.x * s, y: self.y * s }
    }

    /// Component-wise truncating division by a point with non-zero
    /// coordinates.
    pub fn div(self, other: Point) -> (r: Point)
        requires
            in_range(self),
            in_range(other),
            other.x != 0,
            other.y != 0,
        ensures
            r.x == div_trunc_signed(self.x as int, other.x as int),
            r.y == div_trunc_signed(self.y as int, other.y as int),
    {
        let qx = if other.x > 0 {
            div_trunc_exec(self.x, other.x)
        } else {
            -div_trunc_exec(self.x, -other.x)
        };
        let qy = if other.y > 0 {
            div_trunc_exec(self.y, other.y)
        } else {
            -div_trunc_exec(self.y, -other.y)
        };
        Point { x: qx, y: qy }
    }

    /// The squared magnitude of the vector from the origin to `self`.
    pub fn norm2(&self) -> (r: i64)
        requires
            in_range(*self),
        ensures
            r == self.x * self.x + self.y * self.y,
    {
        proof {
            assert(0 <= self.x * self.x <= COORD_LIMIT * COORD_LIMIT) by (nonlinear_arith)
                requires -COORD_LIMIT <= self.x <= COORD_LIMIT;
            assert(0 <= self.y * self.y <= COORD_LIMIT * COORD_LIMIT) by (nonlinear_arith)
                requires -COORD_LIMIT <= self.y <= COORD_LIMIT;
        }
        self.x * self.x + self.y * self.y
    }
}

/// The point a fraction `t / 1000` of the way from `start` to `end`; each
/// returned coordinate lies between the two endpoints' coordinates.
pub fn linear_interpolate(start: &Point, end: &Point, t: i64) -> (r: Point)
    requires
        in_range(*start),
        in_range(*end),
        0 <= t <= SCALE,
    ensures
        r == lerp(*start, *end, t as int),
        in_range(r),
{
    let dx = end.x - start.x;
    let dy = end.y - start.y;
    proof {
        lemma_lerp_step_bounded(start.x as int, end.x as int, t as int);
        lemma_lerp_step_bounded(start.y as int, end.y as int, t as int);
    }
    let sx = div_trunc_exec(dx * t, SCALE);
    let sy = div_trunc_exec(dy * t, SCALE);
    Point { x: start.x + sx, y: start.y + sy }
}

/// The truncated step `(e - s) * t / 1000` never carries a coordinate past
/// the far endpoint, so interpolation stays within the endpoints' range.
proof fn lemma_lerp_step_bounded(s: int, e: int, t: int)
    requires
        -COORD_LIMIT <= s <= COORD_LIMIT,
        -COORD_LIMIT <= e <= COORD_LIMIT,
        0 <= t <= SCALE,
    ensures
        e >= s ==> 0 <= div_trunc((e - s) * t, SCALE as int) <= e - s,
        e < s ==> s - e >= div_trunc((e - s) * t, SCALE as int) >= -(s - e),
        -COORD_LIMIT <= s + div_trunc((e - s) * t, SCALE as int) <= COORD_LIMIT,
{
    let d = e - s;
    if d >= 0 {
        assert(0 <= d * t <= d * SCALE) by (nonlinear_arith)
            requires d >= 0, 0 <= t <= SCALE;
        assert(d * t / (SCALE as int) <= d) by (nonlinear_arith)
            requires 0 <= d * t <= d * SCALE, SCALE > 0;
        assert(d * t / (SCALE as int) >= 0) by (nonlinear_arith)
            requires d * t >= 0, SCALE > 0;
    } else {
        let nd = -d;
        assert(0 <= nd * t <= nd * SCALE) by (nonlinear_arith)
            requires nd >= 0, 0 <= t <= SCALE;
        assert(nd * t / (SCALE as int) <= nd) by (nonlinear_arith)
            requires 0 <= nd * t <= nd * SCALE, SCALE > 0;
        assert(nd * t / (SCALE as int) >= 0) by (nonlinear_arith)
            requires nd * t >= 0, SCALE > 0;
        assert((-d) * t == -(d * t)) by (nonlinear_arith);
    }
}

/// How many discrete direction ticks make a full turn.
pub const DIR_TICKS: u8 = 16;

/// The unit vector (in milli-units) of direction tick `d`: tick `0` points
/// right along the x axis, ticks advance counter-clockwise by a sixteenth
/// of a turn, tick `4` points straight up. Components are the fixed-point
/// approximations of the tick's cosine and sine.
pub open spec fn spec_from_phi(d: int) -> Point {
    let t = if 0 <= d < 16 { d } else { 0 };
    if t == 0 { Point { x: 1000i64, y: 0i64 } }
    else if t == 1 { Point { x: 924i64, y: 383i64 } }
    else if t == 2 { Point { x: 707i64, y: 707i64 } }
    else if t == 3 { Point { x: 383i64, y: 924i64 } }
    else if t == 4 { Point { x: 0i64, y: 1000i64 } }
    else if t == 5 { Point { x: -383i64, y: 924i64 } }
    else if t == 6 { Point { x: -707i64, y: 707i64 } }
    else if t == 7 { Point { x: -924i64, y: 383i64 } }
    else if t == 8 { Point { x: -1000i64, y: 0i64 } }
    else if t == 9 { Point { x: -924i64, y: -383i64 } }
    else if t == 10 { Point { x: -707i64, y: -707i64 } }
    else if t == 11 { Point { x: -383i64, y: -924i64 } }
    else if t == 12 { Point { x: 0i64, y: -1000i64 } }
    else if t == 13 { Point { x: 383i64, y: -924i64 } }
    else if t == 14 { Point { x: 707i64, y: -707i64 } }
    else { Point { x: 924i64, y: -383i64 } }
}

impl Point {
    /// The unit vector of a direction tick; every component is within one
    /// milli-unit scale.
    pub fn from_phi(d: u8) -> (r: Point)
        requires
            d < DIR_TICKS,
        ensures
            r == spec_from_phi(d as int),
            -SCALE <= r.x <= SCALE,
            -SCALE <= r.y <= SCALE,
    {
        if d == 0 { Point { x: 1000, y: 0 } }
        else if d == 1 { Point { x: 924, y: 383 } }
        else if d == 2 { Point { x: 707, y: 707 } }
        else if d == 3 { Point { x: 383, y: 924 } }
        else if d == 4 { Point { x: 0, y: 1000 } }
        else if d == 5 { Point { x: -383, y: 924 } }
        else if d == 6 { Point { x: -707, y: 707 } }
        else if d == 7 { Point { x: -924, y: 383 } }
        else if d == 8 { Point { x: -1000, y: 0 } }
        else if d == 9 { Point { x: -924, y: -383 } }
        else if d == 10 { Point { x: -707, y: -707 } }
        else if d == 11 { Point { x: -383, y: -924 } }
        else if d == 12 { Point { x: 0, y: -1000 } }
        else if d == 13 { Point { x: 383, y: -924 } }
        else if d == 14 { Point { x: 707, y: -707 } }
        else { Point { x: 924, y: -383 } }
    }
}

} // verus!
