//! Points, and the two values that describe how a segment runs: its
//! normalised delta and its direction of travel.
use vstd::prelude::*;

verus! {

/// A point of the integer grid.
#[derive(Clone, Copy, Debug, PartialEq, Eq, Structural)]
pub struct Point {
    pub x: i32,
    pub y: i32,
}

/// The extent of a segment along each axis, normalised so that `x` is never
/// negative and `y` is never positive (the y axis grows downward).
#[derive(Clone, Copy, Debug, PartialEq, Eq, Structural)]
pub struct Delta {
    pub x: i64,
    pub y: i64,
}

/// The sign with which a segment is walked along each axis: each component is
/// `1` or `-1`.
#[derive(Clone, Copy, Debug, PartialEq, Eq, Structural)]
pub struct Direction {
    pub x: i64,
    pub y: i64,
}

/// The largest distance between two `i32` coordinates.
pub const MAX_EXTENT: i64 = 4294967295;

/// The absolute value of `v`.
pub open spec fn magnitude(v: int) -> int {
    if v < 0 {
        -v
    } else {
        v
    }
}

/// `v` with the sign `sign`.
pub open spec fn signed(sign: int, v: int) -> int {
    if sign == 1 {
        v
    } else {
        -v
    }
}

/// A product with a sign is the other factor or its negative.
pub proof fn lemma_signed(sign: int, v: int)
    requires
        sign == 1 || sign == -1,
    ensures
        sign == 1 ==> sign * v == v,
        sign == -1 ==> sign * v == -v,
{
    assert(1 * v == v) by (nonlinear_arith);
    assert((-1) * v == -v) by (nonlinear_arith);
}

impl Point {
    /// The point `(x, y)`.
    pub fn new(x: i32, y: i32) -> (p: Point)
        ensures
            p.x == x,
            p.y == y,
    {
        Point { x, y }
    }
}

impl Delta {
    /// A delta is well formed when it is normalised and no longer than the
    /// distance between two points can be.
    pub open spec fn wf(self) -> bool {
        &&& 0 <= self.x <= MAX_EXTENT
        &&& -MAX_EXTENT <= self.y <= 0
    }

    /// The normalised delta of the segment from `p0` to `p1`.
    pub open spec fn of(p0: Point, p1: Point) -> Delta {
        Delta { x: magnitude(p1.x - p0.x) as i64, y: (-magnitude(p1.y - p0.y)) as i64 }
    }

    /// The number of steps the longer axis of the delta takes.
    pub open spec fn major(self) -> int {
        if self.x >= -self.y {
            self.x as int
        } else {
            -self.y
        }
    }

    /// Whether the delta belongs to a segment whose ends coincide.
    pub open spec fn is_zero(self) -> bool {
        self.x == 0 && self.y == 0
    }

    /// Computes `p1 - p0` and normalises it: both components are negated if
    /// `x` is negative, then `y` alone is negated if it is positive.
    pub fn between(p0: Point, p1: Point) -> (delta: Delta)
        ensures
            delta == Delta::of(p0, p1),
            delta.wf(),
            delta.x == magnitude(p1.x - p0.x),
            delta.y == -magnitude(p1.y - p0.y),
    {
        let mut x: i64 = p1.x as i64 - p0.x as i64;
        let mut y: i64 = p1.y as i64 - p0.y as i64;
        if x < 0 {
            x = -x;
            y = -y;
        }
        if y > 0 {
            y = -y;
        }
        Delta { x, y }
    }
}

impl Direction {
    /// A direction is well formed when each component is a sign.
    pub open spec fn wf(self) -> bool {
        &&& self.x == 1 || self.x == -1
        &&& self.y == 1 || self.y == -1
    }

    /// The direction of travel from `p0` to `p1`: along each axis `1` if the
    /// coordinate grows, `-1` if it shrinks or stays.
    pub open spec fn of(p0: Point, p1: Point) -> Direction {
        Direction {
            x: if p0.x < p1.x { 1i64 } else { -1i64 },
            y: if p0.y < p1.y { 1i64 } else { -1i64 },
        }
    }

    /// Compares the raw coordinates of the two ends, each axis by itself.
    pub fn between(p0: Point, p1: Point) -> (direction: Direction)
        ensures
            direction == Direction::of(p0, p1),
            direction.wf(),
    {
        let x: i64 = if p0.x < p1.x { 1 } else { -1 };
        let y: i64 = if p0.y < p1.y { 1 } else { -1 };
        Direction { x, y }
    }
}

} // verus!
