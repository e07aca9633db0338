//! Positions on the board, in whole units.

use vstd::prelude::*;

verus! {

/// `a + b`, held at the ends of the `i64` range.
pub open spec fn sat_add_spec(a: i64, b: i64) -> i64 {
    if a + b > i64::MAX {
        i64::MAX
    } else if a + b < i64::MIN {
        i64::MIN
    } else {
        (a + b) as i64
    }
}

/// `a + b`, held at the ends of the `i64` range.
pub fn sat_add(a: i64, b: i64) -> (r: i64)
    ensures
        r == sat_add_spec(a, b),
{
    if b > 0 && a > i64::MAX - b {
        i64::MAX
    } else if b < 0 && a < i64::MIN - b {
        i64::MIN
    } else {
        a + b
    }
}

/// `a - b`, held at the ends of the `i64` range.
pub open spec fn sat_sub_spec(a: i64, b: i64) -> i64 {
    if a - b > i64::MAX {
        i64::MAX
    } else if a - b < i64::MIN {
        i64::MIN
    } else {
        (a - b) as i64
    }
}

/// `a - b`, held at the ends of the `i64` range.
pub fn sat_sub(a: i64, b: i64) -> (r: i64)
    ensures
        r == sat_sub_spec(a, b),
{
    if b < 0 && a > i64::MAX + b {
        i64::MAX
    } else if b > 0 && a < i64::MIN + b {
        i64::MIN
    } else {
        a - b
    }
}

/// A point, or an offset between two points.
#[derive(Debug, Clone, Copy, PartialEq, Eq)]
pub struct Point {
    pub x: i64,
    pub y: i64,
}

impl Point {
    /// The point at `(x, y)`.
    pub fn new(x: i64, y: i64) -> (r: Point)
        ensures
            r.x == x && r.y == y,
    {
        Point { x, y }
    }

    /// This point moved by `d`.
    pub open spec fn moved(self, d: Point) -> Point {
        Point { x: sat_add_spec(self.x, d.x), y: sat_add_spec(self.y, d.y) }
    }

    /// The offset from `o` to this point.
    pub open spec fn offset_from(self, o: Point) -> Point {
        Point { x: sat_sub_spec(self.x, o.x), y: sat_sub_spec(self.y, o.y) }
    }

    /// The offset from `o` to this point.
    pub fn sub(self, o: Point) -> (r: Point)
        ensures
            r == self.offset_from(o),
    {
        Point { x: sat_sub(self.x, o.x), y: sat_sub(self.y, o.y) }
    }

    /// This point moved by `d`.
    pub fn add(self, d: Point) -> (r: Point)
        ensures
            r == self.moved(d),
    {
        Point { x: sat_add(self.x, d.x), y: sat_add(self.y, d.y) }
    }
}

/// An axis-aligned rectangle.
#[derive(Debug, Clone, Copy, PartialEq, Eq)]
pub struct Rect {
    pub min: Point,
    pub max: Point,
}

} // verus!
