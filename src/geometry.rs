use vstd::prelude::*;

verus! {

/// A point of the integer world plane.
#[derive(Clone, Copy, Debug, PartialEq, Eq, Structural)]
pub struct Point {
    pub x: i64,
    pub y: i64,
}

/// A closed axis-aligned rectangle: every point with `min_x <= x <= max_x`
/// and `min_y <= y <= max_y`. A rectangle with `min > max` on an axis is empty.
#[derive(Clone, Copy, Debug, PartialEq, Eq, Structural)]
pub struct Rect {
    pub min_x: i64,
    pub min_y: i64,
    pub max_x: i64,
    pub max_y: i64,
}

impl Point {
    pub fn new(x: i64, y: i64) -> (r: Point)
        ensures
            r.x == x,
            r.y == y,
    {
        Point { x, y }
    }
}

impl Rect {
    pub open spec fn contains_spec(self, p: Point) -> bool {
        self.min_x <= p.x <= self.max_x && self.min_y <= p.y <= self.max_y
    }

    /// The two closed rectangles share at least one point.
    pub open spec fn intersects_spec(self, o: Rect) -> bool {
        self.min_x <= o.max_x && o.min_x <= self.max_x && self.min_y <= o.max_y && o.min_y
            <= self.max_y && self.min_x <= self.max_x && self.min_y <= self.max_y && o.min_x
            <= o.max_x && o.min_y <= o.max_y
    }

    /// Every point of `self` is a point of `o`.
    pub open spec fn within(self, o: Rect) -> bool {
        o.min_x <= self.min_x && self.max_x <= o.max_x && o.min_y <= self.min_y && self.max_y
            <= o.max_y
    }

    pub fn new(min_x: i64, min_y: i64, max_x: i64, max_y: i64) -> (r: Rect)
        ensures
            r == (Rect { min_x, min_y, max_x, max_y }),
    {
        Rect { min_x, min_y, max_x, max_y }
    }

    /// The square of half-width `half` centred on `c`, with its sides saturated
    /// at the limits of `i64`.
    pub fn around(c: Point, half: i64) -> (r: Rect)
        requires
            half >= 0,
        ensures
            r.min_x == sat_i64(c.x - half),
            r.max_x == sat_i64(c.x + half),
            r.min_y == sat_i64(c.y - half),
            r.max_y == sat_i64(c.y + half),
    {
        Rect {
            min_x: saturate(c.x as i128 - half as i128),
            min_y: saturate(c.y as i128 - half as i128),
            max_x: saturate(c.x as i128 + half as i128),
            max_y: saturate(c.y as i128 + half as i128),
        }
    }

    pub fn contains(&self, p: Point) -> (r: bool)
        ensures
            r == self.contains_spec(p),
    {
        self.min_x <= p.x && p.x <= self.max_x && self.min_y <= p.y && p.y <= self.max_y
    }

    pub fn intersects(&self, o: &Rect) -> (r: bool)
        ensures
            r == self.intersects_spec(*o),
    {
        self.min_x <= o.max_x && o.min_x <= self.max_x && self.min_y <= o.max_y && o.min_y
            <= self.max_y && self.min_x <= self.max_x && self.min_y <= self.max_y && o.min_x
            <= o.max_x && o.min_y <= o.max_y
    }
}

/// `v` saturated to the range of `i64`.
pub open spec fn sat_i64(v: int) -> int {
    if v < i64::MIN {
        i64::MIN as int
    } else if v > i64::MAX {
        i64::MAX as int
    } else {
        v
    }
}

/// `v` saturated to the range of `i64`.
pub fn saturate(v: i128) -> (r: i64)
    ensures
        r == sat_i64(v as int),
{
    if v < i64::MIN as i128 {
        i64::MIN
    } else if v > i64::MAX as i128 {
        i64::MAX
    } else {
        v as i64
    }
}

} // verus!
