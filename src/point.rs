//! Integer grid positions and the distances between them.
use vstd::prelude::*;

verus! {

/// A position on the grid: `x` is the column, `y` the row.
#[derive(Clone, Copy, PartialEq, Eq, Structural, Debug, Hash)]
pub struct Point {
    pub x: i32,
    pub y: i32,
}

/// Absolute value of an integer.
pub open spec fn abs(v: int) -> int {
    if v < 0 { -v } else { v }
}

/// Manhattan distance between two positions.
pub open spec fn manhattan(a: Point, b: Point) -> int {
    abs(a.x - b.x) + abs(a.y - b.y)
}

/// Square of the Euclidean distance between two positions.
pub open spec fn squared_distance(a: Point, b: Point) -> int {
    (b.y - a.y) * (b.y - a.y) + (b.x - a.x) * (b.x - a.x)
}

/// Two positions are 4-adjacent: they differ by one unit on exactly one axis.
pub open spec fn adjacent(a: Point, b: Point) -> bool {
    manhattan(a, b) == 1
}

/// The Manhattan distance changes by at most one between adjacent positions.
pub proof fn lemma_manhattan_step(a: Point, b: Point, t: Point)
    requires
        adjacent(a, b),
    ensures
        manhattan(a, t) <= manhattan(b, t) + 1,
        manhattan(b, t) <= manhattan(a, t) + 1,
{
}

impl Point {
    pub fn new(x: i32, y: i32) -> (r: Point)
        ensures
            r == (Point { x, y }),
    {
        Point { x, y }
    }

    /// Square of the Euclidean distance to `pos`.
    pub fn get_squared_distance(&self, pos: &Point) -> (r: i32)
        requires
            squared_distance(*self, *pos) <= i32::MAX,
        ensures
            r == squared_distance(*self, *pos),
    {
        let ghost dy = pos.y - self.y;
        let ghost dx = pos.x - self.x;
        assert(0 <= dy * dy <= i32::MAX && 0 <= dx * dx <= i32::MAX) by (nonlinear_arith)
            requires
                dy * dy + dx * dx <= i32::MAX,
        ;
        assert(-46341 < dy < 46341 && -46341 < dx < 46341) by (nonlinear_arith)
            requires
                dy * dy <= i32::MAX,
                dx * dx <= i32::MAX,
        ;
        let dy32 = pos.y - self.y;
        let dx32 = pos.x - self.x;
        assert(dy32 * dy32 == dy * dy && dx32 * dx32 == dx * dx);
        let sy = dy32 * dy32;
        let sx = dx32 * dx32;
        sy + sx
    }

    /// Manhattan distance to `pos`.
    pub fn manhattan_distance(&self, pos: &Point) -> (r: i32)
        requires
            manhattan(*self, *pos) <= i32::MAX,
        ensures
            r == manhattan(*self, *pos),
    {
        let dx: i64 = self.x as i64 - pos.x as i64;
        let dy: i64 = self.y as i64 - pos.y as i64;
        let adx: i64 = if dx < 0 { -dx } else { dx };
        let ady: i64 = if dy < 0 { -dy } else { dy };
        (adx + ady) as i32
    }
}

} // verus!
