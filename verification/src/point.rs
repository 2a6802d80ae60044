use vstd::prelude::*;

verus! {

/// Largest coordinate magnitude the engine works with. Keeping every
/// coordinate in `[-COORD_LIMIT, COORD_LIMIT]` makes every squared distance
/// between two such points fit in an `i64`.
pub const COORD_LIMIT: i64 = 0x3fff_ffff;

/// A point of the sampling plane. Coordinates are plain integers; callers
/// working in other units pick a fixed-point scale and convert.
#[derive(Clone, Copy, PartialEq, Eq, Structural, Debug)]
pub struct Point {
    pub x: i64,
    pub y: i64,
}

impl Point {
    /// Both coordinates are within the engine's coordinate range.
    pub open spec fn in_bounds(self) -> bool {
        &&& -COORD_LIMIT <= self.x <= COORD_LIMIT
        &&& -COORD_LIMIT <= self.y <= COORD_LIMIT
    }

    pub fn xy(x: i64, y: i64) -> (p: Point)
        ensures
            p == (Point { x, y }),
    {
        Point { x, y }
    }
}

/// Squared Euclidean distance between two points.
pub open spec fn dist_sq(a: Point, b: Point) -> int {
    (a.x - b.x) * (a.x - b.x) + (a.y - b.y) * (a.y - b.y)
}

/// A square is monotone in the magnitude of its argument.
pub proof fn lemma_square_bound(d: int, m: int)
    requires
        -m <= d <= m,
        0 <= m,
    ensures
        0 <= d * d <= m * m,
{
    assert(0 <= d * d <= m * m) by (nonlinear_arith)
        requires
            -m <= d <= m,
            0 <= m,
    ;
}

/// Squared Euclidean distance, overflow-free for in-range points.
pub fn distance_squared(a: Point, b: Point) -> (d: i64)
    requires
        a.in_bounds(),
        b.in_bounds(),
    ensures
        d == dist_sq(a, b),
{
    let dx = a.x - b.x;
    let dy = a.y - b.y;
    proof {
        lemma_square_bound(dx as int, 2 * (COORD_LIMIT as int));
        lemma_square_bound(dy as int, 2 * (COORD_LIMIT as int));
    }
    dx * dx + dy * dy
}

} // verus!
