use crate::bb::BB;
use crate::point::{dist_sq, lemma_square_bound, Point, COORD_LIMIT};
use vstd::arithmetic::div_mod::{
    lemma_div_is_ordered, lemma_div_nonincreasing, lemma_div_pos_is_pos,
    lemma_fundamental_div_mod, lemma_hoist_over_denominator,
    lemma_mod_division_less_than_divisor,
};
use vstd::prelude::*;

verus! {

broadcast use vstd::seq_lib::lemma_seq_contains_after_push;

/// Uniform bucket grid over a bounding area, used to answer "which accepted
/// points lie near this query point" in constant time.
///
/// Each cell holds at most one accepted point. The sampler chooses the cell
/// side as `radius / sqrt(2)` (rounded down), which is small enough that two
/// points of one cell are always closer than `radius`, and large enough that
/// every point within `radius` of a query point lies in the 5x5 block of
/// cells centred on the query point's cell.
///
/// Slots are kept in a flat arena, row-major: cell `(column i, row j)` lives
/// at index `j * ncols + i`.
pub struct Grid {
    pub cell_size: i64,
    pub min_x: i64,
    pub min_y: i64,
    pub ncols: usize,
    pub nrows: usize,
    pub cells: Vec<Option<Point>>,
}

/// Number of occupied slots of the arena.
pub open spec fn count_some(s: Seq<Option<Point>>) -> int
    decreases s.len(),
{
    if s.len() == 0 {
        0
    } else {
        count_some(s.drop_last()) + if s.last() is Some {
            1int
        } else {
            0int
        }
    }
}

pub proof fn lemma_count_some_le_len(s: Seq<Option<Point>>)
    ensures
        0 <= count_some(s) <= s.len(),
    decreases s.len(),
{
    if s.len() > 0 {
        lemma_count_some_le_len(s.drop_last());
    }
}

pub proof fn lemma_count_some_all_none(s: Seq<Option<Point>>)
    requires
        forall|k: int| 0 <= k < s.len() ==> s[k] is None,
    ensures
        count_some(s) == 0,
    decreases s.len(),
{
    if s.len() > 0 {
        lemma_count_some_all_none(s.drop_last());
    }
}

/// Filling an empty slot raises the occupancy count by one.
pub proof fn lemma_count_some_update(s: Seq<Option<Point>>, i: int, p: Point)
    requires
        0 <= i < s.len(),
        s[i] is None,
    ensures
        count_some(s.update(i, Some(p))) == count_some(s) + 1,
    decreases s.len(),
{
    let t = s.update(i, Some(p));
    if i == s.len() - 1 {
        assert(t.drop_last() =~= s.drop_last());
    } else {
        assert(t.drop_last() =~= s.drop_last().update(i, Some(p)));
        lemma_count_some_update(s.drop_last(), i, p);
    }
}

/// A cell index pair within the arena maps to a flat index within bounds.
pub proof fn lemma_slot_in_range(nc: int, nr: int, i: int, j: int)
    requires
        0 <= i < nc,
        0 <= j < nr,
    ensures
        0 <= j * nc + i < nr * nc,
{
    assert(0 <= j * nc + i < nr * nc) by (nonlinear_arith)
        requires
            0 <= i < nc,
            0 <= j < nr,
    ;
}

/// Distinct cell index pairs map to distinct flat indices.
pub proof fn lemma_slot_injective(nc: int, nr: int, i1: int, j1: int, i2: int, j2: int)
    requires
        0 <= i1 < nc,
        0 <= j1 < nr,
        0 <= i2 < nc,
        0 <= j2 < nr,
        j1 * nc + i1 == j2 * nc + i2,
    ensures
        i1 == i2 && j1 == j2,
{
    assert(i1 == i2 && j1 == j2) by (nonlinear_arith)
        requires
            0 <= i1 < nc,
            0 <= j1 < nr,
            0 <= i2 < nc,
            0 <= j2 < nr,
            j1 * nc + i1 == j2 * nc + i2,
    ;
}

impl Grid {
    pub open spec fn capacity(self) -> int {
        self.nrows * self.ncols
    }

    pub open spec fn wf(self) -> bool {
        &&& 1 <= self.cell_size <= 2 * COORD_LIMIT
        &&& -COORD_LIMIT <= self.min_x <= COORD_LIMIT
        &&& -COORD_LIMIT <= self.min_y <= COORD_LIMIT
        &&& 1 <= self.ncols <= 0x1_0000_0000
        &&& 1 <= self.nrows <= 0x1_0000_0000
        &&& self.cells@.len() == self.nrows * self.ncols
        &&& self.cells@.len() <= usize::MAX
    }

    /// Column of the cell covering `p`.
    pub open spec fn col_of(self, p: Point) -> int {
        (p.x - self.min_x) / (self.cell_size as int)
    }

    /// Row of the cell covering `p`.
    pub open spec fn row_of(self, p: Point) -> int {
        (p.y - self.min_y) / (self.cell_size as int)
    }

    /// The point falls into one of the grid's cells.
    pub open spec fn in_coverage(self, p: Point) -> bool {
        &&& self.min_x <= p.x
        &&& self.min_y <= p.y
        &&& self.col_of(p) < self.ncols
        &&& self.row_of(p) < self.nrows
    }

    pub open spec fn in_range(self, i: int, j: int) -> bool {
        0 <= i < self.ncols && 0 <= j < self.nrows
    }

    /// Flat arena index of cell `(column i, row j)`.
    pub open spec fn slot(self, i: int, j: int) -> int {
        j * self.ncols + i
    }

    pub open spec fn cell_at(self, i: int, j: int) -> Option<Point> {
        self.cells@[self.slot(i, j)]
    }

    /// Cell `(i, j)` lies in the 5x5 block centred on `p`'s own cell.
    pub open spec fn in_window(self, p: Point, i: int, j: int) -> bool {
        &&& self.in_range(i, j)
        &&& self.col_of(p) - 2 <= i <= self.col_of(p) + 2
        &&& self.row_of(p) - 2 <= j <= self.row_of(p) + 2
    }

    /// Some occupied cell of the 5x5 block centred on `p`'s cell holds `q`.
    pub open spec fn holds_near(self, p: Point, q: Point) -> bool {
        exists|i: int, j: int| self.in_window(p, i, j) && self.cell_at(i, j) == Some(q)
    }

    /// Allocate an empty grid over the box, one slot per cell, with
    /// `(extent / cell_size) + 1` cells along each axis so that every point
    /// of the box (boundary included) falls into a cell.
    pub fn new(cell_size: i64, bb: BB) -> (g: Grid)
        requires
            1 <= cell_size <= 2 * COORD_LIMIT,
            bb.bounded(),
            ((bb.max.y - bb.min.y) / (cell_size as int) + 1) * ((bb.max.x - bb.min.x) / (
            cell_size as int) + 1) <= usize::MAX,
        ensures
            g.wf(),
            g.cell_size == cell_size,
            g.min_x == bb.min.x,
            g.min_y == bb.min.y,
            g.ncols == (bb.max.x - bb.min.x) / (cell_size as int) + 1,
            g.nrows == (bb.max.y - bb.min.y) / (cell_size as int) + 1,
            forall|i: int, j: int| g.in_range(i, j) ==> g.cell_at(i, j) is None,
            count_some(g.cells@) == 0,
    {
        let wx = (bb.max.x - bb.min.x) as u64;
        let wy = (bb.max.y - bb.min.y) as u64;
        let cs = cell_size as u64;
        proof {
            lemma_div_pos_is_pos(wx as int, cs as int);
            lemma_div_pos_is_pos(wy as int, cs as int);
            lemma_div_nonincreasing(wx as int, cs as int);
            lemma_div_nonincreasing(wy as int, cs as int);
        }
        let ncols: usize = (wx / cs + 1) as usize;
        let nrows: usize = (wy / cs + 1) as usize;
        let cap: usize = nrows * ncols;
        let mut cells: Vec<Option<Point>> = Vec::new();
        while cells.len() < cap
            invariant
                cells@.len() <= cap,
                forall|k: int| 0 <= k < cells@.len() ==> cells@[k] is None,
            decreases cap - cells@.len(),
        {
            cells.push(None);
        }
        let g = Grid { cell_size, min_x: bb.min.x, min_y: bb.min.y, ncols, nrows, cells };
        proof {
            lemma_count_some_all_none(g.cells@);
            assert forall|i: int, j: int| g.in_range(i, j) implies g.cell_at(i, j) is None by {
                lemma_slot_in_range(g.ncols as int, g.nrows as int, i, j);
            }
        }
        g
    }

    /// Total number of cells.
    pub fn size(&self) -> (n: usize)
        requires
            self.wf(),
        ensures
            n == self.capacity(),
    {
        self.cells.len()
    }

    /// Cell index of a covered point.
    fn cell(&self, p: Point) -> (c: (usize, usize))
        requires
            self.wf(),
            self.in_coverage(p),
            p.in_bounds(),
        ensures
            c.0 == self.col_of(p),
            c.1 == self.row_of(p),
    {
        let dx = (p.x - self.min_x) as u64;
        let dy = (p.y - self.min_y) as u64;
        let cs = self.cell_size as u64;
        proof {
            lemma_div_pos_is_pos(dx as int, cs as int);
            lemma_div_pos_is_pos(dy as int, cs as int);
        }
        ((dx / cs) as usize, (dy / cs) as usize)
    }

    /// Write the point into the slot of its own cell, overwriting any prior
    /// occupant.
    pub fn insert(&mut self, p: Point)
        requires
            old(self).wf(),
            old(self).in_coverage(p),
            p.in_bounds(),
        ensures
            final(self).wf(),
            final(self).cell_size == old(self).cell_size,
            final(self).min_x == old(self).min_x,
            final(self).min_y == old(self).min_y,
            final(self).ncols == old(self).ncols,
            final(self).nrows == old(self).nrows,
            final(self).cells@ == old(self).cells@.update(
                old(self).slot(old(self).col_of(p), old(self).row_of(p)),
                Some(p),
            ),
            forall|a: int, b: int|
                final(self).in_range(a, b) ==> final(self).cell_at(a, b) == (if a == old(
                    self,
                ).col_of(p) && b == old(self).row_of(p) {
                    Some(p)
                } else {
                    old(self).cell_at(a, b)
                }),
    {
        let (i, j) = self.cell(p);
        proof {
            lemma_slot_in_range(self.ncols as int, self.nrows as int, i as int, j as int);
        }
        let idx = j * self.ncols + i;
        self.cells.set(idx, Some(p));
        proof {
            assert forall|a: int, b: int| self.in_range(a, b) implies self.cell_at(a, b) == (if a
                == old(self).col_of(p) && b == old(self).row_of(p) {
                Some(p)
            } else {
                old(self).cell_at(a, b)
            }) by {
                lemma_slot_in_range(self.ncols as int, self.nrows as int, a, b);
                if (a != i as int || b != j as int) && self.slot(a, b) == self.slot(
                    i as int,
                    j as int,
                ) {
                    lemma_slot_injective(
                        self.ncols as int,
                        self.nrows as int,
                        a,
                        b,
                        i as int,
                        j as int,
                    );
                }
            }
        }
    }

    /// All occupied slots of the 5x5 block of cells centred on `p`'s cell,
    /// clipped to the grid bounds.
    ///
    /// Complete: every occupied slot of the block appears in the result.
    /// Sound: every returned point comes from an occupied slot of the block.
    pub fn neighbouring_points(&self, p: Point) -> (result: Vec<Point>)
        requires
            self.wf(),
            self.in_coverage(p),
            p.in_bounds(),
        ensures
            forall|i: int, j: int| #![trigger self.cell_at(i, j)]
                self.in_window(p, i, j) ==> (self.cell_at(i, j) matches Some(q)
                    ==> result@.contains(q)),
            forall|t: int| #![trigger result@[t]]
                0 <= t < result@.len() ==> self.holds_near(p, result@[t]),
    {
        let (ci, cj) = self.cell(p);
        let mut result: Vec<Point> = Vec::new();
        let mut di: usize = 0;
        while di < 5
            invariant
                self.wf(),
                self.in_coverage(p),
                p.in_bounds(),
                ci == self.col_of(p),
                cj == self.row_of(p),
                di <= 5,
                forall|i: int, j: int| #![trigger self.cell_at(i, j)]
                    self.in_window(p, i, j) && i < ci - 2 + di ==> (self.cell_at(i, j)
                        matches Some(q) ==> result@.contains(q)),
                forall|t: int| #![trigger result@[t]]
                    0 <= t < result@.len() ==> self.holds_near(p, result@[t]),
            decreases 5 - di,
        {
            let col_plus = ci + di;
            if col_plus >= 2 && col_plus - 2 < self.ncols {
                let i = col_plus - 2;
                let mut dj: usize = 0;
                while dj < 5
                    invariant
                        self.wf(),
                        self.in_coverage(p),
                        p.in_bounds(),
                        ci == self.col_of(p),
                        cj == self.row_of(p),
                        di < 5,
                        dj <= 5,
                        i == ci - 2 + di,
                        i < self.ncols,
                        forall|a: int, b: int| #![trigger self.cell_at(a, b)]
                            self.in_window(p, a, b) && (a < ci - 2 + di || (a == ci - 2 + di && b
                                < cj - 2 + dj)) ==> (self.cell_at(a, b) matches Some(q)
                                ==> result@.contains(q)),
                        forall|t: int| #![trigger result@[t]]
                            0 <= t < result@.len() ==> self.holds_near(p, result@[t]),
                    decreases 5 - dj,
                {
                    let row_plus = cj + dj;
                    if row_plus >= 2 && row_plus - 2 < self.nrows {
                        let j = row_plus - 2;
                        proof {
                            lemma_slot_in_range(
                                self.ncols as int,
                                self.nrows as int,
                                i as int,
                                j as int,
                            );
                        }
                        let idx = j * self.ncols + i;
                        let slot_value = self.cells[idx];
                        match slot_value {
                            Some(q) => {
                                result.push(q);
                                proof {
                                    assert(self.in_window(p, i as int, j as int) && self.cell_at(
                                        i as int,
                                        j as int,
                                    ) == Some(q));
                                    assert(self.holds_near(p, q));
                                }
                            },
                            None => {},
                        }
                    }
                    dj = dj + 1;
                }
            }
            di = di + 1;
        }
        result
    }
}

/// The grid is the one the sampler builds over the box: same origin, and
/// enough cells along each axis to cover the box, boundary included.
pub open spec fn grid_covers(g: Grid, b: BB) -> bool {
    &&& g.min_x == b.min.x
    &&& g.min_y == b.min.y
    &&& g.ncols == (b.max.x - b.min.x) / (g.cell_size as int) + 1
    &&& g.nrows == (b.max.y - b.min.y) / (g.cell_size as int) + 1
}

/// Every point of the covered box falls into a cell of the grid.
pub proof fn lemma_box_in_coverage(g: Grid, b: BB, p: Point)
    requires
        g.wf(),
        b.bounded(),
        grid_covers(g, b),
        b.contains_pt(p),
    ensures
        g.in_coverage(p),
        p.in_bounds(),
{
    let s = g.cell_size as int;
    lemma_div_is_ordered(p.x - g.min_x, b.max.x - b.min.x, s);
    lemma_div_is_ordered(p.y - g.min_y, b.max.y - b.min.y, s);
}

/// If the square of `d` is within the square of a nonnegative `m`, then `d`
/// itself is within `m` in magnitude.
pub proof fn lemma_abs_bound_from_sq(d: int, m: int)
    requires
        d * d <= m * m,
        0 <= m,
    ensures
        -m <= d <= m,
{
    assert(-m <= d <= m) by (nonlinear_arith)
        requires
            d * d <= m * m,
            0 <= m,
    ;
}

/// Any point within `radius` of a covered query point falls into the 5x5
/// block of cells centred on the query point's cell, provided the cell side
/// is at least half the radius. This is the reason a bounded neighbourhood
/// search finds every conflicting point.
pub proof fn lemma_close_in_window(g: Grid, c: Point, q: Point, radius: int)
    requires
        g.wf(),
        g.in_coverage(c),
        g.in_coverage(q),
        1 <= radius,
        radius <= 2 * g.cell_size,
        dist_sq(c, q) <= radius * radius,
    ensures
        g.in_window(c, g.col_of(q), g.row_of(q)),
{
    let s = g.cell_size as int;
    let dx = c.x - q.x;
    let dy = c.y - q.y;
    assert(0 <= dx * dx && 0 <= dy * dy) by (nonlinear_arith);
    assert(dx * dx <= radius * radius);
    assert(dy * dy <= radius * radius);
    lemma_abs_bound_from_sq(dx, radius);
    lemma_abs_bound_from_sq(dy, radius);
    let a = c.x - g.min_x;
    let b = q.x - g.min_x;
    lemma_window_axis(a, b, s);
    let ay = c.y - g.min_y;
    let by = q.y - g.min_y;
    lemma_window_axis(ay, by, s);
    lemma_div_pos_is_pos(b, s);
    lemma_div_pos_is_pos(by, s);
}

/// One axis of the window argument: offsets within `2 * s` of each other
/// land within two columns of each other.
pub proof fn lemma_window_axis(a: int, b: int, s: int)
    requires
        0 <= a,
        0 <= b,
        1 <= s,
        b <= a + 2 * s,
        a <= b + 2 * s,
    ensures
        a / s - 2 <= b / s <= a / s + 2,
{
    lemma_hoist_over_denominator(a, 2, s as nat);
    assert(a / s + 2 == (a + 2 * s) / s);
    lemma_div_is_ordered(b, a + 2 * s, s);
    lemma_hoist_over_denominator(b, 2, s as nat);
    assert(b / s + 2 == (b + 2 * s) / s);
    lemma_div_is_ordered(a, b + 2 * s, s);
}

/// Two covered points of one and the same cell lie within the cell's
/// diagonal of each other.
pub proof fn lemma_same_cell_close(g: Grid, a: Point, b: Point)
    requires
        g.wf(),
        g.in_coverage(a),
        g.in_coverage(b),
        g.col_of(a) == g.col_of(b),
        g.row_of(a) == g.row_of(b),
    ensures
        dist_sq(a, b) <= 2 * ((g.cell_size - 1) * (g.cell_size - 1)),
{
    let s = g.cell_size as int;
    let ax = a.x - g.min_x;
    let bx = b.x - g.min_x;
    let ay = a.y - g.min_y;
    let by = b.y - g.min_y;
    lemma_same_cell_axis(ax, bx, s);
    lemma_same_cell_axis(ay, by, s);
    assert((a.x - b.x) * (a.x - b.x) <= (s - 1) * (s - 1)) by {
        lemma_square_bound(ax - bx, s - 1);
    }
    assert((a.y - b.y) * (a.y - b.y) <= (s - 1) * (s - 1)) by {
        lemma_square_bound(ay - by, s - 1);
    }
}

/// Offsets with one and the same quotient differ by less than the divisor.
pub proof fn lemma_same_cell_axis(a: int, b: int, s: int)
    requires
        0 <= a,
        0 <= b,
        1 <= s,
        a / s == b / s,
    ensures
        -(s - 1) <= a - b <= s - 1,
{
    lemma_fundamental_div_mod(a, s);
    lemma_fundamental_div_mod(b, s);
    lemma_mod_division_less_than_divisor(a, s);
    lemma_mod_division_less_than_divisor(b, s);
}

} // verus!
