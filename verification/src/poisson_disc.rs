use crate::bb::{HasBB, BB};
use crate::grid::{
    count_some, lemma_close_in_window, lemma_count_some_le_len, lemma_count_some_update,
    lemma_same_cell_close, lemma_slot_in_range, Grid,
};
use crate::point::{dist_sq, distance_squared, lemma_square_bound, Point, COORD_LIMIT};
use crate::rng::RandomSource;
use vstd::arithmetic::div_mod::{
    lemma_div_is_ordered, lemma_div_nonincreasing, lemma_div_pos_is_pos,
    lemma_fundamental_div_mod, lemma_mod_division_less_than_divisor,
};
use vstd::prelude::*;

verus! {

broadcast use {
    vstd::multiset::group_multiset_axioms,
    vstd::seq_lib::group_to_multiset_ensures,
    vstd::seq_lib::lemma_seq_contains_after_push,
};

/// `r` is the integer square root of `n`.
pub open spec fn is_int_sqrt(n: int, r: int) -> bool {
    0 <= r && r * r <= n && n < (r + 1) * (r + 1)
}

pub open spec fn spec_isqrt(n: int) -> int {
    choose|r: int| is_int_sqrt(n, r)
}

/// The sampler's grid cell side for a separation radius:
/// `radius / sqrt(2)` rounded down, and at least one.
pub open spec fn spec_cell_size(radius: int) -> int {
    let s = spec_isqrt((radius * radius) / 2);
    if s < 1 {
        1
    } else {
        s
    }
}

/// Number of grid cells the sampler allocates for a region box: since every
/// accepted point occupies a cell of its own, this also bounds the size of
/// the sample set.
pub open spec fn grid_capacity(radius: int, bb: BB) -> int {
    let s = spec_cell_size(radius);
    ((bb.max.y - bb.min.y) / s + 1) * ((bb.max.x - bb.min.x) / s + 1)
}

/// The point lies in the closed annulus between `radius` and `2 * radius`
/// around `c`.
spec fn in_annulus(c: Point, radius: int, q: Point) -> bool {
    radius * radius <= dist_sq(c, q) <= 4 * (radius * radius)
}

pub proof fn lemma_isqrt_unique(n: int, r1: int, r2: int)
    requires
        is_int_sqrt(n, r1),
        is_int_sqrt(n, r2),
    ensures
        r1 == r2,
{
    assert(r1 == r2) by (nonlinear_arith)
        requires
            0 <= r1 && r1 * r1 <= n && n < (r1 + 1) * (r1 + 1),
            0 <= r2 && r2 * r2 <= n && n < (r2 + 1) * (r2 + 1),
    ;
}

/// Squared distance is symmetric.
pub proof fn lemma_dist_sq_symm(a: Point, b: Point)
    ensures
        dist_sq(a, b) == dist_sq(b, a),
{
    assert(dist_sq(a, b) == dist_sq(b, a)) by (nonlinear_arith);
}

/// Squared distance of a point from its offset by `(dx, dy)`.
pub proof fn lemma_dist_sq_offset(c: Point, q: Point, dx: int, dy: int)
    requires
        q.x == c.x + dx,
        q.y == c.y + dy,
    ensures
        dist_sq(c, q) == dx * dx + dy * dy,
{
    assert(dist_sq(c, q) == dx * dx + dy * dy) by (nonlinear_arith)
        requires
            q.x == c.x + dx,
            q.y == c.y + dy,
    ;
}

/// The grid cell side derived from the radius is small enough that two
/// points of one cell conflict, and large enough that the 5x5 window
/// reaches every conflicting point.
pub proof fn lemma_cell_size_props(radius: int, s: int)
    requires
        1 <= radius,
        1 <= s,
        2 * (s * s) <= radius * radius || (radius == 1 && s == 1),
        (radius * radius) / 2 < (s + 1) * (s + 1),
    ensures
        2 * ((s - 1) * (s - 1)) < radius * radius,
        radius <= 2 * s,
{
    assert(2 * ((s - 1) * (s - 1)) < radius * radius) by (nonlinear_arith)
        requires
            1 <= radius,
            1 <= s,
            2 * (s * s) <= radius * radius || (radius == 1 && s == 1),
    ;
    let q = (radius * radius) / 2;
    lemma_fundamental_div_mod(radius * radius, 2);
    lemma_mod_division_less_than_divisor(radius * radius, 2);
    assert(radius <= 2 * s) by (nonlinear_arith)
        requires
            1 <= radius,
            1 <= s,
            radius * radius == 2 * q + (radius * radius) % 2,
            0 <= (radius * radius) % 2 < 2,
            q < (s + 1) * (s + 1),
    ;
}

/// Every nonnegative integer has an integer square root.
pub proof fn lemma_isqrt_exists(n: int)
    requires
        0 <= n,
    ensures
        is_int_sqrt(n, spec_isqrt(n)),
    decreases n,
{
    if n == 0 {
        assert(is_int_sqrt(0, 0)) by (nonlinear_arith);
    } else {
        lemma_isqrt_exists(n - 1);
        let r = spec_isqrt(n - 1);
        if n < (r + 1) * (r + 1) {
            assert(is_int_sqrt(n, r));
        } else {
            assert(is_int_sqrt(n, r + 1)) by (nonlinear_arith)
                requires
                    0 <= r,
                    r * r <= n - 1,
                    n - 1 < (r + 1) * (r + 1),
                    (r + 1) * (r + 1) <= n,
            ;
        }
        assert(exists|w: int| is_int_sqrt(n, w));
    }
}

/// The grid cell side derived from a radius is at least one, at least half
/// the radius, and short enough that one cell cannot hold two points that
/// respect the radius.
pub proof fn lemma_cell_size_bounds(radius: int)
    requires
        1 <= radius,
    ensures
        1 <= spec_cell_size(radius),
        radius <= 2 * spec_cell_size(radius),
        2 * ((spec_cell_size(radius) - 1) * (spec_cell_size(radius) - 1)) < radius * radius,
{
    assert(1 <= radius * radius) by (nonlinear_arith)
        requires
            1 <= radius,
    ;
    let q = (radius * radius) / 2;
    lemma_fundamental_div_mod(radius * radius, 2);
    lemma_mod_division_less_than_divisor(radius * radius, 2);
    lemma_isqrt_exists(q);
    let s0 = spec_isqrt(q);
    if s0 == 0 {
        assert(q == 0) by (nonlinear_arith)
            requires
                0 <= q,
                q < (s0 + 1) * (s0 + 1),
                s0 == 0,
        ;
        assert(radius == 1) by (nonlinear_arith)
            requires
                1 <= radius,
                radius * radius <= 1,
        ;
    }
    lemma_cell_size_props(radius, spec_cell_size(radius));
}

/// Packing bound: the engine's grid, whose cell count bounds every result,
/// has no more cells than a grid of half-radius-sized cells over the same
/// box. So a sample set can be no larger than the number of such cells,
/// which is roughly `(2 * extent / radius + 1)` per axis.
pub proof fn lemma_capacity_packing_bound(radius: int, bb: BB)
    requires
        2 <= radius,
        bb.bounded(),
    ensures
        grid_capacity(radius, bb) <= ((bb.max.y - bb.min.y) / (radius / 2) + 1) * ((bb.max.x
            - bb.min.x) / (radius / 2) + 1),
{
    lemma_cell_size_bounds(radius);
    let s = spec_cell_size(radius);
    let hr = radius / 2;
    assert((2 * s) / 2 == s) by {
        vstd::arithmetic::div_mod::lemma_div_multiples_vanish(s, 2);
    }
    assert(hr <= s) by {
        lemma_div_is_ordered(radius, 2 * s, 2);
    }
    let w = bb.max.x - bb.min.x;
    let h = bb.max.y - bb.min.y;
    vstd::arithmetic::div_mod::lemma_div_is_ordered_by_denominator(w, hr, s);
    vstd::arithmetic::div_mod::lemma_div_is_ordered_by_denominator(h, hr, s);
    lemma_div_pos_is_pos(w, s);
    lemma_div_pos_is_pos(h, s);
    assert((h / s + 1) * (w / s + 1) <= (h / hr + 1) * (w / hr + 1)) by (nonlinear_arith)
        requires
            0 <= h / s <= h / hr,
            0 <= w / s <= w / hr,
    ;
}

/// Integer square root by binary search.
fn isqrt(n: u64) -> (r: u64)
    requires
        n < 0x4000_0000_0000_0000,
    ensures
        is_int_sqrt(n as int, r as int),
{
    let mut lo: u64 = 0;
    let mut hi: u64 = 0x8000_0000;
    proof {
        assert((0x8000_0000u64 as int) * (0x8000_0000u64 as int) == 0x4000_0000_0000_0000) by (nonlinear_arith);
    }
    while lo + 1 < hi
        invariant
            lo < hi <= 0x8000_0000,
            (lo as int) * (lo as int) <= n,
            n < (hi as int) * (hi as int),
        decreases hi - lo,
    {
        let mid = lo + (hi - lo) / 2;
        proof {
            assert(lo < mid < hi);
            assert((mid as int) * (mid as int) <= (0x8000_0000u64 as int) * (
            0x8000_0000u64 as int)) by (nonlinear_arith)
                requires
                    0 <= mid <= 0x8000_0000u64,
            ;
            assert((0x8000_0000u64 as int) * (0x8000_0000u64 as int) == 0x4000_0000_0000_0000) by (nonlinear_arith);
        }
        if mid * mid <= n {
            lo = mid;
        } else {
            hi = mid;
        }
    }
    lo
}

/// An element of either half of a multiset split is an element of the whole.
proof fn lemma_sum_contains(a: Seq<Point>, r: Seq<Point>, s: Seq<Point>, x: Point)
    requires
        a.to_multiset().add(r.to_multiset()) == s.to_multiset(),
        a.contains(x) || r.contains(x),
    ensures
        s.contains(x),
{
    assert(s.to_multiset().count(x) == a.to_multiset().count(x) + r.to_multiset().count(x));
    assert(s.to_multiset().count(x) > 0);
}

/// Dropping the last element removes one occurrence of it.
proof fn lemma_to_multiset_drop_last(s: Seq<Point>)
    requires
        s.len() > 0,
    ensures
        s.drop_last().to_multiset() == s.to_multiset().remove(s.last()),
{
    assert(s.drop_last().push(s.last()) =~= s);
    assert(s.to_multiset() == s.drop_last().to_multiset().insert(s.last()));
    assert(s.drop_last().to_multiset() =~= s.to_multiset().remove(s.last()));
}

/// Retiring an active sample - removing it by swap from one list and
/// appending it to the other - leaves the combined multiset unchanged.
proof fn lemma_retire_multiset(a: Seq<Point>, r: Seq<Point>, i: int)
    requires
        0 <= i < a.len(),
    ensures
        a.update(i, a.last()).drop_last().to_multiset().add(r.push(a[i]).to_multiset())
            == a.to_multiset().add(r.to_multiset()),
{
    let a2 = a.update(i, a.last()).drop_last();
    assert(r.push(a[i]).to_multiset() == r.to_multiset().insert(a[i]));
    if i == a.len() - 1 {
        assert(a.update(i, a.last()) =~= a);
        lemma_to_multiset_drop_last(a);
        assert(a2.to_multiset() == a.to_multiset().remove(a[i]));
    } else {
        let t = a.update(i, a.last());
        assert(t.to_multiset() == a.to_multiset().insert(a.last()).remove(a[i]));
        assert(t.len() == a.len() && t.last() == a.last());
        lemma_to_multiset_drop_last(t);
        assert(a2.to_multiset() == a.to_multiset().insert(a.last()).remove(a[i]).remove(a.last()));
        assert(a.to_multiset().count(a[i]) > 0);
        assert(a2.to_multiset() =~= a.to_multiset().remove(a[i]));
    }
    assert(a.to_multiset().count(a[i]) > 0);
    assert(a2.to_multiset().add(r.push(a[i]).to_multiset()) =~= a.to_multiset().add(
        r.to_multiset(),
    ));
}

/// Swapping two elements leaves the multiset unchanged.
proof fn lemma_swap_multiset(s: Seq<Point>, p: int, q: int)
    requires
        0 <= p < s.len(),
        0 <= q < s.len(),
    ensures
        s.update(p, s[q]).update(q, s[p]).to_multiset() == s.to_multiset(),
{
    if p == q {
        assert(s.update(p, s[q]).update(q, s[p]) =~= s);
    } else {
        let t = s.update(p, s[q]);
        assert(t.to_multiset() == s.to_multiset().insert(s[q]).remove(s[p]));
        assert(t[q] == s[q]);
        assert(t.update(q, s[p]).to_multiset() == t.to_multiset().insert(s[p]).remove(s[q]));
        assert(s.to_multiset().count(s[p]) > 0);
        assert(s.to_multiset().count(s[q]) > 0);
        assert(t.update(q, s[p]).to_multiset() =~= s.to_multiset());
    }
}

/// Generate up to `k` candidate points in the annulus between `radius` and
/// `2 * radius` around the centre, by drawing uniform offsets from the
/// enclosing square until one lands in the annulus (a bounded number of
/// draws per candidate; a slot whose draws all miss is skipped).
fn quality_candidates_around_sample(
    rng: &mut RandomSource,
    k: usize,
    radius: i64,
    center: Point,
) -> (v: Vec<Point>)
    requires
        1 <= radius <= COORD_LIMIT,
        center.in_bounds(),
    ensures
        v@.len() <= k,
        forall|t: int| 0 <= t < v@.len() ==> in_annulus(center, radius as int, #[trigger] v@[t]),
{
    let mut v: Vec<Point> = Vec::new();
    let mut a: usize = 0;
    while a < k
        invariant
            1 <= radius <= COORD_LIMIT,
            center.in_bounds(),
            a <= k,
            v@.len() <= a,
            forall|t: int| 0 <= t < v@.len() ==> in_annulus(center, radius as int, #[trigger] v@[t]),
        decreases k - a,
    {
        let mut tries: usize = 0;
        let mut hit = false;
        while tries < 8 && !hit
            invariant
                1 <= radius <= COORD_LIMIT,
                center.in_bounds(),
                a < k,
                tries <= 8,
                v@.len() <= a + (if hit {
                    1int
                } else {
                    0int
                }),
                forall|t: int| 0 <= t < v@.len() ==> in_annulus(center, radius as int, #[trigger] v@[t]),
            decreases 8 - tries,
        {
            let two_r = 2 * radius;
            let dx = rng.next_between(-two_r, two_r);
            let dy = rng.next_between(-two_r, two_r);
            proof {
                lemma_square_bound(dx as int, 2 * (radius as int));
                lemma_square_bound(dy as int, 2 * (radius as int));
                lemma_square_bound(2 * (radius as int), 2 * (COORD_LIMIT as int));
            }
            let d2 = dx * dx + dy * dy;
            proof {
                lemma_square_bound(radius as int, COORD_LIMIT as int);
            }
            if radius * radius <= d2 && d2 <= 4 * (radius * radius) {
                let c = Point { x: center.x + dx, y: center.y + dy };
                proof {
                    lemma_dist_sq_offset(center, c, dx as int, dy as int);
                }
                v.push(c);
                hit = true;
            }
            tries = tries + 1;
        }
        a = a + 1;
    }
    v
}

/// The points of the sequence are pairwise separated by more than the
/// radius (so, in particular, pairwise distinct).
spec fn sep_ok(s: Seq<Point>, radius: int) -> bool {
    forall|u: int, v: int| #![trigger s[u], s[v]]
        0 <= u < v < s.len() ==> dist_sq(s[u], s[v]) > radius * radius
}

/// Every point of the sequence lies inside the box.
spec fn all_in_box(bb: BB, s: Seq<Point>) -> bool {
    forall|t: int| 0 <= t < s.len() ==> bb.contains_pt(#[trigger] s[t])
}

/// Every sample is stored in the slot of its own grid cell.
spec fn grid_complete(g: Grid, s: Seq<Point>) -> bool {
    forall|t: int|
        0 <= t < s.len() ==> {
            let p = #[trigger] s[t];
            &&& g.in_coverage(p)
            &&& g.in_range(g.col_of(p), g.row_of(p))
            &&& g.cell_at(g.col_of(p), g.row_of(p)) == Some(p)
        }
}

/// Every occupied slot of the grid holds a sample, filed under its own cell.
spec fn grid_sound(g: Grid, s: Seq<Point>) -> bool {
    forall|i: int, j: int| #![trigger g.cell_at(i, j)]
        g.in_range(i, j) ==> (g.cell_at(i, j) matches Some(q) ==> s.contains(q) && g.col_of(q)
            == i && g.row_of(q) == j)
}

/// A candidate that conflicts with no point of its 5x5 grid neighbourhood
/// conflicts with no sample at all: any sample within the radius would lie
/// in the neighbourhood (by the cell-size choice) and be stored there (by
/// grid completeness).
proof fn lemma_candidate_ok(g: Grid, radius: int, s: Seq<Point>, c: Point, neigh: Seq<Point>)
    requires
        g.wf(),
        grid_complete(g, s),
        g.in_coverage(c),
        1 <= radius,
        radius <= 2 * g.cell_size,
        forall|t: int| 0 <= t < neigh.len() ==> dist_sq(c, #[trigger] neigh[t]) > radius * radius,
        forall|i: int, j: int| #![trigger g.cell_at(i, j)]
            g.in_window(c, i, j) ==> (g.cell_at(i, j) matches Some(q) ==> neigh.contains(q)),
    ensures
        forall|t: int| 0 <= t < s.len() ==> dist_sq(c, #[trigger] s[t]) > radius * radius,
{
    assert forall|t: int| 0 <= t < s.len() implies dist_sq(c, #[trigger] s[t]) > radius
        * radius by {
        let p = s[t];
        if dist_sq(c, p) <= radius * radius {
            lemma_close_in_window(g, c, p, radius);
            assert(g.cell_at(g.col_of(p), g.row_of(p)) == Some(p));
            assert(neigh.contains(p));
            let w = choose|w: int| 0 <= w < neigh.len() && neigh[w] == p;
            assert(dist_sq(c, neigh[w]) > radius * radius);
        }
    }
}

/// The slot of a candidate's own cell is empty whenever the candidate is
/// far from every sample: an occupant would be a sample of the same cell,
/// hence closer than the radius.
proof fn lemma_target_cell_empty(g: Grid, radius: int, s: Seq<Point>, c: Point)
    requires
        g.wf(),
        grid_complete(g, s),
        grid_sound(g, s),
        g.in_coverage(c),
        1 <= radius,
        2 * ((g.cell_size - 1) * (g.cell_size - 1)) < radius * radius,
        forall|t: int| 0 <= t < s.len() ==> dist_sq(c, #[trigger] s[t]) > radius * radius,
    ensures
        g.in_range(g.col_of(c), g.row_of(c)),
        g.cell_at(g.col_of(c), g.row_of(c)) is None,
{
    let i = g.col_of(c);
    let j = g.row_of(c);
    lemma_div_pos_is_pos(c.x - g.min_x, g.cell_size as int);
    lemma_div_pos_is_pos(c.y - g.min_y, g.cell_size as int);
    assert(g.in_range(i, j));
    match g.cell_at(i, j) {
        Some(q) => {
            assert(s.contains(q) && g.col_of(q) == i && g.row_of(q) == j);
            let t = choose|t: int| 0 <= t < s.len() && s[t] == q;
            assert(g.in_coverage(q));
            lemma_same_cell_close(g, c, q);
            assert(dist_sq(c, q) > radius * radius);
            assert(false);
        },
        None => {},
    }
}

/// Scan the candidates in order and return the first that lies inside the
/// box and conflicts with no sample found through the grid.
fn find_candidate(
    grid: &Grid,
    bb: BB,
    radius: i64,
    candidates: &Vec<Point>,
    Ghost(s): Ghost<Seq<Point>>,
) -> (found: Option<Point>)
    requires
        grid.wf(),
        bb.bounded(),
        crate::grid::grid_covers(*grid, bb),
        1 <= radius <= COORD_LIMIT,
        radius <= 2 * grid.cell_size,
        2 * ((grid.cell_size - 1) * (grid.cell_size - 1)) < radius * radius,
        grid_complete(*grid, s),
        grid_sound(*grid, s),
        all_in_box(bb, s),
    ensures
        found matches Some(c) ==> {
            &&& bb.contains_pt(c)
            &&& c.in_bounds()
            &&& grid.in_coverage(c)
            &&& grid.in_range(grid.col_of(c), grid.row_of(c))
            &&& grid.cell_at(grid.col_of(c), grid.row_of(c)) is None
            &&& forall|t: int| 0 <= t < s.len() ==> dist_sq(c, #[trigger] s[t]) > radius * radius
        },
        candidates@.len() == 0 ==> found is None,
{
    proof {
        lemma_square_bound(radius as int, COORD_LIMIT as int);
    }
    let r2 = radius * radius;
    let mut ci: usize = 0;
    while ci < candidates.len()
        invariant
            grid.wf(),
            bb.bounded(),
            crate::grid::grid_covers(*grid, bb),
            1 <= radius <= COORD_LIMIT,
            radius <= 2 * grid.cell_size,
            2 * ((grid.cell_size - 1) * (grid.cell_size - 1)) < radius * radius,
            grid_complete(*grid, s),
            grid_sound(*grid, s),
            all_in_box(bb, s),
            r2 == radius * radius,
        decreases candidates@.len() - ci,
    {
        let c = candidates[ci];
        let cbb = BB { min: c, max: c };
        if cbb.is_inside(bb) {
            proof {
                crate::grid::lemma_box_in_coverage(*grid, bb, c);
            }
            let neigh = grid.neighbouring_points(c);
            let mut too_close = false;
            let mut t: usize = 0;
            while t < neigh.len()
                invariant
                    grid.wf(),
                    bb.bounded(),
                    1 <= radius <= COORD_LIMIT,
                    grid_complete(*grid, s),
                    grid_sound(*grid, s),
                    all_in_box(bb, s),
                    bb.contains_pt(c),
                    c.in_bounds(),
                    grid.in_coverage(c),
                    t <= neigh@.len(),
                    r2 == radius * radius,
                    forall|w: int| #![trigger neigh@[w]]
                        0 <= w < neigh@.len() ==> grid.holds_near(c, neigh@[w]),
                    !too_close ==> forall|w: int| #![trigger neigh@[w]]
                        0 <= w < t ==> dist_sq(c, neigh@[w]) > radius * radius,
                decreases neigh@.len() - t,
            {
                let q = neigh[t];
                proof {
                    assert(grid.holds_near(c, q));
                    let (i, j): (int, int) = choose|i: int, j: int|
                        grid.in_window(c, i, j) && grid.cell_at(i, j) == Some(q);
                    assert(s.contains(q));
                    let u = choose|u: int| 0 <= u < s.len() && s[u] == q;
                    assert(bb.contains_pt(q));
                }
                let d2 = distance_squared(c, q);
                if d2 <= r2 {
                    too_close = true;
                }
                t = t + 1;
            }
            if !too_close {
                proof {
                    lemma_candidate_ok(*grid, radius as int, s, c, neigh@);
                    lemma_target_cell_empty(*grid, radius as int, s, c);
                }
                return Some(c);
            }
        }
        ci = ci + 1;
    }
    None
}

/// Rearrange the candidates into a random order, so that the order of
/// generation introduces no directional bias. The contents are unchanged.
fn shuffle(rng: &mut RandomSource, v: &mut Vec<Point>)
    ensures
        final(v)@.to_multiset() == old(v)@.to_multiset(),
        final(v)@.len() == old(v)@.len(),
{
    let mut i: usize = v.len();
    while i > 1
        invariant
            i <= v@.len(),
            v@.to_multiset() == old(v)@.to_multiset(),
            v@.len() == old(v)@.len(),
        decreases i,
    {
        let j = rng.next_index(i);
        let ghost before = v@;
        let x = v[i - 1];
        let y = v[j];
        v.set(i - 1, y);
        v.set(j, x);
        proof {
            lemma_swap_multiset(before, i - 1, j as int);
        }
        i = i - 1;
    }
}

/// Poisson-disc ("blue noise") sampling: produce a set of points inside the
/// region's bounding box such that no two are closer than `radius`, by dart
/// throwing from an active list of seed points, accelerated by a uniform
/// grid. `k` is the number of candidate points attempted per active sample
/// before the sample is retired into the result.
///
/// The result is empty exactly when the box has zero extent along some
/// axis. Otherwise it holds at least the box's centre point, every point
/// lies in the box, all points are pairwise farther than `radius` apart,
/// and the grid's cell count bounds the number of points, so the loop also
/// terminates.
pub fn poisson_disc<Region: HasBB>(
    rng: &mut RandomSource,
    region: Region,
    radius: i64,
    k: usize,
) -> (result: Vec<Point>)
    requires
        region.wf(),
        1 <= radius <= COORD_LIMIT,
        !region.bb_spec().degenerate() ==> (region.bb_spec().max.y - region.bb_spec().min.y + 1)
            * (region.bb_spec().max.x - region.bb_spec().min.x + 1) <= usize::MAX,
    ensures
        forall|u: int, v: int| #![trigger result@[u], result@[v]]
            0 <= u < result@.len() && 0 <= v < result@.len() && u != v ==> dist_sq(
                result@[u],
                result@[v],
            ) > radius * radius,
        forall|t: int|
            0 <= t < result@.len() ==> region.bb_spec().contains_pt(#[trigger] result@[t])
                && result@[t].in_bounds(),
        region.bb_spec().degenerate() ==> result@.len() == 0,
        !region.bb_spec().degenerate() ==> result@.len() >= 1 && result@.contains(
            region.bb_spec().center_spec(),
        ),
        !region.bb_spec().degenerate() ==> result@.len() <= grid_capacity(
            radius as int,
            region.bb_spec(),
        ),
        !region.bb_spec().degenerate() && k == 0 ==> result@.len() == 1,
{
    let bb = region.bb();
    let bmin = bb.min();
    let bmax = bb.max();
    if bmin.x >= bmax.x || bmin.y >= bmax.y {
        let empty: Vec<Point> = Vec::new();
        return empty;
    }
    proof {
        assert(bb.bounded());
        lemma_square_bound(radius as int, COORD_LIMIT as int);
        assert((COORD_LIMIT as int) * (COORD_LIMIT as int) < 0x1000_0000_0000_0000)
            by (nonlinear_arith);
    }
    let rr = radius * radius;
    let q = (rr as u64) / 2;
    let s0 = isqrt(q);
    proof {
        assert((s0 as int) < 0x4000_0000) by (nonlinear_arith)
            requires
                0 <= s0 as int,
                (s0 as int) * (s0 as int) <= q as int,
                (q as int) < 0x1000_0000_0000_0000,
        ;
    }
    let cell: i64 = if s0 < 1 {
        1
    } else {
        s0 as i64
    };
    proof {
        lemma_fundamental_div_mod(rr as int, 2);
        lemma_mod_division_less_than_divisor(rr as int, 2);
        if s0 == 0 {
            assert(q == 0);
            assert(radius == 1) by (nonlinear_arith)
                requires
                    1 <= radius,
                    (radius as int) * (radius as int) <= 1,
            ;
        }
        assert(is_int_sqrt(q as int, spec_isqrt(q as int)));
        lemma_isqrt_unique(q as int, spec_isqrt(q as int), s0 as int);
        assert(spec_cell_size(radius as int) == cell as int);
        lemma_cell_size_props(radius as int, cell as int);
        // capacity of the grid fits a usize
        let w = bmax.x - bmin.x;
        let h = bmax.y - bmin.y;
        lemma_div_nonincreasing(w as int, cell as int);
        lemma_div_nonincreasing(h as int, cell as int);
        lemma_div_pos_is_pos(w as int, cell as int);
        lemma_div_pos_is_pos(h as int, cell as int);
        assert(((h as int) / (cell as int) + 1) * ((w as int) / (cell as int) + 1) <= ((
        h as int) + 1) * ((w as int) + 1)) by (nonlinear_arith)
            requires
                0 <= (h as int) / (cell as int) <= h as int,
                0 <= (w as int) / (cell as int) <= w as int,
        ;
    }
    let mut grid = Grid::new(cell, bb);
    let seed = bb.center();
    proof {
        crate::grid::lemma_box_in_coverage(grid, bb, seed);
        lemma_div_pos_is_pos(seed.x - grid.min_x, grid.cell_size as int);
        lemma_div_pos_is_pos(seed.y - grid.min_y, grid.cell_size as int);
        lemma_slot_in_range(
            grid.ncols as int,
            grid.nrows as int,
            grid.col_of(seed),
            grid.row_of(seed),
        );
    }
    let ghost g0 = grid;
    grid.insert(seed);
    let mut active: Vec<Point> = Vec::new();
    active.push(seed);
    let mut result: Vec<Point> = Vec::new();
    let ghost mut samples: Seq<Point> = seq![seed];
    proof {
        let ci0 = g0.col_of(seed);
        let cj0 = g0.row_of(seed);
        assert(g0.in_coverage(seed));
        assert(0 <= ci0 < g0.ncols);
        assert(0 <= cj0 < g0.nrows);
        assert(g0.in_range(ci0, cj0));
        assert(g0.cell_at(ci0, cj0) is None);
        lemma_count_some_update(g0.cells@, g0.slot(ci0, cj0), seed);
        assert(samples =~= Seq::<Point>::empty().push(seed));
        assert forall|x: Point| result@.to_multiset().count(x) == 0 by {
            assert(!result@.contains(x));
        }
        assert(active@.to_multiset().add(result@.to_multiset()) =~= samples.to_multiset());
        assert forall|i: int, j: int| #![trigger grid.cell_at(i, j)]
            grid.in_range(i, j) implies (grid.cell_at(i, j) matches Some(qq) ==> samples.contains(
            qq,
        ) && grid.col_of(qq) == i && grid.row_of(qq) == j) by {
            match grid.cell_at(i, j) {
                Some(qq) => {
                    assert(g0.in_range(i, j));
                    if i == ci0 && j == cj0 {
                        assert(qq == seed);
                        assert(samples[0] == seed);
                        assert(samples.contains(seed));
                    } else {
                        assert(g0.cell_at(i, j) is None);
                        assert(false);
                    }
                },
                None => {},
            }
        }
    }
    while active.len() > 0
        invariant
            1 <= radius <= COORD_LIMIT,
            bb == region.bb_spec(),
            bb.bounded(),
            bb.min.x < bb.max.x,
            bb.min.y < bb.max.y,
            grid.wf(),
            crate::grid::grid_covers(grid, bb),
            radius <= 2 * grid.cell_size,
            2 * ((grid.cell_size - 1) * (grid.cell_size - 1)) < radius * radius,
            grid.capacity() == grid_capacity(radius as int, bb),
            sep_ok(samples, radius as int),
            all_in_box(bb, samples),
            grid_complete(grid, samples),
            grid_sound(grid, samples),
            samples.len() == count_some(grid.cells@),
            1 <= samples.len(),
            samples[0] == bb.center_spec(),
            active@.to_multiset().add(result@.to_multiset()) == samples.to_multiset(),
            k == 0 ==> samples.len() == 1,
        decreases grid.capacity() - samples.len(), active@.len(),
    {
        let idx = rng.next_index(active.len());
        let active_sample = active[idx];
        proof {
            assert(active@.contains(active@[idx as int]));
            lemma_sum_contains(active@, result@, samples, active_sample);
            let u = choose|u: int| 0 <= u < samples.len() && samples[u] == active_sample;
            assert(bb.contains_pt(active_sample));
        }
        let mut candidates = quality_candidates_around_sample(rng, k, radius, active_sample);
        shuffle(rng, &mut candidates);
        let found = find_candidate(&grid, bb, radius, &candidates, Ghost(samples));
        match found {
            Some(c) => {
                let ghost old_grid = grid;
                grid.insert(c);
                active.push(c);
                proof {
                    let ci = old_grid.col_of(c);
                    let cj = old_grid.row_of(c);
                    lemma_slot_in_range(old_grid.ncols as int, old_grid.nrows as int, ci, cj);
                    lemma_count_some_update(old_grid.cells@, old_grid.slot(ci, cj), c);
                    lemma_count_some_le_len(grid.cells@);
                    let s2 = samples.push(c);
                    // separation, containment
                    assert forall|u: int, v: int|
                        0 <= u < v < s2.len() implies dist_sq(#[trigger] s2[u], #[trigger] s2[v])
                        > (radius as int) * (radius as int) by {
                        if v == samples.len() as int {
                            lemma_dist_sq_symm(samples[u], c);
                        }
                    }
                    // the grid still files every sample under its own cell
                    assert forall|t: int| 0 <= t < s2.len() implies {
                        let p = #[trigger] s2[t];
                        &&& grid.in_coverage(p)
                        &&& grid.in_range(grid.col_of(p), grid.row_of(p))
                        &&& grid.cell_at(grid.col_of(p), grid.row_of(p)) == Some(p)
                    } by {
                        let p = s2[t];
                        if t < samples.len() {
                            assert(old_grid.cell_at(old_grid.col_of(p), old_grid.row_of(p))
                                == Some(p));
                            assert(!(old_grid.col_of(p) == ci && old_grid.row_of(p) == cj));
                        }
                    }
                    // and every occupied slot holds a sample
                    assert forall|i: int, j: int| #![trigger grid.cell_at(i, j)]
                        grid.in_range(i, j) implies (grid.cell_at(i, j) matches Some(qq)
                        ==> s2.contains(qq) && grid.col_of(qq) == i && grid.row_of(qq) == j) by {
                        match grid.cell_at(i, j) {
                            Some(qq) => {
                                if i == ci && j == cj {
                                    assert(s2[s2.len() - 1] == c);
                                    assert(s2.contains(c));
                                } else {
                                    assert(old_grid.cell_at(i, j) == Some(qq));
                                }
                            },
                            None => {},
                        }
                    }
                    assert(active@.to_multiset().add(result@.to_multiset())
                        =~= s2.to_multiset());
                    samples = s2;
                }
            },
            None => {
                let ghost a_before = active@;
                let ghost r_before = result@;
                let retired = active.swap_remove(idx);
                result.push(retired);
                proof {
                    lemma_retire_multiset(a_before, r_before, idx as int);
                }
            },
        }
    }
    proof {
        // the active list is empty, so the result is the whole sample set
        assert(active@ =~= Seq::<Point>::empty());
        assert forall|x: Point| active@.to_multiset().count(x) == 0 by {
            assert(!active@.contains(x));
        }
        assert(result@.to_multiset() =~= samples.to_multiset());
        assert(result@.to_multiset().len() == samples.to_multiset().len());
        assert(result@.len() == samples.len());
        // the samples are pairwise distinct, so the result repeats none
        assert(samples.no_duplicates()) by {
            assert((radius as int) * (radius as int) >= 0) by (nonlinear_arith);
            assert forall|u: int, v: int|
                0 <= u < samples.len() && 0 <= v < samples.len() && u != v implies samples[u]
                != samples[v] by {
                if samples[u] == samples[v] {
                    if u < v {
                        assert(dist_sq(samples[u], samples[v]) > (radius as int) * (radius as int));
                    } else {
                        assert(dist_sq(samples[v], samples[u]) > (radius as int) * (radius as int));
                    }
                }
            }
        }
        samples.lemma_multiset_has_no_duplicates();
        assert forall|x: Point| result@.to_multiset().contains(x) implies result@.to_multiset()
            .count(x) == 1 by {
            assert(samples.to_multiset().count(x) > 0);
            assert(samples.contains(x));
        }
        result@.lemma_multiset_has_no_duplicates_conv();
        // separation carries from the samples to the result
        assert forall|u: int, v: int| #![trigger result@[u], result@[v]]
            0 <= u < result@.len() && 0 <= v < result@.len() && u != v implies dist_sq(
            result@[u],
            result@[v],
        ) > (radius as int) * (radius as int) by {
            assert(result@[u] != result@[v]);
            assert(result@.contains(result@[u]));
            assert(result@.contains(result@[v]));
            assert(samples.to_multiset().count(result@[u]) > 0);
            assert(samples.to_multiset().count(result@[v]) > 0);
            assert(samples.contains(result@[u]));
            assert(samples.contains(result@[v]));
            let su = choose|su: int| 0 <= su < samples.len() && samples[su] == result@[u];
            let sv = choose|sv: int| 0 <= sv < samples.len() && samples[sv] == result@[v];
            if su < sv {
                assert(dist_sq(samples[su], samples[sv]) > (radius as int) * (radius as int));
            } else {
                assert(dist_sq(samples[sv], samples[su]) > (radius as int) * (radius as int));
                lemma_dist_sq_symm(samples[sv], samples[su]);
            }
        }
        // containment carries the same way
        assert forall|t: int| 0 <= t < result@.len() implies bb.contains_pt(
            #[trigger] result@[t],
        ) by {
            assert(result@.contains(result@[t]));
            assert(samples.to_multiset().count(result@[t]) > 0);
            assert(samples.contains(result@[t]));
            let st = choose|st: int| 0 <= st < samples.len() && samples[st] == result@[t];
        }
        // the seed point was retired into the result
        assert(samples.contains(samples[0]));
        assert(result@.to_multiset().count(bb.center_spec()) > 0);
        assert(result@.contains(bb.center_spec()));
        // the cell count bounds the result size
        lemma_count_some_le_len(grid.cells@);
    }
    result
}

} // verus!
