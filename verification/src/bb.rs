use crate::point::{Point, COORD_LIMIT};
use vstd::prelude::*;

verus! {

/// Axis-aligned bounding box: the corners of the smallest rectangle
/// `[min.x, max.x] x [min.y, max.y]` enclosing a geometric object.
///
/// `BB::empty()` is the neutral element of `merge`: an inverted box that
/// unions away to nothing, used as the bounding box of an empty collection.
#[derive(Clone, Copy, PartialEq, Eq, Structural, Debug)]
pub struct BB {
    pub min: Point,
    pub max: Point,
}

impl BB {
    /// The inverted "empty" box.
    pub open spec fn empty_spec() -> BB {
        BB {
            min: Point { x: i64::MAX, y: i64::MAX },
            max: Point { x: i64::MIN, y: i64::MIN },
        }
    }

    /// Corners ordered and within the engine's coordinate range.
    pub open spec fn bounded(self) -> bool {
        &&& self.min.in_bounds()
        &&& self.max.in_bounds()
        &&& self.min.x <= self.max.x
        &&& self.min.y <= self.max.y
    }

    /// Every box the library produces is the empty box or a bounded one.
    pub open spec fn wf(self) -> bool {
        self == BB::empty_spec() || self.bounded()
    }

    /// Zero extent along some axis; such a region yields no sample points.
    pub open spec fn degenerate(self) -> bool {
        self.min.x >= self.max.x || self.min.y >= self.max.y
    }

    /// The point lies inside the box (boundary included).
    pub open spec fn contains_pt(self, p: Point) -> bool {
        &&& self.min.x <= p.x <= self.max.x
        &&& self.min.y <= p.y <= self.max.y
    }

    /// Center of the box, rounding toward the minimum corner.
    pub open spec fn center_spec(self) -> Point {
        Point {
            x: (self.min.x + (self.max.x - self.min.x) / 2) as i64,
            y: (self.min.y + (self.max.y - self.min.y) / 2) as i64,
        }
    }

    /// Componentwise union of two boxes.
    pub open spec fn merge_spec(self, other: BB) -> BB {
        BB {
            min: Point {
                x: if self.min.x <= other.min.x {
                    self.min.x
                } else {
                    other.min.x
                },
                y: if self.min.y <= other.min.y {
                    self.min.y
                } else {
                    other.min.y
                },
            },
            max: Point {
                x: if self.max.x >= other.max.x {
                    self.max.x
                } else {
                    other.max.x
                },
                y: if self.max.y >= other.max.y {
                    self.max.y
                } else {
                    other.max.y
                },
            },
        }
    }

    pub fn empty() -> (r: BB)
        ensures
            r == BB::empty_spec(),
    {
        BB {
            min: Point { x: i64::MAX, y: i64::MAX },
            max: Point { x: i64::MIN, y: i64::MIN },
        }
    }

    pub fn min(self) -> (p: Point)
        ensures
            p == self.min,
    {
        self.min
    }

    pub fn max(self) -> (p: Point)
        ensures
            p == self.max,
    {
        self.max
    }

    /// Center of the box, rounding toward the minimum corner.
    pub fn center(self) -> (c: Point)
        requires
            self.bounded(),
        ensures
            c == self.center_spec(),
            self.contains_pt(c),
            c.in_bounds(),
    {
        let wx = (self.max.x - self.min.x) as u64;
        let wy = (self.max.y - self.min.y) as u64;
        let c = Point { x: self.min.x + (wx / 2) as i64, y: self.min.y + (wy / 2) as i64 };
        proof {
            assert(wx / 2 <= wx);
            assert(wy / 2 <= wy);
        }
        c
    }

    /// Union of two boxes: the smallest box containing both.
    pub fn merge(self, other: BB) -> (r: BB)
        ensures
            r == self.merge_spec(other),
    {
        BB {
            min: Point {
                x: if self.min.x <= other.min.x {
                    self.min.x
                } else {
                    other.min.x
                },
                y: if self.min.y <= other.min.y {
                    self.min.y
                } else {
                    other.min.y
                },
            },
            max: Point {
                x: if self.max.x >= other.max.x {
                    self.max.x
                } else {
                    other.max.x
                },
                y: if self.max.y >= other.max.y {
                    self.max.y
                } else {
                    other.max.y
                },
            },
        }
    }

    /// The box lies entirely inside `other` (an empty box lies inside
    /// everything). Decided, as in a union semilattice, by checking that
    /// merging into `other` does not grow it.
    pub fn is_inside(self, other: BB) -> (r: bool)
        ensures
            r <==> (other.min.x <= self.min.x && self.max.x <= other.max.x
                && other.min.y <= self.min.y && self.max.y <= other.max.y),
    {
        self.merge(other) == other
    }
}

/// Merging preserves well-formedness.
pub proof fn lemma_merge_wf(a: BB, b: BB)
    requires
        a.wf(),
        b.wf(),
    ensures
        a.merge_spec(b).wf(),
{
}

/// Anything that can report a bounding box. The sampling engine accepts any
/// such value as its region argument.
pub trait HasBB {
    /// The object's coordinates are within the engine's range.
    spec fn wf(&self) -> bool;

    /// The box that `bb` returns.
    spec fn bb_spec(&self) -> BB;

    fn bb(&self) -> (r: BB)
        requires
            self.wf(),
        ensures
            r == self.bb_spec(),
            r.wf(),
    ;
}

impl HasBB for Point {
    open spec fn wf(&self) -> bool {
        self.in_bounds()
    }

    open spec fn bb_spec(&self) -> BB {
        BB { min: *self, max: *self }
    }

    fn bb(&self) -> (r: BB) {
        BB { min: *self, max: *self }
    }
}

impl HasBB for BB {
    open spec fn wf(&self) -> bool {
        BB::wf(*self)
    }

    open spec fn bb_spec(&self) -> BB {
        *self
    }

    fn bb(&self) -> (r: BB) {
        *self
    }
}

/// The empty region: its bounding box is the neutral element of `merge`.
impl HasBB for () {
    open spec fn wf(&self) -> bool {
        true
    }

    open spec fn bb_spec(&self) -> BB {
        BB::empty_spec()
    }

    fn bb(&self) -> (r: BB) {
        BB::empty()
    }
}

/// Union of the bounding boxes of a sequence of objects.
pub open spec fn seq_bb_spec<T: HasBB>(s: Seq<T>) -> BB
    decreases s.len(),
{
    if s.len() == 0 {
        BB::empty_spec()
    } else {
        seq_bb_spec(s.drop_last()).merge_spec(s.last().bb_spec())
    }
}

/// The bounding box of a collection is the union of its members' boxes.
impl<T: HasBB> HasBB for Vec<T> {
    open spec fn wf(&self) -> bool {
        forall|i: int| 0 <= i < self@.len() ==> (#[trigger] self@[i]).wf()
    }

    open spec fn bb_spec(&self) -> BB {
        seq_bb_spec(self@)
    }

    fn bb(&self) -> (r: BB) {
        let mut acc = BB::empty();
        let mut i: usize = 0;
        while i < self.len()
            invariant
                0 <= i <= self@.len(),
                forall|t: int| 0 <= t < self@.len() ==> (#[trigger] self@[t]).wf(),
                acc == seq_bb_spec(self@.take(i as int)),
                acc.wf(),
            decreases self@.len() - i,
        {
            let e: &T = &self[i];
            let e_bb = e.bb();
            proof {
                assert(self@.take(i as int + 1).drop_last() =~= self@.take(i as int));
                assert(self@.take(i as int + 1).last() == self@[i as int]);
                lemma_merge_wf(acc, e_bb);
            }
            acc = acc.merge(e_bb);
            i = i + 1;
        }
        proof {
            assert(self@.take(self@.len() as int) =~= self@);
        }
        acc
    }
}

/// The bounding box of a pair is the union of its members' boxes.
impl<A: HasBB, B: HasBB> HasBB for (A, B) {
    open spec fn wf(&self) -> bool {
        self.0.wf() && self.1.wf()
    }

    open spec fn bb_spec(&self) -> BB {
        self.0.bb_spec().merge_spec(self.1.bb_spec())
    }

    fn bb(&self) -> (r: BB) {
        let a = self.0.bb();
        let b = self.1.bb();
        proof {
            lemma_merge_wf(a, b);
        }
        a.merge(b)
    }
}

/// The bounding box of a triple is the union of its members' boxes.
impl<A: HasBB, B: HasBB, C: HasBB> HasBB for (A, B, C) {
    open spec fn wf(&self) -> bool {
        self.0.wf() && self.1.wf() && self.2.wf()
    }

    open spec fn bb_spec(&self) -> BB {
        self.0.bb_spec().merge_spec(self.1.bb_spec()).merge_spec(self.2.bb_spec())
    }

    fn bb(&self) -> (r: BB) {
        let a = self.0.bb();
        let b = self.1.bb();
        let c = self.2.bb();
        proof {
            lemma_merge_wf(a, b);
            lemma_merge_wf(a.merge_spec(b), c);
        }
        a.merge(b).merge(c)
    }
}

} // verus!
