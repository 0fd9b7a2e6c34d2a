//! The rectangle type and the pairwise intersection predicate.

use vstd::prelude::*;

verus! {

/// An axis-aligned rectangle with closed integer extents `[x1, x2]` and `[y1, y2]`.
#[derive(Clone, Copy, Debug)]
pub struct Rect {
    pub x1: i32,
    pub y1: i32,
    pub x2: i32,
    pub y2: i32,
}

impl Rect {
    /// Both extents are ordered: `x1 <= x2` and `y1 <= y2`.
    pub open spec fn valid(self) -> bool {
        self.x1 <= self.x2 && self.y1 <= self.y2
    }

    /// The closed x-intervals of the two rectangles share a point.
    pub open spec fn x_overlaps(self, other: Rect) -> bool {
        self.x1 <= other.x2 && other.x1 <= self.x2
    }

    /// The closed y-intervals of the two rectangles share a point.
    pub open spec fn y_overlaps(self, other: Rect) -> bool {
        self.y1 <= other.y2 && other.y1 <= self.y2
    }

    /// The two rectangles share a point; touching edges count.
    pub open spec fn spec_intersects(&self, other: &Rect) -> bool {
        self.x_overlaps(*other) && self.y_overlaps(*other)
    }

    /// Runtime test of [`Rect::valid`].
    pub fn is_valid(&self) -> (b: bool)
        ensures
            b == self.valid(),
    {
        self.x1 <= self.x2 && self.y1 <= self.y2
    }

    /// Whether the two rectangles share a point; touching edges count.
    #[verifier::when_used_as_spec(spec_intersects)]
    pub fn intersects(&self, other: &Self) -> (b: bool)
        ensures
            b == self.spec_intersects(other),
    {
        self.x1 <= other.x2 && other.x1 <= self.x2 && self.y1 <= other.y2 && other.y1 <= self.y2
    }
}

/// Every rectangle of the collection is valid.
pub open spec fn all_valid(rects: Seq<Rect>) -> bool {
    forall|i: int| 0 <= i < rects.len() ==> (#[trigger] rects[i]).valid()
}

/// Runtime test of [`all_valid`].
pub fn check_all_valid(rects: &[Rect]) -> (ok: bool)
    ensures
        ok == all_valid(rects@),
{
    let mut i: usize = 0;
    while i < rects.len()
        invariant
            i <= rects@.len(),
            forall|k: int| 0 <= k < i ==> (#[trigger] rects@[k]).valid(),
        decreases rects.len() - i,
    {
        if !rects[i].is_valid() {
            return false;
        }
        i += 1;
    }
    true
}

/// The intersection predicate does not depend on the order of its arguments.
pub proof fn lemma_intersects_symmetric(a: Rect, b: Rect)
    ensures
        a.intersects(&b) == b.intersects(&a),
{
}

} // verus!
