//! The geometry of one split of the event list: which rectangles of the two
//! halves can meet across the split, and why no other pair does.

use crate::events::{has_event_in, is_boundary, is_event_list, lemma_event_list};
use crate::rect::{all_valid, Rect};
use vstd::prelude::*;

verus! {

/// A stretch `[lo, hi)` of the event list of `rects`, cut at `mid` into a
/// first half `[lo, mid)` and a second half `[mid, hi)`.
pub struct Split {
    pub rects: Seq<Rect>,
    pub events: Seq<(i32, usize)>,
    pub lo: int,
    pub mid: int,
    pub hi: int,
}

impl Split {
    /// The rectangles are valid, the events are theirs, and both halves hold
    /// at least one event.
    pub open spec fn wf(self) -> bool {
        &&& self.rects.len() <= usize::MAX
        &&& all_valid(self.rects)
        &&& is_event_list(self.rects, self.events)
        &&& 0 <= self.lo < self.mid < self.hi <= self.events.len()
    }

    /// The coordinate of the first event of the first half.
    pub open spec fn low(self) -> i32 {
        self.events[self.lo].0
    }

    /// The coordinate of the first event of the second half.
    pub open spec fn cut(self) -> i32 {
        self.events[self.mid].0
    }

    /// The coordinate of the last event of the second half.
    pub open spec fn high(self) -> i32 {
        self.events[self.hi - 1].0
    }

    /// Rectangle `r` has an event in the first half.
    pub open spec fn in_first(self, r: usize) -> bool {
        r < self.rects.len() && has_event_in(self.events, self.lo, self.mid, r)
    }

    /// Rectangle `r` has an event in the second half.
    pub open spec fn in_second(self, r: usize) -> bool {
        r < self.rects.len() && has_event_in(self.events, self.mid, self.hi, r)
    }

    /// From the first half, ending at or before the cut.
    pub open spec fn left_confined(self, r: usize) -> bool {
        self.in_first(r) && self.rects[r as int].x2 <= self.cut()
    }

    /// From the first half, reaching past the cut and over the whole second half.
    pub open spec fn left_spanning(self, r: usize) -> bool {
        self.in_first(r) && self.rects[r as int].x2 > self.cut() && self.rects[r as int].x2
            >= self.high()
    }

    /// From the first half, ending exactly at the cut.
    pub open spec fn left_touching(self, r: usize) -> bool {
        self.in_first(r) && self.rects[r as int].x2 == self.cut()
    }

    /// From the second half, beginning at or behind the cut.
    pub open spec fn right_confined(self, r: usize) -> bool {
        self.in_second(r) && self.rects[r as int].x1 >= self.cut()
    }

    /// From the second half, beginning before the cut and reaching back over
    /// the whole first half.
    pub open spec fn right_spanning(self, r: usize) -> bool {
        self.in_second(r) && self.rects[r as int].x1 < self.cut() && self.rects[r as int].x1
            <= self.low()
    }

    /// From the second half, beginning exactly at the cut.
    pub open spec fn right_touching(self, r: usize) -> bool {
        self.in_second(r) && self.rects[r as int].x1 == self.cut()
    }

    /// `p`, taken from the first half, and `q`, taken from the second, fall
    /// into two classes that are joined across the cut.
    pub open spec fn joined(self, p: usize, q: usize) -> bool {
        ||| self.left_spanning(p) && self.right_confined(q)
        ||| self.left_confined(p) && self.right_spanning(q)
        ||| self.left_spanning(p) && self.right_spanning(q)
        ||| self.left_touching(p) && self.right_touching(q)
    }
}

/// Two rectangles whose classes are joined across the cut overlap in x.
pub proof fn lemma_joined_overlap(sp: Split, p: usize, q: usize)
    requires
        sp.wf(),
        sp.joined(p, q),
    ensures
        sp.rects[p as int].x_overlaps(sp.rects[q as int]),
{
    lemma_event_list(sp.rects, sp.events);
    let kp = choose|k: int| sp.lo <= k < sp.mid && (#[trigger] sp.events[k]).1 == p;
    let kq = choose|k: int| sp.mid <= k < sp.hi && (#[trigger] sp.events[k]).1 == q;
    assert(is_boundary(sp.rects, sp.events[kp]));
    assert(is_boundary(sp.rects, sp.events[kq]));
    assert(sp.rects[p as int].valid());
    assert(sp.rects[q as int].valid());
    assert(sp.events[sp.lo].0 <= sp.events[kp].0 <= sp.events[sp.mid].0);
    assert(sp.events[sp.mid].0 <= sp.events[kq].0 <= sp.events[sp.hi - 1].0);
}

/// A rectangle with an event in the first half and none in the second ends at
/// or before the cut, or reaches over the whole second half.
pub proof fn lemma_left_classes(sp: Split, p: usize)
    requires
        sp.wf(),
        sp.in_first(p),
        !sp.in_second(p),
    ensures
        sp.left_confined(p) || sp.left_spanning(p),
{
    lemma_event_list(sp.rects, sp.events);
    let x2 = sp.rects[p as int].x2;
    assert(sp.events.contains((x2, p)));
    let k = choose|k: int| 0 <= k < sp.events.len() && sp.events[k] == (x2, p);
    if sp.cut() < x2 && x2 < sp.high() {
        if k <= sp.mid {
            assert(sp.events[k].0 <= sp.events[sp.mid].0);
        }
        if k >= sp.hi - 1 {
            assert(sp.events[sp.hi - 1].0 <= sp.events[k].0);
        }
        assert(sp.mid <= k < sp.hi && sp.events[k].1 == p);
    }
}

/// A rectangle with an event in the second half and none in the first begins
/// at or behind the cut, or reaches back over the whole first half.
pub proof fn lemma_right_classes(sp: Split, q: usize)
    requires
        sp.wf(),
        sp.in_second(q),
        !sp.in_first(q),
    ensures
        sp.right_confined(q) || sp.right_spanning(q),
{
    lemma_event_list(sp.rects, sp.events);
    let x1 = sp.rects[q as int].x1;
    assert(sp.events.contains((x1, q)));
    let k = choose|k: int| 0 <= k < sp.events.len() && sp.events[k] == (x1, q);
    if sp.low() < x1 && x1 < sp.cut() {
        if k <= sp.lo {
            assert(sp.events[k].0 <= sp.events[sp.lo].0);
        }
        if k >= sp.mid {
            assert(sp.events[sp.mid].0 <= sp.events[k].0);
        }
        assert(sp.lo <= k < sp.mid && sp.events[k].1 == q);
    }
}

/// Two intersecting rectangles that the cut separates, `p` with events only
/// in the first half and `q` with events only in the second, fall into classes
/// that are joined across the cut.
pub proof fn lemma_separated_joined(sp: Split, p: usize, q: usize)
    requires
        sp.wf(),
        sp.in_first(p),
        !sp.in_second(p),
        sp.in_second(q),
        !sp.in_first(q),
        sp.rects[p as int].intersects(&sp.rects[q as int]),
    ensures
        sp.joined(p, q),
{
    lemma_left_classes(sp, p);
    lemma_right_classes(sp, q);
}

} // verus!
