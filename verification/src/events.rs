//! Boundary events: the x-coordinates at which rectangles begin and end,
//! ordered along the x-axis.

use crate::keyed::{
    lemma_same_entries, lemma_sorted_form, sort_by_key, sorted_by_key, sorted_form, stably_sorted,
};
use crate::rect::Rect;
use vstd::prelude::*;

verus! {

/// The two boundary events of every rectangle, in the order of the collection:
/// for rectangle `r`, `(x1, r)` at position `2r` and `(x2, r)` behind it.
pub open spec fn events_of(rects: Seq<Rect>) -> Seq<(i32, usize)> {
    Seq::new(
        2 * rects.len(),
        |k: int|
            if k % 2 == 0 {
                (rects[k / 2].x1, (k / 2) as usize)
            } else {
                (rects[k / 2].x2, (k / 2) as usize)
            },
    )
}

/// The event list of the collection: its boundary events in ascending order
/// of coordinate, events of equal coordinate in the order of the collection,
/// the left boundary of a rectangle before its right one.
pub open spec fn sorted_events(rects: Seq<Rect>) -> Seq<(i32, usize)> {
    sorted_form(events_of(rects))
}

/// `events` holds the boundary events of `rects`, each once, in ascending
/// order of coordinate.
pub open spec fn is_event_list(rects: Seq<Rect>, events: Seq<(i32, usize)>) -> bool {
    &&& sorted_by_key(events)
    &&& events.to_multiset() == events_of(rects).to_multiset()
}

/// The event is the left or right boundary of the rectangle that it names.
pub open spec fn is_boundary(rects: Seq<Rect>, e: (i32, usize)) -> bool {
    &&& e.1 < rects.len()
    &&& e.0 == rects[e.1 as int].x1 || e.0 == rects[e.1 as int].x2
}

/// Rectangle `r` has an event at some position of `events` in `[lo, hi)`.
pub open spec fn has_event_in(events: Seq<(i32, usize)>, lo: int, hi: int, r: usize) -> bool {
    exists|k: int| lo <= k < hi && (#[trigger] events[k]).1 == r
}

/// In an event list every entry is a boundary of its rectangle, and both
/// boundaries of every rectangle occur.
pub proof fn lemma_event_list(rects: Seq<Rect>, events: Seq<(i32, usize)>)
    requires
        rects.len() <= usize::MAX,
        is_event_list(rects, events),
    ensures
        events.len() == 2 * rects.len(),
        forall|k: int| 0 <= k < events.len() ==> is_boundary(rects, #[trigger] events[k]),
        forall|r: int|
            0 <= r < rects.len() ==> events.contains((#[trigger] rects[r].x1, r as usize))
                && events.contains((rects[r].x2, r as usize)),
{
    let base = events_of(rects);
    lemma_same_entries(events, base);
    assert forall|k: int| 0 <= k < events.len() implies is_boundary(rects, #[trigger] events[k]) by {
        assert(events.contains(events[k]));
        assert(base.contains(events[k]));
        let t = choose|t: int| 0 <= t < base.len() && base[t] == events[k];
        assert(0 <= t / 2 < rects.len());
    }
    assert forall|r: int| 0 <= r < rects.len() implies events.contains(
        (#[trigger] rects[r].x1, r as usize),
    ) && events.contains((rects[r].x2, r as usize)) by {
        assert(base[2 * r] == (rects[r].x1, r as usize));
        assert(base[2 * r + 1] == (rects[r].x2, r as usize));
        assert(base.contains((rects[r].x1, r as usize)));
        assert(base.contains((rects[r].x2, r as usize)));
    }
}

/// Builds the boundary events of the collection, two for every rectangle, and
/// sorts them by coordinate. Events of equal coordinate come in the order of
/// the collection, the left boundary of a rectangle before its right one.
pub fn boundary_events(rects: &[Rect]) -> (events: Vec<(i32, usize)>)
    ensures
        events@ == sorted_events(rects@),
        stably_sorted(events_of(rects@), events@),
        is_event_list(rects@, events@),
{
    let mut events: Vec<(i32, usize)> = Vec::new();
    let mut idx: usize = 0;
    while idx < rects.len()
        invariant
            idx <= rects.len(),
            events@.len() == 2 * idx,
            forall|k: int| 0 <= k < events@.len() ==> #[trigger] events@[k] == events_of(rects@)[k],
        decreases rects.len() - idx,
    {
        events.push((rects[idx].x1, idx));
        events.push((rects[idx].x2, idx));
        idx += 1;
    }
    assert(events@ =~= events_of(rects@));
    sort_by_key(&mut events);
    proof {
        lemma_sorted_form(events_of(rects@), events@);
    }
    events
}

} // verus!
