//! The recursive detector and the entry point that runs it on a collection.

use crate::classify::{
    classify_first, classify_second, dealt_first, dealt_left, dealt_right, dealt_second,
    first_half_classes, names, second_half_classes, y_sorted, y_sorted_list, Class, Classes,
};
use crate::events::{
    boundary_events, has_event_in, is_boundary, is_event_list, lemma_event_list, sorted_events,
};
use crate::rect::{all_valid, Rect};
use crate::report::{extends, lemma_extends_transitive, lemma_linked_extends, linked, linked_from};
use crate::split::{lemma_joined_overlap, lemma_separated_joined, Split};
use crate::stab::{scanned, stab, stab_pair, stab_reports};
use vstd::prelude::*;

verus! {

/// A report that is in order: two different rectangles of the collection that
/// intersect.
pub open spec fn pair_ok(rects: Seq<Rect>, p: (usize, usize)) -> bool {
    &&& p.0 < rects.len()
    &&& p.1 < rects.len()
    &&& p.0 != p.1
    &&& rects[p.0 as int].intersects(&rects[p.1 as int])
    &&& rects[p.1 as int].intersects(&rects[p.0 as int])
}

/// Every report at or behind position `from` is in order.
pub open spec fn reports_ok_from(rects: Seq<Rect>, out: Seq<(usize, usize)>, from: int) -> bool {
    forall|k: int| from <= k < out.len() ==> pair_ok(rects, #[trigger] out[k])
}

/// Both rectangles of every report at or behind position `from` have an
/// event in `[lo, hi)`.
pub open spec fn reports_within(
    events: Seq<(i32, usize)>,
    lo: int,
    hi: int,
    out: Seq<(usize, usize)>,
    from: int,
) -> bool {
    forall|k: int|
        from <= k < out.len() ==> has_event_in(events, lo, hi, (#[trigger] out[k]).0) && has_event_in(
            events,
            lo,
            hi,
            out[k].1,
        )
}

/// The reports of the four scans across the cut at `mid` of the stretch
/// `[lo, hi)`, in the order of the scans: the spanning class of the first half
/// against the confined class of the second, the spanning class of the second
/// against the confined class of the first, the two spanning classes, and the
/// two touching classes.
pub open spec fn cross_reports(
    rects: Seq<Rect>,
    events: Seq<(i32, usize)>,
    lo: int,
    mid: int,
    hi: int,
) -> Seq<(usize, usize)> {
    let low = events[lo].0;
    let cut = events[mid].0;
    let high = events[hi - 1].0;
    let first = y_sorted_list(rects, events, lo, mid);
    let second = y_sorted_list(rects, events, mid, hi);
    let left_confined = dealt_left(rects, first, first.len() as int, Class::Confined, cut, high);
    let left_spanning = dealt_left(rects, first, first.len() as int, Class::Spanning, cut, high);
    let left_touching = dealt_left(rects, first, first.len() as int, Class::Touching, cut, high);
    let right_confined = dealt_right(rects, second, second.len() as int, Class::Confined, cut, low);
    let right_spanning = dealt_right(rects, second, second.len() as int, Class::Spanning, cut, low);
    let right_touching = dealt_right(rects, second, second.len() as int, Class::Touching, cut, low);
    stab_reports(rects, left_spanning, right_confined) + stab_reports(
        rects,
        right_spanning,
        left_confined,
    ) + stab_reports(rects, left_spanning, right_spanning) + stab_reports(
        rects,
        left_touching,
        right_touching,
    )
}

/// The reports of the detector on the stretch `[lo, hi)` of the events, in
/// the order in which it makes them: none on a stretch of fewer than two
/// events; else those of the scans across the cut in the middle, then those
/// of the first half, then those of the second.
pub open spec fn detect_reports(rects: Seq<Rect>, events: Seq<(i32, usize)>, lo: int, hi: int) -> Seq<
    (usize, usize),
>
    decreases hi - lo,
{
    if hi - lo < 2 {
        Seq::empty()
    } else {
        let mid = lo + (hi - lo) / 2;
        cross_reports(rects, events, lo, mid, hi) + detect_reports(rects, events, lo, mid)
            + detect_reports(rects, events, mid, hi)
    }
}

/// The reports of the detector on a whole collection, in the order in which
/// it makes them.
pub open spec fn detector_reports(rects: Seq<Rect>) -> Seq<(usize, usize)> {
    detect_reports(rects, sorted_events(rects), 0, sorted_events(rects).len() as int)
}

/// What the detector adds to the list of reports when it has worked on the
/// events in `[lo, hi)`: only reports that are in order, of rectangles with an
/// event in that stretch, and among them every pair of different intersecting
/// rectangles that both have an event in the stretch, in one orientation or
/// the other.
pub open spec fn detected(
    rects: Seq<Rect>,
    events: Seq<(i32, usize)>,
    lo: int,
    hi: int,
    before: Seq<(usize, usize)>,
    after: Seq<(usize, usize)>,
) -> bool {
    &&& extends(before, after)
    &&& reports_ok_from(rects, after, before.len() as int)
    &&& reports_within(events, lo, hi, after, before.len() as int)
    &&& forall|p: usize, q: usize|
        p != q && p < rects.len() && q < rects.len() && rects[p as int].intersects(&rects[q as int])
            && #[trigger] has_event_in(events, lo, hi, p) && #[trigger] has_event_in(events, lo, hi, q)
            ==> linked_from(after, before.len() as int, p, q)
}

/// The answer to a whole collection: only reports that are in order, and among
/// them every pair of different intersecting rectangles, in one orientation or
/// the other. A pair may be reported more than once.
pub open spec fn reports_intersections(rects: Seq<Rect>, out: Seq<(usize, usize)>) -> bool {
    &&& reports_ok_from(rects, out, 0)
    &&& forall|p: usize, q: usize|
        p != q && p < rects.len() && q < rects.len() && rects[p as int].intersects(&rects[q as int])
            ==> #[trigger] linked(out, p, q)
}

/// The classes that were dealt out for the two halves are the classes of the
/// split.
pub open spec fn classes_of(sp: Split, left: Classes, right: Classes) -> bool {
    &&& forall|r: usize| #[trigger] left.confined@.contains(r) <==> sp.left_confined(r)
    &&& forall|r: usize| #[trigger] left.spanning@.contains(r) <==> sp.left_spanning(r)
    &&& forall|r: usize| #[trigger] left.touching@.contains(r) <==> sp.left_touching(r)
    &&& forall|r: usize| #[trigger] right.confined@.contains(r) <==> sp.right_confined(r)
    &&& forall|r: usize| #[trigger] right.spanning@.contains(r) <==> sp.right_spanning(r)
    &&& forall|r: usize| #[trigger] right.touching@.contains(r) <==> sp.right_touching(r)
}

/// Classes dealt out from the y-sorted lists of the two halves are the
/// classes of the split.
proof fn lemma_classes_of(
    sp: Split,
    first: Seq<(i32, usize)>,
    second: Seq<(i32, usize)>,
    left: Classes,
    right: Classes,
)
    requires
        sp.wf(),
        forall|r: usize| names(first, r) <==> has_event_in(sp.events, sp.lo, sp.mid, r),
        forall|r: usize| names(second, r) <==> has_event_in(sp.events, sp.mid, sp.hi, r),
        first_half_classes(sp.rects, first, first.len() as int, sp.cut(), sp.high(), left),
        second_half_classes(sp.rects, second, second.len() as int, sp.cut(), sp.low(), right),
    ensures
        classes_of(sp, left, right),
{
    lemma_event_list(sp.rects, sp.events);
    assert forall|r: usize| has_event_in(sp.events, sp.lo, sp.hi, r) implies r < sp.rects.len() by {
        let k = choose|k: int| sp.lo <= k < sp.hi && (#[trigger] sp.events[k]).1 == r;
        assert(is_boundary(sp.rects, sp.events[k]));
    }
    assert forall|r: usize| has_event_in(sp.events, sp.lo, sp.mid, r) implies has_event_in(
        sp.events,
        sp.lo,
        sp.hi,
        r,
    ) by {
        let k = choose|k: int| sp.lo <= k < sp.mid && (#[trigger] sp.events[k]).1 == r;
        assert(sp.lo <= k < sp.hi && sp.events[k].1 == r);
    }
    assert forall|r: usize| has_event_in(sp.events, sp.mid, sp.hi, r) implies has_event_in(
        sp.events,
        sp.lo,
        sp.hi,
        r,
    ) by {
        let k = choose|k: int| sp.mid <= k < sp.hi && (#[trigger] sp.events[k]).1 == r;
        assert(sp.lo <= k < sp.hi && sp.events[k].1 == r);
    }
    assert forall|r: usize| sp.in_first(r) <==> names(first, r) by {
        assert(names(first, r) <==> has_event_in(sp.events, sp.lo, sp.mid, r));
    }
    assert forall|r: usize| sp.in_second(r) <==> names(second, r) by {
        assert(names(second, r) <==> has_event_in(sp.events, sp.mid, sp.hi, r));
    }
    assert forall|r: usize| #[trigger] left.confined@.contains(r) <==> sp.left_confined(r) by {
        assert(sp.in_first(r) <==> names(first, r));
    }
    assert forall|r: usize| #[trigger] left.spanning@.contains(r) <==> sp.left_spanning(r) by {
        assert(sp.in_first(r) <==> names(first, r));
    }
    assert forall|r: usize| #[trigger] left.touching@.contains(r) <==> sp.left_touching(r) by {
        assert(sp.in_first(r) <==> names(first, r));
    }
    assert forall|r: usize| #[trigger] right.confined@.contains(r) <==> sp.right_confined(r) by {
        assert(sp.in_second(r) <==> names(second, r));
    }
    assert forall|r: usize| #[trigger] right.spanning@.contains(r) <==> sp.right_spanning(r) by {
        assert(sp.in_second(r) <==> names(second, r));
    }
    assert forall|r: usize| #[trigger] right.touching@.contains(r) <==> sp.right_touching(r) by {
        assert(sp.in_second(r) <==> names(second, r));
    }
}

/// What a scan of two classes that are joined across the cut adds to the list
/// is in order, and names rectangles with an event in the stretch.
proof fn lemma_join_in_order(
    sp: Split,
    a: Seq<usize>,
    b: Seq<usize>,
    before: Seq<(usize, usize)>,
    after: Seq<(usize, usize)>,
    from: int,
)
    requires
        sp.wf(),
        scanned(sp.rects, a, b, before, after),
        forall|x: usize, y: usize|
            a.contains(x) && b.contains(y) ==> sp.joined(x, y) || sp.joined(y, x),
        0 <= from <= before.len(),
        reports_ok_from(sp.rects, before, from),
        reports_within(sp.events, sp.lo, sp.hi, before, from),
    ensures
        reports_ok_from(sp.rects, after, from),
        reports_within(sp.events, sp.lo, sp.hi, after, from),
{
    assert forall|k: int| from <= k < after.len() implies pair_ok(sp.rects, #[trigger] after[k])
        && has_event_in(sp.events, sp.lo, sp.hi, after[k].0) && has_event_in(
        sp.events,
        sp.lo,
        sp.hi,
        after[k].1,
    ) by {
        if k < before.len() {
            assert(after[k] == before[k]);
        } else {
            let p = after[k];
            assert(stab_pair(sp.rects, a, b, p));
            if a.contains(p.0) && b.contains(p.1) {
                if sp.joined(p.0, p.1) {
                    lemma_joined_overlap(sp, p.0, p.1);
                } else {
                    lemma_joined_overlap(sp, p.1, p.0);
                }
            } else {
                if sp.joined(p.1, p.0) {
                    lemma_joined_overlap(sp, p.1, p.0);
                } else {
                    lemma_joined_overlap(sp, p.0, p.1);
                }
            }
            lemma_in_stretch(sp, p.0);
            lemma_in_stretch(sp, p.1);
        }
    }
}

/// A rectangle with an event in one of the halves has an event in the
/// stretch.
proof fn lemma_in_stretch(sp: Split, r: usize)
    requires
        sp.wf(),
        sp.in_first(r) || sp.in_second(r),
    ensures
        has_event_in(sp.events, sp.lo, sp.hi, r),
{
    if sp.in_first(r) {
        let k = choose|k: int| sp.lo <= k < sp.mid && (#[trigger] sp.events[k]).1 == r;
        assert(sp.lo <= k < sp.hi && sp.events[k].1 == r);
    } else {
        let k = choose|k: int| sp.mid <= k < sp.hi && (#[trigger] sp.events[k]).1 == r;
        assert(sp.lo <= k < sp.hi && sp.events[k].1 == r);
    }
}

/// A pair that a scan had to report is still linked in every list that
/// continues the scan's.
proof fn lemma_scanned_links(
    rects: Seq<Rect>,
    a: Seq<usize>,
    b: Seq<usize>,
    before: Seq<(usize, usize)>,
    after: Seq<(usize, usize)>,
    last: Seq<(usize, usize)>,
    from: int,
    x: usize,
    y: usize,
)
    requires
        scanned(rects, a, b, before, after),
        extends(after, last),
        0 <= from <= before.len(),
        a.contains(x),
        b.contains(y),
        x != y,
        rects[x as int].y_overlaps(rects[y as int]),
    ensures
        linked_from(last, from, x, y),
        linked_from(last, from, y, x),
{
    let i = choose|i: int| 0 <= i < a.len() && a[i] == x;
    let j = choose|j: int| 0 <= j < b.len() && b[j] == y;
    assert(linked_from(after, before.len() as int, a[i], b[j]));
    lemma_linked_extends(after, last, before.len() as int, from, x, y);
    let k = choose|k: int| from <= k < last.len() && (#[trigger] last[k] == (x, y) || last[k] == (y, x));
    assert(last[k] == (y, x) || last[k] == (x, y));
}

/// What the detector adds for one half is in order and within the stretch,
/// as what stood before it from `from` on.
proof fn lemma_half_in_order(
    sp: Split,
    half_lo: int,
    half_hi: int,
    before: Seq<(usize, usize)>,
    after: Seq<(usize, usize)>,
    from: int,
)
    requires
        sp.wf(),
        sp.lo <= half_lo <= half_hi <= sp.hi,
        detected(sp.rects, sp.events, half_lo, half_hi, before, after),
        0 <= from <= before.len(),
        reports_ok_from(sp.rects, before, from),
        reports_within(sp.events, sp.lo, sp.hi, before, from),
    ensures
        reports_ok_from(sp.rects, after, from),
        reports_within(sp.events, sp.lo, sp.hi, after, from),
{
    assert forall|k: int| from <= k < after.len() implies pair_ok(sp.rects, #[trigger] after[k])
        && has_event_in(sp.events, sp.lo, sp.hi, after[k].0) && has_event_in(
        sp.events,
        sp.lo,
        sp.hi,
        after[k].1,
    ) by {
        if k < before.len() {
            assert(after[k] == before[k]);
        } else {
            let p = after[k];
            assert(has_event_in(sp.events, half_lo, half_hi, p.0));
            assert(has_event_in(sp.events, half_lo, half_hi, p.1));
            let k0 = choose|i: int| half_lo <= i < half_hi && (#[trigger] sp.events[i]).1 == p.0;
            assert(sp.lo <= k0 < sp.hi && sp.events[k0].1 == p.0);
            let k1 = choose|i: int| half_lo <= i < half_hi && (#[trigger] sp.events[i]).1 == p.1;
            assert(sp.lo <= k1 < sp.hi && sp.events[k1].1 == p.1);
        }
    }
}

/// What the four scans across the cut of a split add to the list of
/// reports: only reports that are in order, of rectangles with an event in
/// the stretch, and among them every pair of different intersecting
/// rectangles whose classes are joined across the cut.
pub open spec fn crossed(sp: Split, before: Seq<(usize, usize)>, after: Seq<(usize, usize)>) -> bool {
    &&& extends(before, after)
    &&& reports_ok_from(sp.rects, after, before.len() as int)
    &&& reports_within(sp.events, sp.lo, sp.hi, after, before.len() as int)
    &&& forall|p: usize, q: usize|
        p != q && sp.rects[p as int].intersects(&sp.rects[q as int]) && #[trigger] sp.joined(p, q)
            ==> linked_from(after, before.len() as int, p, q) && linked_from(
            after,
            before.len() as int,
            q,
            p,
        )
}

/// The four scans of the classes of a split do the work across its cut.
proof fn lemma_cross_level(
    sp: Split,
    left: Classes,
    right: Classes,
    o0: Seq<(usize, usize)>,
    o1: Seq<(usize, usize)>,
    o2: Seq<(usize, usize)>,
    o3: Seq<(usize, usize)>,
    o4: Seq<(usize, usize)>,
)
    requires
        sp.wf(),
        classes_of(sp, left, right),
        scanned(sp.rects, left.spanning@, right.confined@, o0, o1),
        scanned(sp.rects, right.spanning@, left.confined@, o1, o2),
        scanned(sp.rects, left.spanning@, right.spanning@, o2, o3),
        scanned(sp.rects, left.touching@, right.touching@, o3, o4),
    ensures
        crossed(sp, o0, o4),
{
    let from = o0.len() as int;
    lemma_extends_transitive(o2, o3, o4);
    lemma_extends_transitive(o1, o2, o4);
    lemma_extends_transitive(o0, o1, o4);
    lemma_join_in_order(sp, left.spanning@, right.confined@, o0, o1, from);
    lemma_join_in_order(sp, right.spanning@, left.confined@, o1, o2, from);
    lemma_join_in_order(sp, left.spanning@, right.spanning@, o2, o3, from);
    lemma_join_in_order(sp, left.touching@, right.touching@, o3, o4, from);
    assert forall|p: usize, q: usize|
        p != q && sp.rects[p as int].intersects(&sp.rects[q as int]) && #[trigger] sp.joined(
            p,
            q,
        ) implies linked_from(o4, from, p, q) && linked_from(o4, from, q, p) by {
        lemma_joined_linked(sp, left, right, o0, o1, o2, o3, o4, o4, p, q);
    }
}

/// One level of the detector: the scans across the cut, then the detector on
/// each half, together do the detector's work on the whole stretch.
proof fn lemma_detect_level(
    sp: Split,
    o0: Seq<(usize, usize)>,
    o4: Seq<(usize, usize)>,
    o5: Seq<(usize, usize)>,
    o6: Seq<(usize, usize)>,
)
    requires
        sp.wf(),
        crossed(sp, o0, o4),
        detected(sp.rects, sp.events, sp.lo, sp.mid, o4, o5),
        detected(sp.rects, sp.events, sp.mid, sp.hi, o5, o6),
    ensures
        detected(sp.rects, sp.events, sp.lo, sp.hi, o0, o6),
{
    let rects = sp.rects;
    let from = o0.len() as int;
    lemma_extends_transitive(o4, o5, o6);
    lemma_extends_transitive(o0, o4, o6);
    lemma_extends_transitive(o0, o4, o5);
    lemma_half_in_order(sp, sp.lo, sp.mid, o4, o5, from);
    lemma_half_in_order(sp, sp.mid, sp.hi, o5, o6, from);
    assert forall|p: usize, q: usize|
        p != q && p < rects.len() && q < rects.len() && rects[p as int].intersects(&rects[q as int])
            && #[trigger] has_event_in(sp.events, sp.lo, sp.hi, p) && #[trigger] has_event_in(
            sp.events,
            sp.lo,
            sp.hi,
            q,
        ) implies linked_from(o6, from, p, q) by {
        lemma_halves(sp, p);
        lemma_halves(sp, q);
        if sp.in_first(p) && sp.in_first(q) {
            assert(linked_from(o5, o4.len() as int, p, q));
            lemma_linked_extends(o5, o6, o4.len() as int, from, p, q);
        } else if sp.in_second(p) && sp.in_second(q) {
            assert(linked_from(o6, o5.len() as int, p, q));
            lemma_linked_extends(o6, o6, o5.len() as int, from, p, q);
        } else if sp.in_first(p) {
            lemma_separated_joined(sp, p, q);
            assert(linked_from(o4, from, p, q));
            lemma_linked_extends(o4, o6, from, from, p, q);
        } else {
            lemma_separated_joined(sp, q, p);
            assert(linked_from(o4, from, p, q));
            lemma_linked_extends(o4, o6, from, from, p, q);
        }
    }
}

/// A rectangle with an event in the stretch has one in the first half or in
/// the second.
proof fn lemma_halves(sp: Split, r: usize)
    requires
        sp.wf(),
        r < sp.rects.len(),
        has_event_in(sp.events, sp.lo, sp.hi, r),
    ensures
        sp.in_first(r) || sp.in_second(r),
{
    let k = choose|k: int| sp.lo <= k < sp.hi && (#[trigger] sp.events[k]).1 == r;
    if k < sp.mid {
        assert(sp.lo <= k < sp.mid && sp.events[k].1 == r);
    } else {
        assert(sp.mid <= k < sp.hi && sp.events[k].1 == r);
    }
}

/// Two different intersecting rectangles whose classes are joined across the
/// cut are linked by one of the four scans.
proof fn lemma_joined_linked(
    sp: Split,
    left: Classes,
    right: Classes,
    o0: Seq<(usize, usize)>,
    o1: Seq<(usize, usize)>,
    o2: Seq<(usize, usize)>,
    o3: Seq<(usize, usize)>,
    o4: Seq<(usize, usize)>,
    last: Seq<(usize, usize)>,
    p: usize,
    q: usize,
)
    requires
        sp.wf(),
        classes_of(sp, left, right),
        scanned(sp.rects, left.spanning@, right.confined@, o0, o1),
        scanned(sp.rects, right.spanning@, left.confined@, o1, o2),
        scanned(sp.rects, left.spanning@, right.spanning@, o2, o3),
        scanned(sp.rects, left.touching@, right.touching@, o3, o4),
        extends(o4, last),
        p != q,
        sp.rects[p as int].intersects(&sp.rects[q as int]),
        sp.joined(p, q),
    ensures
        linked_from(last, o0.len() as int, p, q),
        linked_from(last, o0.len() as int, q, p),
{
    let from = o0.len() as int;
    lemma_extends_transitive(o3, o4, last);
    lemma_extends_transitive(o2, o3, last);
    lemma_extends_transitive(o1, o2, last);
    if sp.left_spanning(p) && sp.right_confined(q) {
        assert(left.spanning@.contains(p) && right.confined@.contains(q));
        lemma_scanned_links(sp.rects, left.spanning@, right.confined@, o0, o1, last, from, p, q);
    } else if sp.left_confined(p) && sp.right_spanning(q) {
        assert(right.spanning@.contains(q) && left.confined@.contains(p));
        lemma_scanned_links(sp.rects, right.spanning@, left.confined@, o1, o2, last, from, q, p);
    } else if sp.left_spanning(p) && sp.right_spanning(q) {
        assert(left.spanning@.contains(p) && right.spanning@.contains(q));
        lemma_scanned_links(sp.rects, left.spanning@, right.spanning@, o2, o3, last, from, p, q);
    } else {
        assert(left.touching@.contains(p) && right.touching@.contains(q));
        lemma_scanned_links(sp.rects, left.touching@, right.touching@, o3, o4, last, from, p, q);
    }
}

/// The split of the stretch `[lo, hi)` of the events of `rects` at `mid`.
pub open spec fn split_of(rects: Seq<Rect>, events: Seq<(i32, usize)>, lo: int, mid: int, hi: int) -> Split {
    Split { rects, events, lo, mid, hi }
}

/// Joins the two halves `[lo, mid)` and `[mid, hi)` of a stretch of events:
/// sorts the rectangles of each half by `y1`, deals them into classes by how
/// far they reach relative to the cut, and scans the classes that can meet
/// across the cut against one another.
pub fn scan_across(
    rects: &[Rect],
    events: &[(i32, usize)],
    lo: usize,
    mid: usize,
    hi: usize,
    out: &mut Vec<(usize, usize)>,
)
    requires
        all_valid(rects@),
        is_event_list(rects@, events@),
        lo < mid < hi <= events@.len(),
    ensures
        final(out)@ == old(out)@ + cross_reports(rects@, events@, lo as int, mid as int, hi as int),
        crossed(
            split_of(rects@, events@, lo as int, mid as int, hi as int),
            old(out)@,
            final(out)@,
        ),
{
    let ghost sp = split_of(rects@, events@, lo as int, mid as int, hi as int);
    proof {
        assert(rects@.len() == rects.len());
        lemma_event_list(rects@, events@);
        assert forall|k: int| lo <= k < hi implies (#[trigger] events@[k]).1 < rects@.len() by {
            assert(is_boundary(rects@, events@[k]));
        }
    }
    let low = events[lo].0;
    let cut = events[mid].0;
    let high = events[hi - 1].0;

    let first = y_sorted(rects, events, lo, mid);
    let second = y_sorted(rects, events, mid, hi);
    let left = classify_first(rects, &first, cut, high);
    let right = classify_second(rects, &second, cut, low);
    proof {
        lemma_classes_of(sp, first@, second@, left, right);
    }

    let ghost o0 = out@;
    stab(rects, left.spanning.as_slice(), right.confined.as_slice(), out);
    let ghost o1 = out@;
    stab(rects, right.spanning.as_slice(), left.confined.as_slice(), out);
    let ghost o2 = out@;
    stab(rects, left.spanning.as_slice(), right.spanning.as_slice(), out);
    let ghost o3 = out@;
    stab(rects, left.touching.as_slice(), right.touching.as_slice(), out);
    proof {
        lemma_cross_level(sp, left, right, o0, o1, o2, o3, out@);
        lemma_cross_reports(
            rects@,
            events@,
            lo as int,
            mid as int,
            hi as int,
            first@,
            second@,
            left,
            right,
            o0,
            o1,
            o2,
            o3,
            out@,
        );
    }
}

/// The reports of the four scans, one after another, are the reports across
/// the cut.
proof fn lemma_cross_reports(
    rects: Seq<Rect>,
    events: Seq<(i32, usize)>,
    lo: int,
    mid: int,
    hi: int,
    first: Seq<(i32, usize)>,
    second: Seq<(i32, usize)>,
    left: Classes,
    right: Classes,
    o0: Seq<(usize, usize)>,
    o1: Seq<(usize, usize)>,
    o2: Seq<(usize, usize)>,
    o3: Seq<(usize, usize)>,
    o4: Seq<(usize, usize)>,
)
    requires
        first == y_sorted_list(rects, events, lo, mid),
        second == y_sorted_list(rects, events, mid, hi),
        dealt_first(rects, first, first.len() as int, events[mid].0, events[hi - 1].0, left),
        dealt_second(rects, second, second.len() as int, events[mid].0, events[lo].0, right),
        o1 == o0 + stab_reports(rects, left.spanning@, right.confined@),
        o2 == o1 + stab_reports(rects, right.spanning@, left.confined@),
        o3 == o2 + stab_reports(rects, left.spanning@, right.spanning@),
        o4 == o3 + stab_reports(rects, left.touching@, right.touching@),
    ensures
        o4 == o0 + cross_reports(rects, events, lo, mid, hi),
{
    let s1 = stab_reports(rects, left.spanning@, right.confined@);
    let s2 = stab_reports(rects, right.spanning@, left.confined@);
    let s3 = stab_reports(rects, left.spanning@, right.spanning@);
    let s4 = stab_reports(rects, left.touching@, right.touching@);
    assert(cross_reports(rects, events, lo, mid, hi) == s1 + s2 + s3 + s4);
    assert(o0 + s1 + s2 + s3 + s4 =~= o0 + (s1 + s2 + s3 + s4));
}

/// Detects the intersections among the rectangles that have an event in
/// `events[lo..hi]` and reports them to `out`.
///
/// A stretch of fewer than two events holds no pair. A longer one is cut in
/// the middle by count. The two halves are joined across the cut; then each
/// half is worked on by itself.
pub fn detect(
    rects: &[Rect],
    events: &[(i32, usize)],
    lo: usize,
    hi: usize,
    out: &mut Vec<(usize, usize)>,
)
    requires
        all_valid(rects@),
        is_event_list(rects@, events@),
        lo <= hi <= events@.len(),
    ensures
        final(out)@ == old(out)@ + detect_reports(rects@, events@, lo as int, hi as int),
        detected(rects@, events@, lo as int, hi as int, old(out)@, final(out)@),
    decreases hi - lo,
{
    if hi - lo < 2 {
        assert(out@ + detect_reports(rects@, events@, lo as int, hi as int) =~= out@);
        return ;
    }
    let mid = lo + (hi - lo) / 2;
    let ghost sp = split_of(rects@, events@, lo as int, mid as int, hi as int);
    let ghost o0 = out@;
    scan_across(rects, events, lo, mid, hi, out);
    let ghost o4 = out@;
    detect(rects, events, lo, mid, out);
    let ghost o5 = out@;
    detect(rects, events, mid, hi, out);
    proof {
        assert(rects@.len() == rects.len());
        lemma_detect_level(sp, o0, o4, o5, out@);
        lemma_level_reports(
            rects@,
            events@,
            lo as int,
            hi as int,
            o0,
            cross_reports(rects@, events@, lo as int, mid as int, hi as int),
            detect_reports(rects@, events@, lo as int, mid as int),
            detect_reports(rects@, events@, mid as int, hi as int),
            out@,
        );
    }
}

/// The reports of one level are those across the cut, then those of the
/// first half, then those of the second.
proof fn lemma_level_reports(
    rects: Seq<Rect>,
    events: Seq<(i32, usize)>,
    lo: int,
    hi: int,
    before: Seq<(usize, usize)>,
    cross: Seq<(usize, usize)>,
    first: Seq<(usize, usize)>,
    second: Seq<(usize, usize)>,
    after: Seq<(usize, usize)>,
)
    requires
        hi - lo >= 2,
        cross == cross_reports(rects, events, lo, lo + (hi - lo) / 2, hi),
        first == detect_reports(rects, events, lo, lo + (hi - lo) / 2),
        second == detect_reports(rects, events, lo + (hi - lo) / 2, hi),
        after =~= before + cross + first + second,
    ensures
        after == before + detect_reports(rects, events, lo, hi),
{
    assert(detect_reports(rects, events, lo, hi) == cross + first + second);
    assert(after =~= before + (cross + first + second));
}

/// Detects all intersections of the collection and reports them to the sink
/// `out`, behind what it holds, in the order in which it finds them.
pub fn intersect_callback(rects: &[Rect], out: &mut Vec<(usize, usize)>)
    requires
        all_valid(rects@),
    ensures
        final(out)@ == old(out)@ + detector_reports(rects@),
        reports_intersections(rects@, detector_reports(rects@)),
{
    let events = boundary_events(rects);
    let ghost before = out@;
    detect(rects, events.as_slice(), 0, events.len(), out);
    proof {
        assert(rects@.len() == rects.len());
        lemma_event_list(rects@, events@);
        let from = before.len() as int;
        let added = detector_reports(rects@);
        assert(out@ == before + added);
        assert forall|p: usize, q: usize|
            p != q && p < rects@.len() && q < rects@.len() && rects@[p as int].intersects(
                &rects@[q as int],
            ) implies #[trigger] linked(added, p, q) by {
            lemma_has_event(rects@, events@, p);
            lemma_has_event(rects@, events@, q);
            assert(linked_from(out@, from, p, q));
            let k = choose|k: int|
                from <= k < out@.len() && (#[trigger] out@[k] == (p, q) || out@[k] == (q, p));
            assert(added[k - from] == out@[k]);
        }
        assert forall|k: int| 0 <= k < added.len() implies pair_ok(rects@, #[trigger] added[k]) by {
            assert(added[k] == out@[k + from]);
        }
    }
}

/// Every rectangle of the collection has an event in its event list.
proof fn lemma_has_event(rects: Seq<Rect>, events: Seq<(i32, usize)>, r: usize)
    requires
        rects.len() <= usize::MAX,
        is_event_list(rects, events),
        r < rects.len(),
    ensures
        has_event_in(events, 0, events.len() as int, r),
{
    lemma_event_list(rects, events);
    assert(events.contains((rects[r as int].x1, r)));
    let k = choose|k: int| 0 <= k < events.len() && events[k] == (rects[r as int].x1, r);
    assert(0 <= k < events.len() && events[k].1 == r);
}

/// All pairs of rectangles of the collection that intersect: the reports of
/// the detector, in the order in which it makes them.
///
/// Every pair returned names two different rectangles that intersect, and
/// every two different rectangles that intersect are returned as a pair, in
/// one orientation or the other and possibly more than once. So no rectangle
/// is paired with itself, rectangles that do not intersect are not paired, and
/// a collection of fewer than two rectangles has no pairs.
///
/// The rectangles have to be valid, which
/// [`check_all_valid`](crate::rect::check_all_valid) tests at run time.
pub fn intersect(rects: &[Rect]) -> (out: Vec<(usize, usize)>)
    requires
        all_valid(rects@),
    ensures
        out@ == detector_reports(rects@),
        reports_intersections(rects@, out@),
        forall|k: int| 0 <= k < out@.len() ==> (#[trigger] out@[k]).0 != out@[k].1,
        forall|p: usize, q: usize| #[trigger]
            out@.contains((p, q)) ==> p < rects@.len() && q < rects@.len() && rects@[p as int].intersects(
                &rects@[q as int],
            ) && rects@[q as int].intersects(&rects@[p as int]),
        forall|p: usize, q: usize|
            p < rects@.len() && q < rects@.len() && !rects@[p as int].intersects(&rects@[q as int])
                ==> !(#[trigger] out@.contains((p, q))),
        rects@.len() <= 1 ==> out@.len() == 0,
{
    let mut out: Vec<(usize, usize)> = Vec::new();
    intersect_callback(rects, &mut out);
    proof {
        assert(out@ =~= detector_reports(rects@));
        assert forall|p: usize, q: usize| #[trigger] out@.contains((p, q)) implies pair_ok(rects@, (p, q)) by {
            let k = choose|k: int| 0 <= k < out@.len() && out@[k] == (p, q);
            assert(pair_ok(rects@, out@[k]));
        }
        if rects@.len() <= 1 && out@.len() > 0 {
            assert(pair_ok(rects@, out@[0]));
        }
    }
    out
}

} // verus!
