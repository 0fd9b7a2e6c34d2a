//! Sorting the rectangles of one half by `y1` and sorting them into the
//! classes that are joined across the cut.

use crate::buckets::Bucket;
use crate::events::has_event_in;
use crate::keyed::{
    lemma_same_entries, lemma_sorted_form, sort_by_key, sorted_by_key, sorted_form, stably_sorted,
};
use crate::rect::Rect;
use crate::stab::{indices_in_range, sorted_by_y1};
use vstd::prelude::*;

verus! {

/// Every entry names a rectangle of the collection and carries its `y1`.
pub open spec fn keyed_by_y1(rects: Seq<Rect>, list: Seq<(i32, usize)>) -> bool {
    forall|t: int|
        0 <= t < list.len() ==> (#[trigger] list[t]).1 < rects.len() && list[t].0 == rects[list[t].1 as int].y1
}

/// One of the first `upto` entries of the list names rectangle `r`.
pub open spec fn names_before(list: Seq<(i32, usize)>, upto: int, r: usize) -> bool {
    exists|t: int| 0 <= t < upto && (#[trigger] list[t]).1 == r
}

/// Some entry of the list names rectangle `r`.
pub open spec fn names(list: Seq<(i32, usize)>, r: usize) -> bool {
    names_before(list, list.len() as int, r)
}

/// The rectangles named by the events in `[lo, hi)`, each with its `y1`, in
/// the order of the events.
pub open spec fn y_keys(rects: Seq<Rect>, events: Seq<(i32, usize)>, lo: int, hi: int) -> Seq<
    (i32, usize),
> {
    Seq::new((hi - lo) as nat, |t: int| (rects[events[lo + t].1 as int].y1, events[lo + t].1))
}

/// The rectangles named by the events in `[lo, hi)`, each with its `y1`, in
/// ascending order of `y1`; rectangles of equal `y1` in the order of their
/// events.
pub open spec fn y_sorted_list(rects: Seq<Rect>, events: Seq<(i32, usize)>, lo: int, hi: int) -> Seq<
    (i32, usize),
> {
    sorted_form(y_keys(rects, events, lo, hi))
}

/// The rectangles that have an event in `[lo, hi)`, once for every such
/// event, each with its `y1`, in ascending order of `y1`; rectangles of equal
/// `y1` in the order of their events.
pub fn y_sorted(rects: &[Rect], events: &[(i32, usize)], lo: usize, hi: usize) -> (list: Vec<
    (i32, usize),
>)
    requires
        lo <= hi <= events@.len(),
        forall|k: int| lo <= k < hi ==> (#[trigger] events@[k]).1 < rects@.len(),
    ensures
        list@ == y_sorted_list(rects@, events@, lo as int, hi as int),
        stably_sorted(y_keys(rects@, events@, lo as int, hi as int), list@),
        list@.len() == hi - lo,
        keyed_by_y1(rects@, list@),
        forall|r: usize| names(list@, r) <==> has_event_in(events@, lo as int, hi as int, r),
{
    let mut list: Vec<(i32, usize)> = Vec::new();
    let mut k: usize = lo;
    while k < hi
        invariant
            lo <= k <= hi <= events@.len(),
            forall|k: int| lo <= k < hi ==> (#[trigger] events@[k]).1 < rects@.len(),
            list@.len() == k - lo,
            forall|t: int|
                0 <= t < list@.len() ==> #[trigger] list@[t] == (
                    rects@[events@[lo + t].1 as int].y1,
                    events@[lo + t].1,
                ),
        decreases hi - k,
    {
        let idx = events[k].1;
        list.push((rects[idx].y1, idx));
        k += 1;
    }
    assert(list@ =~= y_keys(rects@, events@, lo as int, hi as int));
    let ghost unsorted = list@;
    sort_by_key(&mut list);
    proof {
        lemma_sorted_form(unsorted, list@);
        lemma_same_entries(list@, unsorted);
        assert forall|t: int| 0 <= t < list@.len() implies (#[trigger] list@[t]).1 < rects@.len()
            && list@[t].0 == rects@[list@[t].1 as int].y1 by {
            assert(list@.contains(list@[t]));
            assert(unsorted.contains(list@[t]));
        }
        assert forall|r: usize| names(list@, r) <==> has_event_in(
            events@,
            lo as int,
            hi as int,
            r,
        ) by {
            if names(list@, r) {
                let t = choose|t: int| 0 <= t < list@.len() && (#[trigger] list@[t]).1 == r;
                assert(list@.contains(list@[t]));
                let u = choose|u: int| 0 <= u < unsorted.len() && unsorted[u] == list@[t];
                assert(events@[lo + u].1 == r);
            }
            if has_event_in(events@, lo as int, hi as int, r) {
                let k = choose|k: int| lo <= k < hi && (#[trigger] events@[k]).1 == r;
                assert(unsorted[k - lo].1 == r);
                assert(unsorted.contains(unsorted[k - lo]));
                assert(list@.contains(unsorted[k - lo]));
                let t = choose|t: int| 0 <= t < list@.len() && list@[t] == unsorted[k - lo];
                assert(list@[t].1 == r);
            }
        }
    }
    list
}

/// What holds of a class while the first `upto` entries of `list` have been
/// dealt out: its members are rectangles of the collection, come in ascending
/// order of `y1`, and none starts above an entry that is still to come.
pub open spec fn filling(rects: Seq<Rect>, list: Seq<(i32, usize)>, upto: int, class: Seq<usize>) -> bool {
    &&& class.len() <= upto
    &&& indices_in_range(rects, class)
    &&& sorted_by_y1(rects, class)
    &&& forall|i: int, t: int|
        0 <= i < class.len() && upto <= t < list.len() ==> rects[#[trigger] class[i] as int].y1 <= (
        #[trigger] list[t]).0
}

/// Dealing out the next entry keeps a class in order, whether the entry's
/// rectangle joins the class or not; and the class then contains what it
/// contained, and that rectangle if it joined.
pub proof fn lemma_filling_step(rects: Seq<Rect>, list: Seq<(i32, usize)>, upto: int, class: Seq<usize>)
    requires
        sorted_by_key(list),
        keyed_by_y1(rects, list),
        0 <= upto < list.len(),
        filling(rects, list, upto, class),
    ensures
        filling(rects, list, upto + 1, class),
        filling(rects, list, upto + 1, class.push(list[upto].1)),
        forall|r: usize|
            #[trigger] class.push(list[upto].1).contains(r) <==> class.contains(r) || r == list[upto].1,
{
    let joined = class.push(list[upto].1);
    assert forall|i: int, j: int| 0 <= i <= j < joined.len() implies rects[#[trigger] joined[i] as int].y1
        <= rects[#[trigger] joined[j] as int].y1 by {
        if j < class.len() {
            assert(joined[i] == class[i] && joined[j] == class[j]);
        } else if i < class.len() {
            assert(joined[i] == class[i]);
            assert(rects[class[i] as int].y1 <= list[upto].0);
        }
    }
    assert forall|i: int, t: int| 0 <= i < joined.len() && upto + 1 <= t < list.len() implies rects[
        #[trigger] joined[i] as int].y1 <= (#[trigger] list[t]).0 by {
        if i < class.len() {
            assert(joined[i] == class[i]);
        } else {
            assert(list[upto].0 <= list[t].0);
        }
    }
    assert forall|r: usize| joined.contains(r) <==> class.contains(r) || r == list[upto].1 by {
        if class.contains(r) {
            let i = choose|i: int| 0 <= i < class.len() && class[i] == r;
            assert(joined[i] == r);
        }
        if r == list[upto].1 {
            assert(joined[class.len() as int] == r);
        }
    }
}

/// The three classes of one half.
pub struct Classes {
    /// The rectangles that stay on their side of the cut.
    pub confined: Bucket,
    /// The rectangles that reach over the whole other half.
    pub spanning: Bucket,
    /// The rectangles with a boundary exactly at the cut.
    pub touching: Bucket,
}

impl Classes {
    /// All three classes name rectangles of the collection in ascending order
    /// of `y1`.
    pub open spec fn ordered(self, rects: Seq<Rect>) -> bool {
        &&& indices_in_range(rects, self.confined@)
        &&& sorted_by_y1(rects, self.confined@)
        &&& indices_in_range(rects, self.spanning@)
        &&& sorted_by_y1(rects, self.spanning@)
        &&& indices_in_range(rects, self.touching@)
        &&& sorted_by_y1(rects, self.touching@)
    }

    /// While the first `upto` entries of `list` have been dealt out.
    pub open spec fn filling(self, rects: Seq<Rect>, list: Seq<(i32, usize)>, upto: int) -> bool {
        &&& filling(rects, list, upto, self.confined@)
        &&& filling(rects, list, upto, self.spanning@)
        &&& filling(rects, list, upto, self.touching@)
    }
}

/// The three ways in which a rectangle of one half can stand to the cut.
pub enum Class {
    /// It stays on its side of the cut.
    Confined,
    /// It reaches over the whole other half.
    Spanning,
    /// It has a boundary exactly at the cut.
    Touching,
}

/// Whether a rectangle of the first half belongs to the class, judged by its
/// right edge `x2`.
pub open spec fn left_member(r: Rect, class: Class, cut: i32, high: i32) -> bool {
    match class {
        Class::Confined => r.x2 <= cut,
        Class::Spanning => r.x2 > cut && r.x2 >= high,
        Class::Touching => r.x2 == cut,
    }
}

/// Whether a rectangle of the second half belongs to the class, judged by its
/// left edge `x1`.
pub open spec fn right_member(r: Rect, class: Class, cut: i32, low: i32) -> bool {
    match class {
        Class::Confined => r.x1 >= cut,
        Class::Spanning => r.x1 < cut && r.x1 <= low,
        Class::Touching => r.x1 == cut,
    }
}

/// The class of the first half as it stands when the first `upto` entries of
/// `list` have been dealt out: the rectangles among them that belong to it,
/// in the order of the list.
pub open spec fn dealt_left(
    rects: Seq<Rect>,
    list: Seq<(i32, usize)>,
    upto: int,
    class: Class,
    cut: i32,
    high: i32,
) -> Seq<usize>
    decreases upto,
{
    if upto <= 0 {
        Seq::empty()
    } else {
        let before = dealt_left(rects, list, upto - 1, class, cut, high);
        let r = list[upto - 1].1;
        if left_member(rects[r as int], class, cut, high) {
            before.push(r)
        } else {
            before
        }
    }
}

/// The class of the second half as it stands when the first `upto` entries of
/// `list` have been dealt out.
pub open spec fn dealt_right(
    rects: Seq<Rect>,
    list: Seq<(i32, usize)>,
    upto: int,
    class: Class,
    cut: i32,
    low: i32,
) -> Seq<usize>
    decreases upto,
{
    if upto <= 0 {
        Seq::empty()
    } else {
        let before = dealt_right(rects, list, upto - 1, class, cut, low);
        let r = list[upto - 1].1;
        if right_member(rects[r as int], class, cut, low) {
            before.push(r)
        } else {
            before
        }
    }
}

/// The three classes hold what has been dealt to them from the first `upto`
/// entries of the first half's list.
pub open spec fn dealt_first(
    rects: Seq<Rect>,
    list: Seq<(i32, usize)>,
    upto: int,
    cut: i32,
    high: i32,
    c: Classes,
) -> bool {
    &&& c.confined@ == dealt_left(rects, list, upto, Class::Confined, cut, high)
    &&& c.spanning@ == dealt_left(rects, list, upto, Class::Spanning, cut, high)
    &&& c.touching@ == dealt_left(rects, list, upto, Class::Touching, cut, high)
}

/// The three classes hold what has been dealt to them from the first `upto`
/// entries of the second half's list.
pub open spec fn dealt_second(
    rects: Seq<Rect>,
    list: Seq<(i32, usize)>,
    upto: int,
    cut: i32,
    low: i32,
    c: Classes,
) -> bool {
    &&& c.confined@ == dealt_right(rects, list, upto, Class::Confined, cut, low)
    &&& c.spanning@ == dealt_right(rects, list, upto, Class::Spanning, cut, low)
    &&& c.touching@ == dealt_right(rects, list, upto, Class::Touching, cut, low)
}

/// The classes of the first half, whose rectangles are judged by their right
/// edge `x2`: confined where it lies at or before `cut`, spanning where it lies
/// behind `cut` and at or behind `high`, touching where it equals `cut`.
pub open spec fn first_half_classes(
    rects: Seq<Rect>,
    list: Seq<(i32, usize)>,
    upto: int,
    cut: i32,
    high: i32,
    c: Classes,
) -> bool {
    &&& forall|r: usize|
        #[trigger] c.confined@.contains(r) <==> names_before(list, upto, r) && rects[r as int].x2 <= cut
    &&& forall|r: usize|
        #[trigger] c.spanning@.contains(r) <==> names_before(list, upto, r) && rects[r as int].x2 > cut
            && rects[r as int].x2 >= high
    &&& forall|r: usize|
        #[trigger] c.touching@.contains(r) <==> names_before(list, upto, r) && rects[r as int].x2 == cut
}

/// The classes of the second half, whose rectangles are judged by their left
/// edge `x1`: confined where it lies at or behind `cut`, spanning where it lies
/// before `cut` and at or before `low`, touching where it equals `cut`.
pub open spec fn second_half_classes(
    rects: Seq<Rect>,
    list: Seq<(i32, usize)>,
    upto: int,
    cut: i32,
    low: i32,
    c: Classes,
) -> bool {
    &&& forall|r: usize|
        #[trigger] c.confined@.contains(r) <==> names_before(list, upto, r) && rects[r as int].x1 >= cut
    &&& forall|r: usize|
        #[trigger] c.spanning@.contains(r) <==> names_before(list, upto, r) && rects[r as int].x1 < cut
            && rects[r as int].x1 <= low
    &&& forall|r: usize|
        #[trigger] c.touching@.contains(r) <==> names_before(list, upto, r) && rects[r as int].x1 == cut
}

/// Deals the rectangles of the first half, which come sorted by `y1`, into
/// their classes.
pub(crate) fn classify_first(rects: &[Rect], list: &Vec<(i32, usize)>, cut: i32, high: i32) -> (c: Classes)
    requires
        sorted_by_key(list@),
        keyed_by_y1(rects@, list@),
    ensures
        dealt_first(rects@, list@, list@.len() as int, cut, high, c),
        c.ordered(rects@),
        first_half_classes(rects@, list@, list@.len() as int, cut, high, c),
{
    let mut c = Classes { confined: Bucket::new(), spanning: Bucket::new(), touching: Bucket::new() };
    let mut t: usize = 0;
    while t < list.len()
        invariant
            sorted_by_key(list@),
            keyed_by_y1(rects@, list@),
            t <= list@.len(),
            c.filling(rects@, list@, t as int),
            dealt_first(rects@, list@, t as int, cut, high, c),
            first_half_classes(rects@, list@, t as int, cut, high, c),
        decreases list.len() - t,
    {
        let idx = list[t].1;
        proof {
            lemma_filling_step(rects@, list@, t as int, c.confined@);
            lemma_filling_step(rects@, list@, t as int, c.spanning@);
            lemma_filling_step(rects@, list@, t as int, c.touching@);
            lemma_names_step(list@, t as int);
        }
        if rects[idx].x2 == cut {
            c.touching.push(idx);
        }
        if rects[idx].x2 <= cut {
            c.confined.push(idx);
        } else {
            if rects[idx].x2 >= high {
                c.spanning.push(idx);
            }
        }
        t += 1;
    }
    c
}

/// Deals the rectangles of the second half, which come sorted by `y1`, into
/// their classes.
pub(crate) fn classify_second(rects: &[Rect], list: &Vec<(i32, usize)>, cut: i32, low: i32) -> (c: Classes)
    requires
        sorted_by_key(list@),
        keyed_by_y1(rects@, list@),
    ensures
        dealt_second(rects@, list@, list@.len() as int, cut, low, c),
        c.ordered(rects@),
        second_half_classes(rects@, list@, list@.len() as int, cut, low, c),
{
    let mut c = Classes { confined: Bucket::new(), spanning: Bucket::new(), touching: Bucket::new() };
    let mut t: usize = 0;
    while t < list.len()
        invariant
            sorted_by_key(list@),
            keyed_by_y1(rects@, list@),
            t <= list@.len(),
            c.filling(rects@, list@, t as int),
            dealt_second(rects@, list@, t as int, cut, low, c),
            second_half_classes(rects@, list@, t as int, cut, low, c),
        decreases list.len() - t,
    {
        let idx = list[t].1;
        proof {
            lemma_filling_step(rects@, list@, t as int, c.confined@);
            lemma_filling_step(rects@, list@, t as int, c.spanning@);
            lemma_filling_step(rects@, list@, t as int, c.touching@);
            lemma_names_step(list@, t as int);
        }
        if rects[idx].x1 == cut {
            c.touching.push(idx);
        }
        if rects[idx].x1 >= cut {
            c.confined.push(idx);
        } else {
            if rects[idx].x1 <= low {
                c.spanning.push(idx);
            }
        }
        t += 1;
    }
    c
}

/// The entries up to and with position `upto` name what the entries before
/// it name, and the rectangle of the entry at `upto`.
pub proof fn lemma_names_step(list: Seq<(i32, usize)>, upto: int)
    requires
        0 <= upto < list.len(),
    ensures
        forall|r: usize|
            #[trigger] names_before(list, upto + 1, r) <==> names_before(list, upto, r) || r
                == list[upto].1,
{
    assert forall|r: usize|
        names_before(list, upto + 1, r) <==> names_before(list, upto, r) || r == list[upto].1 by {
        if names_before(list, upto, r) {
            let t = choose|t: int| 0 <= t < upto && (#[trigger] list[t]).1 == r;
            assert(0 <= t < upto + 1 && list[t].1 == r);
        }
        if r == list[upto].1 {
            assert(0 <= upto < upto + 1 && list[upto].1 == r);
        }
    }
}

} // verus!
