//! What the detector, the pairwise test and the comparable form have to do
//! with one another.

use crate::brute::{is_brute_force, is_intersecting_pair};
use crate::canonical::{is_canonical_of, is_comparable_of};
use crate::detect::{pair_ok, reports_intersections};
use crate::order::{lemma_strictly_ascending_unique, strictly_ascending};
use crate::rect::{all_valid, Rect};
use crate::report::linked;
use vstd::prelude::*;

verus! {

/// The canonical forms of what the detector reports are the intersecting
/// pairs of the collection.
pub proof fn lemma_canonical_reports(rects: Seq<Rect>, fast: Seq<(usize, usize)>, p: (usize, usize))
    requires
        reports_intersections(rects, fast),
    ensures
        is_canonical_of(fast, p) <==> is_intersecting_pair(rects, p),
{
    if is_canonical_of(fast, p) {
        if fast.contains(p) {
            let k = choose|k: int| 0 <= k < fast.len() && fast[k] == p;
            assert(pair_ok(rects, fast[k]));
        } else {
            let k = choose|k: int| 0 <= k < fast.len() && fast[k] == (p.1, p.0);
            assert(pair_ok(rects, fast[k]));
        }
    }
    if is_intersecting_pair(rects, p) {
        assert(linked(fast, p.0, p.1));
        let k = choose|k: int|
            0 <= k < fast.len() && (#[trigger] fast[k] == (p.0, p.1) || fast[k] == (p.1, p.0));
        assert(fast.contains(fast[k]));
    }
}

/// The list of the pairwise test is its own comparable form.
pub proof fn lemma_brute_force_comparable(rects: Seq<Rect>, brute: Seq<(usize, usize)>)
    requires
        is_brute_force(rects, brute),
    ensures
        is_comparable_of(brute, brute),
{
    assert forall|p: (usize, usize)| #[trigger] brute.contains(p) <==> is_canonical_of(brute, p) by {
        if brute.contains((p.1, p.0)) {
            assert(is_intersecting_pair(rects, (p.1, p.0)));
        }
    }
}

/// A list of reports has one comparable form only.
pub proof fn lemma_comparable_unique(
    input: Seq<(usize, usize)>,
    first: Seq<(usize, usize)>,
    second: Seq<(usize, usize)>,
)
    requires
        is_comparable_of(input, first),
        is_comparable_of(input, second),
    ensures
        first == second,
{
    assert forall|p: (usize, usize)| first.contains(p) <==> second.contains(p) by {
        assert(first.contains(p) <==> is_canonical_of(input, p));
        assert(second.contains(p) <==> is_canonical_of(input, p));
    }
    lemma_strictly_ascending_unique(first, second);
}

/// The detector agrees with the pairwise test: for every collection of valid
/// rectangles, the comparable form of what the detector reports equals the
/// comparable form of what the pairwise test lists, which is that list
/// itself.
pub proof fn lemma_matches_brute_force(
    rects: Seq<Rect>,
    fast: Seq<(usize, usize)>,
    brute: Seq<(usize, usize)>,
    fast_comparable: Seq<(usize, usize)>,
    brute_comparable: Seq<(usize, usize)>,
)
    requires
        all_valid(rects),
        reports_intersections(rects, fast),
        is_brute_force(rects, brute),
        is_comparable_of(fast, fast_comparable),
        is_comparable_of(brute, brute_comparable),
    ensures
        fast_comparable == brute_comparable,
        brute_comparable == brute,
{
    lemma_brute_force_comparable(rects, brute);
    lemma_comparable_unique(brute, brute_comparable, brute);
    assert forall|p: (usize, usize)| fast_comparable.contains(p) <==> brute.contains(p) by {
        lemma_canonical_reports(rects, fast, p);
        assert(fast_comparable.contains(p) <==> is_canonical_of(fast, p));
        assert(brute.contains(p) <==> is_intersecting_pair(rects, p));
    }
    lemma_strictly_ascending_unique(fast_comparable, brute);
}

/// Two rectangles that coincide are reported as exactly one pair: the
/// comparable form of what the detector reports for them is the single pair
/// `(0, 1)`.
pub proof fn lemma_coincident_pair(
    rects: Seq<Rect>,
    fast: Seq<(usize, usize)>,
    fast_comparable: Seq<(usize, usize)>,
)
    requires
        rects.len() == 2,
        rects[0] == rects[1],
        all_valid(rects),
        reports_intersections(rects, fast),
        is_comparable_of(fast, fast_comparable),
    ensures
        fast_comparable == seq![(0usize, 1usize)],
{
    let single = seq![(0usize, 1usize)];
    assert(rects[0].valid());
    assert forall|p: (usize, usize)| fast_comparable.contains(p) <==> single.contains(p) by {
        lemma_canonical_reports(rects, fast, p);
        assert(fast_comparable.contains(p) <==> is_canonical_of(fast, p));
        if p == (0usize, 1usize) {
            assert(single[0] == p);
        }
    }
    assert(strictly_ascending(single));
    lemma_strictly_ascending_unique(fast_comparable, single);
}

} // verus!
