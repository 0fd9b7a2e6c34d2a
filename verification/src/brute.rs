//! The plain pairwise test of every two rectangles, against which the fast
//! detector is stated.

use crate::order::{lex_lt, strictly_ascending};
use crate::rect::Rect;
use vstd::prelude::*;

verus! {

/// `p` names two rectangles of the collection, the lower index first, that
/// intersect.
pub open spec fn is_intersecting_pair(rects: Seq<Rect>, p: (usize, usize)) -> bool {
    &&& p.0 < p.1 < rects.len()
    &&& rects[p.0 as int].intersects(&rects[p.1 as int])
}

/// `out` lists the intersecting pairs of the collection, each once with the
/// lower index first, in ascending order.
pub open spec fn is_brute_force(rects: Seq<Rect>, out: Seq<(usize, usize)>) -> bool {
    &&& strictly_ascending(out)
    &&& forall|p: (usize, usize)| #[trigger] out.contains(p) <==> is_intersecting_pair(rects, p)
}

/// What the pairwise test has listed when it has come to the pair `(i, j)`:
/// the intersecting pairs that stand before `(i, j)`.
pub open spec fn listed_up_to(rects: Seq<Rect>, out: Seq<(usize, usize)>, i: usize, j: usize) -> bool {
    &&& strictly_ascending(out)
    &&& forall|p: (usize, usize)|
        #[trigger] out.contains(p) <==> is_intersecting_pair(rects, p) && lex_lt(p, (i, j))
}

/// Tests every two rectangles of the collection and lists the pairs that
/// intersect, each once with the lower index first, in ascending order.
pub fn brute_force_intersect(rects: &[Rect]) -> (out: Vec<(usize, usize)>)
    ensures
        is_brute_force(rects@, out@),
{
    let mut out: Vec<(usize, usize)> = Vec::new();
    let n = rects.len();
    let mut i: usize = 0;
    while i < n
        invariant
            n == rects@.len(),
            i <= n,
            listed_up_to(rects@, out@, i, 0),
        decreases n - i,
    {
        let mut j: usize = i + 1;
        while j < n
            invariant
                n == rects@.len(),
                i < j <= n,
                listed_up_to(rects@, out@, i, j),
            decreases n - j,
        {
            if rects[i].intersects(&rects[j]) {
                proof {
                    lemma_list_next(rects@, out@, i, j);
                }
                out.push((i, j));
            }
            j += 1;
        }
        i += 1;
    }
    out
}

/// Appending the intersecting pair `(i, j)` to what was listed before it
/// gives what is listed before the pair that follows.
proof fn lemma_list_next(rects: Seq<Rect>, out: Seq<(usize, usize)>, i: usize, j: usize)
    requires
        rects.len() <= usize::MAX,
        listed_up_to(rects, out, i, j),
        is_intersecting_pair(rects, (i, j)),
    ensures
        listed_up_to(rects, out.push((i, j)), i, (j + 1) as usize),
{
    let next = out.push((i, j));
    assert forall|a: int, b: int| 0 <= a < b < next.len() implies lex_lt(next[a], next[b]) by {
        if b == out.len() {
            assert(out.contains(out[a]));
        }
    }
    assert forall|p: (usize, usize)| #[trigger]
        next.contains(p) <==> is_intersecting_pair(rects, p) && lex_lt(p, (i, (j + 1) as usize)) by {
        if next.contains(p) {
            let k = choose|k: int| 0 <= k < next.len() && next[k] == p;
            if k < out.len() {
                assert(out.contains(out[k]));
            }
        }
        if is_intersecting_pair(rects, p) && lex_lt(p, (i, (j + 1) as usize)) {
            if p == (i, j) {
                assert(next[out.len() as int] == p);
            } else {
                assert(out.contains(p));
                let k = choose|k: int| 0 <= k < out.len() && out[k] == p;
                assert(next[k] == p);
            }
        }
    }
}

} // verus!
