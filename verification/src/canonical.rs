//! The comparable form of a list of reports: every unordered pair once, the
//! lower index first, in ascending order.

use crate::order::{ascending, lex_le, lex_lt, strictly_ascending};
use vstd::prelude::*;

verus! {

/// `p` is the canonical form of a report of `input`: its lower index stands
/// first, and `input` holds it in one orientation or the other.
pub open spec fn is_canonical_of(input: Seq<(usize, usize)>, p: (usize, usize)) -> bool {
    p.0 < p.1 && (input.contains(p) || input.contains((p.1, p.0)))
}

/// `out` is the comparable form of `input`: the canonical forms of its
/// reports, each once, in ascending order. A report of a rectangle with
/// itself has no canonical form.
pub open spec fn is_comparable_of(input: Seq<(usize, usize)>, out: Seq<(usize, usize)>) -> bool {
    &&& strictly_ascending(out)
    &&& forall|p: (usize, usize)| #[trigger] out.contains(p) <==> is_canonical_of(input, p)
}

/// `<[T]>::sort` on index pairs, which compare by the first index and then by
/// the second: the list is rearranged into ascending order.
#[verifier::external_body]
pub(crate) fn sort_pairs(list: &mut Vec<(usize, usize)>)
    ensures
        ascending(final(list)@),
        final(list)@.to_multiset() == old(list)@.to_multiset(),
{
    list.sort();
}

/// The reports with the lower index first, without those of a rectangle with
/// itself, in the order of the list.
fn normalized(indices: &Vec<(usize, usize)>) -> (pairs: Vec<(usize, usize)>)
    ensures
        forall|p: (usize, usize)| #[trigger] pairs@.contains(p) <==> is_canonical_of(indices@, p),
{
    let mut pairs: Vec<(usize, usize)> = Vec::new();
    let mut k: usize = 0;
    while k < indices.len()
        invariant
            k <= indices@.len(),
            forall|p: (usize, usize)| #[trigger]
                pairs@.contains(p) <==> is_canonical_of(indices@.take(k as int), p),
        decreases indices.len() - k,
    {
        let (a, b) = indices[k];
        let ghost before = pairs@;
        if a < b {
            pairs.push((a, b));
        } else if b < a {
            pairs.push((b, a));
        }
        proof {
            lemma_normalized_step(indices@, k as int, before, pairs@);
        }
        k += 1;
    }
    assert(indices@.take(k as int) =~= indices@);
    pairs
}

/// One step of bringing reports into canonical form.
proof fn lemma_normalized_step(
    input: Seq<(usize, usize)>,
    k: int,
    before: Seq<(usize, usize)>,
    after: Seq<(usize, usize)>,
)
    requires
        0 <= k < input.len(),
        forall|p: (usize, usize)| #[trigger] before.contains(p) <==> is_canonical_of(input.take(k), p),
        input[k].0 < input[k].1 ==> after == before.push(input[k]),
        input[k].1 < input[k].0 ==> after == before.push((input[k].1, input[k].0)),
        input[k].0 == input[k].1 ==> after == before,
    ensures
        forall|p: (usize, usize)| #[trigger]
            after.contains(p) <==> is_canonical_of(input.take(k + 1), p),
{
    let old_in = input.take(k);
    let new_in = input.take(k + 1);
    assert(new_in =~= old_in.push(input[k]));
    assert forall|q: (usize, usize)| new_in.contains(q) <==> old_in.contains(q) || q == input[k] by {
        if old_in.contains(q) {
            let i = choose|i: int| 0 <= i < old_in.len() && old_in[i] == q;
            assert(new_in[i] == q);
        }
        if q == input[k] {
            assert(new_in[k] == q);
        }
    }
    assert forall|p: (usize, usize)| #[trigger]
        after.contains(p) <==> is_canonical_of(new_in, p) by {
        assert(before.contains(p) <==> is_canonical_of(old_in, p));
        assert(new_in.contains(p) <==> old_in.contains(p) || p == input[k]);
        assert(new_in.contains((p.1, p.0)) <==> old_in.contains((p.1, p.0)) || (p.1, p.0) == input[k]);
        if before.contains(p) {
            let i = choose|i: int| 0 <= i < before.len() && before[i] == p;
            assert(after[i] == p);
        }
        if after.contains(p) && !before.contains(p) {
            let i = choose|i: int| 0 <= i < after.len() && after[i] == p;
            assert(i == before.len());
        }
        if is_canonical_of(new_in, p) && !is_canonical_of(old_in, p) {
            assert(after[before.len() as int] == p);
        }
    }
}

/// The pairs of an ascending list, each once.
fn deduplicated(pairs: &Vec<(usize, usize)>) -> (out: Vec<(usize, usize)>)
    requires
        ascending(pairs@),
    ensures
        strictly_ascending(out@),
        forall|p: (usize, usize)| #[trigger] out@.contains(p) <==> pairs@.contains(p),
{
    let mut out: Vec<(usize, usize)> = Vec::new();
    let mut k: usize = 0;
    while k < pairs.len()
        invariant
            ascending(pairs@),
            k <= pairs@.len(),
            strictly_ascending(out@),
            k == 0 ==> out@.len() == 0,
            k > 0 ==> out@.len() > 0 && out@[out@.len() - 1] == pairs@[k - 1],
            forall|p: (usize, usize)| #[trigger] out@.contains(p) <==> pairs@.take(k as int).contains(p),
        decreases pairs.len() - k,
    {
        let cur = pairs[k];
        let ghost before = out@;
        let fresh = if k == 0 {
            true
        } else {
            let prev = pairs[k - 1];
            prev.0 != cur.0 || prev.1 != cur.1
        };
        if fresh {
            out.push(cur);
        }
        proof {
            let old_in = pairs@.take(k as int);
            let new_in = pairs@.take(k + 1);
            assert(new_in =~= old_in.push(cur));
            assert forall|i: int, j: int| 0 <= i < j < out@.len() implies lex_lt(out@[i], out@[j]) by {
                if fresh && j == before.len() {
                    assert(before.contains(before[i]));
                    assert(old_in.contains(before[i]));
                    let t = choose|t: int| 0 <= t < old_in.len() && old_in[t] == before[i];
                    assert(lex_le(pairs@[t], pairs@[k - 1]));
                    assert(lex_le(pairs@[k - 1], pairs@[k as int]));
                }
            }
            assert forall|p: (usize, usize)| #[trigger] out@.contains(p) <==> new_in.contains(p) by {
                assert(before.contains(p) <==> old_in.contains(p));
                if before.contains(p) {
                    let i = choose|i: int| 0 <= i < before.len() && before[i] == p;
                    assert(out@[i] == p);
                }
                if old_in.contains(p) {
                    let i = choose|i: int| 0 <= i < old_in.len() && old_in[i] == p;
                    assert(new_in[i] == p);
                }
                if out@.contains(p) && !before.contains(p) {
                    let i = choose|i: int| 0 <= i < out@.len() && out@[i] == p;
                    assert(i == before.len());
                    assert(new_in[k as int] == p);
                }
                if new_in.contains(p) && !old_in.contains(p) {
                    let i = choose|i: int| 0 <= i < new_in.len() && new_in[i] == p;
                    assert(i == k);
                    if fresh {
                        assert(out@[before.len() as int] == p);
                    } else {
                        assert(before[before.len() - 1] == p);
                    }
                }
            }
        }
        k += 1;
    }
    assert(pairs@.take(k as int) =~= pairs@);
    out
}

/// Brings a list of reports into its comparable form: every pair with its
/// lower index first, reports of a rectangle with itself left out, each pair
/// once, in ascending order by the first index and then by the second.
pub fn to_comparable(indices: Vec<(usize, usize)>) -> (out: Vec<(usize, usize)>)
    ensures
        is_comparable_of(indices@, out@),
{
    let mut pairs = normalized(&indices);
    let ghost unsorted = pairs@;
    sort_pairs(&mut pairs);
    let out = deduplicated(&pairs);
    proof {
        pairs@.to_multiset_ensures();
        unsorted.to_multiset_ensures();
        assert forall|p: (usize, usize)| #[trigger] out@.contains(p) <==> is_canonical_of(indices@, p) by {
            assert(out@.contains(p) <==> pairs@.contains(p));
            assert(pairs@.contains(p) <==> pairs@.to_multiset().count(p) > 0);
            assert(unsorted.contains(p) <==> unsorted.to_multiset().count(p) > 0);
            assert(unsorted.contains(p) <==> is_canonical_of(indices@, p));
        }
    }
    out
}

} // verus!
