//! The list of reported pairs: what it means for the list to grow, for a pair
//! to be in it, and the sink through which every scan reports.

use vstd::prelude::*;

verus! {

/// `after` continues `before`: it is at least as long and agrees with it on
/// every position that `before` has.
pub open spec fn extends(before: Seq<(usize, usize)>, after: Seq<(usize, usize)>) -> bool {
    &&& before.len() <= after.len()
    &&& forall|k: int| 0 <= k < before.len() ==> #[trigger] after[k] == before[k]
}

/// The pair `{a, b}` stands in `out` at or behind position `from`, in either
/// orientation.
pub open spec fn linked_from(out: Seq<(usize, usize)>, from: int, a: usize, b: usize) -> bool {
    exists|k: int| from <= k < out.len() && (#[trigger] out[k] == (a, b) || out[k] == (b, a))
}

/// The pair `{a, b}` stands somewhere in `out`, in either orientation.
pub open spec fn linked(out: Seq<(usize, usize)>, a: usize, b: usize) -> bool {
    linked_from(out, 0, a, b)
}

/// A list that continues another keeps every pair that the other held, from
/// any earlier starting position on.
pub proof fn lemma_linked_extends(
    before: Seq<(usize, usize)>,
    after: Seq<(usize, usize)>,
    from_before: int,
    from_after: int,
    a: usize,
    b: usize,
)
    requires
        extends(before, after),
        0 <= from_after <= from_before,
        linked_from(before, from_before, a, b),
    ensures
        linked_from(after, from_after, a, b),
{
    let k = choose|k: int|
        from_before <= k < before.len() && (#[trigger] before[k] == (a, b) || before[k] == (b, a));
    assert(after[k] == before[k]);
}

/// Continuing a list is transitive.
pub proof fn lemma_extends_transitive(
    first: Seq<(usize, usize)>,
    second: Seq<(usize, usize)>,
    third: Seq<(usize, usize)>,
)
    requires
        extends(first, second),
        extends(second, third),
    ensures
        extends(first, third),
{
    assert forall|k: int| 0 <= k < first.len() implies #[trigger] third[k] == first[k] by {
        assert(second[k] == first[k]);
    }
}

/// What the sink appends for a report of `a` with `b`: the pair `(a, b)`, or
/// nothing where both name the same rectangle.
pub open spec fn emitted(a: usize, b: usize) -> Seq<(usize, usize)> {
    if a != b {
        seq![(a, b)]
    } else {
        Seq::empty()
    }
}

/// The sink of every scan: appends `(a, b)` to the list, unless both name the
/// same rectangle, which is never reported.
pub fn emit(out: &mut Vec<(usize, usize)>, a: usize, b: usize)
    ensures
        final(out)@ == old(out)@ + emitted(a, b),
{
    if a != b {
        out.push((a, b));
        assert(out@ =~= old(out)@ + emitted(a, b));
    } else {
        assert(out@ =~= old(out)@ + emitted(a, b));
    }
}

/// Appending lists one after another does not depend on the grouping.
pub proof fn lemma_concat_assoc(
    a: Seq<(usize, usize)>,
    b: Seq<(usize, usize)>,
    c: Seq<(usize, usize)>,
)
    ensures
        a + (b + c) == (a + b) + c,
{
    assert(a + (b + c) =~= (a + b) + c);
}

} // verus!
