//! The merge scan that joins two y-sorted index lists.

use crate::rect::{all_valid, Rect};
use crate::report::{emit, emitted, extends, lemma_concat_assoc, lemma_linked_extends, linked_from};
use vstd::prelude::*;

verus! {

/// Every index of the list names a rectangle of the collection.
pub open spec fn indices_in_range(rects: Seq<Rect>, list: Seq<usize>) -> bool {
    forall|i: int| 0 <= i < list.len() ==> #[trigger] list[i] < rects.len()
}

/// The rectangles that the list names come in ascending order of `y1`.
pub open spec fn sorted_by_y1(rects: Seq<Rect>, list: Seq<usize>) -> bool {
    forall|i: int, j: int|
        0 <= i <= j < list.len() ==> rects[#[trigger] list[i] as int].y1 <= rects[#[trigger] list[j] as int].y1
}

/// The reports of one run: `pivot` with the rectangles of `list` from
/// position `k` on, as far as they start at or below the upper edge of
/// `pivot`. Each report has `pivot` first.
pub open spec fn run_reports(rects: Seq<Rect>, pivot: usize, list: Seq<usize>, k: int) -> Seq<
    (usize, usize),
>
    decreases list.len() - k,
{
    if 0 <= k < list.len() && rects[list[k] as int].y1 <= rects[pivot as int].y2 {
        emitted(pivot, list[k]) + run_reports(rects, pivot, list, k + 1)
    } else {
        Seq::empty()
    }
}

/// The reports of a scan that has its cursors at `i` in `a` and at `j` in `b`.
/// While both lists last, the rectangle that starts lower in y, that of `b`
/// on a tie, has its run against the other list from that list's cursor on,
/// and then its own cursor moves on.
pub open spec fn stab_from(rects: Seq<Rect>, a: Seq<usize>, b: Seq<usize>, i: int, j: int) -> Seq<
    (usize, usize),
>
    decreases a.len() - i + b.len() - j,
{
    if 0 <= i < a.len() && 0 <= j < b.len() {
        if rects[a[i] as int].y1 < rects[b[j] as int].y1 {
            run_reports(rects, a[i], b, j) + stab_from(rects, a, b, i + 1, j)
        } else {
            run_reports(rects, b[j], a, i) + stab_from(rects, a, b, i, j + 1)
        }
    } else {
        Seq::empty()
    }
}

/// The reports of a scan of `a` against `b`, in the order in which the scan
/// makes them.
pub open spec fn stab_reports(rects: Seq<Rect>, a: Seq<usize>, b: Seq<usize>) -> Seq<(usize, usize)> {
    stab_from(rects, a, b, 0, 0)
}

/// Two different rectangles whose y-intervals overlap.
pub open spec fn overlapping(rects: Seq<Rect>, x: usize, y: usize) -> bool {
    x != y && rects[x as int].y_overlaps(rects[y as int])
}

/// The number of positions of `list` from `k` on whose rectangle differs from
/// `pivot` and overlaps it in y.
pub open spec fn count_from(rects: Seq<Rect>, pivot: usize, list: Seq<usize>, k: int) -> nat
    decreases list.len() - k,
{
    if 0 <= k < list.len() {
        (if overlapping(rects, pivot, list[k]) {
            1nat
        } else {
            0nat
        }) + count_from(rects, pivot, list, k + 1)
    } else {
        0
    }
}

/// The number of pairs of a position of `a` from `i` on and a position of `b`
/// from `j` on whose rectangles differ and overlap in y.
pub open spec fn pairs_from(rects: Seq<Rect>, a: Seq<usize>, b: Seq<usize>, i: int, j: int) -> nat
    decreases a.len() - i,
{
    if 0 <= i < a.len() {
        count_from(rects, a[i], b, j) + pairs_from(rects, a, b, i + 1, j)
    } else {
        0
    }
}

/// The number of pairs of a position of `a` and a position of `b` whose
/// rectangles differ and overlap in y.
pub open spec fn overlap_count(rects: Seq<Rect>, a: Seq<usize>, b: Seq<usize>) -> nat {
    pairs_from(rects, a, b, 0, 0)
}

/// What a scan of `a` against `b` may report: two different rectangles, one
/// from each list, whose y-intervals overlap; first the one that starts lower
/// in y, and on a tie the one from `b`.
pub open spec fn stab_pair(rects: Seq<Rect>, a: Seq<usize>, b: Seq<usize>, p: (usize, usize)) -> bool {
    &&& p.0 != p.1
    &&& p.0 < rects.len()
    &&& p.1 < rects.len()
    &&& rects[p.0 as int].y_overlaps(rects[p.1 as int])
    &&& (a.contains(p.0) && b.contains(p.1) && rects[p.0 as int].y1 < rects[p.1 as int].y1) || (
    b.contains(p.0) && a.contains(p.1) && rects[p.0 as int].y1 <= rects[p.1 as int].y1)
}

/// What one scan of `a` against `b` adds to the list of reports: `after`
/// continues `before` by pairs that such a scan may report, and every pair of
/// a rectangle from `a` and a different one from `b` whose y-intervals overlap
/// is among them, in one orientation or the other.
pub open spec fn scanned(
    rects: Seq<Rect>,
    a: Seq<usize>,
    b: Seq<usize>,
    before: Seq<(usize, usize)>,
    after: Seq<(usize, usize)>,
) -> bool {
    &&& extends(before, after)
    &&& forall|k: int| before.len() <= k < after.len() ==> stab_pair(rects, a, b, #[trigger] after[k])
    &&& forall|i: int, j: int|
        0 <= i < a.len() && 0 <= j < b.len() && a[i] != b[j] && rects[a[i] as int].y_overlaps(
            rects[b[j] as int],
        ) ==> linked_from(after, before.len() as int, #[trigger] a[i], #[trigger] b[j])
}

/// Reports every pair of one rectangle from `a` and a different one from `b`
/// whose y-intervals overlap, and nothing else. Both lists are sorted by `y1`.
///
/// The scan walks both lists as a merge does. The list whose current
/// rectangle starts lower in y (`b` on a tie) has that rectangle compared
/// with the other list from its cursor on, as far as rectangles there start
/// at or below its upper edge; then its cursor moves on. Every report has the
/// rectangle first that was compared with the other list.
pub fn stab(rects: &[Rect], a: &[usize], b: &[usize], out: &mut Vec<(usize, usize)>)
    requires
        all_valid(rects@),
        indices_in_range(rects@, a@),
        indices_in_range(rects@, b@),
        sorted_by_y1(rects@, a@),
        sorted_by_y1(rects@, b@),
    ensures
        final(out)@ == old(out)@ + stab_reports(rects@, a@, b@),
        final(out)@.len() == old(out)@.len() + overlap_count(rects@, a@, b@),
        scanned(rects@, a@, b@, old(out)@, final(out)@),
{
    let ghost start = out@;
    let ghost from = out@.len() as int;
    let ghost goal = out@ + stab_reports(rects@, a@, b@);
    let mut i: usize = 0;
    let mut j: usize = 0;
    while i < a.len() && j < b.len()
        invariant
            all_valid(rects@),
            indices_in_range(rects@, a@),
            indices_in_range(rects@, b@),
            sorted_by_y1(rects@, a@),
            sorted_by_y1(rects@, b@),
            from == start.len(),
            i <= a.len(),
            j <= b.len(),
            goal == out@ + stab_from(rects@, a@, b@, i as int, j as int),
            extends(start, out@),
            forall|k: int| from <= k < out@.len() ==> stab_pair(rects@, a@, b@, #[trigger] out@[k]),
            forall|ii: int, jj: int|
                0 <= ii < a@.len() && 0 <= jj < b@.len() && (ii < i || jj < j) && a@[ii] != b@[jj]
                    && rects@[a@[ii] as int].y_overlaps(rects@[b@[jj] as int]) ==> linked_from(
                    out@,
                    from,
                    #[trigger] a@[ii],
                    #[trigger] b@[jj],
                ),
        decreases a.len() - i + b.len() - j,
    {
        let ai = a[i];
        let bj = b[j];
        if rects[ai].y1 < rects[bj].y1 {
            let ghost rest = stab_from(rects@, a@, b@, i + 1, j as int);
            proof {
                lemma_concat_assoc(out@, run_reports(rects@, ai, b@, j as int), rest);
            }
            let mut k: usize = j;
            while k < b.len() && rects[b[k]].y1 <= rects[ai].y2
                invariant
                    all_valid(rects@),
                    indices_in_range(rects@, a@),
                    indices_in_range(rects@, b@),
                    sorted_by_y1(rects@, b@),
                    from == start.len(),
                    i < a.len(),
                    j <= k <= b.len(),
                    j < b.len(),
                    ai == a@[i as int],
                    bj == b@[j as int],
                    rects@[ai as int].y1 < rects@[bj as int].y1,
                    goal == out@ + run_reports(rects@, ai, b@, k as int) + rest,
                    extends(start, out@),
                    forall|t: int|
                        from <= t < out@.len() ==> stab_pair(rects@, a@, b@, #[trigger] out@[t]),
                    forall|ii: int, jj: int|
                        0 <= ii < a@.len() && 0 <= jj < b@.len() && (ii < i || jj < j) && a@[ii]
                            != b@[jj] && rects@[a@[ii] as int].y_overlaps(rects@[b@[jj] as int])
                            ==> linked_from(out@, from, #[trigger] a@[ii], #[trigger] b@[jj]),
                    forall|jj: int|
                        j <= jj < k && ai != b@[jj] ==> linked_from(out@, from, ai, #[trigger] b@[jj]),
                decreases b.len() - k,
            {
                let bk = b[k];
                let ghost before = out@;
                emit(out, ai, bk);
                proof {
                    lemma_concat_assoc(before, emitted(ai, bk), run_reports(rects@, ai, b@, k + 1));
                    assert(a@.contains(ai));
                    assert(b@.contains(bk));
                    assert(rects@[bj as int].y1 <= rects@[bk as int].y1);
                    lemma_scan_step(rects@, a@, b@, start, before, out@, ai, bk);
                    assert forall|ii: int, jj: int|
                        0 <= ii < a@.len() && 0 <= jj < b@.len() && (ii < i || jj < j) && a@[ii]
                            != b@[jj] && rects@[a@[ii] as int].y_overlaps(
                            rects@[b@[jj] as int],
                        ) implies linked_from(out@, from, #[trigger] a@[ii], #[trigger] b@[jj]) by {
                        lemma_linked_extends(before, out@, from, from, a@[ii], b@[jj]);
                    }
                    assert forall|jj: int| j <= jj < k + 1 && ai != b@[jj] implies linked_from(
                        out@,
                        from,
                        ai,
                        #[trigger] b@[jj],
                    ) by {
                        if jj < k {
                            lemma_linked_extends(before, out@, from, from, ai, b@[jj]);
                        } else {
                            assert(out@[out@.len() - 1] == (ai, bk));
                        }
                    }
                }
                k += 1;
            }
            proof {
                assert(run_reports(rects@, ai, b@, k as int) =~= Seq::empty());
                assert(out@ + run_reports(rects@, ai, b@, k as int) =~= out@);
            }
            i += 1;
        } else {
            let ghost rest = stab_from(rects@, a@, b@, i as int, j + 1);
            proof {
                lemma_concat_assoc(out@, run_reports(rects@, bj, a@, i as int), rest);
            }
            let mut k: usize = i;
            while k < a.len() && rects[a[k]].y1 <= rects[bj].y2
                invariant
                    all_valid(rects@),
                    indices_in_range(rects@, a@),
                    indices_in_range(rects@, b@),
                    sorted_by_y1(rects@, a@),
                    from == start.len(),
                    j < b.len(),
                    i <= k <= a.len(),
                    i < a.len(),
                    ai == a@[i as int],
                    bj == b@[j as int],
                    rects@[bj as int].y1 <= rects@[ai as int].y1,
                    goal == out@ + run_reports(rects@, bj, a@, k as int) + rest,
                    extends(start, out@),
                    forall|t: int|
                        from <= t < out@.len() ==> stab_pair(rects@, a@, b@, #[trigger] out@[t]),
                    forall|ii: int, jj: int|
                        0 <= ii < a@.len() && 0 <= jj < b@.len() && (ii < i || jj < j) && a@[ii]
                            != b@[jj] && rects@[a@[ii] as int].y_overlaps(rects@[b@[jj] as int])
                            ==> linked_from(out@, from, #[trigger] a@[ii], #[trigger] b@[jj]),
                    forall|ii: int|
                        i <= ii < k && a@[ii] != bj ==> linked_from(out@, from, #[trigger] a@[ii], bj),
                decreases a.len() - k,
            {
                let ak = a[k];
                let ghost before = out@;
                emit(out, bj, ak);
                proof {
                    lemma_concat_assoc(before, emitted(bj, ak), run_reports(rects@, bj, a@, k + 1));
                    assert(a@.contains(ak));
                    assert(b@.contains(bj));
                    assert(rects@[ai as int].y1 <= rects@[ak as int].y1);
                    lemma_scan_step(rects@, a@, b@, start, before, out@, bj, ak);
                    assert forall|ii: int, jj: int|
                        0 <= ii < a@.len() && 0 <= jj < b@.len() && (ii < i || jj < j) && a@[ii]
                            != b@[jj] && rects@[a@[ii] as int].y_overlaps(
                            rects@[b@[jj] as int],
                        ) implies linked_from(out@, from, #[trigger] a@[ii], #[trigger] b@[jj]) by {
                        lemma_linked_extends(before, out@, from, from, a@[ii], b@[jj]);
                    }
                    assert forall|ii: int| i <= ii < k + 1 && a@[ii] != bj implies linked_from(
                        out@,
                        from,
                        #[trigger] a@[ii],
                        bj,
                    ) by {
                        if ii < k {
                            lemma_linked_extends(before, out@, from, from, a@[ii], bj);
                        } else {
                            assert(out@[out@.len() - 1] == (bj, ak));
                        }
                    }
                }
                k += 1;
            }
            proof {
                assert(run_reports(rects@, bj, a@, k as int) =~= Seq::empty());
                assert(out@ + run_reports(rects@, bj, a@, k as int) =~= out@);
            }
            j += 1;
        }
    }
    assert(out@ + stab_from(rects@, a@, b@, i as int, j as int) =~= out@);
    proof {
        lemma_stab_count(rects@, a@, b@, 0, 0);
    }
}

/// One report of a scan: the list grows by the report of `first` with
/// `second`, and what was appended since `start` stays within what a scan may
/// report.
proof fn lemma_scan_step(
    rects: Seq<Rect>,
    a: Seq<usize>,
    b: Seq<usize>,
    start: Seq<(usize, usize)>,
    before: Seq<(usize, usize)>,
    after: Seq<(usize, usize)>,
    first: usize,
    second: usize,
)
    requires
        extends(start, before),
        forall|t: int| start.len() <= t < before.len() ==> stab_pair(rects, a, b, #[trigger] before[t]),
        first != second ==> stab_pair(rects, a, b, (first, second)),
        after == before + emitted(first, second),
    ensures
        extends(start, after),
        extends(before, after),
        forall|t: int| start.len() <= t < after.len() ==> stab_pair(rects, a, b, #[trigger] after[t]),
        first != second ==> after.len() == before.len() + 1 && after[after.len() - 1] == (first, second),
{
    assert forall|t: int| start.len() <= t < after.len() implies stab_pair(
        rects,
        a,
        b,
        #[trigger] after[t],
    ) by {
        if t < before.len() {
            assert(after[t] == before[t]);
        }
    }
}

/// Where no rectangle of `list` from `k` on starts at or below the upper edge
/// of `pivot`, none of them overlaps it.
proof fn lemma_count_none(rects: Seq<Rect>, pivot: usize, list: Seq<usize>, k: int)
    requires
        0 <= k,
        forall|t: int| k <= t < list.len() ==> rects[#[trigger] list[t] as int].y1 > rects[pivot as int].y2,
    ensures
        count_from(rects, pivot, list, k) == 0,
    decreases list.len() - k,
{
    if k < list.len() {
        assert(rects[list[k] as int].y1 > rects[pivot as int].y2);
        lemma_count_none(rects, pivot, list, k + 1);
    }
}

/// A run reports once for every rectangle that overlaps the pivot: where the
/// pivot starts no higher than the rectangles of the list from `k` on, the
/// run from `k` has as many reports as there are positions from `k` on whose
/// rectangle differs from the pivot and overlaps it in y.
proof fn lemma_run_count(rects: Seq<Rect>, pivot: usize, list: Seq<usize>, k: int)
    requires
        all_valid(rects),
        pivot < rects.len(),
        indices_in_range(rects, list),
        sorted_by_y1(rects, list),
        0 <= k,
        forall|t: int| k <= t < list.len() ==> rects[pivot as int].y1 <= rects[#[trigger] list[t] as int].y1,
    ensures
        run_reports(rects, pivot, list, k).len() == count_from(rects, pivot, list, k),
    decreases list.len() - k,
{
    if k < list.len() {
        assert(rects[pivot as int].y1 <= rects[list[k] as int].y1);
        assert(rects[list[k] as int].valid());
        if rects[list[k] as int].y1 <= rects[pivot as int].y2 {
            lemma_run_count(rects, pivot, list, k + 1);
        } else {
            assert forall|t: int| k <= t < list.len() implies rects[#[trigger] list[t] as int].y1
                > rects[pivot as int].y2 by {
                assert(rects[list[k] as int].y1 <= rects[list[t] as int].y1);
            }
            lemma_count_none(rects, pivot, list, k);
        }
    }
}

/// Counting the pairs by rows or by the first column and the rest gives the
/// same number.
proof fn lemma_pairs_by_column(rects: Seq<Rect>, a: Seq<usize>, b: Seq<usize>, i: int, j: int)
    requires
        0 <= i,
        0 <= j < b.len(),
    ensures
        pairs_from(rects, a, b, i, j) == count_from(rects, b[j], a, i) + pairs_from(rects, a, b, i, j + 1),
    decreases a.len() - i,
{
    if i < a.len() {
        lemma_pairs_by_column(rects, a, b, i + 1, j);
        assert(overlapping(rects, a[i], b[j]) == overlapping(rects, b[j], a[i]));
    }
}

/// A scan reports once for every overlap: from the cursors `i` and `j` on it
/// makes as many reports as there are pairs of a position of `a` from `i` on
/// and a position of `b` from `j` on whose rectangles differ and overlap in
/// y.
pub proof fn lemma_stab_count(rects: Seq<Rect>, a: Seq<usize>, b: Seq<usize>, i: int, j: int)
    requires
        all_valid(rects),
        indices_in_range(rects, a),
        indices_in_range(rects, b),
        sorted_by_y1(rects, a),
        sorted_by_y1(rects, b),
        0 <= i <= a.len(),
        0 <= j <= b.len(),
    ensures
        stab_from(rects, a, b, i, j).len() == pairs_from(rects, a, b, i, j),
    decreases a.len() - i + b.len() - j,
{
    if i < a.len() && j < b.len() {
        if rects[a[i] as int].y1 < rects[b[j] as int].y1 {
            assert forall|t: int| j <= t < b.len() implies rects[a[i] as int].y1 <= rects[
                #[trigger] b[t] as int].y1 by {
                assert(rects[b[j] as int].y1 <= rects[b[t] as int].y1);
            }
            lemma_run_count(rects, a[i], b, j);
            lemma_stab_count(rects, a, b, i + 1, j);
        } else {
            assert forall|t: int| i <= t < a.len() implies rects[b[j] as int].y1 <= rects[
                #[trigger] a[t] as int].y1 by {
                assert(rects[a[i] as int].y1 <= rects[a[t] as int].y1);
            }
            lemma_run_count(rects, b[j], a, i);
            lemma_stab_count(rects, a, b, i, j + 1);
            lemma_pairs_by_column(rects, a, b, i, j);
        }
    } else if i < a.len() {
        lemma_pairs_at_end(rects, a, b, i, j);
    }
}

/// Behind the end of `b` there are no pairs.
proof fn lemma_pairs_at_end(rects: Seq<Rect>, a: Seq<usize>, b: Seq<usize>, i: int, j: int)
    requires
        0 <= i,
        j >= b.len(),
    ensures
        pairs_from(rects, a, b, i, j) == 0,
    decreases a.len() - i,
{
    if i < a.len() {
        lemma_pairs_at_end(rects, a, b, i + 1, j);
    }
}

} // verus!
