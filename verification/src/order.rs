//! The order of index pairs: by the first index, then by the second.

use vstd::prelude::*;

verus! {

/// `a` stands before `b`: its first index is lower, or the first indices are
/// equal and its second index is lower.
pub open spec fn lex_lt(a: (usize, usize), b: (usize, usize)) -> bool {
    a.0 < b.0 || (a.0 == b.0 && a.1 < b.1)
}

/// `a` stands before `b` or equals it.
pub open spec fn lex_le(a: (usize, usize), b: (usize, usize)) -> bool {
    lex_lt(a, b) || a == b
}

/// The pairs come in ascending order; equal pairs may follow one another.
pub open spec fn ascending(s: Seq<(usize, usize)>) -> bool {
    forall|i: int, j: int| 0 <= i <= j < s.len() ==> lex_le(s[i], s[j])
}

/// The pairs come in ascending order and no pair occurs twice.
pub open spec fn strictly_ascending(s: Seq<(usize, usize)>) -> bool {
    forall|i: int, j: int| 0 <= i < j < s.len() ==> lex_lt(s[i], s[j])
}

/// Two lists in strictly ascending order that contain the same pairs are the
/// same list.
pub proof fn lemma_strictly_ascending_unique(s: Seq<(usize, usize)>, t: Seq<(usize, usize)>)
    requires
        strictly_ascending(s),
        strictly_ascending(t),
        forall|p: (usize, usize)| s.contains(p) <==> t.contains(p),
    ensures
        s == t,
    decreases s.len(),
{
    if s.len() == 0 {
        if t.len() > 0 {
            assert(t.contains(t[0]));
        }
        assert(s =~= t);
    } else {
        assert(s.contains(s[0]));
        assert(t.contains(s[0]));
        let j = choose|j: int| 0 <= j < t.len() && t[j] == s[0];
        assert(t.contains(t[0]));
        assert(s.contains(t[0]));
        let i = choose|i: int| 0 <= i < s.len() && s[i] == t[0];
        assert(s[0] == t[0]) by {
            if i > 0 && j > 0 {
                assert(lex_lt(s[0], s[i]));
                assert(lex_lt(t[0], t[j]));
            }
        }
        let s1 = s.drop_first();
        let t1 = t.drop_first();
        assert forall|p: (usize, usize)| s1.contains(p) <==> t1.contains(p) by {
            if s1.contains(p) {
                let k = choose|k: int| 0 <= k < s1.len() && s1[k] == p;
                assert(s[k + 1] == p);
                assert(lex_lt(s[0], s[k + 1]));
                assert(s.contains(p));
                let m = choose|m: int| 0 <= m < t.len() && t[m] == p;
                assert(t1[m - 1] == p);
            }
            if t1.contains(p) {
                let k = choose|k: int| 0 <= k < t1.len() && t1[k] == p;
                assert(t[k + 1] == p);
                assert(lex_lt(t[0], t[k + 1]));
                assert(t.contains(p));
                let m = choose|m: int| 0 <= m < s.len() && s[m] == p;
                assert(s1[m - 1] == p);
            }
        }
        assert forall|a: int, b: int| 0 <= a < b < s1.len() implies lex_lt(s1[a], s1[b]) by {
            assert(lex_lt(s[a + 1], s[b + 1]));
        }
        assert forall|a: int, b: int| 0 <= a < b < t1.len() implies lex_lt(t1[a], t1[b]) by {
            assert(lex_lt(t[a + 1], t[b + 1]));
        }
        lemma_strictly_ascending_unique(s1, t1);
        assert(s =~= seq![s[0]] + s1);
        assert(t =~= seq![t[0]] + t1);
    }
}

} // verus!
