//! Lists of rectangle indices that carry the coordinate by which they are
//! ordered, and the sort that orders them.

use vstd::prelude::*;

verus! {

/// The keys of the list come in ascending order.
pub open spec fn sorted_by_key(list: Seq<(i32, usize)>) -> bool {
    forall|i: int, j: int| 0 <= i <= j < list.len() ==> list[i].0 <= list[j].0
}

/// The entries of the list that carry the given key, in the list's order.
pub open spec fn with_key(list: Seq<(i32, usize)>, key: i32) -> Seq<(i32, usize)> {
    list.filter(|e: (i32, usize)| e.0 == key)
}

/// `list` is `base` sorted by key: it holds the entries of `base`, each as
/// often as `base` does, in ascending order of keys, and entries of equal key
/// stand in the order in which they stand in `base`.
pub open spec fn stably_sorted(base: Seq<(i32, usize)>, list: Seq<(i32, usize)>) -> bool {
    &&& sorted_by_key(list)
    &&& list.to_multiset() == base.to_multiset()
    &&& forall|key: i32| with_key(list, key) == with_key(base, key)
}

/// `<[T]>::sort_by_key`, with the first component as the key: the list is
/// rearranged into ascending order of keys, and entries of equal key keep the
/// order in which they stood.
#[verifier::external_body]
pub(crate) fn sort_by_key(list: &mut Vec<(i32, usize)>)
    ensures
        stably_sorted(old(list)@, final(list)@),
{
    list.sort_by_key(|e| e.0);
}

/// Two lists with the same entries, counted with multiplicity, contain the
/// same entries.
pub proof fn lemma_same_entries(a: Seq<(i32, usize)>, b: Seq<(i32, usize)>)
    requires
        a.to_multiset() == b.to_multiset(),
    ensures
        a.len() == b.len(),
        forall|e: (i32, usize)| a.contains(e) <==> b.contains(e),
{
    a.to_multiset_ensures();
    b.to_multiset_ensures();
    assert forall|e: (i32, usize)| a.contains(e) <==> b.contains(e) by {
        assert(a.contains(e) <==> a.to_multiset().count(e) > 0);
        assert(b.contains(e) <==> b.to_multiset().count(e) > 0);
    }
}

/// The entries of a key in a list are those in the list without its last
/// entry, and that entry behind them where it carries the key.
pub proof fn lemma_with_key_last(list: Seq<(i32, usize)>, key: i32)
    requires
        list.len() > 0,
    ensures
        list.last().0 == key ==> with_key(list, key) == with_key(list.drop_last(), key).push(
            list.last(),
        ),
        list.last().0 != key ==> with_key(list, key) == with_key(list.drop_last(), key),
{
    reveal(Seq::filter);
}

/// Where a key has entries in a list, one of the list's entries carries it.
pub proof fn lemma_with_key_member(list: Seq<(i32, usize)>, key: i32)
    requires
        with_key(list, key).len() > 0,
    ensures
        exists|i: int| 0 <= i < list.len() && (#[trigger] list[i]).0 == key,
    decreases list.len(),
{
    reveal(Seq::filter);
    if list.len() > 0 {
        lemma_with_key_last(list, key);
        if list.last().0 == key {
            assert(list[list.len() - 1].0 == key);
        } else {
            lemma_with_key_member(list.drop_last(), key);
            let i = choose|i: int| 0 <= i < list.drop_last().len() && (#[trigger] list.drop_last()[i]).0 == key;
            assert(list[i].0 == key);
        }
    }
}

/// Two lists of one length in ascending order of keys, in which every key has
/// the same entries in the same order, are the same list.
pub proof fn lemma_sorted_unique(s: Seq<(i32, usize)>, t: Seq<(i32, usize)>)
    requires
        sorted_by_key(s),
        sorted_by_key(t),
        s.len() == t.len(),
        forall|key: i32| with_key(s, key) == with_key(t, key),
    ensures
        s == t,
    decreases s.len(),
{
    if s.len() == 0 {
        assert(s =~= t);
    } else {
        let ks = s.last().0;
        let kt = t.last().0;
        lemma_with_key_last(s, ks);
        lemma_with_key_last(t, kt);
        assert(with_key(s, kt) == with_key(t, kt));
        assert(with_key(s, ks) == with_key(t, ks));
        lemma_with_key_member(s, kt);
        lemma_with_key_member(t, ks);
        let i = choose|i: int| 0 <= i < s.len() && (#[trigger] s[i]).0 == kt;
        let j = choose|j: int| 0 <= j < t.len() && (#[trigger] t[j]).0 == ks;
        assert(s[i].0 <= s[s.len() - 1].0);
        assert(t[j].0 <= t[t.len() - 1].0);
        assert(ks == kt);
        let s1 = s.drop_last();
        let t1 = t.drop_last();
        let fs = with_key(s1, ks);
        let ft = with_key(t1, ks);
        assert(fs.push(s.last()) == ft.push(t.last()));
        assert(s.last() == t.last()) by {
            assert(fs.push(s.last()).last() == s.last());
            assert(ft.push(t.last()).last() == t.last());
        }
        assert(fs == ft) by {
            assert(fs.push(s.last()).drop_last() =~= fs);
            assert(ft.push(t.last()).drop_last() =~= ft);
        }
        assert forall|key: i32| with_key(s1, key) == with_key(t1, key) by {
            if key != ks {
                lemma_with_key_last(s, key);
                lemma_with_key_last(t, key);
                assert(with_key(s, key) == with_key(t, key));
            }
        }
        assert forall|a: int, b: int| 0 <= a <= b < s1.len() implies s1[a].0 <= s1[b].0 by {
            assert(s[a].0 <= s[b].0);
        }
        assert forall|a: int, b: int| 0 <= a <= b < t1.len() implies t1[a].0 <= t1[b].0 by {
            assert(t[a].0 <= t[b].0);
        }
        lemma_sorted_unique(s1, t1);
        assert(s =~= s1.push(s.last()));
        assert(t =~= t1.push(t.last()));
    }
}

/// The sorted form of a list: the list that holds its entries in ascending
/// order of keys, entries of equal key in the order in which they stand.
pub open spec fn sorted_form(base: Seq<(i32, usize)>) -> Seq<(i32, usize)> {
    choose|list: Seq<(i32, usize)>| stably_sorted(base, list)
}

/// A list has one sorted form only: whatever is the list sorted by key is its
/// sorted form.
pub proof fn lemma_sorted_form(base: Seq<(i32, usize)>, list: Seq<(i32, usize)>)
    requires
        stably_sorted(base, list),
    ensures
        list == sorted_form(base),
{
    let other = sorted_form(base);
    assert(stably_sorted(base, other));
    list.to_multiset_ensures();
    other.to_multiset_ensures();
    lemma_sorted_unique(list, other);
}

} // verus!
