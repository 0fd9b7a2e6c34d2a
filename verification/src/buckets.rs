//! Index buckets: short lists of rectangle indices, kept in a `SmallVec` so that
//! the common small bucket never touches the heap.

use vstd::prelude::*;

verus! {

/// A growable list of rectangle indices with room for four of them inline.
///
/// The list itself is a `smallvec::SmallVec<[usize; 4]>`, which the verifier
/// does not look into: what it holds is named by [`bucket_items`], and the
/// three operations below are believed to act on it as their contracts say.
#[verifier::external_body]
pub struct Bucket {
    items: smallvec::SmallVec<[usize; 4]>,
}

/// The indices that a bucket holds, in the order in which they were pushed.
pub uninterp spec fn bucket_items(b: Bucket) -> Seq<usize>;

impl View for Bucket {
    type V = Seq<usize>;

    open spec fn view(&self) -> Seq<usize> {
        bucket_items(*self)
    }
}

impl Bucket {
    /// `SmallVec::new`: a fresh bucket holds nothing.
    #[verifier::external_body]
    pub(crate) fn new() -> (b: Bucket)
        ensures
            bucket_items(b) == Seq::<usize>::empty(),
    {
        Bucket { items: smallvec::SmallVec::new() }
    }

    /// `SmallVec::push`: the index is appended behind those already held. The
    /// length stays below `usize::MAX`, where the vector's capacity computation
    /// would overflow.
    #[verifier::external_body]
    pub(crate) fn push(&mut self, idx: usize)
        requires
            bucket_items(*old(self)).len() < usize::MAX,
        ensures
            bucket_items(*final(self)) == bucket_items(*old(self)).push(idx),
    {
        self.items.push(idx)
    }

    /// `SmallVec::as_slice`: the slice shows exactly the indices held, in order.
    #[verifier::external_body]
    pub(crate) fn as_slice(&self) -> (s: &[usize])
        ensures
            s@ == bucket_items(*self),
    {
        self.items.as_slice()
    }
}

} // verus!
