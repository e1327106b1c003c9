//! `smallvec::SmallVec` as the list type of pending invalidations, with the
//! contracts that its methods keep.

use crate::invalidator::Invalidation;
use smallvec::SmallVec;
use vstd::prelude::*;

verus! {

/// A list of invalidations, stored inline while it is short. Verus sees
/// only its contents, `invalidation_items`.
#[verifier::external_body]
pub struct InvalidationVector {
    inner: SmallVec<[Invalidation; 10]>,
}

/// The invalidations that a list holds, in order.
pub uninterp spec fn invalidation_items(v: InvalidationVector) -> Seq<Invalidation>;

impl InvalidationVector {
    /// An empty list.
    pub fn new() -> (r: Self)
        ensures
            invalidation_items(r) == Seq::<Invalidation>::empty(),
    {
        iv_new()
    }

    /// The number of invalidations in the list.
    pub fn len(&self) -> (r: usize)
        ensures
            r == invalidation_items(*self).len(),
    {
        iv_len(self)
    }

    /// Appends `x` at the end.
    pub fn push(&mut self, x: Invalidation)
        ensures
            invalidation_items(*final(self)) == invalidation_items(*old(self)).push(x),
    {
        iv_push(self, x)
    }

    /// The invalidation at `i`.
    pub fn get(&self, i: usize) -> (r: Invalidation)
        requires
            i < invalidation_items(*self).len(),
        ensures
            r == invalidation_items(*self)[i as int],
    {
        iv_get(self, i)
    }
}

/// Relies on `SmallVec::new`: the new vector is empty.
#[verifier::external_body]
pub(crate) fn iv_new() -> (r: InvalidationVector)
    ensures
        invalidation_items(r) == Seq::<Invalidation>::empty(),
{
    InvalidationVector { inner: SmallVec::new() }
}

/// Relies on `SmallVec::len`: the number of items.
#[verifier::external_body]
pub(crate) fn iv_len(v: &InvalidationVector) -> (r: usize)
    ensures
        r == invalidation_items(*v).len(),
{
    v.inner.len()
}

/// Relies on `SmallVec::push`: appends one item at the end. (It panics only
/// when the capacity would pass `isize::MAX` bytes, as `Vec::push` does.)
#[verifier::external_body]
pub(crate) fn iv_push(v: &mut InvalidationVector, x: Invalidation)
    ensures
        invalidation_items(*final(v)) == invalidation_items(*old(v)).push(x),
{
    v.inner.push(x)
}

/// Relies on indexing a `SmallVec` (through its slice): the item at `i`.
#[verifier::external_body]
pub(crate) fn iv_get(v: &InvalidationVector, i: usize) -> (r: Invalidation)
    requires
        i < invalidation_items(*v).len(),
    ensures
        r == invalidation_items(*v)[i as int],
{
    v.inner[i]
}

/// Relies on `SmallVec::remove`: takes out the item at `i`, shifting the
/// later ones left.
#[verifier::external_body]
pub(crate) fn iv_remove(v: &mut InvalidationVector, i: usize) -> (r: Invalidation)
    requires
        i < invalidation_items(*old(v)).len(),
    ensures
        r == invalidation_items(*old(v))[i as int],
        invalidation_items(*final(v)) == invalidation_items(*old(v)).remove(i as int),
{
    v.inner.remove(i)
}

/// Relies on `SmallVec::insert`: puts `x` at `i`, shifting the later items
/// right.
#[verifier::external_body]
pub(crate) fn iv_insert(v: &mut InvalidationVector, i: usize, x: Invalidation)
    requires
        i <= invalidation_items(*old(v)).len(),
    ensures
        invalidation_items(*final(v)) == invalidation_items(*old(v)).insert(i as int, x),
{
    v.inner.insert(i, x)
}

} // verus!
