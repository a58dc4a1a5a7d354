use vstd::prelude::*;
use arrayvec::ArrayVec;

verus! {

/// The coordinates, at most eight, that one expansion may reach from a
/// cell, in the order in which they were found.
#[verifier::external_body]
pub struct Targets {
    items: ArrayVec<[(usize, usize); 8]>,
}

/// What a `Targets` holds, first found first.
pub uninterp spec fn targets_of(t: Targets) -> Seq<(usize, usize)>;

impl Targets {
    /// Relies on `arrayvec::ArrayVec::new`: the vector starts empty.
    #[verifier::external_body]
    pub(crate) fn new() -> (r: Targets)
        ensures
            targets_of(r) == Seq::<(usize, usize)>::empty(),
    {
        Targets { items: ArrayVec::new() }
    }

    /// Relies on `arrayvec::ArrayVec::push`: appends at the end, and panics
    /// only when the eight slots are taken.
    #[verifier::external_body]
    pub(crate) fn push(&mut self, x: usize, y: usize)
        requires
            targets_of(*old(self)).len() < 8,
        ensures
            targets_of(*final(self)) == targets_of(*old(self)).push((x, y)),
    {
        self.items.push((x, y))
    }

    /// Relies on `arrayvec::ArrayVec::len`: the number of elements held.
    #[verifier::external_body]
    pub(crate) fn len(&self) -> (r: usize)
        ensures
            r == targets_of(*self).len(),
    {
        self.items.len()
    }

    /// Relies on indexing an `arrayvec::ArrayVec` through its slice, which
    /// holds the elements in push order.
    #[verifier::external_body]
    pub(crate) fn get(&self, i: usize) -> (r: (usize, usize))
        requires
            i < targets_of(*self).len(),
        ensures
            r == targets_of(*self)[i as int],
    {
        self.items[i]
    }
}

} // verus!
