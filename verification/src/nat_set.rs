//! A mark-set over the values of a [`Nat`] type.

use crate::types::Nat;
use vstd::prelude::*;

verus! {

/// A set of keys of type `T`, one flag per key.  The view is the set of the
/// indices of the marked keys.
pub struct NatSet<const SIZE: usize, T: Nat> {
    marked: [bool; SIZE],
    _phantom: core::marker::PhantomData<T>,
}

impl<const SIZE: usize, T: Nat> View for NatSet<SIZE, T> {
    type V = Set<int>;

    closed spec fn view(&self) -> Set<int> {
        Set::new(|i: int| 0 <= i < SIZE && self.marked@[i])
    }
}

impl<const SIZE: usize, T: Nat> NatSet<SIZE, T> {
    /// Only indices below `SIZE` can be marked.
    pub proof fn lemma_range(&self, i: int)
        requires
            self@.contains(i),
        ensures
            0 <= i < SIZE,
    {
    }

    /// The empty set.
    pub fn new() -> (r: Self)
        ensures
            r@ == Set::<int>::empty(),
    {
        let r = NatSet { marked: [false;SIZE], _phantom: core::marker::PhantomData };
        assert(r@ =~= Set::<int>::empty());
        r
    }

    /// Unmarks every key.
    pub fn clear(&mut self)
        ensures
            final(self)@ == Set::<int>::empty(),
    {
        self.marked = [false;SIZE];
        assert(self@ =~= Set::<int>::empty());
    }

    /// Marks `item`.
    pub fn mark(&mut self, item: T)
        requires
            T::count() <= SIZE,
        ensures
            final(self)@ == old(self)@.insert(item.raw_spec() as int),
    {
        let index: usize = item.raw();
        self.marked[index] = true;
        assert(self@ =~= old(self)@.insert(item.raw_spec() as int));
    }

    /// Whether `item` is marked.
    pub fn is_marked(&self, item: T) -> (r: bool)
        requires
            T::count() <= SIZE,
        ensures
            r == self@.contains(item.raw_spec() as int),
    {
        let index: usize = item.raw();
        self.marked[index]
    }
}

} // verus!
