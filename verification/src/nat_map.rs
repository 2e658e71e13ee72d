//! Array-backed total maps keyed by a [`Nat`] type.

use crate::types::Nat;
use vstd::prelude::*;

verus! {

/// A map from every value of the key type `N` to a `T`, stored as an array of
/// `SIZE` slots.  The view is the sequence of slots in key order.
pub struct NatMap<const SIZE: usize, N: Nat, T> {
    data: [T; SIZE],
    _phantom: core::marker::PhantomData<N>,
}

impl<const SIZE: usize, N: Nat, T> View for NatMap<SIZE, N, T> {
    type V = Seq<T>;

    closed spec fn view(&self) -> Seq<T> {
        self.data@
    }
}

impl<const SIZE: usize, N: Nat, T> NatMap<SIZE, N, T> {
    /// The map has one slot per array element.
    pub broadcast proof fn lemma_len(&self)
        ensures
            #[trigger] self@.len() == SIZE,
    {
    }

    /// The slot of `idx`, by reference.
    pub fn get_ref(&self, idx: N) -> (r: &T)
        requires
            N::count() <= SIZE,
        ensures
            *r == self@[idx.raw_spec() as int],
    {
        &self.data[idx.raw()]
    }
}

impl<const SIZE: usize, N: Nat, T: Copy> NatMap<SIZE, N, T> {
    /// The map that sends every key to `value`.
    pub fn new_with(value: T) -> (r: Self)
        ensures
            r@ == Seq::new(SIZE as nat, |i: int| value),
    {
        let r = NatMap { data: [value;SIZE], _phantom: core::marker::PhantomData };
        assert(r.data@ =~= Seq::new(SIZE as nat, |i: int| value));
        r
    }

    /// The value at `idx`.
    pub fn get(&self, idx: N) -> (r: T)
        requires
            N::count() <= SIZE,
        ensures
            r == self@[idx.raw_spec() as int],
    {
        self.data[idx.raw()]
    }

    /// Replaces the value at `idx`.
    pub fn set(&mut self, idx: N, value: T)
        requires
            N::count() <= SIZE,
        ensures
            final(self)@ == old(self)@.update(idx.raw_spec() as int, value),
    {
        self.data[idx.raw()] = value;
    }
}

impl<const SIZE: usize, N: Nat, T: Copy + Default> NatMap<SIZE, N, T> {
    /// The map that sends every key to one default value of `T`.
    pub fn new() -> (r: Self)
        ensures
            r@.len() == SIZE,
            forall|i: int| 0 <= i < SIZE ==> #[trigger] r@[i] == r@[0],
            SIZE > 0 ==> call_ensures(T::default, (), r@[0]),
    {
        Self::new_with(T::default())
    }
}

impl<const SIZE: usize, N: Nat, T: Copy + Default> Default for NatMap<SIZE, N, T> {
    fn default() -> (r: Self)
        ensures
            r@.len() == SIZE,
            forall|i: int| 0 <= i < SIZE ==> #[trigger] r@[i] == r@[0],
            SIZE > 0 ==> call_ensures(T::default, (), r@[0]),
    {
        Self::new()
    }
}

impl<const SIZE: usize, N: Nat, T: Copy> Clone for NatMap<SIZE, N, T> {
    fn clone(&self) -> (r: Self)
        ensures
            r@ == self@,
    {
        NatMap { data: self.data, _phantom: core::marker::PhantomData }
    }
}

} // verus!
