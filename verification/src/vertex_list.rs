//! A bounded list of vertex ids, stored inline in an `arrayvec::ArrayVec`.

use arrayvec::ArrayVec;
use vstd::prelude::*;

verus! {

/// Capacity of the list: the number of points of the largest board.
pub const LIST_CAPACITY: usize = 361;

#[verifier::external_type_specification]
#[verifier::external_body]
#[verifier::reject_recursive_types(T)]
pub struct ExArrayVec<T, const CAP: usize>(ArrayVec<T, CAP>);

/// The ids that the list holds, in the order in which they were pushed.
pub uninterp spec fn listed(list: ArrayVec<u32, 361>) -> Seq<u32>;

/// `ArrayVec::new`: a list without elements.
#[verifier::external_body]
pub(crate) fn list_new() -> (r: ArrayVec<u32, 361>)
    ensures
        listed(r) == Seq::<u32>::empty(),
{
    ArrayVec::new()
}

/// `ArrayVec::clear`: removes every element.
#[verifier::external_body]
pub(crate) fn list_clear(list: &mut ArrayVec<u32, 361>)
    ensures
        listed(*final(list)) == Seq::<u32>::empty(),
{
    list.clear()
}

/// `ArrayVec::push`: appends `id` at the end.  It panics on a full list,
/// which the precondition rules out.
#[verifier::external_body]
pub(crate) fn list_push(list: &mut ArrayVec<u32, 361>, id: u32)
    requires
        listed(*old(list)).len() < 361,
    ensures
        listed(*final(list)) == listed(*old(list)).push(id),
{
    list.push(id)
}

/// `ArrayVec::len`: the number of elements.
#[verifier::external_body]
pub(crate) fn list_len(list: &ArrayVec<u32, 361>) -> (r: usize)
    ensures
        r == listed(*list).len(),
{
    list.len()
}

/// Indexing through the slice that an `ArrayVec` dereferences to: the element
/// at `index`.  It panics past the end, which the precondition rules out.
#[verifier::external_body]
pub(crate) fn list_get(list: &ArrayVec<u32, 361>, index: usize) -> (r: u32)
    requires
        index < listed(*list).len(),
    ensures
        r == listed(*list)[index as int],
{
    list[index]
}

/// `ArrayVec::clone`: a list with the same elements in the same order.
#[verifier::external_body]
pub(crate) fn list_clone(list: &ArrayVec<u32, 361>) -> (r: ArrayVec<u32, 361>)
    ensures
        listed(r) == listed(*list),
{
    list.clone()
}

} // verus!
