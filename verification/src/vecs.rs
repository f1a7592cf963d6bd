//! The calls into the vector of the standard library that the library
//! makes about capacity and storage, each with the contract that it relies
//! on. None of them changes what a vector holds.

use vstd::prelude::*;

verus! {

/// Calls `Vec::into_boxed_slice`, which moves the elements of the vector,
/// in their order, into a boxed slice.
#[verifier::external_body]
pub(crate) fn into_boxed_slice<T>(v: Vec<T>) -> (boxed: Box<[T]>)
    ensures
        boxed@ == v@,
{
    v.into_boxed_slice()
}

/// Calls `Vec::capacity`. A vector's capacity is never less than its
/// length; beyond that it depends on the allocator.
#[verifier::external_body]
pub(crate) fn capacity<T>(v: &Vec<T>) -> (capacity: usize)
    ensures
        capacity >= v@.len(),
{
    v.capacity()
}

/// Calls `Vec::shrink_to_fit`, which may give memory back and leaves the
/// elements as they are.
#[verifier::external_body]
pub(crate) fn shrink_to_fit<T>(v: &mut Vec<T>)
    ensures
        final(v)@ == old(v)@,
{
    v.shrink_to_fit();
}

/// Calls `Vec::shrink_to`, which may give memory back and leaves the
/// elements as they are.
#[verifier::external_body]
pub(crate) fn shrink_to<T>(v: &mut Vec<T>, min_capacity: usize)
    ensures
        final(v)@ == old(v)@,
{
    v.shrink_to(min_capacity);
}

/// Calls `Vec::reserve_exact`, which may allocate and leaves the elements
/// as they are. It panics where the new capacity exceeds `isize::MAX`
/// bytes, which the precondition rules out.
#[verifier::external_body]
pub(crate) fn reserve_exact(v: &mut Vec<u8>, additional: usize)
    requires
        old(v)@.len() + additional <= isize::MAX,
    ensures
        final(v)@ == old(v)@,
{
    v.reserve_exact(additional);
}

/// Calls `Vec::try_reserve_exact`, which may allocate and leaves the
/// elements as they are. It does nothing, and succeeds, where the capacity
/// is sufficient already, as it is for no additional elements. Where it
/// succeeds, the capacity is at least the length and `additional` together,
/// so it fails where the two together do not fit a `usize`. In between,
/// whether it succeeds depends on the allocator.
#[verifier::external_body]
pub(crate) fn try_reserve_exact<T>(v: &mut Vec<T>, additional: usize) -> (outcome: Result<
    (),
    std::collections::TryReserveError,
>)
    ensures
        final(v)@ == old(v)@,
        additional == 0 ==> outcome is Ok,
        old(v)@.len() + additional > usize::MAX ==> outcome is Err,
{
    v.try_reserve_exact(additional)
}

} // verus!
