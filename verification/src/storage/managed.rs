//! Storage that is either owned or lent by the caller.

use vstd::prelude::*;

verus! {

/// A run of elements that a buffer keeps its data in: a vector of its own, or a slice that
/// somebody else owns.
pub enum ManagedSlice<'a, T> {
    Owned(Vec<T>),
    Borrowed(&'a mut [T]),
}

impl<'a, T> View for ManagedSlice<'a, T> {
    type V = Seq<T>;

    open spec fn view(&self) -> Seq<T> {
        match *self {
            ManagedSlice::Owned(vec) => vec@,
            ManagedSlice::Borrowed(slice) => slice@,
        }
    }
}

impl<'a, T> ManagedSlice<'a, T> {
    /// The elements.
    pub fn as_slice(&self) -> (slice: &[T])
        ensures
            slice@ == self@,
    {
        match self {
            ManagedSlice::Owned(vec) => vec.as_slice(),
            ManagedSlice::Borrowed(slice) => slice,
        }
    }

    /// The elements, for writing.
    pub fn as_mut_slice(&mut self) -> (slice: &mut [T])
        ensures
            slice@ == old(self)@,
            final(self)@ == final(slice)@,
    {
        match self {
            ManagedSlice::Owned(vec) => vec.as_mut_slice(),
            ManagedSlice::Borrowed(slice) => slice,
        }
    }
}

/// The elements are those of the vector or of the slice, whichever holds them.
pub proof fn law_elements<'a, T>(storage: ManagedSlice<'a, T>)
    ensures
        match storage {
            ManagedSlice::Owned(vec) => storage@ == vec@,
            ManagedSlice::Borrowed(slice) => storage@ == slice@,
        },
{
}

} // verus!
