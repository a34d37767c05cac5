//! Exchanging two elements of a slice.
use crate::sorting::order::exchanged;
use vstd::prelude::*;

verus! {

/// Exchanges the elements at two places of the slice.
///
/// Trusted: this is `<[T]>::swap` of the standard library, which exchanges
/// the two elements and leaves all others alone, and which panics only if
/// a place is out of bounds.
#[verifier::external_body]
pub(crate) fn swap<T>(values: &mut [T], i: usize, j: usize)
    requires
        i < old(values)@.len(),
        j < old(values)@.len(),
    ensures
        final(values)@ == exchanged(old(values)@, i as int, j as int),
{
    values.swap(i, j);
}

} // verus!
