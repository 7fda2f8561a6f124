//! Specifications of the outside functions and types that the library calls.

use vstd::prelude::*;
use rand::Rng;

verus! {

/// `std::slice::IterMut`, the iterator over mutable references into a slice, is carried
/// through as an opaque value.
#[verifier::external_type_specification]
#[verifier::external_body]
#[verifier::reject_recursive_types(E)]
pub struct ExIterMut<'a, E: 'a>(std::slice::IterMut<'a, E>);

/// Calls `<[E]>::iter_mut`, which returns an iterator over mutable references to the elements
/// of the slice. The iterator can only write elements in place: the slice keeps its length,
/// which is all that is claimed. Nothing is claimed of the iterator itself, which is handed on
/// to the caller unexamined.
#[verifier::external_body]
pub(crate) fn slice_iter_mut<E>(s: &mut [E]) -> (r: std::slice::IterMut<'_, E>)
    ensures
        final(s)@.len() == old(s)@.len(),
{
    s.iter_mut()
}

/// Calls `rand::thread_rng().gen::<u32>()`, a random number from the thread-local generator.
/// Nothing is claimed of the number: any `u32` may come back.
#[verifier::external_body]
#[allow(deprecated)]
pub(crate) fn random_mapgen_id() -> u32 {
    rand::thread_rng().gen()
}

} // verus!
