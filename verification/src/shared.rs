use vstd::prelude::*;
use std::sync::Arc;

verus! {

/// Calls `Arc::clone`, which hands out a second pointer to the same
/// allocation: the contract claims that the result holds the same value.
#[verifier::external_body]
pub(crate) fn share<N>(a: &Arc<N>) -> (r: Arc<N>)
    ensures
        r == *a,
{
    Arc::clone(a)
}

/// Calls `Arc::make_mut`, which gives mutable access to the shared value,
/// first replacing it by a clone (`N::clone`) when other pointers share it.
/// The contract claims that the value reached is the old one or a clone of
/// it, and that what is written through the result is what the pointer
/// holds afterwards.
#[verifier::external_body]
pub(crate) fn make_mut<N: Clone>(a: &mut Arc<N>) -> (r: &mut N)
    ensures
        cloned(**old(a), *r),
        **final(a) == *final(r),
{
    Arc::make_mut(a)
}

} // verus!
