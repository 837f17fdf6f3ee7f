//! Reference counted values.

use std::sync::Arc;
use vstd::prelude::*;

verus! {

/// Trusted: `Arc::clone` hands out another reference to the same allocation, so
/// both references hold the same value.
#[verifier::external_body]
pub(crate) fn share<T>(arc: &Arc<T>) -> (shared: Arc<T>)
    ensures
        shared == *arc,
{
    Arc::clone(arc)
}

/// Trusted: `Arc::unwrap_or_clone` hands out the value itself where `arc` is its
/// only reference, and otherwise a clone of it.
#[verifier::external_body]
pub(crate) fn unwrap_or_clone<T: Clone>(arc: Arc<T>) -> (value: T)
    ensures
        cloned::<T>(*arc, value),
{
    Arc::unwrap_or_clone(arc)
}

} // verus!
