use vstd::prelude::*;
use std::sync::Arc;

verus! {

/// Relies on Arc::clone: the clone shares the same allocation and
/// observes the same value.
#[verifier::external_body]
fn clone_arc<T>(v: &Arc<T>) -> (r: Arc<T>)
    ensures
        r == *v,
{
    Arc::clone(v)
}

/// A cheap, clonable, read-only view of one loaded asset. A handle owns
/// a share of the asset value it was created with: a later reload or
/// removal of the cache entry replaces the registry's value, never the
/// one an outstanding handle observes.
#[derive(Debug)]
pub struct Handle<A> {
    data: Arc<A>,
}

impl<A> View for Handle<A> {
    type V = A;

    closed spec fn view(&self) -> A {
        *self.data
    }
}

impl<A> Handle<A> {
    pub fn new(data: Arc<A>) -> (r: Self)
        ensures
            r@ == *data,
    {
        Handle { data }
    }

    /// The asset this handle observes.
    pub fn value(&self) -> (r: &A)
        ensures
            *r == self@,
    {
        &*self.data
    }
}

impl<A> Clone for Handle<A> {
    fn clone(&self) -> (r: Self)
        ensures
            r@ == self@,
    {
        Handle { data: clone_arc(&self.data) }
    }
}

} // verus!
