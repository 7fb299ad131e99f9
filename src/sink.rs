use std::sync::{Arc, Mutex};
use vstd::prelude::*;

verus! {

#[verifier::external_type_specification]
#[verifier::external_body]
#[verifier::reject_recursive_types(T)]
pub struct ExMutex<T: ?Sized>(Mutex<T>);

/// Relies on `std::sync::Mutex::new`: it builds an unlocked mutex around `t`, and never
/// fails.
pub assume_specification<T>[ Mutex::<T>::new ](t: T) -> Mutex<T>;

/// A sink that several owners drive in turn: each clone reaches the same sink, and
/// every operation on it holds one lock.
#[verifier::reject_recursive_types(S)]
pub struct SharedSink<S> {
    shared: Arc<Mutex<S>>,
}

impl<S> SharedSink<S> {
    /// The lock around the sink that all clones share.
    pub closed spec fn cell(&self) -> Arc<Mutex<S>> {
        self.shared
    }

    /// Puts `sink` behind a new lock.
    pub fn new(sink: S) -> (r: SharedSink<S>) {
        SharedSink { shared: Arc::new(Mutex::new(sink)) }
    }

    /// The lock around the sink, for the code that drives it.
    pub fn shared(&self) -> (r: &Arc<Mutex<S>>)
        ensures
            *r == self.cell(),
    {
        &self.shared
    }
}

impl<S> Clone for SharedSink<S> {
    /// Another owner of the same sink.
    fn clone(&self) -> (r: Self)
        ensures
            r.cell() == self.cell(),
    {
        SharedSink { shared: Arc::clone(&self.shared) }
    }
}

} // verus!
