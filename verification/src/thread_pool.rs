//! The contract of a pool of worker threads.

use vstd::prelude::*;
use crate::errors::KvStoreError;

verus! {

/// A pool of threads that run jobs.
pub trait ThreadPool {
    /// Creates a pool and starts the given number of threads at once.
    fn new(threads: u32) -> Result<Self, KvStoreError> where Self: Sized;

    /// Hands a job to the pool. This always succeeds, and a job that panics
    /// leaves the pool with as many threads as before.
    fn spawn<F>(&self, job: F) where F: FnOnce() + Send + 'static;
}

} // verus!
