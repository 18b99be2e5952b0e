//! The worker-pool interface that the server dispatches connection handlers
//! onto.  Implementations live with the callers that own the threads.
use vstd::prelude::*;

verus! {

/// A pool of workers fed by a shared queue.
pub trait ThreadPool: Sized {
    /// Build a pool of `threads` workers.
    fn new(threads: u32) -> Result<Self, ()>;

    /// Run `job` exactly once on some worker.
    fn spawn<F: FnOnce() -> () + Send + 'static>(&self, job: F);
}

} // verus!
