//! The worker-pool contract: a pool is created with a thread count
//! and accepts jobs.  Pool implementations spawn operating-system
//! threads, which the verified library does not do; they live with
//! the embedding process and implement this trait there.

use vstd::prelude::*;

use crate::error::KvsError;

verus! {

/// A pool of workers that jobs can be spawned onto.
pub trait ThreadPool: Sized {
    /// Creates a pool with the given number of worker threads.
    fn new(threads: u32) -> Result<Self, KvsError>;

    /// Runs a job on the pool.  Spawning always succeeds; a job that
    /// panics must not shrink or corrupt the pool.
    fn spawn<F>(&self, job: F) where F: FnOnce() + Send + 'static;
}

} // verus!
