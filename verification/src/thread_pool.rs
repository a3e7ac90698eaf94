//! The worker pools' common ground: the interface every pool offers and
//! the sizing rule the pools share.  The pools themselves run threads,
//! which this library does not hold; they implement [`ThreadPool`]
//! outside it.

use crate::error::KvsError;
use vstd::prelude::*;

verus! {

/// Relies on `num_cpus::get`: it returns the number of logical CPUs of
/// the running system, always at least 1.
#[verifier::external_body]
fn cpu_count() -> (n: usize)
    ensures
        n >= 1,
{
    num_cpus::get()
}

/// The worker count for a request: the request itself, or one worker per
/// CPU when the request is 0.
pub fn pool_size(requested: usize) -> (n: usize)
    ensures
        requested != 0 ==> n == requested,
        n >= 1,
{
    if requested == 0 {
        cpu_count()
    } else {
        requested
    }
}

/// A pool of workers that run submitted jobs.
pub trait ThreadPool: Sized {
    /// Build a pool of `thread_count` workers; 0 means one per CPU.
    fn new(thread_count: usize) -> Result<Self, KvsError>;

    /// Submit a job to run on some worker.
    fn spawn<F: FnOnce() + Send + 'static>(&self, job: F)
        requires
            job.requires(()),
    ;
}

} // verus!
