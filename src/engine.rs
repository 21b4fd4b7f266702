//! What the server needs of a storage engine, and of a pool of worker threads.
use vstd::prelude::*;
use crate::error::KvsError;

verus! {

/// A key-value engine that the server can share among its workers. `remove` of an absent
/// key fails with `NonExistentKey`; `get` of an absent key is `Ok(None)`.
pub trait KvsEngine: Clone + Send + 'static {
    /// Sets `key` to `value`.
    fn set(&self, key: String, value: String) -> Result<(), KvsError>;

    /// The value of `key`, if it is present.
    fn get(&self, key: String) -> Result<Option<String>, KvsError>;

    /// Removes `key`.
    fn remove(&self, key: String) -> Result<(), KvsError>;
}

/// A pool of threads that run jobs.
pub trait ThreadPool: Sized {
    /// A pool of `threads` workers.
    fn new(threads: u32) -> Result<Self, KvsError>;

    /// Hands `job` to a worker.
    fn spawn<F>(&self, job: F) where F: FnOnce() + Send + 'static;
}

} // verus!
