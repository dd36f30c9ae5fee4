//! Process configuration, built once at startup and passed by value into
//! the components that need it: no hidden global state.

use vstd::prelude::*;
use crate::ext::cpu_count;

verus! {

/// Runtime configuration: how many worker threads the service should use.
pub struct Config {
    pub worker_threads: usize,
}

impl Config {
    /// A configuration sized for the machine: one worker thread per logical
    /// CPU. An environment override, where offered, is the caller's to read
    /// and apply through [`Config::with_threads`].
    pub fn new() -> (r: Config)
        ensures
            r.worker_threads >= 1,
    {
        Config { worker_threads: cpu_count() }
    }

    /// A configuration with an explicit worker-thread count.
    pub fn with_threads(worker_threads: usize) -> (r: Config)
        ensures
            r.worker_threads == worker_threads,
    {
        Config { worker_threads }
    }
}

} // verus!
