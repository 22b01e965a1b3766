//! How many worker threads the orchestrator runs: one fewer than the cores
//! it may use, so that one core stays free.

use vstd::prelude::*;

verus! {

/// The number of logical cores from `num_cpus::get`, which its
/// documentation promises to be at least 1. The number depends on the
/// machine and on the limits set for the process, so nothing more is claimed.
#[verifier::external_body]
pub(crate) fn detected_cores() -> (cores: usize)
    ensures
        cores >= 1,
{
    num_cpus::get()
}

/// The workers for a number of cores: all but one, and none for no core.
pub open spec fn workers_for(cores: usize) -> Option<usize> {
    if cores >= 1 {
        Some((cores - 1) as usize)
    } else {
        None
    }
}

/// The number of workers to run on `cores` cores, or nothing where no core
/// is left to spare.
pub fn workers_from(cores: usize) -> (workers: Option<usize>)
    ensures
        workers == workers_for(cores),
{
    if cores >= 1 {
        Some(cores - 1)
    } else {
        None
    }
}

/// The number of workers to run: one fewer than the configured number of
/// cores, or than the number that the machine reports where none is
/// configured.
pub fn get_num_cores(configured: Option<usize>) -> (workers: Option<usize>)
    ensures
        configured matches Some(cores) ==> workers == workers_for(cores),
        configured is None ==> exists|cores: usize|
            cores >= 1 && workers == #[trigger] workers_for(cores),
{
    match configured {
        Some(cores) => workers_from(cores),
        None => workers_from(detected_cores()),
    }
}

} // verus!
