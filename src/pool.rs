//! The size of the hashing pool.

use vstd::prelude::*;

verus! {

/// Half the available CPUs, and at least one worker: the pool leaves room
/// for the input and output that hashing many files contends for.
pub open spec fn half_or_one(cpus: int) -> int {
    if cpus / 2 >= 1 {
        cpus / 2
    } else {
        1
    }
}

/// The number of hashing workers for `cpus` available CPUs: half of them,
/// and at least one.
pub fn worker_count(cpus: usize) -> (r: usize)
    ensures
        r == half_or_one(cpus as int),
        r >= 1,
{
    if cpus / 2 >= 1 {
        cpus / 2
    } else {
        1
    }
}

/// Relies on `num_cpus::get`: the number of logical CPUs that this process
/// may use, which depends on the machine and the process's affinity, and is
/// always at least one.
#[verifier::external_body]
fn available_cpus() -> (r: usize)
    ensures
        r >= 1,
{
    num_cpus::get()
}

/// The default number of hashing workers: half of the CPUs that this
/// process may use, and at least one.
pub fn default_worker_count() -> (r: usize)
    ensures
        r >= 1,
        exists|cpus: usize| r == half_or_one(cpus as int),
{
    let cpus = available_cpus();
    worker_count(cpus)
}

} // verus!
