//! How many workers a pool gets.

use vstd::prelude::*;

verus! {

/// Calls `num_cpus::get`, which reports how many logical processors the
/// machine offers to this process. The count depends on the machine and
/// on how the process is confined. The crate documents that it is always
/// at least one, and no more than that is claimed here.
#[verifier::external_body]
fn available_processors() -> (count: usize)
    ensures
        count >= 1,
{
    num_cpus::get()
}

/// The size of a pool: the size asked for, or, where none is asked for,
/// the number of processors.
pub open spec fn pool_size(requested: usize, available: usize) -> usize {
    if requested == 0 {
        available
    } else {
        requested
    }
}

/// The size of a pool on a machine with `available` processors.
pub fn pool_size_for(requested: usize, available: usize) -> (size: usize)
    ensures
        size == pool_size(requested, available),
{
    if requested == 0 {
        available
    } else {
        requested
    }
}

/// The size of a pool on this machine: the size asked for, or, where none
/// is asked for, the number of processors, so that the pool has at least
/// one worker. The processors are counted only where no size is asked for.
pub fn resolve_pool_size(requested: usize) -> (size: usize)
    ensures
        requested != 0 ==> size == requested,
        requested == 0 ==> size >= 1,
{
    if requested == 0 {
        pool_size_for(requested, available_processors())
    } else {
        requested
    }
}

} // verus!
