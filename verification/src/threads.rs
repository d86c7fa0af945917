//! Number of worker threads used by the clustering.
use vstd::prelude::*;

verus! {

/// The thread count that a requested count resolves to when `available`
/// logical CPUs are usable: a request of zero, or one above `available`,
/// falls back to `available`.
pub open spec fn resolved_thread_count(requested: nat, available: nat) -> nat {
    if requested == 0 || requested > available {
        available
    } else {
        requested
    }
}

/// Thread-count law: a request between 1 and the number of usable CPUs is
/// kept as it is; a request of zero, or one above that number, is replaced
/// by it. So the count is never above the CPUs (nor above a nonzero
/// request), and it is at least one when a CPU is usable.
pub proof fn lemma_thread_count_resolution(requested: nat, available: nat)
    ensures
        1 <= requested <= available ==> resolved_thread_count(requested, available) == requested,
        requested == 0 ==> resolved_thread_count(requested, available) == available,
        requested > available ==> resolved_thread_count(requested, available) == available,
        resolved_thread_count(requested, available) <= available,
        requested >= 1 ==> resolved_thread_count(requested, available) <= requested,
        available >= 1 ==> resolved_thread_count(requested, available) >= 1,
{
}

/// Resolves a requested thread count against the number of usable CPUs.
pub fn effective_thread_count(requested: usize, available: usize) -> (threads: usize)
    ensures
        threads == resolved_thread_count(requested as nat, available as nat),
        1 <= requested <= available ==> threads == requested,
        requested == 0 ==> threads == available,
        requested > available ==> threads == available,
{
    if requested == 0 || requested > available {
        available
    } else {
        requested
    }
}

/// `num_cpus::get`: the number of logical CPUs that this process may use
/// (sched affinity and cgroup quotas taken into account). The crate documents
/// that the value is always at least one; nothing else is claimed, since it
/// depends on the machine.
#[verifier::external_body]
pub(crate) fn available_cpus() -> (n: usize)
    ensures
        n >= 1,
{
    num_cpus::get()
}

} // verus!
