//! Time budgets, in whole seconds. A budget is absolute: each wait gets what
//! is left of it, so waiting never extends it.
use vstd::prelude::*;

verus! {

/// Extra seconds the aggregator waits past the protocol's duration for clients
/// that finish late.
pub const GRACE_SECS: u64 = 5;

/// The aggregator's collection deadline for a protocol of `duration` seconds.
pub fn collection_deadline(duration: u64) -> (r: u64)
    ensures
        r == if duration + GRACE_SECS <= u64::MAX {
            duration + GRACE_SECS
        } else {
            u64::MAX as int
        },
{
    duration.saturating_add(GRACE_SECS)
}

/// Seconds left of a budget after `elapsed`; zero once it is spent.
pub fn remaining_secs(budget: u64, elapsed: u64) -> (r: u64)
    ensures
        r == if elapsed < budget {
            budget - elapsed
        } else {
            0
        },
{
    budget.saturating_sub(elapsed)
}

/// Whether a wait should still be made: some of the budget is left.
pub fn within_budget(budget: u64, elapsed: u64) -> (r: bool)
    ensures
        r == (elapsed < budget),
{
    elapsed < budget
}

} // verus!
