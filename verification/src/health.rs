//! The state half of the background health monitor.
//!
//! Probing (a TCP connect per address) is outside work; what is verified
//! here is what a probe round does to a pool: after the round, each
//! address's availability equals its probe outcome, and nothing else moved.

use vstd::prelude::*;
use crate::pool::BackendPool;

verus! {

/// Background monitor bound 1:1 to a pool: every `interval_ms` the runtime
/// probes each address and applies the outcomes through `apply_round`.
pub struct HealthMonitor {
    pub interval_ms: u64,
}

impl HealthMonitor {
    pub fn new(interval_ms: u64) -> (m: HealthMonitor)
        ensures
            m.interval_ms == interval_ms,
    {
        HealthMonitor { interval_ms }
    }

    /// Apply one probe round to the pool: address `i` becomes available
    /// exactly when `outcomes[i]` reports a successful probe. An address
    /// that recovered is thus eligible again right after the round, with no
    /// further cooldown.
    pub fn apply_round(&self, pool: &mut BackendPool, outcomes: &Vec<bool>)
        requires
            old(pool).wf(),
            outcomes@.len() == old(pool).size(),
        ensures
            final(pool).wf(),
            final(pool).addresses == old(pool).addresses,
            final(pool).cursor == old(pool).cursor,
            final(pool).available@ == outcomes@,
    {
        let n = outcomes.len();
        let mut i: usize = 0;
        while i < n
            invariant
                n == outcomes@.len(),
                n == old(pool).size(),
                i <= n,
                pool.wf(),
                pool.addresses == old(pool).addresses,
                pool.cursor == old(pool).cursor,
                pool.available@.len() == n,
                forall|j: int| 0 <= j < i ==> pool.available@[j] == outcomes@[j],
                forall|j: int| i <= j < n ==> pool.available@[j] == old(pool).available@[j],
            decreases n - i,
        {
            pool.apply_probe(i, outcomes[i]);
            i += 1;
        }
        proof {
            assert(pool.available@ =~= outcomes@);
        }
    }
}

} // verus!
