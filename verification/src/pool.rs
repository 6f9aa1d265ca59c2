//! Health-aware backend pool with round-robin selection.

use vstd::prelude::*;
use vstd::arithmetic::div_mod::{
    lemma_add_mod_noop, lemma_mod_bound, lemma_mod_self_0, lemma_mod_twice, lemma_small_mod,
    lemma_mod_equivalence,
};
use crate::errors::PipelineError;

verus! {

/// Cyclic scan: the first index at or after `start` (wrapping modulo the pool
/// size) whose slot is available, looking at most `budget` slots ahead.
pub open spec fn scan(avail: Seq<bool>, start: int, budget: nat) -> Option<int>
    recommends
        avail.len() > 0,
        0 <= start < avail.len(),
    decreases budget,
{
    if budget == 0 {
        None
    } else if avail[start] {
        Some(start)
    } else {
        scan(avail, (start + 1) % (avail.len() as int), (budget - 1) as nat)
    }
}

/// A named set of upstream addresses for one route: per-address availability
/// flags and a rotation cursor shared by all selections against the pool.
pub struct BackendPool {
    pub addresses: Vec<String>,
    pub available: Vec<bool>,
    pub cursor: usize,
}

impl BackendPool {
    pub open spec fn size(self) -> nat {
        self.addresses@.len()
    }

    pub open spec fn wf(self) -> bool {
        &&& self.available@.len() == self.addresses@.len()
        &&& (self.addresses@.len() > 0 ==> self.cursor < self.addresses@.len())
        &&& (self.addresses@.len() == 0 ==> self.cursor == 0)
    }

    /// A new pool over `addrs`; every address starts available and the
    /// rotation cursor starts at the front.
    pub fn new(addrs: Vec<String>) -> (p: BackendPool)
        ensures
            p.wf(),
            p.addresses == addrs,
            p.available@.len() == addrs@.len(),
            forall|i: int| 0 <= i < p.available@.len() ==> p.available@[i],
            p.cursor == 0,
    {
        let n = addrs.len();
        let mut available: Vec<bool> = Vec::new();
        let mut i: usize = 0;
        while i < n
            invariant
                i <= n,
                available@.len() == i,
                forall|j: int| 0 <= j < i ==> available@[j],
            decreases n - i,
        {
            available.push(true);
            i += 1;
        }
        BackendPool { addresses: addrs, available, cursor: 0 }
    }

    pub fn address_count(&self) -> (n: usize)
        ensures
            n == self.size(),
    {
        self.addresses.len()
    }

    /// Record a probe outcome for address `i`: available on success,
    /// unavailable on failure. Only the health monitor calls this.
    pub fn apply_probe(&mut self, i: usize, healthy: bool)
        requires
            old(self).wf(),
            i < old(self).size(),
        ensures
            final(self).wf(),
            final(self).addresses == old(self).addresses,
            final(self).cursor == old(self).cursor,
            final(self).available@ == old(self).available@.update(i as int, healthy),
    {
        self.available[i] = healthy;
    }

    /// Mark address `i` eligible for selection again.
    pub fn mark_available(&mut self, i: usize)
        requires
            old(self).wf(),
            i < old(self).size(),
        ensures
            final(self).wf(),
            final(self).addresses == old(self).addresses,
            final(self).cursor == old(self).cursor,
            final(self).available@ == old(self).available@.update(i as int, true),
    {
        self.apply_probe(i, true);
    }

    /// Exclude address `i` from selection.
    pub fn mark_unavailable(&mut self, i: usize)
        requires
            old(self).wf(),
            i < old(self).size(),
        ensures
            final(self).wf(),
            final(self).addresses == old(self).addresses,
            final(self).cursor == old(self).cursor,
            final(self).available@ == old(self).available@.update(i as int, false),
    {
        self.apply_probe(i, false);
    }

    /// Round-robin selection. The `key` is ignored by this discipline. Starts
    /// at the rotation cursor, skips unavailable addresses, and gives up
    /// after looking at `max_attempts` slots; only a successful selection
    /// advances the cursor, to just past the chosen slot.
    pub fn select(&mut self, _key: &[u8], max_attempts: usize) -> (r: Result<
        String,
        PipelineError,
    >)
        requires
            old(self).wf(),
        ensures
            final(self).wf(),
            final(self).addresses == old(self).addresses,
            final(self).available == old(self).available,
            old(self).size() == 0 ==> (r matches Err(e) && e == PipelineError::NoHealthyBackend
                && *final(self) == *old(self)),
            old(self).size() > 0 ==> (match scan(
                old(self).available@,
                old(self).cursor as int,
                max_attempts as nat,
            ) {
                Some(i) => {
                    &&& r matches Ok(addr) && addr@ == old(self).addresses@[i]@
                    &&& final(self).cursor == (i + 1) % (old(self).size() as int)
                },
                None => {
                    &&& r matches Err(e) && e == PipelineError::NoHealthyBackend
                    &&& final(self).cursor == old(self).cursor
                },
            }),
    {
        let n = self.addresses.len();
        if n == 0 {
            return Err(PipelineError::NoHealthyBackend);
        }
        let mut pos: usize = self.cursor;
        let mut attempt: usize = 0;
        while attempt < max_attempts
            invariant
                self.addresses == old(self).addresses,
                self.available == old(self).available,
                self.cursor == old(self).cursor,
                self.wf(),
                n == self.size(),
                n > 0,
                pos < n,
                attempt <= max_attempts,
                scan(self.available@, self.cursor as int, max_attempts as nat) == scan(
                    self.available@,
                    pos as int,
                    (max_attempts - attempt) as nat,
                ),
            decreases max_attempts - attempt,
        {
            if self.available[pos] {
                let addr = self.addresses[pos].clone();
                let next = if pos + 1 == n {
                    0
                } else {
                    pos + 1
                };
                proof {
                    assert((pos as int + 1) % (n as int) == next as int) by {
                        if pos + 1 == n {
                            lemma_mod_self_0(n as int);
                        } else {
                            lemma_small_mod((pos + 1) as nat, n as nat);
                        }
                    }
                }
                self.cursor = next;
                return Ok(addr);
            }
            let next = if pos + 1 == n {
                0
            } else {
                pos + 1
            };
            proof {
                assert((pos as int + 1) % (n as int) == next as int) by {
                    if pos + 1 == n {
                        lemma_mod_self_0(n as int);
                    } else {
                        lemma_small_mod((pos + 1) as nat, n as nat);
                    }
                }
            }
            pos = next;
            attempt += 1;
        }
        Err(PipelineError::NoHealthyBackend)
    }
}

/// Whatever the scan returns is an in-range, available slot.
pub proof fn lemma_scan_selects_available(avail: Seq<bool>, start: int, budget: nat)
    requires
        avail.len() > 0,
        0 <= start < avail.len(),
    ensures
        match scan(avail, start, budget) {
            Some(i) => 0 <= i < avail.len() && avail[i],
            None => true,
        },
    decreases budget,
{
    if budget > 0 && !avail[start] {
        lemma_mod_bound(start + 1, avail.len() as int);
        lemma_scan_selects_available(avail, (start + 1) % (avail.len() as int), (budget - 1) as nat);
    }
}

/// An unavailable slot is never the scan's result, whatever the budget: once
/// an address is marked unavailable it is excluded from selection.
pub proof fn lemma_scan_skips_unavailable(avail: Seq<bool>, start: int, budget: nat, i: int)
    requires
        avail.len() > 0,
        0 <= start < avail.len(),
        0 <= i < avail.len(),
        !avail[i],
    ensures
        scan(avail, start, budget) != Some(i),
    decreases budget,
{
    if budget > 0 && !avail[start] {
        lemma_mod_bound(start + 1, avail.len() as int);
        lemma_scan_skips_unavailable(avail, (start + 1) % (avail.len() as int), (budget - 1) as nat, i);
    }
}

/// With every slot unavailable the scan fails, whatever the budget: selection
/// exhaustion gives up instead of hanging.
pub proof fn lemma_scan_all_unavailable(avail: Seq<bool>, start: int, budget: nat)
    requires
        avail.len() > 0,
        0 <= start < avail.len(),
        forall|j: int| 0 <= j < avail.len() ==> !avail[j],
    ensures
        scan(avail, start, budget) is None,
    decreases budget,
{
    if budget > 0 {
        lemma_mod_bound(start + 1, avail.len() as int);
        lemma_scan_all_unavailable(avail, (start + 1) % (avail.len() as int), (budget - 1) as nat);
    }
}

/// Cyclic distance from `start` forward to `i`, modulo `len`.
pub open spec fn cyc_dist(start: int, i: int, len: int) -> int {
    if i >= start {
        i - start
    } else {
        i - start + len
    }
}

/// If slot `i` is available and the budget covers the cyclic distance to it,
/// the scan succeeds: a re-marked address becomes selectable again.
pub proof fn lemma_scan_finds_available(avail: Seq<bool>, start: int, budget: nat, i: int)
    requires
        avail.len() > 0,
        0 <= start < avail.len(),
        0 <= i < avail.len(),
        avail[i],
        budget > cyc_dist(start, i, avail.len() as int),
    ensures
        scan(avail, start, budget) is Some,
    decreases budget,
{
    let n = avail.len() as int;
    if !avail[start] {
        assert(start != i);
        let start2 = (start + 1) % n;
        assert(start2 == if start + 1 == n { 0int } else { start + 1 }) by {
            if start + 1 == n {
                lemma_mod_self_0(n);
            } else {
                lemma_small_mod((start + 1) as nat, n as nat);
            }
        }
        assert(cyc_dist(start2, i, n) == cyc_dist(start, i, n) - 1);
        lemma_scan_finds_available(avail, start2, (budget - 1) as nat, i);
    }
}

/// With a budget of at least the pool size, an available slot is found
/// whenever one exists.
pub proof fn lemma_scan_finds_within_size(avail: Seq<bool>, start: int, budget: nat, i: int)
    requires
        avail.len() > 0,
        0 <= start < avail.len(),
        0 <= i < avail.len(),
        avail[i],
        budget >= avail.len(),
    ensures
        scan(avail, start, budget) is Some,
{
    assert(cyc_dist(start, i, avail.len() as int) < avail.len() as int);
    lemma_scan_finds_available(avail, start, budget, i);
}

/// The cursor after `calls` consecutive successful selections that started
/// with the cursor at `c`: each one advances it by one slot, wrapping.
pub open spec fn cursor_after(c: int, calls: nat, n: int) -> int
    decreases calls,
{
    if calls == 0 {
        c
    } else {
        (cursor_after(c, (calls - 1) as nat, n) + 1) % n
    }
}

/// Closed form of the rotation: after `calls` selections the cursor sits at
/// `(c + calls) % n`.
pub proof fn lemma_cursor_after_closed_form(c: int, calls: nat, n: int)
    requires
        n > 0,
        0 <= c < n,
    ensures
        cursor_after(c, calls, n) == (c + calls) % n,
        0 <= cursor_after(c, calls, n) < n,
    decreases calls,
{
    if calls == 0 {
        lemma_small_mod(c as nat, n as nat);
    } else {
        lemma_cursor_after_closed_form(c, (calls - 1) as nat, n);
        let prev = (c + calls - 1) % n;
        assert(cursor_after(c, calls, n) == (prev + 1) % n);
        lemma_add_mod_noop(c + calls - 1, 1, n);
        assert((prev + 1int % n) % n == (c + calls) % n);
        if n == 1 {
            lemma_mod_bound(prev + 1, n);
            lemma_mod_bound(c + calls, n);
        } else {
            assert(1int % n == 1) by {
                lemma_small_mod(1nat, n as nat);
            }
        }
        lemma_mod_bound(c + calls, n);
    }
}

/// Round-robin law: with every address available, the selection made after
/// `calls` earlier selections returns the slot `(c + calls) % n`, the cursor
/// advances one slot per call, over `n` consecutive calls no slot repeats,
/// and after `n` calls the cursor is back at `c`.
pub proof fn lemma_round_robin(avail: Seq<bool>, c: int, calls: nat, budget: nat)
    requires
        avail.len() > 0,
        0 <= c < avail.len(),
        forall|j: int| 0 <= j < avail.len() ==> avail[j],
        budget >= 1,
    ensures
        scan(avail, cursor_after(c, calls, avail.len() as int), budget) == Some(
            cursor_after(c, calls, avail.len() as int),
        ),
        cursor_after(c, calls, avail.len() as int) == (c + calls) % (avail.len() as int),
        cursor_after(c, avail.len(), avail.len() as int) == c,
{
    let n = avail.len() as int;
    lemma_cursor_after_closed_form(c, calls, n);
    lemma_cursor_after_closed_form(c, avail.len(), n);
    assert((c + n) % n == c) by {
        lemma_add_mod_noop(c, n, n);
        lemma_mod_self_0(n);
        lemma_small_mod(c as nat, n as nat);
        lemma_mod_twice(c, n);
    }
}

/// Round-robin law at the pool: with every address of a non-empty pool
/// available and a positive budget, a selection returns the address at the
/// rotation cursor and moves the cursor one slot forward, so consecutive
/// selections walk the pool in order.
pub proof fn lemma_pool_round_robin(p: BackendPool, budget: nat)
    requires
        p.wf(),
        p.size() > 0,
        budget >= 1,
        forall|j: int| 0 <= j < p.available@.len() ==> p.available@[j],
    ensures
        scan(p.available@, p.cursor as int, budget) == Some(p.cursor as int),
{
}

/// Exhaustion law at the pool: with every address of a non-empty pool
/// unavailable, a selection fails whatever the attempt budget.
pub proof fn lemma_pool_exhaustion(p: BackendPool, budget: nat)
    requires
        p.wf(),
        p.size() > 0,
        forall|j: int| 0 <= j < p.available@.len() ==> !p.available@[j],
    ensures
        scan(p.available@, p.cursor as int, budget) is None,
{
    lemma_scan_all_unavailable(p.available@, p.cursor as int, budget);
}

/// Over one full rotation no slot is returned twice: the rotation positions
/// of two distinct calls among `n` consecutive ones differ.
pub proof fn lemma_rotation_distinct(c: int, i: nat, j: nat, n: int)
    requires
        n > 0,
        0 <= c < n,
        i < j,
        j - i < n,
    ensures
        cursor_after(c, i, n) != cursor_after(c, j, n),
{
    lemma_cursor_after_closed_form(c, i, n);
    lemma_cursor_after_closed_form(c, j, n);
    if (c + i) % n == (c + j) % n {
        lemma_mod_equivalence(c + j, c + i, n);
        assert((c + j - (c + i)) % n == 0);
        assert((j - i) % n == j - i) by {
            lemma_small_mod((j - i) as nat, n as nat);
        }
    }
}

} // verus!
