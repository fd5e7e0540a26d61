//! Pool health: pools whose trial swap fails a configured number of times in
//! a row are disabled, and the path search skips disabled pools.
use vstd::prelude::*;

use crate::accounts::{keyed, lemma_keyed_absent, lemma_keyed_hit, lemma_keyed_push, lemma_keyed_replace, unique_keys};
use crate::primitives::{lemma_address_eq, Address};

verus! {

/// The failure count after one more trial: reset by a success, raised by a
/// failure (saturating).
pub open spec fn failures_after(count: u32, ok: bool) -> u32 {
    if ok {
        0
    } else if count == u32::MAX {
        count
    } else {
        (count + 1) as u32
    }
}

/// Consecutive trial failures per pool, and the pools disabled for reaching
/// the threshold.
pub struct PoolHealth {
    threshold: u32,
    failures: Vec<(Address, u32)>,
    disabled: Vec<Address>,
}

impl PoolHealth {
    pub closed spec fn wf(&self) -> bool {
        unique_keys(self.failures@)
    }

    /// The consecutive failures of each pool tried so far.
    pub closed spec fn failure_map(&self) -> Map<Address, u32> {
        keyed(self.failures@)
    }

    /// The disabled pools.
    pub closed spec fn disabled_set(&self) -> Set<Address> {
        self.disabled@.to_set()
    }

    pub closed spec fn threshold_spec(&self) -> u32 {
        self.threshold
    }

    /// No pool tried yet; pools are disabled after `threshold` failures in a row.
    pub fn new(threshold: u32) -> (r: PoolHealth)
        ensures
            r.wf(),
            r.failure_map() == Map::<Address, u32>::empty(),
            r.disabled_set() == Set::<Address>::empty(),
            r.threshold_spec() == threshold,
    {
        let r = PoolHealth { threshold, failures: Vec::new(), disabled: Vec::new() };
        proof {
            assert(r.disabled@.to_set() =~= Set::<Address>::empty());
        }
        r
    }

    /// Whether the path search must skip `pool`.
    pub fn is_disabled(&self, pool: &Address) -> (r: bool)
        ensures
            r == self.disabled_set().contains(*pool),
    {
        let mut i: usize = 0;
        while i < self.disabled.len()
            invariant
                0 <= i <= self.disabled@.len(),
                forall|j: int| 0 <= j < i ==> self.disabled@[j] != *pool,
            decreases self.disabled@.len() - i,
        {
            proof {
                lemma_address_eq(self.disabled@[i as int], *pool);
            }
            if self.disabled[i] == *pool {
                proof {
                    assert(self.disabled@.contains(*pool));
                }
                return true;
            }
            i = i + 1;
        }
        false
    }

    /// The consecutive failures recorded for `pool`; zero if never tried.
    pub fn failures_of(&self, pool: &Address) -> (r: u32)
        requires
            self.wf(),
        ensures
            r == (if self.failure_map().contains_key(*pool) {
                self.failure_map()[*pool]
            } else {
                0
            }),
    {
        match self.find(pool) {
            Some(i) => {
                proof {
                    lemma_keyed_hit(self.failures@, i as int);
                }
                self.failures[i].1
            },
            None => 0,
        }
    }

    fn find(&self, pool: &Address) -> (r: Option<usize>)
        requires
            self.wf(),
        ensures
            r is Some ==> r->0 < self.failures@.len() && self.failures@[r->0 as int].0 == *pool,
            r is None ==> !self.failure_map().contains_key(*pool) && forall|j: int|
                0 <= j < self.failures@.len() ==> self.failures@[j].0 != *pool,
    {
        let mut i: usize = 0;
        while i < self.failures.len()
            invariant
                0 <= i <= self.failures@.len(),
                forall|j: int| 0 <= j < i ==> self.failures@[j].0 != *pool,
            decreases self.failures@.len() - i,
        {
            proof {
                lemma_address_eq(self.failures@[i as int].0, *pool);
            }
            if self.failures[i].0 == *pool {
                return Some(i);
            }
            i = i + 1;
        }
        proof {
            lemma_keyed_absent(self.failures@, *pool);
        }
        None
    }

    /// Records the outcome of a trial swap on `pool`: a success resets its
    /// failure count; a failure raises it, and a pool whose count reaches the
    /// threshold is disabled. A disabled pool stays disabled.
    pub fn record_trial(&mut self, pool: Address, ok: bool)
        requires
            old(self).wf(),
        ensures
            final(self).wf(),
            final(self).threshold_spec() == old(self).threshold_spec(),
            final(self).failure_map() == old(self).failure_map().insert(
                pool,
                failures_after(
                    if old(self).failure_map().contains_key(pool) {
                        old(self).failure_map()[pool]
                    } else {
                        0
                    },
                    ok,
                ),
            ),
            final(self).disabled_set() == (if final(self).failure_map()[pool] >= old(self).threshold_spec() && !ok {
                old(self).disabled_set().insert(pool)
            } else {
                old(self).disabled_set()
            }),
    {
        let count = self.failures_of(&pool);
        let next: u32 = if ok {
            0
        } else if count == u32::MAX {
            count
        } else {
            count + 1
        };
        match self.find(&pool) {
            Some(i) => {
                proof {
                    lemma_keyed_replace(self.failures@, i as int, next);
                }
                self.failures.set(i, (pool, next));
            },
            None => {
                proof {
                    lemma_keyed_push(self.failures@, pool, next);
                }
                self.failures.push((pool, next));
            },
        }
        if !ok && next >= self.threshold && !self.is_disabled(&pool) {
            let ghost d0 = self.disabled@;
            self.disabled.push(pool);
            proof {
                d0.lemma_push_to_set_commute(pool);
            }
        }
        proof {
            if !ok && next >= self.threshold {
                assert(self.disabled@.to_set() =~= old(self).disabled@.to_set().insert(pool));
            }
        }
    }
}

} // verus!
