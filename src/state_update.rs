//! State diffs as produced by a pre/post-state block trace: per account an
//! optional balance, nonce and code, and the storage slots that changed.
use vstd::prelude::*;

use crate::primitives::{Address, Word};

verus! {

/// The map that a list of slot/value pairs denotes; a later pair for the same
/// slot wins.
pub open spec fn pairs_map(s: Seq<(Word, Word)>) -> Map<Word, Word>
    decreases s.len(),
{
    if s.len() == 0 {
        Map::empty()
    } else {
        pairs_map(s.drop_last()).insert(s.last().0, s.last().1)
    }
}

/// No slot occurs twice in the list.
pub open spec fn keys_distinct(s: Seq<(Word, Word)>) -> bool {
    forall|i: int, j: int| 0 <= i < s.len() && 0 <= j < s.len() && i != j ==> s[i].0 != s[j].0
}

/// No address occurs twice in the list.
pub open spec fn addresses_distinct(s: Seq<(Address, AccountDiff)>) -> bool {
    forall|i: int, j: int| 0 <= i < s.len() && 0 <= j < s.len() && i != j ==> s[i].0 != s[j].0
}

/// The change to one account.
#[derive(Clone, Debug)]
pub struct AccountDiff {
    pub balance: Option<Word>,
    pub nonce: Option<u64>,
    pub code: Option<Vec<u8>>,
    /// Changed slots and their new values, each slot once.
    pub storage: Vec<(Word, Word)>,
}

impl AccountDiff {
    pub open spec fn wf(&self) -> bool {
        keys_distinct(self.storage@)
    }

    /// A change with no storage slots.
    pub fn new(balance: Option<Word>, nonce: Option<u64>, code: Option<Vec<u8>>) -> (r: AccountDiff)
        ensures
            r.wf(),
            r.balance == balance,
            r.nonce == nonce,
            r.code == code,
            r.storage@.len() == 0,
    {
        AccountDiff { balance, nonce, code, storage: Vec::new() }
    }

    /// Sets the new value of a slot, replacing an earlier one for the same slot.
    pub fn set_slot(&mut self, slot: Word, value: Word)
        requires
            old(self).wf(),
        ensures
            final(self).wf(),
            final(self).balance == old(self).balance,
            final(self).nonce == old(self).nonce,
            final(self).code == old(self).code,
            pairs_map(final(self).storage@) == pairs_map(old(self).storage@).insert(slot, value),
    {
        let ghost s0 = self.storage@;
        let mut i: usize = 0;
        while i < self.storage.len()
            invariant
                0 <= i <= self.storage@.len(),
                self.storage@ == s0,
                s0 == old(self).storage@,
                self.balance == old(self).balance,
                self.nonce == old(self).nonce,
                self.code == old(self).code,
                keys_distinct(s0),
                forall|j: int| 0 <= j < i ==> s0[j].0 != slot,
            decreases self.storage@.len() - i,
        {
            if self.storage[i].0 == slot {
                self.storage.set(i, (slot, value));
                proof {
                    assert(self.storage@ =~= s0.update(i as int, (slot, value)));
                    lemma_pairs_map_replace(s0, i as int, slot, value);
                }
                return;
            }
            i = i + 1;
        }
        self.storage.push((slot, value));
        proof {
            assert(self.storage@.drop_last() =~= s0);
        }
    }
}

/// A slot is in the map exactly when some pair names it.
pub proof fn lemma_pairs_map_keys(s: Seq<(Word, Word)>)
    ensures
        forall|k: Word| pairs_map(s).contains_key(k) <==> exists|j: int| 0 <= j < s.len() && s[j].0 == k,
    decreases s.len(),
{
    if s.len() > 0 {
        lemma_pairs_map_keys(s.drop_last());
        assert forall|k: Word| pairs_map(s).contains_key(k) <==> exists|j: int| 0 <= j < s.len() && s[j].0 == k by {
            if pairs_map(s.drop_last()).contains_key(k) {
                let j = choose|j: int| 0 <= j < s.drop_last().len() && s.drop_last()[j].0 == k;
                assert(s[j].0 == k);
            }
            if exists|j: int| 0 <= j < s.len() && s[j].0 == k {
                let j = choose|j: int| 0 <= j < s.len() && s[j].0 == k;
                if j < s.len() - 1 {
                    assert(s.drop_last()[j].0 == k);
                }
            }
        }
    }
}

/// With distinct slots, each pair's slot maps to that pair's value.
pub proof fn lemma_pairs_map_hit(s: Seq<(Word, Word)>, q: int)
    requires
        keys_distinct(s),
        0 <= q < s.len(),
    ensures
        pairs_map(s).contains_key(s[q].0),
        pairs_map(s)[s[q].0] == s[q].1,
    decreases s.len(),
{
    if q < s.len() - 1 {
        assert(keys_distinct(s.drop_last()));
        assert(s.drop_last()[q] == s[q]);
        lemma_pairs_map_hit(s.drop_last(), q);
        assert(s[s.len() - 1].0 != s[q].0);
    }
}

/// With distinct slots, the map holds as many slots as the list has pairs.
pub proof fn lemma_pairs_map_len(s: Seq<(Word, Word)>)
    requires
        keys_distinct(s),
    ensures
        pairs_map(s).dom().finite(),
        pairs_map(s).dom().len() == s.len(),
    decreases s.len(),
{
    if s.len() > 0 {
        let t = s.drop_last();
        assert(keys_distinct(t));
        lemma_pairs_map_len(t);
        lemma_pairs_map_keys(t);
        assert(!pairs_map(t).contains_key(s.last().0)) by {
            if pairs_map(t).contains_key(s.last().0) {
                let j = choose|j: int| 0 <= j < t.len() && t[j].0 == s.last().0;
                assert(s[j].0 == s[s.len() - 1].0);
            }
        }
        assert(pairs_map(s).dom() =~= pairs_map(t).dom().insert(s.last().0));
    }
}

/// Replacing the value of the one pair that holds `slot` updates the map at `slot`.
pub proof fn lemma_pairs_map_replace(s: Seq<(Word, Word)>, i: int, slot: Word, value: Word)
    requires
        keys_distinct(s),
        0 <= i < s.len(),
        s[i].0 == slot,
    ensures
        keys_distinct(s.update(i, (slot, value))),
        pairs_map(s.update(i, (slot, value))) == pairs_map(s).insert(slot, value),
    decreases s.len(),
{
    let t = s.update(i, (slot, value));
    if i == s.len() - 1 {
        assert(t.drop_last() =~= s.drop_last());
        assert(pairs_map(t) =~= pairs_map(s).insert(slot, value));
    } else {
        assert(keys_distinct(s.drop_last()));
        lemma_pairs_map_replace(s.drop_last(), i, slot, value);
        assert(t.drop_last() =~= s.drop_last().update(i, (slot, value)));
        assert(pairs_map(t) =~= pairs_map(s).insert(slot, value));
    }
}

/// The per-account changes of one block, each address once, in the order
/// they were added.
#[derive(Clone, Debug)]
pub struct GethStateUpdate {
    entries: Vec<(Address, AccountDiff)>,
}

impl View for GethStateUpdate {
    type V = Seq<(Address, AccountDiff)>;

    closed spec fn view(&self) -> Seq<(Address, AccountDiff)> {
        self.entries@
    }
}

impl GethStateUpdate {
    pub open spec fn wf(&self) -> bool {
        &&& addresses_distinct(self@)
        &&& forall|i: int| 0 <= i < self@.len() ==> (#[trigger] self@[i]).1.wf()
    }

    pub fn new() -> (r: GethStateUpdate)
        ensures
            r.wf(),
            r@.len() == 0,
    {
        GethStateUpdate { entries: Vec::new() }
    }

    pub fn len(&self) -> (r: usize)
        ensures
            r == self@.len(),
    {
        self.entries.len()
    }

    /// The entry at position `i`.
    pub fn entry(&self, i: usize) -> (r: &(Address, AccountDiff))
        requires
            i < self@.len(),
        ensures
            *r == self@[i as int],
    {
        &self.entries[i]
    }

    /// Sets the change for `address`, replacing an earlier one in place.
    pub fn insert(&mut self, address: Address, diff: AccountDiff)
        requires
            old(self).wf(),
            diff.wf(),
        ensures
            final(self).wf(),
            (exists|i: int| 0 <= i < old(self)@.len() && old(self)@[i].0 == address) ==> exists|i: int|
                0 <= i < old(self)@.len() && old(self)@[i].0 == address && final(self)@ == old(
                    self,
                )@.update(i, (address, diff)),
            (forall|i: int| 0 <= i < old(self)@.len() ==> old(self)@[i].0 != address)
                ==> final(self)@ == old(self)@.push((address, diff)),
    {
        let mut i: usize = 0;
        while i < self.entries.len()
            invariant
                0 <= i <= self.entries@.len(),
                self.entries@ == old(self).entries@,
                old(self).wf(),
                diff.wf(),
                forall|j: int| 0 <= j < i ==> self.entries@[j].0 != address,
            decreases self.entries@.len() - i,
        {
            if self.entries[i].0 == address {
                proof {
                    crate::primitives::lemma_address_eq(self.entries@[i as int].0, address);
                }
                self.entries.set(i, (address, diff));
                proof {
                    let s = self@;
                    let o = old(self)@;
                    assert(s =~= o.update(i as int, (address, diff)));
                    assert forall|j: int, k: int|
                        0 <= j < s.len() && 0 <= k < s.len() && j != k implies s[j].0 != s[k].0 by {
                        assert(o[j].0 != o[k].0);
                        assert(o[i as int].0 == address);
                        if j == i {
                            assert(o[k].0 != o[i as int].0);
                        } else if k == i {
                            assert(o[j].0 != o[i as int].0);
                        }
                    }
                    assert forall|j: int| 0 <= j < s.len() implies (#[trigger] s[j]).1.wf() by {
                        if j != i {
                            assert(old(self)@[j].1.wf());
                        }
                    }
                }
                return;
            }
            i = i + 1;
        }
        self.entries.push((address, diff));
        proof {
            let s = self@;
            assert forall|j: int| 0 <= j < s.len() implies (#[trigger] s[j]).1.wf() by {
                if j < old(self)@.len() {
                    assert(old(self)@[j].1.wf());
                }
            }
        }
    }
}

} // verus!
