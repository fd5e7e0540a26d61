//! A bounded history of recent blocks keyed by block hash, oldest evicted
//! first, with a tip that follows the heaviest block seen.
use vstd::prelude::*;

use crate::accounts::ConfirmedTx;
use crate::primitives::{word_lt, Word};
use crate::state_update::GethStateUpdate;

verus! {

/// What the history keeps of a block header; hashes are 256-bit words.
#[derive(Clone, Copy, Debug, PartialEq, Eq, Structural)]
pub struct BlockHeader {
    pub hash: Word,
    pub parent_hash: Word,
    pub number: u64,
    pub total_difficulty: Word,
}

/// A block of the history: its header and, once fetched, its transactions
/// and its state update.
#[derive(Debug)]
pub struct BlockHistoryEntry {
    pub header: BlockHeader,
    pub transactions: Option<Vec<ConfirmedTx>>,
    pub state_update: Option<Vec<GethStateUpdate>>,
}

pub open spec fn txs_view(t: Option<Vec<ConfirmedTx>>) -> Option<Seq<ConfirmedTx>> {
    match t {
        Some(v) => Some(v@),
        None => None,
    }
}

pub open spec fn updates_view(t: Option<Vec<GethStateUpdate>>) -> Option<Seq<GethStateUpdate>> {
    match t {
        Some(v) => Some(v@),
        None => None,
    }
}

/// The hashes kept after `h` is recorded: a known hash changes nothing; a new
/// one is appended and, past the capacity, the oldest is dropped.
pub open spec fn ring_after(keys: Seq<Word>, capacity: nat, h: Word) -> Seq<Word> {
    if keys.contains(h) {
        keys
    } else if keys.len() + 1 > capacity {
        keys.push(h).drop_first()
    } else {
        keys.push(h)
    }
}

/// The hashes kept after each of `hs` is recorded in order.
pub open spec fn ring_after_all(keys: Seq<Word>, capacity: nat, hs: Seq<Word>) -> Seq<Word>
    decreases hs.len(),
{
    if hs.len() == 0 {
        keys
    } else {
        ring_after(ring_after_all(keys, capacity, hs.drop_last()), capacity, hs.last())
    }
}

/// The tip after a block with `header` is recorded: the new block becomes the
/// tip when there is none or when it is strictly heavier.
pub open spec fn tip_after(tip: Option<BlockHeader>, header: BlockHeader) -> Option<BlockHeader> {
    match tip {
        None => Some(header),
        Some(t) => if t.total_difficulty.value() < header.total_difficulty.value() {
            Some(header)
        } else {
            tip
        },
    }
}

/// After distinct blocks are recorded into an empty history of capacity `c`,
/// it keeps exactly the last `c` of them, in order of arrival.
pub proof fn lemma_history_keeps_last(capacity: nat, hs: Seq<Word>)
    requires
        hs.no_duplicates(),
    ensures
        ring_after_all(Seq::empty(), capacity, hs) == hs.subrange(
            if hs.len() > capacity {
                hs.len() - capacity
            } else {
                0
            },
            hs.len() as int,
        ),
        ring_after_all(Seq::empty(), capacity, hs).len() == if hs.len() > capacity {
            capacity
        } else {
            hs.len()
        },
    decreases hs.len(),
{
    if hs.len() > 0 {
        let t = hs.drop_last();
        assert(t.no_duplicates());
        lemma_history_keeps_last(capacity, t);
        let prev = ring_after_all(Seq::empty(), capacity, t);
        let n = hs.len() as int;
        let lo = if t.len() > capacity {
            t.len() - capacity
        } else {
            0
        };
        assert(!prev.contains(hs.last())) by {
            if prev.contains(hs.last()) {
                let j = choose|j: int| 0 <= j < prev.len() && prev[j] == hs.last();
                assert(t[lo + j] == hs[n - 1]);
            }
        }
        let lo2 = if n > capacity {
            n - capacity
        } else {
            0
        };
        assert(ring_after_all(Seq::empty(), capacity, hs) =~= hs.subrange(lo2, n));
    } else {
        assert(hs.subrange(0, 0) =~= Seq::<Word>::empty());
    }
}

/// The recent blocks, oldest first, at most `capacity` of them, and the tip.
pub struct BlockHistory {
    capacity: usize,
    entries: Vec<BlockHistoryEntry>,
    tip: Option<BlockHeader>,
}

impl BlockHistory {
    /// The hashes kept, oldest first.
    pub closed spec fn keys(&self) -> Seq<Word> {
        Seq::new(self.entries@.len(), |i: int| self.entries@[i].header.hash)
    }

    pub closed spec fn capacity_spec(&self) -> nat {
        self.capacity as nat
    }

    pub closed spec fn tip_spec(&self) -> Option<BlockHeader> {
        self.tip
    }

    /// The transactions attached to the kept block `hash`, if any.
    pub closed spec fn txs_of(&self, hash: Word) -> Option<Seq<ConfirmedTx>> {
        if self.keys().contains(hash) {
            let i = choose|i: int| 0 <= i < self.entries@.len() && self.entries@[i].header.hash == hash;
            match self.entries@[i].transactions {
                Some(v) => Some(v@),
                None => None,
            }
        } else {
            None
        }
    }

    /// The state update attached to the kept block `hash`, if any.
    pub closed spec fn updates_of(&self, hash: Word) -> Option<Seq<GethStateUpdate>> {
        if self.keys().contains(hash) {
            let i = choose|i: int| 0 <= i < self.entries@.len() && self.entries@[i].header.hash == hash;
            match self.entries@[i].state_update {
                Some(v) => Some(v@),
                None => None,
            }
        } else {
            None
        }
    }

    pub closed spec fn wf(&self) -> bool {
        &&& self.keys().no_duplicates()
        &&& self.entries@.len() <= self.capacity
    }

    /// An empty history that keeps at most `capacity` blocks.
    pub fn new(capacity: usize) -> (r: BlockHistory)
        ensures
            r.wf(),
            r.keys().len() == 0,
            r.capacity_spec() == capacity,
            r.tip_spec() is None,
    {
        let r = BlockHistory { capacity, entries: Vec::new(), tip: None };
        proof {
            assert(r.keys() =~= Seq::<Word>::empty());
        }
        r
    }

    /// The number of blocks kept.
    pub fn len(&self) -> (r: usize)
        ensures
            r == self.keys().len(),
    {
        self.entries.len()
    }

    /// The heaviest block recorded so far.
    pub fn tip(&self) -> (r: Option<BlockHeader>)
        ensures
            r == self.tip_spec(),
    {
        self.tip
    }

    fn find(&self, hash: &Word) -> (r: Option<usize>)
        ensures
            r is Some ==> r->0 < self.keys().len() && self.keys()[r->0 as int] == *hash,
            r is None ==> !self.keys().contains(*hash),
    {
        let mut i: usize = 0;
        while i < self.entries.len()
            invariant
                0 <= i <= self.entries@.len(),
                forall|j: int| 0 <= j < i ==> self.keys()[j] != *hash,
            decreases self.entries@.len() - i,
        {
            if self.entries[i].header.hash == *hash {
                return Some(i);
            }
            i = i + 1;
        }
        None
    }

    /// Whether a block with `hash` is kept.
    pub fn contains(&self, hash: &Word) -> (r: bool)
        ensures
            r == self.keys().contains(*hash),
    {
        match self.find(hash) {
            Some(i) => true,
            None => false,
        }
    }

    /// The entry of the block with `hash`, if it is kept.
    pub fn get_market_history_entry(&self, hash: &Word) -> (r: Option<&BlockHistoryEntry>)
        requires
            self.wf(),
        ensures
            r is Some <==> self.keys().contains(*hash),
            r is Some ==> r->0.header.hash == *hash && txs_view(r->0.transactions) == self.txs_of(*hash),
            r is None ==> self.txs_of(*hash) is None,
    {
        match self.find(hash) {
            Some(i) => {
                proof {
                    self.lemma_txs_of_at(i as int);
                }
                Some(&self.entries[i])
            },
            None => None,
        }
    }

    proof fn lemma_updates_of_at(&self, i: int)
        requires
            self.wf(),
            0 <= i < self.entries@.len(),
        ensures
            self.updates_of(self.entries@[i].header.hash) == updates_view(self.entries@[i].state_update),
    {
        let h = self.entries@[i].header.hash;
        assert(self.keys()[i] == h);
        let j = choose|j: int| 0 <= j < self.entries@.len() && self.entries@[j].header.hash == h;
        assert(self.keys()[j] == h);
    }

    proof fn lemma_txs_of_at(&self, i: int)
        requires
            self.wf(),
            0 <= i < self.entries@.len(),
        ensures
            self.txs_of(self.entries@[i].header.hash) == txs_view(self.entries@[i].transactions),
    {
        let h = self.entries@[i].header.hash;
        assert(self.keys()[i] == h);
        let j = choose|j: int| 0 <= j < self.entries@.len() && self.entries@[j].header.hash == h;
        assert(self.keys()[j] == h);
    }

    /// Records a block header. A new hash is appended, evicting the oldest
    /// block past the capacity; the tip moves to the new block when it is
    /// strictly heavier.
    pub fn add_block_header(&mut self, header: BlockHeader)
        requires
            old(self).wf(),
        ensures
            final(self).wf(),
            final(self).keys() == ring_after(old(self).keys(), old(self).capacity_spec(), header.hash),
            final(self).capacity_spec() == old(self).capacity_spec(),
            final(self).tip_spec() == tip_after(old(self).tip_spec(), header),
    {
        let known = self.contains(&header.hash);
        if !known {
            let ghost k0 = self.keys();
            self.entries.push(BlockHistoryEntry { header, transactions: None, state_update: None });
            proof {
                assert(self.keys() =~= k0.push(header.hash));
            }
            if self.entries.len() > self.capacity {
                let ghost k1 = self.keys();
                let _ = self.entries.remove(0);
                proof {
                    assert(self.keys() =~= k1.drop_first());
                }
            }
        }
        let heavier = match self.tip {
            None => true,
            Some(t) => word_lt(&t.total_difficulty, &header.total_difficulty),
        };
        if heavier {
            self.tip = Some(header);
        }
    }

    /// Attaches the transactions of a kept block; returns whether it was kept.
    pub fn set_transactions(&mut self, hash: &Word, txs: Vec<ConfirmedTx>) -> (r: bool)
        requires
            old(self).wf(),
        ensures
            final(self).wf(),
            r == old(self).keys().contains(*hash),
            r ==> final(self).txs_of(*hash) == Some(txs@),
            forall|h: Word| h != *hash ==> final(self).txs_of(h) == old(self).txs_of(h),
            forall|h: Word| final(self).updates_of(h) == old(self).updates_of(h),
            final(self).keys() == old(self).keys(),
            final(self).capacity_spec() == old(self).capacity_spec(),
            final(self).tip_spec() == old(self).tip_spec(),
    {
        match self.find(hash) {
            Some(i) => {
                let ghost k0 = self.keys();
                let ghost txs_seq = txs@;
                let mut e = self.entries.remove(i);
                e.transactions = Some(txs);
                self.entries.insert(i, e);
                proof {
                    assert(self.keys() =~= k0);
                    self.lemma_txs_of_at(i as int);
                    assert forall|h: Word| h != *hash implies self.txs_of(h) == old(self).txs_of(h) by {
                        if self.keys().contains(h) {
                            let j = choose|j: int| 0 <= j < self.keys().len() && self.keys()[j] == h;
                            self.lemma_txs_of_at(j);
                            old(self).lemma_txs_of_at(j);
                            assert(self.entries@[j] == old(self).entries@[j]);
                        }
                    }
                    assert forall|h: Word| self.updates_of(h) == old(self).updates_of(h) by {
                        if self.keys().contains(h) {
                            let j = choose|j: int| 0 <= j < self.keys().len() && self.keys()[j] == h;
                            self.lemma_updates_of_at(j);
                            old(self).lemma_updates_of_at(j);
                        }
                    }
                }
                true
            },
            None => false,
        }
    }

    /// Attaches the state update of a kept block; returns whether it was kept.
    pub fn set_state_update(&mut self, hash: &Word, update: Vec<GethStateUpdate>) -> (r: bool)
        requires
            old(self).wf(),
        ensures
            final(self).wf(),
            r == old(self).keys().contains(*hash),
            r ==> final(self).updates_of(*hash) == Some(update@),
            forall|h: Word| h != *hash ==> final(self).updates_of(h) == old(self).updates_of(h),
            forall|h: Word| final(self).txs_of(h) == old(self).txs_of(h),
            final(self).keys() == old(self).keys(),
            final(self).capacity_spec() == old(self).capacity_spec(),
            final(self).tip_spec() == old(self).tip_spec(),
    {
        match self.find(hash) {
            Some(i) => {
                let ghost k0 = self.keys();
                let ghost update_seq = update@;
                let mut e = self.entries.remove(i);
                e.state_update = Some(update);
                self.entries.insert(i, e);
                proof {
                    assert(self.keys() =~= k0);
                    assert forall|h: Word| self.txs_of(h) == old(self).txs_of(h) by {
                        if self.keys().contains(h) {
                            let j = choose|j: int| 0 <= j < self.keys().len() && self.keys()[j] == h;
                            self.lemma_txs_of_at(j);
                            old(self).lemma_txs_of_at(j);
                        }
                    }
                    self.lemma_updates_of_at(i as int);
                    assert forall|h: Word| h != *hash implies self.updates_of(h) == old(self).updates_of(h) by {
                        if self.keys().contains(h) {
                            let j = choose|j: int| 0 <= j < self.keys().len() && self.keys()[j] == h;
                            self.lemma_updates_of_at(j);
                            old(self).lemma_updates_of_at(j);
                            assert(self.entries@[j] == old(self).entries@[j]);
                        }
                    }
                }
                true
            },
            None => false,
        }
    }
}

} // verus!
