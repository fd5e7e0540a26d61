//! Nonces and balances of the signer accounts the engine watches, kept in
//! step with confirmed blocks and with periodic reads from the node.
use vstd::prelude::*;

use crate::block_history::BlockHistory;
use crate::primitives::{
    lemma_address_eq, lemma_word_bound, word_checked_add, word_checked_mul, word_checked_sub,
    word_max, word_modulus, zero_address, Address, Word,
};

verus! {

/// The map a list of key/value pairs denotes; a later pair for a key wins.
pub open spec fn keyed<K, V>(s: Seq<(K, V)>) -> Map<K, V>
    decreases s.len(),
{
    if s.len() == 0 {
        Map::empty()
    } else {
        keyed(s.drop_last()).insert(s.last().0, s.last().1)
    }
}

/// No key occurs twice.
pub open spec fn unique_keys<K, V>(s: Seq<(K, V)>) -> bool {
    forall|i: int, j: int| 0 <= i < s.len() && 0 <= j < s.len() && i != j ==> s[i].0 != s[j].0
}

pub proof fn lemma_keyed_absent<K, V>(s: Seq<(K, V)>, k: K)
    requires
        forall|i: int| 0 <= i < s.len() ==> s[i].0 != k,
    ensures
        !keyed(s).contains_key(k),
    decreases s.len(),
{
    if s.len() > 0 {
        lemma_keyed_absent(s.drop_last(), k);
    }
}

pub proof fn lemma_keyed_hit<K, V>(s: Seq<(K, V)>, i: int)
    requires
        unique_keys(s),
        0 <= i < s.len(),
    ensures
        keyed(s).contains_key(s[i].0),
        keyed(s)[s[i].0] == s[i].1,
    decreases s.len(),
{
    if i < s.len() - 1 {
        assert(unique_keys(s.drop_last()));
        assert(s.drop_last()[i] == s[i]);
        lemma_keyed_hit(s.drop_last(), i);
    }
}

pub proof fn lemma_keyed_replace<K, V>(s: Seq<(K, V)>, i: int, v: V)
    requires
        unique_keys(s),
        0 <= i < s.len(),
    ensures
        unique_keys(s.update(i, (s[i].0, v))),
        keyed(s.update(i, (s[i].0, v))) == keyed(s).insert(s[i].0, v),
    decreases s.len(),
{
    let t = s.update(i, (s[i].0, v));
    assert forall|a: int, b: int| 0 <= a < t.len() && 0 <= b < t.len() && a != b implies t[a].0 != t[b].0 by {
        assert(s[a].0 != s[b].0);
    }
    if i == s.len() - 1 {
        assert(t.drop_last() =~= s.drop_last());
        assert(keyed(t) =~= keyed(s).insert(s[i].0, v));
    } else {
        assert(unique_keys(s.drop_last()));
        lemma_keyed_replace(s.drop_last(), i, v);
        assert(t.drop_last() =~= s.drop_last().update(i, (s[i].0, v)));
        assert(s.last().0 != s[i].0);
        assert(keyed(t) =~= keyed(s).insert(s[i].0, v));
    }
}

pub proof fn lemma_keyed_push<K, V>(s: Seq<(K, V)>, k: K, v: V)
    requires
        unique_keys(s),
        forall|i: int| 0 <= i < s.len() ==> s[i].0 != k,
    ensures
        unique_keys(s.push((k, v))),
        keyed(s.push((k, v))) == keyed(s).insert(k, v),
{
    assert(s.push((k, v)).drop_last() =~= s);
}

/// The amount held under key `k`, zero when there is none.
pub open spec fn held(b: Map<(Address, Address), nat>, k: (Address, Address)) -> nat {
    if b.contains_key(k) {
        b[k]
    } else {
        0
    }
}

/// `x` less `amount`, clamped at zero.
pub open spec fn debit(x: nat, amount: nat) -> nat {
    if x >= amount {
        (x - amount) as nat
    } else {
        0
    }
}

/// `x` plus `amount`, clamped at the largest word.
pub open spec fn credit(x: nat, amount: nat) -> nat {
    if x + amount < word_modulus() {
        x + amount
    } else {
        (word_modulus() - 1) as nat
    }
}

/// A transaction of a confirmed block, as far as account tracking reads it.
#[derive(Clone, Copy, Debug)]
pub struct ConfirmedTx {
    pub from: Address,
    pub to: Option<Address>,
    pub nonce: u64,
    pub gas: u128,
    pub max_fee_per_gas: Option<u128>,
    pub max_priority_fee_per_gas: Option<u128>,
    pub value: Word,
}

pub open spec fn u128_or_zero(x: Option<u128>) -> nat {
    match x {
        Some(v) => v as nat,
        None => 0,
    }
}

/// What the sender of `tx` is charged: (max fee + priority fee) × gas + value,
/// an absent fee counting as zero.
pub open spec fn tx_spent(tx: ConfirmedTx) -> nat {
    ((u128_or_zero(tx.max_fee_per_gas) + u128_or_zero(tx.max_priority_fee_per_gas)) * tx.gas
        + tx.value.value()) as nat
}

/// The balance key of an account's native currency.
pub open spec fn native_key(who: Address) -> (Address, Address) {
    (who, zero_address())
}

/// The balances after `tx`: a monitored sender is charged what the
/// transaction spends (clamped at zero), then a monitored receiver is
/// credited its value.
pub open spec fn balances_after_tx(
    b: Map<(Address, Address), nat>,
    monitored: Set<Address>,
    tx: ConfirmedTx,
) -> Map<(Address, Address), nat> {
    let charged = if monitored.contains(tx.from) {
        b.insert(native_key(tx.from), debit(held(b, native_key(tx.from)), tx_spent(tx)))
    } else {
        b
    };
    match tx.to {
        Some(to) => if monitored.contains(to) {
            charged.insert(native_key(to), credit(held(charged, native_key(to)), tx.value.value()))
        } else {
            charged
        },
        None => charged,
    }
}

/// The nonces after `tx`: a monitored sender takes the transaction's nonce.
pub open spec fn nonces_after_tx(n: Map<Address, u64>, tx: ConfirmedTx) -> Map<Address, u64> {
    if n.contains_key(tx.from) {
        n.insert(tx.from, tx.nonce)
    } else {
        n
    }
}

/// The balances after the transactions `txs` in order.
pub open spec fn balances_after_txs(
    b: Map<(Address, Address), nat>,
    monitored: Set<Address>,
    txs: Seq<ConfirmedTx>,
) -> Map<(Address, Address), nat>
    decreases txs.len(),
{
    if txs.len() == 0 {
        b
    } else {
        balances_after_tx(balances_after_txs(b, monitored, txs.drop_last()), monitored, txs.last())
    }
}

/// The nonces after the transactions `txs` in order.
pub open spec fn nonces_after_txs(n: Map<Address, u64>, txs: Seq<ConfirmedTx>) -> Map<Address, u64>
    decreases txs.len(),
{
    if txs.len() == 0 {
        n
    } else {
        nonces_after_tx(nonces_after_txs(n, txs.drop_last()), txs.last())
    }
}

/// Applying a block's transactions keeps the set of monitored accounts.
pub proof fn lemma_nonces_after_txs_dom(n: Map<Address, u64>, txs: Seq<ConfirmedTx>)
    ensures
        nonces_after_txs(n, txs).dom() == n.dom(),
    decreases txs.len(),
{
    if txs.len() > 0 {
        lemma_nonces_after_txs_dom(n, txs.drop_last());
        assert(nonces_after_txs(n, txs).dom() =~= n.dom());
    }
}

/// After a confirmed block whose last transaction comes from a monitored
/// account, that account's tracked nonce is the transaction's nonce.
pub proof fn lemma_block_sets_sender_nonce(n: Map<Address, u64>, txs: Seq<ConfirmedTx>)
    requires
        txs.len() > 0,
        n.contains_key(txs.last().from),
    ensures
        nonces_after_txs(n, txs).contains_key(txs.last().from),
        nonces_after_txs(n, txs)[txs.last().from] == txs.last().nonce,
{
    lemma_nonces_after_txs_dom(n, txs.drop_last());
}

/// What `tx` spends, or `None` when that does not fit in a word.
pub fn tx_cost(tx: &ConfirmedTx) -> (r: Option<Word>)
    ensures
        r is Some ==> r->0.value() == tx_spent(*tx),
        r is None ==> tx_spent(*tx) >= word_modulus(),
{
    let max_fee = match tx.max_fee_per_gas {
        Some(f) => f,
        None => 0,
    };
    let tip = match tx.max_priority_fee_per_gas {
        Some(f) => f,
        None => 0,
    };
    let a = Word::from_u128(max_fee);
    let b = Word::from_u128(tip);
    assert(a.value() + b.value() < word_modulus());
    let fee = word_checked_add(a, b).unwrap();
    let gas = Word::from_u128(tx.gas);
    match word_checked_mul(fee, gas) {
        Some(g) => word_checked_add(g, tx.value),
        None => None,
    }
}

/// The nonces and per-token balances of the monitored accounts.
pub struct AccountNonceAndBalanceState {
    nonces: Vec<(Address, u64)>,
    balances: Vec<((Address, Address), Word)>,
}

impl AccountNonceAndBalanceState {
    pub closed spec fn wf(&self) -> bool {
        unique_keys(self.nonces@) && unique_keys(self.balances@)
    }

    /// The nonce of each monitored account; its domain is the monitored set.
    pub closed spec fn nonce_map(&self) -> Map<Address, u64> {
        keyed(self.nonces@)
    }

    /// The balance of each (account, token) pair that has been set.
    pub closed spec fn balance_map(&self) -> Map<(Address, Address), nat> {
        Map::new(|k: (Address, Address)| keyed(self.balances@).contains_key(k), |k: (Address, Address)| keyed(self.balances@)[k].value())
    }

    pub open spec fn monitored(&self) -> Set<Address> {
        self.nonce_map().dom()
    }

    pub fn new() -> (r: AccountNonceAndBalanceState)
        ensures
            r.wf(),
            r.nonce_map() == Map::<Address, u64>::empty(),
            r.balance_map() == Map::<(Address, Address), nat>::empty(),
    {
        let r = AccountNonceAndBalanceState { nonces: Vec::new(), balances: Vec::new() };
        proof {
            assert(r.balance_map() =~= Map::<(Address, Address), nat>::empty());
        }
        r
    }

    fn find_account(&self, address: &Address) -> (r: Option<usize>)
        requires
            self.wf(),
        ensures
            r is Some ==> r->0 < self.nonces@.len() && self.nonces@[r->0 as int].0 == *address,
            r is None ==> !self.nonce_map().contains_key(*address),
    {
        let mut i: usize = 0;
        while i < self.nonces.len()
            invariant
                0 <= i <= self.nonces@.len(),
                forall|j: int| 0 <= j < i ==> self.nonces@[j].0 != *address,
            decreases self.nonces@.len() - i,
        {
            proof {
                lemma_address_eq(self.nonces@[i as int].0, *address);
            }
            if self.nonces[i].0 == *address {
                return Some(i);
            }
            i = i + 1;
        }
        proof {
            lemma_keyed_absent(self.nonces@, *address);
        }
        None
    }

    fn find_balance(&self, address: &Address, token: &Address) -> (r: Option<usize>)
        requires
            self.wf(),
        ensures
            r is Some ==> r->0 < self.balances@.len() && self.balances@[r->0 as int].0 == (
                *address,
                *token,
            ),
            r is None ==> !self.balance_map().contains_key((*address, *token)),
    {
        let mut i: usize = 0;
        while i < self.balances.len()
            invariant
                0 <= i <= self.balances@.len(),
                forall|j: int| 0 <= j < i ==> self.balances@[j].0 != (*address, *token),
            decreases self.balances@.len() - i,
        {
            let (k, _) = self.balances[i];
            proof {
                lemma_address_eq(k.0, *address);
                lemma_address_eq(k.1, *token);
            }
            if k.0 == *address && k.1 == *token {
                return Some(i);
            }
            i = i + 1;
        }
        proof {
            lemma_keyed_absent(self.balances@, (*address, *token));
        }
        None
    }

    /// Starts monitoring `address`, with nonce zero if it was not monitored.
    pub fn add_account(&mut self, address: Address)
        requires
            old(self).wf(),
        ensures
            final(self).wf(),
            final(self).nonce_map() == (if old(self).nonce_map().contains_key(address) {
                old(self).nonce_map()
            } else {
                old(self).nonce_map().insert(address, 0)
            }),
            final(self).balance_map() == old(self).balance_map(),
    {
        match self.find_account(&address) {
            Some(i) => {
                proof {
                    lemma_keyed_hit(self.nonces@, i as int);
                }
            },
            None => {
                proof {
                    assert forall|j: int| 0 <= j < self.nonces@.len() implies self.nonces@[j].0 != address by {
                        if self.nonces@[j].0 == address {
                            lemma_keyed_hit(self.nonces@, j);
                        }
                    }
                    lemma_keyed_push(self.nonces@, address, 0u64);
                }
                self.nonces.push((address, 0));
            },
        }
    }

    /// Whether `address` is monitored.
    pub fn is_monitored(&self, address: &Address) -> (r: bool)
        requires
            self.wf(),
        ensures
            r == self.monitored().contains(*address),
    {
        match self.find_account(address) {
            Some(i) => {
                proof {
                    lemma_keyed_hit(self.nonces@, i as int);
                }
                true
            },
            None => false,
        }
    }

    /// The monitored accounts.
    pub fn get_accounts_vec(&self) -> (r: Vec<Address>)
        requires
            self.wf(),
        ensures
            forall|a: Address| r@.contains(a) <==> self.monitored().contains(a),
    {
        let mut r: Vec<Address> = Vec::new();
        let mut i: usize = 0;
        while i < self.nonces.len()
            invariant
                0 <= i <= self.nonces@.len(),
                unique_keys(self.nonces@),
                r@.len() == i,
                forall|j: int| 0 <= j < i ==> r@[j] == self.nonces@[j].0,
            decreases self.nonces@.len() - i,
        {
            r.push(self.nonces[i].0);
            i = i + 1;
        }
        proof {
            assert forall|a: Address| r@.contains(a) <==> self.monitored().contains(a) by {
                if r@.contains(a) {
                    let j = choose|j: int| 0 <= j < r@.len() && r@[j] == a;
                    lemma_keyed_hit(self.nonces@, j);
                }
                if self.monitored().contains(a) {
                    if forall|j: int| 0 <= j < self.nonces@.len() ==> self.nonces@[j].0 != a {
                        lemma_keyed_absent(self.nonces@, a);
                    } else {
                        let j = choose|j: int| 0 <= j < self.nonces@.len() && self.nonces@[j].0 == a;
                        assert(r@[j] == a);
                    }
                }
            }
        }
        r
    }

    /// The nonce of `address`, if it is monitored.
    pub fn get_nonce(&self, address: &Address) -> (r: Option<u64>)
        requires
            self.wf(),
        ensures
            r is Some <==> self.nonce_map().contains_key(*address),
            r is Some ==> r->0 == self.nonce_map()[*address],
    {
        match self.find_account(address) {
            Some(i) => {
                proof {
                    lemma_keyed_hit(self.nonces@, i as int);
                }
                Some(self.nonces[i].1)
            },
            None => None,
        }
    }

    /// The balance of `token` held by `address`, if it has been set.
    pub fn get_balance(&self, address: &Address, token: &Address) -> (r: Option<Word>)
        requires
            self.wf(),
        ensures
            r is Some <==> self.balance_map().contains_key((*address, *token)),
            r is Some ==> r->0.value() == self.balance_map()[(*address, *token)],
    {
        match self.find_balance(address, token) {
            Some(i) => {
                proof {
                    lemma_keyed_hit(self.balances@, i as int);
                }
                Some(self.balances[i].1)
            },
            None => None,
        }
    }

    /// Sets the nonce of `address` if it is monitored.
    pub fn set_nonce(&mut self, address: &Address, nonce: u64)
        requires
            old(self).wf(),
        ensures
            final(self).wf(),
            final(self).nonce_map() == (if old(self).nonce_map().contains_key(*address) {
                old(self).nonce_map().insert(*address, nonce)
            } else {
                old(self).nonce_map()
            }),
            final(self).balance_map() == old(self).balance_map(),
    {
        if let Some(i) = self.find_account(address) {
            proof {
                lemma_keyed_hit(self.nonces@, i as int);
                lemma_keyed_replace(self.nonces@, i as int, nonce);
            }
            self.nonces.set(i, (*address, nonce));
        }
    }

    /// Sets the balance of `token` held by `address` if the account is monitored.
    pub fn set_balance(&mut self, address: &Address, token: &Address, value: Word)
        requires
            old(self).wf(),
        ensures
            final(self).wf(),
            final(self).nonce_map() == old(self).nonce_map(),
            final(self).balance_map() == (if old(self).monitored().contains(*address) {
                old(self).balance_map().insert((*address, *token), value.value())
            } else {
                old(self).balance_map()
            }),
    {
        if !self.is_monitored(address) {
            return;
        }
        match self.find_balance(address, token) {
            Some(i) => {
                proof {
                    lemma_keyed_replace(self.balances@, i as int, value);
                }
                self.balances.set(i, ((*address, *token), value));
                proof {
                    assert(self.balance_map() =~= old(self).balance_map().insert((*address, *token), value.value()));
                }
            },
            None => {
                proof {
                    assert forall|j: int| 0 <= j < self.balances@.len() implies self.balances@[j].0 != (
                        *address,
                        *token,
                    ) by {
                        if self.balances@[j].0 == (*address, *token) {
                            lemma_keyed_hit(self.balances@, j);
                        }
                    }
                    lemma_keyed_push(self.balances@, (*address, *token), value);
                }
                self.balances.push(((*address, *token), value));
                proof {
                    assert(self.balance_map() =~= old(self).balance_map().insert((*address, *token), value.value()));
                }
            },
        }
    }

    /// Adds `amount` to the balance of `token` held by a monitored `address`,
    /// saturating at the largest word.
    pub fn add_balance(&mut self, address: &Address, token: &Address, amount: Word)
        requires
            old(self).wf(),
        ensures
            final(self).wf(),
            final(self).nonce_map() == old(self).nonce_map(),
            final(self).balance_map() == (if old(self).monitored().contains(*address) {
                old(self).balance_map().insert(
                    (*address, *token),
                    credit(held(old(self).balance_map(), (*address, *token)), amount.value()),
                )
            } else {
                old(self).balance_map()
            }),
    {
        let current = match self.get_balance(address, token) {
            Some(b) => b,
            None => Word::zero(),
        };
        let next = match word_checked_add(current, amount) {
            Some(s) => s,
            None => word_max(),
        };
        self.set_balance(address, token, next);
    }

    /// Takes `amount` from the balance of `token` held by a monitored
    /// `address`, clamping at zero.
    pub fn sub_balance(&mut self, address: &Address, token: &Address, amount: Word)
        requires
            old(self).wf(),
        ensures
            final(self).wf(),
            final(self).nonce_map() == old(self).nonce_map(),
            final(self).balance_map() == (if old(self).monitored().contains(*address) {
                old(self).balance_map().insert(
                    (*address, *token),
                    debit(held(old(self).balance_map(), (*address, *token)), amount.value()),
                )
            } else {
                old(self).balance_map()
            }),
    {
        let current = match self.get_balance(address, token) {
            Some(b) => b,
            None => Word::zero(),
        };
        let next = match word_checked_sub(current, amount) {
            Some(s) => s,
            None => Word::zero(),
        };
        self.set_balance(address, token, next);
    }
    /// Accounts for a transaction of a confirmed block: a monitored sender
    /// is charged what it spent and takes its nonce; a monitored receiver is
    /// credited the value.
    pub fn apply_confirmed_tx(&mut self, tx: &ConfirmedTx)
        requires
            old(self).wf(),
        ensures
            final(self).wf(),
            final(self).nonce_map() == nonces_after_tx(old(self).nonce_map(), *tx),
            final(self).balance_map() == balances_after_tx(old(self).balance_map(), old(self).monitored(), *tx),
    {
        let eth = Address::zero();
        if self.is_monitored(&tx.from) {
            match tx_cost(tx) {
                Some(spent) => self.sub_balance(&tx.from, &eth, spent),
                None => {
                    proof {
                        let b = old(self).balance_map();
                        if b.contains_key(native_key(tx.from)) {
                            lemma_word_bound(keyed(old(self).balances@)[native_key(tx.from)]);
                        }
                    }
                    self.set_balance(&tx.from, &eth, Word::zero());
                },
            }
            self.set_nonce(&tx.from, tx.nonce);
        }
        match tx.to {
            Some(to) => {
                if self.is_monitored(&to) {
                    self.add_balance(&to, &eth, tx.value);
                }
            },
            None => {},
        }
    }

    /// Accounts for the transactions of a confirmed block, in order.
    pub fn apply_block_txs(&mut self, txs: &Vec<ConfirmedTx>)
        requires
            old(self).wf(),
        ensures
            final(self).wf(),
            final(self).nonce_map() == nonces_after_txs(old(self).nonce_map(), txs@),
            final(self).balance_map() == balances_after_txs(old(self).balance_map(), old(self).monitored(), txs@),
    {
        let mut i: usize = 0;
        while i < txs.len()
            invariant
                0 <= i <= txs@.len(),
                self.wf(),
                self.monitored() == old(self).monitored(),
                self.nonce_map() == nonces_after_txs(old(self).nonce_map(), txs@.take(i as int)),
                self.balance_map() == balances_after_txs(
                    old(self).balance_map(),
                    old(self).monitored(),
                    txs@.take(i as int),
                ),
            decreases txs@.len() - i,
        {
            self.apply_confirmed_tx(&txs[i]);
            proof {
                assert(txs@.take(i as int + 1).drop_last() =~= txs@.take(i as int));
                assert(self.nonce_map().dom() =~= old(self).monitored());
            }
            i = i + 1;
        }
        proof {
            assert(txs@.take(txs@.len() as int) =~= txs@);
        }
    }

    /// Takes what a periodic read from the node returned for a monitored
    /// account: each value that was read replaces the tracked one.
    pub fn apply_fetched(&mut self, address: &Address, nonce: Option<u64>, balance: Option<Word>)
        requires
            old(self).wf(),
        ensures
            final(self).wf(),
            final(self).nonce_map() == (match nonce {
                Some(n) => if old(self).nonce_map().contains_key(*address) {
                    old(self).nonce_map().insert(*address, n)
                } else {
                    old(self).nonce_map()
                },
                None => old(self).nonce_map(),
            }),
            final(self).balance_map() == (match balance {
                Some(b) => if old(self).monitored().contains(*address) {
                    old(self).balance_map().insert(native_key(*address), b.value())
                } else {
                    old(self).balance_map()
                },
                None => old(self).balance_map(),
            }),
    {
        if let Some(n) = nonce {
            self.set_nonce(address, n);
        }
        if let Some(b) = balance {
            let eth = Address::zero();
            self.set_balance(address, &eth, b);
        }
    }

    /// Accounts for a confirmed block announced by hash: when the history
    /// holds its transactions they are applied in order; otherwise nothing
    /// changes.
    pub fn on_block_tx_update(&mut self, history: &BlockHistory, block_hash: &Word)
        requires
            old(self).wf(),
            history.wf(),
        ensures
            final(self).wf(),
            match history.txs_of(*block_hash) {
                Some(txs) => final(self).nonce_map() == nonces_after_txs(old(self).nonce_map(), txs)
                    && final(self).balance_map() == balances_after_txs(
                    old(self).balance_map(),
                    old(self).monitored(),
                    txs,
                ),
                None => final(self).nonce_map() == old(self).nonce_map() && final(self).balance_map()
                    == old(self).balance_map(),
            },
    {
        if let Some(entry) = history.get_market_history_entry(block_hash) {
            if let Some(txs) = &entry.transactions {
                self.apply_block_txs(txs);
            }
        }
    }
}

} // verus!
