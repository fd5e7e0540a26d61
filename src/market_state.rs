//! The market-state mirror: an in-memory EVM database kept in step with the
//! chain by replaying per-block state diffs under a layering policy.
use vstd::prelude::*;

use crate::evm_db::{
    code_view, db_account, db_addresses, db_insert_storage, db_load_account, db_marker, db_new,
    db_set_info, db_set_marker, db_slot, db_accounts, fresh_account, AccountMarker,
    AccountModel, AccountSnapshot, InMemoryDB,
};
use crate::mirror_laws::{lemma_read_only_cells_kept, slot_at};
use crate::primitives::{lemma_address_eq, Address, Word};
use crate::state_update::{
    keys_distinct, lemma_pairs_map_hit, lemma_pairs_map_keys, lemma_pairs_map_len, pairs_map, AccountDiff, GethStateUpdate,
};

verus! {

/// The record of `a` once the database has loaded it: a missing account
/// reads as not existing.
pub open spec fn loaded(m: Map<Address, AccountModel>, a: Address) -> AccountModel {
    if m.contains_key(a) {
        m[a]
    } else {
        fresh_account(AccountMarker::NotExisting)
    }
}

/// Whether a diff's balance, nonce and code are taken, given the account's
/// marker: always under `insert`; under `only_new` only for accounts that the
/// EVM has not written; otherwise only for accounts it has written.
pub open spec fn info_applies(marker: AccountMarker, insert: bool, only_new: bool) -> bool {
    ||| insert
    ||| only_new && (marker == AccountMarker::NotExisting || marker == AccountMarker::Untouched)
    ||| !only_new && (marker == AccountMarker::Touched || marker == AccountMarker::StorageCleared)
}

/// The code after a diff: code of fewer than two bytes means "unchanged".
pub open spec fn kept_code(current: Option<Seq<u8>>, incoming: Option<Seq<u8>>) -> Option<Seq<u8>> {
    match incoming {
        Some(c) => if c.len() < 2 {
            current
        } else {
            Some(c)
        },
        None => current,
    }
}

pub open spec fn word_or_zero(w: Option<Word>) -> Word {
    match w {
        Some(v) => v,
        None => Word { l0: 0, l1: 0, l2: 0, l3: 0 },
    }
}

pub open spec fn u64_or_zero(n: Option<u64>) -> u64 {
    match n {
        Some(v) => v,
        None => 0,
    }
}

/// The account after the info part of a diff; it is marked touched either way.
pub open spec fn info_after(acc: AccountModel, d: AccountDiff, insert: bool, only_new: bool) -> AccountModel {
    if info_applies(acc.marker, insert, only_new) {
        AccountModel {
            balance: word_or_zero(d.balance),
            nonce: u64_or_zero(d.nonce),
            code: kept_code(acc.code, code_view(d.code)),
            marker: AccountMarker::Touched,
            storage: acc.storage,
        }
    } else {
        AccountModel { marker: AccountMarker::Touched, ..acc }
    }
}

/// Whether a diff writes slot `k` of account `a`, given the storage before the
/// diff: never for a read-only cell; always under `insert`; under `only_new`
/// only for slots not yet held; otherwise only for slots already held.
pub open spec fn slot_written(
    a: Address,
    k: Word,
    read_only: Set<(Address, Word)>,
    before: Map<Word, Word>,
    insert: bool,
    only_new: bool,
) -> bool {
    !read_only.contains((a, k)) && (insert || before.contains_key(k) != only_new)
}

/// The storage of `a` after the slot pairs `s` are applied in order.
pub open spec fn storage_after(
    a: Address,
    before: Map<Word, Word>,
    s: Seq<(Word, Word)>,
    read_only: Set<(Address, Word)>,
    insert: bool,
    only_new: bool,
) -> Map<Word, Word>
    decreases s.len(),
{
    if s.len() == 0 {
        before
    } else {
        let prev = storage_after(a, before, s.drop_last(), read_only, insert, only_new);
        if slot_written(a, s.last().0, read_only, before, insert, only_new) {
            prev.insert(s.last().0, s.last().1)
        } else {
            prev
        }
    }
}

/// The account `a` after its whole diff.
pub open spec fn account_after(
    acc: AccountModel,
    a: Address,
    d: AccountDiff,
    read_only: Set<(Address, Word)>,
    insert: bool,
    only_new: bool,
) -> AccountModel {
    let i = info_after(acc, d, insert, only_new);
    AccountModel {
        storage: storage_after(a, i.storage, d.storage@, read_only, insert, only_new),
        ..i
    }
}

/// The accounts after the entries `s` of one update are applied in order; an
/// account in `forced` is applied as under `insert`.
pub open spec fn entries_after(
    m: Map<Address, AccountModel>,
    s: Seq<(Address, AccountDiff)>,
    read_only: Set<(Address, Word)>,
    forced: Set<Address>,
    insert: bool,
    only_new: bool,
) -> Map<Address, AccountModel>
    decreases s.len(),
{
    if s.len() == 0 {
        m
    } else {
        let prev = entries_after(m, s.drop_last(), read_only, forced, insert, only_new);
        let (a, d) = s.last();
        prev.insert(a, account_after(loaded(prev, a), a, d, read_only, insert || forced.contains(a), only_new))
    }
}

/// The accounts after a list of updates is applied in order.
pub open spec fn updates_after(
    m: Map<Address, AccountModel>,
    us: Seq<GethStateUpdate>,
    read_only: Set<(Address, Word)>,
    forced: Set<Address>,
    insert: bool,
    only_new: bool,
) -> Map<Address, AccountModel>
    decreases us.len(),
{
    if us.len() == 0 {
        m
    } else {
        entries_after(
            updates_after(m, us.drop_last(), read_only, forced, insert, only_new),
            us.last()@,
            read_only,
            forced,
            insert,
            only_new,
        )
    }
}

/// The account `a` after `add_state` seeds it with diff `d`: balance and
/// nonce replaced outright (absent ones as zero), code replaced unless the
/// diff's is absent or shorter than two bytes, slots added; an account marked
/// as not existing becomes touched when a slot is added.
pub open spec fn seeded_account(m: Map<Address, AccountModel>, a: Address, d: AccountDiff) -> AccountModel {
    let base = if m.contains_key(a) {
        m[a]
    } else {
        fresh_account(AccountMarker::Untouched)
    };
    AccountModel {
        balance: word_or_zero(d.balance),
        nonce: u64_or_zero(d.nonce),
        code: kept_code(base.code, code_view(d.code)),
        marker: marker_after_writes(base.marker, d.storage@.len() > 0),
        storage: base.storage.union_prefer_right(pairs_map(d.storage@)),
    }
}

/// The accounts after `add_state` has seeded the entries `s` in order.
pub open spec fn seeded_entries(m: Map<Address, AccountModel>, s: Seq<(Address, AccountDiff)>) -> Map<
    Address,
    AccountModel,
>
    decreases s.len(),
{
    if s.len() == 0 {
        m
    } else {
        let prev = seeded_entries(m, s.drop_last());
        prev.insert(s.last().0, seeded_account(prev, s.last().0, s.last().1))
    }
}

/// The account `a` of the mirror after `merge_db` has merged in `o`, the
/// other database's record of `a`: a missing account takes `o`'s info; every
/// slot of `o` is copied.
pub open spec fn merged_account(m: Map<Address, AccountModel>, a: Address, o: AccountModel) -> AccountModel {
    let base = if m.contains_key(a) {
        m[a]
    } else {
        AccountModel { balance: o.balance, nonce: o.nonce, code: o.code, ..fresh_account(AccountMarker::Untouched) }
    };
    AccountModel {
        storage: base.storage.union_prefer_right(o.storage),
        marker: marker_after_writes(base.marker, merge_writes(base.storage, o.storage)),
        ..base
    }
}

/// Whether merging `other` into `local` writes some slot: one that `local`
/// lacks or holds with another value.
pub open spec fn merge_writes(local: Map<Word, Word>, other: Map<Word, Word>) -> bool {
    exists|k: Word| other.contains_key(k) && !(local.contains_key(k) && local[k] == other[k])
}

/// Merging pair `p` into `local` writes its slot.
pub open spec fn pair_differs(local: Map<Word, Word>, p: (Word, Word)) -> bool {
    !(local.contains_key(p.0) && local[p.0] == p.1)
}

/// The mirror's accounts after merging in the accounts `o` of another database.
pub open spec fn merged(m: Map<Address, AccountModel>, o: Map<Address, AccountModel>) -> Map<Address, AccountModel> {
    Map::new(
        |a: Address| m.contains_key(a) || o.contains_key(a),
        |a: Address| if o.contains_key(a) {
            merged_account(m, a, o[a])
        } else {
            m[a]
        },
    )
}

/// The number of slots held by the accounts `s`, in the order given.
pub open spec fn storage_total(m: Map<Address, AccountModel>, s: Seq<Address>) -> nat
    decreases s.len(),
{
    if s.len() == 0 {
        0
    } else {
        storage_total(m, s.drop_last()) + m[s.last()].storage.dom().len()
    }
}

/// The marker after a slot of the account is written: an account marked as
/// not existing becomes touched.
pub open spec fn touched_marker(m: AccountMarker) -> AccountMarker {
    if m == AccountMarker::NotExisting {
        AccountMarker::Touched
    } else {
        m
    }
}

/// The marker after a run of slot writes, some or none.
pub open spec fn marker_after_writes(m: AccountMarker, wrote: bool) -> AccountMarker {
    if wrote {
        touched_marker(m)
    } else {
        m
    }
}

/// Whether the slot pairs `s` write any slot of `a` under the policy.
pub open spec fn slots_written(
    a: Address,
    before: Map<Word, Word>,
    s: Seq<(Word, Word)>,
    read_only: Set<(Address, Word)>,
    insert: bool,
    only_new: bool,
) -> bool {
    exists|j: int| 0 <= j < s.len() && slot_written(a, #[trigger] s[j].0, read_only, before, insert, only_new)
}

/// A slot that the pairs do not name keeps its presence and value.
pub proof fn lemma_storage_after_other(
    a: Address,
    before: Map<Word, Word>,
    s: Seq<(Word, Word)>,
    read_only: Set<(Address, Word)>,
    insert: bool,
    only_new: bool,
    k: Word,
)
    requires
        forall|j: int| 0 <= j < s.len() ==> s[j].0 != k,
    ensures
        storage_after(a, before, s, read_only, insert, only_new).contains_key(k)
            == before.contains_key(k),
        before.contains_key(k) ==> storage_after(a, before, s, read_only, insert, only_new)[k]
            == before[k],
    decreases s.len(),
{
    if s.len() > 0 {
        lemma_storage_after_other(a, before, s.drop_last(), read_only, insert, only_new, k);
    }
}

/// The mirror: the EVM database, the accounts whose updates bypass the
/// layering policy, and the storage cells that state application never writes.
pub struct MarketState {
    pub state_db: InMemoryDB,
    force_insert_accounts: Vec<Address>,
    read_only_cells: Vec<(Address, Word)>,
}

impl MarketState {
    /// The accounts the database holds.
    pub closed spec fn accounts(&self) -> Map<Address, AccountModel> {
        db_accounts(self.state_db)
    }

    /// The cells that state application leaves alone.
    pub closed spec fn read_only(&self) -> Set<(Address, Word)> {
        self.read_only_cells@.to_set()
    }

    /// The accounts marked for unconditional insertion.
    pub closed spec fn forced(&self) -> Set<Address> {
        self.force_insert_accounts@.to_set()
    }

    pub fn new(db: InMemoryDB) -> (r: MarketState)
        ensures
            r.accounts() == db_accounts(db),
            r.read_only() == Set::<(Address, Word)>::empty(),
            r.forced() == Set::<Address>::empty(),
    {
        let r = MarketState { state_db: db, force_insert_accounts: Vec::new(), read_only_cells: Vec::new() };
        proof {
            assert(r.read_only_cells@.to_set() =~= Set::<(Address, Word)>::empty());
            assert(r.force_insert_accounts@.to_set() =~= Set::<Address>::empty());
        }
        r
    }

    /// A mirror over an empty database.
    pub fn empty() -> (r: MarketState)
        ensures
            r.accounts().dom().is_empty(),
            r.read_only() == Set::<(Address, Word)>::empty(),
            r.forced() == Set::<Address>::empty(),
    {
        MarketState::new(db_new())
    }

    /// Whether the cell is read-only.
    pub fn is_read_only_cell(&self, address: &Address, cell: &Word) -> (r: bool)
        ensures
            r == self.read_only().contains((*address, *cell)),
    {
        let mut i: usize = 0;
        while i < self.read_only_cells.len()
            invariant
                0 <= i <= self.read_only_cells@.len(),
                forall|j: int| 0 <= j < i ==> self.read_only_cells@[j] != (*address, *cell),
            decreases self.read_only_cells@.len() - i,
        {
            let (a, c) = self.read_only_cells[i];
            if a == *address && c == *cell {
                proof {
                    lemma_address_eq(a, *address);
                    assert(self.read_only_cells@.contains((*address, *cell)));
                }
                return true;
            }
            proof {
                lemma_address_eq(a, *address);
            }
            i = i + 1;
        }
        false
    }

    /// Marks the cell read-only.
    pub fn disable_cell(&mut self, address: Address, cell: Word)
        ensures
            final(self).read_only() == old(self).read_only().insert((address, cell)),
            final(self).accounts() == old(self).accounts(),
            final(self).forced() == old(self).forced(),
    {
        if !self.is_read_only_cell(&address, &cell) {
            self.read_only_cells.push((address, cell));
        }
        proof {
            old(self).read_only_cells@.lemma_push_to_set_commute((address, cell));
            assert(self.read_only_cells@.to_set() =~= old(self).read_only_cells@.to_set().insert(
                (address, cell),
            ));
        }
    }

    /// Marks each of the cells of `address` read-only.
    pub fn disable_cell_vec(&mut self, address: Address, cells: Vec<Word>)
        ensures
            final(self).read_only() == old(self).read_only().union(
                Set::new(|c: (Address, Word)| c.0 == address && cells@.contains(c.1)),
            ),
            final(self).accounts() == old(self).accounts(),
            final(self).forced() == old(self).forced(),
    {
        let mut i: usize = 0;
        while i < cells.len()
            invariant
                0 <= i <= cells@.len(),
                self.read_only() == old(self).read_only().union(
                    Set::new(|c: (Address, Word)| c.0 == address && cells@.take(i as int).contains(c.1)),
                ),
                self.accounts() == old(self).accounts(),
                self.forced() == old(self).forced(),
            decreases cells@.len() - i,
        {
            self.disable_cell(address, cells[i]);
            proof {
                let t0 = cells@.take(i as int);
                let t1 = cells@.take(i as int + 1);
                assert(t1 =~= t0.push(cells@[i as int]));
                assert forall|w: Word| t1.contains(w) <==> (t0.contains(w) || w == cells@[i as int]) by {
                    if t1.contains(w) {
                        let j = choose|j: int| 0 <= j < t1.len() && t1[j] == w;
                        if j < t0.len() {
                            assert(t0[j] == w);
                        }
                    }
                    if t0.contains(w) {
                        let j = choose|j: int| 0 <= j < t0.len() && t0[j] == w;
                        assert(t1[j] == w);
                    }
                    if w == cells@[i as int] {
                        assert(t1[i as int] == w);
                    }
                }
                assert(self.read_only() =~= old(self).read_only().union(
                    Set::new(|c: (Address, Word)| c.0 == address && t1.contains(c.1)),
                ));
            }
            i = i + 1;
        }
        proof {
            assert(cells@.take(cells@.len() as int) =~= cells@);
        }
    }

    /// Whether updates of `address` bypass the layering policy.
    pub fn is_force_insert(&self, address: &Address) -> (r: bool)
        ensures
            r == self.forced().contains(*address),
    {
        let mut i: usize = 0;
        while i < self.force_insert_accounts.len()
            invariant
                0 <= i <= self.force_insert_accounts@.len(),
                forall|j: int| 0 <= j < i ==> self.force_insert_accounts@[j] != *address,
            decreases self.force_insert_accounts@.len() - i,
        {
            proof {
                lemma_address_eq(self.force_insert_accounts@[i as int], *address);
            }
            if self.force_insert_accounts[i] == *address {
                proof {
                    assert(self.force_insert_accounts@.contains(*address));
                }
                return true;
            }
            i = i + 1;
        }
        false
    }

    /// Marks `address` for unconditional insertion.
    pub fn add_force_insert(&mut self, address: Address)
        ensures
            final(self).forced() == old(self).forced().insert(address),
            final(self).accounts() == old(self).accounts(),
            final(self).read_only() == old(self).read_only(),
    {
        if !self.is_force_insert(&address) {
            self.force_insert_accounts.push(address);
        }
        proof {
            old(self).force_insert_accounts@.lemma_push_to_set_commute(address);
            assert(self.force_insert_accounts@.to_set() =~= old(self).force_insert_accounts@.to_set().insert(
                address,
            ));
        }
    }

    /// Whether the database holds `address`.
    pub fn is_account(&self, address: &Address) -> (r: bool)
        ensures
            r == self.accounts().contains_key(*address),
    {
        db_marker(&self.state_db, address).is_some()
    }

    /// Whether the database holds `slot` of `address`.
    pub fn is_slot(&self, address: &Address, slot: &Word) -> (r: bool)
        ensures
            r == (self.accounts().contains_key(*address) && self.accounts()[*address].storage.contains_key(
                *slot,
            )),
    {
        db_slot(&self.state_db, address, slot).is_some()
    }

    /// The value held in `slot` of `address`, if any.
    pub fn storage_value(&self, address: &Address, slot: &Word) -> (r: Option<Word>)
        ensures
            r is Some <==> (self.accounts().contains_key(*address)
                && self.accounts()[*address].storage.contains_key(*slot)),
            r is Some ==> r->0 == self.accounts()[*address].storage[*slot],
    {
        db_slot(&self.state_db, address, slot)
    }

    /// A copy of the info and storage of `address`, if the database holds it.
    pub fn account(&self, address: &Address) -> (r: Option<AccountSnapshot>)
        ensures
            r is Some <==> self.accounts().contains_key(*address),
            r is Some ==> r->0.copies(self.accounts()[*address]),
    {
        db_account(&self.state_db, address)
    }

    /// The marker of `address`, if the database holds it.
    pub fn account_marker(&self, address: &Address) -> (r: Option<AccountMarker>)
        ensures
            r is Some <==> self.accounts().contains_key(*address),
            r is Some ==> r->0 == self.accounts()[*address].marker,
    {
        db_marker(&self.state_db, address)
    }

    /// Applies the balance, nonce and code of a diff to `address` under the
    /// layering policy, and marks the account touched.
    pub fn apply_account_info_btree(
        &mut self,
        address: &Address,
        account_updated_state: &AccountDiff,
        insert: bool,
        only_new: bool,
    )
        ensures
            final(self).accounts() == old(self).accounts().insert(
                *address,
                info_after(loaded(old(self).accounts(), *address), *account_updated_state, insert, only_new),
            ),
            final(self).read_only() == old(self).read_only(),
            final(self).forced() == old(self).forced(),
    {
        db_load_account(&mut self.state_db, address);
        let marker = db_marker(&self.state_db, address).unwrap();
        if info_applies_exec(marker, insert, only_new) {
            let current = db_account(&self.state_db, address).unwrap();
            let code = match &account_updated_state.code {
                Some(c) => if c.len() < 2 {
                    current.code
                } else {
                    Some(c.clone())
                },
                None => current.code,
            };
            let balance = match account_updated_state.balance {
                Some(b) => b,
                None => Word::zero(),
            };
            let nonce = match account_updated_state.nonce {
                Some(n) => n,
                None => 0,
            };
            proof {
                assert(code_view(code) == kept_code(loaded(old(self).accounts(), *address).code, code_view(account_updated_state.code)));
            }
            db_set_info(&mut self.state_db, address, balance, nonce, code);
        }
        db_set_marker(&mut self.state_db, address, AccountMarker::Touched);
        proof {
            assert(self.accounts() =~= old(self).accounts().insert(
                *address,
                info_after(loaded(old(self).accounts(), *address), *account_updated_state, insert, only_new),
            ));
        }
    }

    /// Applies the storage slots of a diff to `address` under the layering
    /// policy; the account is loaded first. Read-only cells are never written.
    pub fn apply_account_storage(
        &mut self,
        address: &Address,
        acc_state: &AccountDiff,
        insert: bool,
        only_new: bool,
    )
        requires
            acc_state.wf(),
        ensures
            final(self).accounts() == old(self).accounts().insert(
                *address,
                AccountModel {
                    storage: storage_after(
                        *address,
                        loaded(old(self).accounts(), *address).storage,
                        acc_state.storage@,
                        old(self).read_only(),
                        insert,
                        only_new,
                    ),
                    marker: marker_after_writes(
                        loaded(old(self).accounts(), *address).marker,
                        slots_written(
                            *address,
                            loaded(old(self).accounts(), *address).storage,
                            acc_state.storage@,
                            old(self).read_only(),
                            insert,
                            only_new,
                        ),
                    ),
                    ..loaded(old(self).accounts(), *address)
                },
            ),
            final(self).read_only() == old(self).read_only(),
            final(self).forced() == old(self).forced(),
    {
        db_load_account(&mut self.state_db, address);
        let ghost m1 = self.accounts();
        let ghost acc = loaded(old(self).accounts(), *address);
        let ghost ro = self.read_only();
        let ghost s = acc_state.storage@;
        proof {
            assert(m1 == old(self).accounts().insert(*address, acc));
        }
        let mut i: usize = 0;
        while i < acc_state.storage.len()
            invariant
                0 <= i <= s.len(),
                s == acc_state.storage@,
                keys_distinct(s),
                ro == self.read_only(),
                self.forced() == old(self).forced(),
                m1.contains_key(*address),
                m1[*address] == acc,
                self.accounts() == m1.insert(
                    *address,
                    AccountModel {
                        storage: storage_after(*address, acc.storage, s.take(i as int), ro, insert, only_new),
                        marker: marker_after_writes(
                            acc.marker,
                            slots_written(*address, acc.storage, s.take(i as int), ro, insert, only_new),
                        ),
                        ..acc
                    },
                ),
            decreases s.len() - i,
        {
            let (slot, value) = acc_state.storage[i];
            proof {
                assert(s.take(i as int + 1).drop_last() =~= s.take(i as int));
                assert forall|j: int| 0 <= j < s.take(i as int).len() implies s.take(i as int)[j].0 != slot by {
                    assert(s[j].0 != s[i as int].0);
                }
                lemma_storage_after_other(*address, acc.storage, s.take(i as int), ro, insert, only_new, slot);
            }
            let read_only_cell = self.is_read_only_cell(address, &slot);
            let present = db_slot(&self.state_db, address, &slot).is_some();
            let write = !read_only_cell && (insert || present != only_new);
            if write {
                self.write_slot(address, slot, value);
            }
            proof {
                let t0 = s.take(i as int);
                let t1 = s.take(i as int + 1);
                assert(write == slot_written(*address, slot, ro, acc.storage, insert, only_new));
                assert(slots_written(*address, acc.storage, t1, ro, insert, only_new) == (slots_written(
                    *address,
                    acc.storage,
                    t0,
                    ro,
                    insert,
                    only_new,
                ) || write)) by {
                    if write {
                        assert(t1[i as int].0 == slot);
                    }
                    if slots_written(*address, acc.storage, t0, ro, insert, only_new) {
                        let j = choose|j: int|
                            0 <= j < t0.len() && slot_written(*address, #[trigger] t0[j].0, ro, acc.storage, insert, only_new);
                        assert(t1[j] == t0[j]);
                    }
                    if slots_written(*address, acc.storage, t1, ro, insert, only_new) {
                        let j = choose|j: int|
                            0 <= j < t1.len() && slot_written(*address, #[trigger] t1[j].0, ro, acc.storage, insert, only_new);
                        if j < i {
                            assert(t0[j] == t1[j]);
                        }
                    }
                }
                assert(self.accounts() =~= m1.insert(
                    *address,
                    AccountModel {
                        storage: storage_after(*address, acc.storage, t1, ro, insert, only_new),
                        marker: marker_after_writes(
                            acc.marker,
                            slots_written(*address, acc.storage, t1, ro, insert, only_new),
                        ),
                        ..acc
                    },
                ));
            }
            i = i + 1;
        }
        proof {
            assert(s.take(s.len() as int) =~= s);
            assert(self.accounts() =~= old(self).accounts().insert(
                *address,
                AccountModel {
                    storage: storage_after(*address, acc.storage, s, ro, insert, only_new),
                    marker: marker_after_writes(acc.marker, slots_written(*address, acc.storage, s, ro, insert, only_new)),
                    ..acc
                },
            ));
        }
    }

    /// Writes a slot of an account the database holds; an account marked as
    /// not existing becomes touched.
    fn write_slot(&mut self, address: &Address, slot: Word, value: Word)
        requires
            old(self).accounts().contains_key(*address),
        ensures
            final(self).accounts() == old(self).accounts().insert(
                *address,
                AccountModel {
                    storage: old(self).accounts()[*address].storage.insert(slot, value),
                    marker: touched_marker(old(self).accounts()[*address].marker),
                    ..old(self).accounts()[*address]
                },
            ),
            final(self).read_only() == old(self).read_only(),
            final(self).forced() == old(self).forced(),
    {
        db_insert_storage(&mut self.state_db, address, slot, value);
        match db_marker(&self.state_db, address) {
            Some(AccountMarker::NotExisting) => {
                db_set_marker(&mut self.state_db, address, AccountMarker::Touched);
            },
            _ => {},
        }
        proof {
            assert(self.accounts() =~= old(self).accounts().insert(
                *address,
                AccountModel {
                    storage: old(self).accounts()[*address].storage.insert(slot, value),
                    marker: touched_marker(old(self).accounts()[*address].marker),
                    ..old(self).accounts()[*address]
                },
            ));
        }
    }

    /// Applies each update of the list in order, each account's info first and
    /// then its storage; an account marked for unconditional insertion is
    /// applied as under `insert`.
    pub fn apply_state_update(&mut self, update_vec: &Vec<GethStateUpdate>, insert: bool, only_new: bool)
        requires
            forall|i: int| 0 <= i < update_vec@.len() ==> (#[trigger] update_vec@[i]).wf(),
        ensures
            final(self).accounts() == updates_after(
                old(self).accounts(),
                update_vec@,
                old(self).read_only(),
                old(self).forced(),
                insert,
                only_new,
            ),
            forall|a: Address, k: Word|
                old(self).read_only().contains((a, k)) ==> slot_at(final(self).accounts(), a, k)
                    == slot_at(old(self).accounts(), a, k),
            final(self).read_only() == old(self).read_only(),
            final(self).forced() == old(self).forced(),
    {
        let ghost ro = self.read_only();
        let mut k: usize = 0;
        while k < update_vec.len()
            invariant
                0 <= k <= update_vec@.len(),
                forall|i: int| 0 <= i < update_vec@.len() ==> (#[trigger] update_vec@[i]).wf(),
                ro == old(self).read_only(),
                self.read_only() == ro,
                self.forced() == old(self).forced(),
                self.accounts() == updates_after(
                    old(self).accounts(),
                    update_vec@.take(k as int),
                    ro,
                    old(self).forced(),
                    insert,
                    only_new,
                ),
            decreases update_vec@.len() - k,
        {
            let update = &update_vec[k];
            assert(update.wf());
            let ghost start = self.accounts();
            let ghost es = update@;
            let mut i: usize = 0;
            while i < update.len()
                invariant
                    0 <= i <= es.len(),
                    es == update@,
                    update.wf(),
                    self.read_only() == ro,
                    self.forced() == old(self).forced(),
                    self.accounts() == entries_after(start, es.take(i as int), ro, old(self).forced(), insert, only_new),
                decreases es.len() - i,
            {
                let entry = update.entry(i);
                assert(entry.1.wf());
                let ghost before = self.accounts();
                let insert_entry = insert || self.is_force_insert(&entry.0);
                self.apply_account_info_btree(&entry.0, &entry.1, insert_entry, only_new);
                self.apply_account_storage(&entry.0, &entry.1, insert_entry, only_new);
                proof {
                    assert(es.take(i as int + 1).drop_last() =~= es.take(i as int));
                    assert(self.accounts() =~= entries_after(start, es.take(i as int + 1), ro, old(self).forced(), insert, only_new));
                }
                i = i + 1;
            }
            proof {
                assert(es.take(es.len() as int) =~= es);
                assert(update_vec@.take(k as int + 1).drop_last() =~= update_vec@.take(k as int));
            }
            k = k + 1;
        }
        proof {
            assert(update_vec@.take(update_vec@.len() as int) =~= update_vec@);
            assert forall|a: Address, k: Word| ro.contains((a, k)) implies slot_at(self.accounts(), a, k)
                == slot_at(old(self).accounts(), a, k) by {
                lemma_read_only_cells_kept(old(self).accounts(), update_vec@, ro, old(self).forced(), insert, only_new, a, k);
            }
        }
    }

    /// The number of accounts the database holds.
    pub fn accounts_len(&self) -> (r: usize)
        ensures
            r == self.accounts().dom().len(),
    {
        let addrs = db_addresses(&self.state_db);
        proof {
            addrs@.unique_seq_to_set();
            assert(addrs@.to_set() =~= self.accounts().dom());
        }
        addrs.len()
    }

    /// The number of storage slots over all accounts, saturating at the
    /// largest `usize`.
    pub fn storage_len(&self) -> (r: usize)
        ensures
            exists|s: Seq<Address>|
                {
                    &&& s.no_duplicates()
                    &&& forall|a: Address| s.contains(a) <==> self.accounts().contains_key(a)
                    &&& r == (if storage_total(self.accounts(), s) <= usize::MAX {
                        storage_total(self.accounts(), s)
                    } else {
                        usize::MAX as nat
                    })
                },
    {
        let addrs = db_addresses(&self.state_db);
        let ghost m = self.accounts();
        let mut total: usize = 0;
        let mut i: usize = 0;
        while i < addrs.len()
            invariant
                0 <= i <= addrs@.len(),
                m == self.accounts(),
                forall|a: Address| addrs@.contains(a) <==> m.contains_key(a),
                total == (if storage_total(m, addrs@.take(i as int)) <= usize::MAX {
                    storage_total(m, addrs@.take(i as int))
                } else {
                    usize::MAX as nat
                }),
            decreases addrs@.len() - i,
        {
            let a = addrs[i];
            proof {
                assert(addrs@.contains(a));
            }
            let acc = db_account(&self.state_db, &a).unwrap();
            proof {
                lemma_pairs_map_len(acc.storage@);
                assert(addrs@.take(i as int + 1).drop_last() =~= addrs@.take(i as int));
            }
            total = total.saturating_add(acc.storage.len());
            i = i + 1;
        }
        proof {
            assert(addrs@.take(addrs@.len() as int) =~= addrs@);
        }
        total
    }

    /// Overwrites `slot` of `address` with `value` when the database holds that
    /// slot; otherwise leaves the mirror as it is.
    pub fn update_account_storage(&mut self, account: Address, slot: Word, value: Word)
        ensures
            final(self).accounts() == (if old(self).accounts().contains_key(account) && old(
                self,
            ).accounts()[account].storage.contains_key(slot) {
                old(self).accounts().insert(
                    account,
                    AccountModel {
                        storage: old(self).accounts()[account].storage.insert(slot, value),
                        marker: touched_marker(old(self).accounts()[account].marker),
                        ..old(self).accounts()[account]
                    },
                )
            } else {
                old(self).accounts()
            }),
            final(self).read_only() == old(self).read_only(),
            final(self).forced() == old(self).forced(),
    {
        if self.is_slot(&account, &slot) {
            self.write_slot(&account, slot, value);
        }
    }

    /// Adds the slot pairs `s` to the storage of `address`, which the database holds.
    fn insert_slots(&mut self, address: &Address, s: &Vec<(Word, Word)>)
        requires
            old(self).accounts().contains_key(*address),
        ensures
            final(self).accounts() == old(self).accounts().insert(
                *address,
                AccountModel {
                    storage: old(self).accounts()[*address].storage.union_prefer_right(pairs_map(s@)),
                    marker: marker_after_writes(old(self).accounts()[*address].marker, s@.len() > 0),
                    ..old(self).accounts()[*address]
                },
            ),
            final(self).read_only() == old(self).read_only(),
            final(self).forced() == old(self).forced(),
    {
        let ghost m0 = self.accounts();
        let ghost acc = m0[*address];
        proof {
            assert(acc.storage.union_prefer_right(pairs_map(s@.take(0))) =~= acc.storage);
            assert(m0.insert(*address, acc) =~= m0);
        }
        let mut j: usize = 0;
        while j < s.len()
            invariant
                0 <= j <= s@.len(),
                m0.contains_key(*address),
                acc == m0[*address],
                self.read_only() == old(self).read_only(),
                self.forced() == old(self).forced(),
                m0 == old(self).accounts(),
                self.accounts() == m0.insert(
                    *address,
                    AccountModel {
                        storage: acc.storage.union_prefer_right(pairs_map(s@.take(j as int))),
                        marker: marker_after_writes(acc.marker, j > 0),
                        ..acc
                    },
                ),
            decreases s@.len() - j,
        {
            let (slot, value) = s[j];
            self.write_slot(address, slot, value);
            proof {
                assert(s@.take(j as int + 1).drop_last() =~= s@.take(j as int));
                assert(acc.storage.union_prefer_right(pairs_map(s@.take(j as int + 1))) =~= acc.storage.union_prefer_right(
                    pairs_map(s@.take(j as int)),
                ).insert(slot, value));
                assert(self.accounts() =~= m0.insert(
                    *address,
                    AccountModel {
                        storage: acc.storage.union_prefer_right(pairs_map(s@.take(j as int + 1))),
                        marker: marker_after_writes(acc.marker, true),
                        ..acc
                    },
                ));
            }
            j = j + 1;
        }
        proof {
            assert(s@.take(s@.len() as int) =~= s@);
        }
    }

    /// Seeds the mirror with a state update: each account's balance and nonce
    /// are replaced outright (absent ones as zero), its code unless the
    /// update's is absent or shorter than two bytes, and its slots are added,
    /// whatever the layering policy or read-only cells say.
    pub fn add_state(&mut self, state: &GethStateUpdate)
        ensures
            final(self).accounts() == seeded_entries(old(self).accounts(), state@),
            final(self).read_only() == old(self).read_only(),
            final(self).forced() == old(self).forced(),
    {
        let ghost es = state@;
        let mut i: usize = 0;
        while i < state.len()
            invariant
                0 <= i <= es.len(),
                es == state@,
                self.read_only() == old(self).read_only(),
                self.forced() == old(self).forced(),
                self.accounts() == seeded_entries(old(self).accounts(), es.take(i as int)),
            decreases es.len() - i,
        {
            let entry = state.entry(i);
            let balance = match entry.1.balance {
                Some(b) => b,
                None => Word::zero(),
            };
            let nonce = match entry.1.nonce {
                Some(n) => n,
                None => 0,
            };
            let current = match db_account(&self.state_db, &entry.0) {
                Some(acc) => acc.code,
                None => {
                    let empty: Vec<u8> = Vec::new();
                    proof {
                        assert(empty@ =~= Seq::<u8>::empty());
                    }
                    Some(empty)
                },
            };
            let code = match &entry.1.code {
                Some(c) => if c.len() < 2 {
                    current
                } else {
                    Some(c.clone())
                },
                None => current,
            };
            proof {
                let base = if self.accounts().contains_key(entry.0) {
                    self.accounts()[entry.0]
                } else {
                    fresh_account(AccountMarker::Untouched)
                };
                assert(code_view(code) == kept_code(base.code, code_view(entry.1.code)));
            }
            db_set_info(&mut self.state_db, &entry.0, balance, nonce, code);
            self.insert_slots(&entry.0, &entry.1.storage);
            proof {
                assert(es.take(i as int + 1).drop_last() =~= es.take(i as int));
                assert(self.accounts() =~= seeded_entries(old(self).accounts(), es.take(i as int + 1)));
            }
            i = i + 1;
        }
        proof {
            assert(es.take(es.len() as int) =~= es);
        }
    }

    /// Merges another database into the mirror: accounts it lacks are copied
    /// with their info, and every slot of the other database whose value
    /// differs here is overwritten.
    pub fn merge_db(&mut self, other: &InMemoryDB)
        ensures
            final(self).accounts() == merged(old(self).accounts(), db_accounts(*other)),
            final(self).read_only() == old(self).read_only(),
            final(self).forced() == old(self).forced(),
    {
        let ghost m = self.accounts();
        let ghost o = db_accounts(*other);
        let addrs = db_addresses(other);
        let mut i: usize = 0;
        while i < addrs.len()
            invariant
                0 <= i <= addrs@.len(),
                addrs@.no_duplicates(),
                forall|a: Address| addrs@.contains(a) <==> o.contains_key(a),
                o == db_accounts(*other),
                m == old(self).accounts(),
                self.read_only() == old(self).read_only(),
                self.forced() == old(self).forced(),
                self.accounts() == Map::new(
                    |a: Address| m.contains_key(a) || (o.contains_key(a) && addrs@.take(i as int).contains(a)),
                    |a: Address| if o.contains_key(a) && addrs@.take(i as int).contains(a) {
                        merged_account(m, a, o[a])
                    } else {
                        m[a]
                    },
                ),
            decreases addrs@.len() - i,
        {
            let a = addrs[i];
            let ghost pre = self.accounts();
            proof {
                assert(addrs@.contains(a));
                assert(!addrs@.take(i as int).contains(a)) by {
                    if addrs@.take(i as int).contains(a) {
                        let j = choose|j: int| 0 <= j < i && addrs@.take(i as int)[j] == a;
                        assert(addrs@[j] == addrs@[i as int]);
                    }
                }
            }
            let acc = db_account(other, &a).unwrap();
            if !self.is_account(&a) {
                db_set_info(&mut self.state_db, &a, acc.balance, acc.nonce, acc.code);
            }
            let ghost before = self.accounts();
            let ghost base = self.accounts()[a];
            proof {
                assert(base == AccountModel { storage: base.storage, marker: base.marker, ..merged_account(m, a, o[a]) });
                assert(base.storage.union_prefer_right(pairs_map(acc.storage@.take(0))) =~= base.storage);
                assert(before.insert(a, base) =~= before);
            }
            let mut wrote = false;
            let mut j: usize = 0;
            while j < acc.storage.len()
                invariant
                    0 <= j <= acc.storage@.len(),
                    keys_distinct(acc.storage@),
                    o.contains_key(a),
                    before.contains_key(a),
                    pairs_map(acc.storage@) == o[a].storage,
                    self.read_only() == old(self).read_only(),
                    self.forced() == old(self).forced(),
                    wrote == exists|q: int| 0 <= q < j && pair_differs(base.storage, #[trigger] acc.storage@[q]),
                    self.accounts() == before.insert(
                        a,
                        AccountModel {
                            storage: base.storage.union_prefer_right(pairs_map(acc.storage@.take(j as int))),
                            marker: marker_after_writes(base.marker, wrote),
                            ..base
                        },
                    ),
                decreases acc.storage@.len() - j,
            {
                let (cell, value) = acc.storage[j];
                let held = db_slot(&self.state_db, &a, &cell);
                let same = match held {
                    Some(v) => v == value,
                    None => false,
                };
                let ghost cur = base.storage.union_prefer_right(pairs_map(acc.storage@.take(j as int)));
                let ghost mk = marker_after_writes(base.marker, wrote);
                proof {
                    let t0 = acc.storage@.take(j as int);
                    lemma_pairs_map_keys(t0);
                    assert(!pairs_map(t0).contains_key(cell)) by {
                        if pairs_map(t0).contains_key(cell) {
                            let q = choose|q: int| 0 <= q < t0.len() && t0[q].0 == cell;
                            assert(acc.storage@[q].0 != acc.storage@[j as int].0);
                        }
                    }
                    assert(!same == pair_differs(base.storage, acc.storage@[j as int]));
                }
                if !same {
                    self.write_slot(&a, cell, value);
                    wrote = true;
                } else {
                    proof {
                        assert(cur.insert(cell, value) =~= cur);
                        assert(before.insert(a, AccountModel { storage: cur, marker: mk, ..base }).insert(
                            a,
                            AccountModel { storage: cur.insert(cell, value), marker: mk, ..base },
                        ) =~= before.insert(a, AccountModel { storage: cur, marker: mk, ..base }));
                    }
                }
                proof {
                    let t0 = acc.storage@.take(j as int);
                    assert(acc.storage@.take(j as int + 1).drop_last() =~= t0);
                    assert(base.storage.union_prefer_right(pairs_map(acc.storage@.take(j as int + 1))) =~= base.storage.union_prefer_right(
                        pairs_map(t0),
                    ).insert(cell, value));
                    assert(wrote == exists|q: int| 0 <= q < j + 1 && pair_differs(base.storage, #[trigger] acc.storage@[q]));
                    assert(self.accounts() =~= before.insert(
                        a,
                        AccountModel {
                            storage: base.storage.union_prefer_right(pairs_map(acc.storage@.take(j as int + 1))),
                            marker: marker_after_writes(base.marker, wrote),
                            ..base
                        },
                    ));
                }
                j = j + 1;
            }
            proof {
                assert(acc.storage@.take(acc.storage@.len() as int) =~= acc.storage@);
                let st = acc.storage@;
                lemma_pairs_map_keys(st);
                let om = o[a].storage;
                let bm = base.storage;
                assert(pairs_map(st) == om);
                assert(wrote == merge_writes(bm, om)) by {
                    if wrote {
                        let q = choose|q: int| 0 <= q < st.len() && pair_differs(bm, #[trigger] st[q]);
                        lemma_pairs_map_hit(st, q);
                        assert(om.contains_key(st[q].0) && !(bm.contains_key(st[q].0) && bm[st[q].0] == om[st[q].0]));
                    }
                    if merge_writes(bm, om) {
                        let k = choose|k: Word| om.contains_key(k) && !(bm.contains_key(k) && bm[k] == om[k]);
                        assert(om.contains_key(k));
                        assert(pairs_map(st).contains_key(k));
                        assert(exists|q: int| 0 <= q < st.len() && st[q].0 == k);
                        let q = choose|q: int| 0 <= q < st.len() && st[q].0 == k;
                        lemma_pairs_map_hit(st, q);
                        assert(pair_differs(bm, st[q]));
                    }
                }
                let t1 = addrs@.take(i as int + 1);
                assert(t1 =~= addrs@.take(i as int).push(a));
                assert forall|x: Address| t1.contains(x) <==> (addrs@.take(i as int).contains(x) || x == a) by {
                    if t1.contains(x) {
                        let j = choose|j: int| 0 <= j < t1.len() && t1[j] == x;
                        if j < i {
                            assert(addrs@.take(i as int)[j] == x);
                        }
                    }
                    if addrs@.take(i as int).contains(x) {
                        let j = choose|j: int| 0 <= j < i && addrs@.take(i as int)[j] == x;
                        assert(t1[j] == x);
                    }
                    if x == a {
                        assert(t1[i as int] == x);
                    }
                }
                assert(self.accounts() =~= Map::new(
                    |x: Address| m.contains_key(x) || (o.contains_key(x) && t1.contains(x)),
                    |x: Address| if o.contains_key(x) && t1.contains(x) {
                        merged_account(m, x, o[x])
                    } else {
                        m[x]
                    },
                ));
            }
            i = i + 1;
        }
        proof {
            assert(addrs@.take(addrs@.len() as int) =~= addrs@);
            assert(self.accounts() =~= merged(m, o));
        }
    }

    /// The addresses the database holds, each once.
    pub fn account_addresses(&self) -> (r: Vec<Address>)
        ensures
            r@.no_duplicates(),
            forall|a: Address| r@.contains(a) <==> self.accounts().contains_key(a),
    {
        db_addresses(&self.state_db)
    }

    /// The slots the database holds for `address`, each once.
    pub fn account_slots(&self, address: &Address) -> (r: Vec<Word>)
        ensures
            self.accounts().contains_key(*address) ==> forall|k: Word|
                r@.contains(k) <==> self.accounts()[*address].storage.contains_key(k),
            !self.accounts().contains_key(*address) ==> r@.len() == 0,
    {
        match db_account(&self.state_db, address) {
            Some(acc) => {
                let mut r: Vec<Word> = Vec::new();
                let mut i: usize = 0;
                while i < acc.storage.len()
                    invariant
                        0 <= i <= acc.storage@.len(),
                        r@.len() == i,
                        forall|j: int| 0 <= j < i ==> r@[j] == acc.storage@[j].0,
                    decreases acc.storage@.len() - i,
                {
                    r.push(acc.storage[i].0);
                    i = i + 1;
                }
                proof {
                    lemma_pairs_map_keys(acc.storage@);
                    assert forall|k: Word| r@.contains(k) <==> pairs_map(acc.storage@).contains_key(k) by {
                        if r@.contains(k) {
                            let j = choose|j: int| 0 <= j < r@.len() && r@[j] == k;
                            assert(acc.storage@[j].0 == k);
                        }
                        if pairs_map(acc.storage@).contains_key(k) {
                            let j = choose|j: int| 0 <= j < acc.storage@.len() && acc.storage@[j].0 == k;
                            assert(r@[j] == k);
                        }
                    }
                }
                r
            },
            None => Vec::new(),
        }
    }

    /// Takes what was read back from the node for `address`: the balance,
    /// when it was read, and fresh values of slots; only slots the database
    /// already holds are overwritten. The account is loaded first.
    pub fn refresh_account(&mut self, address: &Address, balance: Option<Word>, cells: &Vec<(Word, Word)>)
        ensures
            final(self).accounts() == old(self).accounts().insert(
                *address,
                AccountModel {
                    balance: match balance {
                        Some(b) => b,
                        None => loaded(old(self).accounts(), *address).balance,
                    },
                    storage: loaded(old(self).accounts(), *address).storage.union_prefer_right(
                        pairs_map(cells@).restrict(loaded(old(self).accounts(), *address).storage.dom()),
                    ),
                    marker: marker_after_writes(
                        loaded(old(self).accounts(), *address).marker,
                        exists|q: int|
                            0 <= q < cells@.len() && loaded(old(self).accounts(), *address).storage.contains_key(
                                #[trigger] cells@[q].0,
                            ),
                    ),
                    ..loaded(old(self).accounts(), *address)
                },
            ),
            final(self).read_only() == old(self).read_only(),
            final(self).forced() == old(self).forced(),
    {
        db_load_account(&mut self.state_db, address);
        if let Some(b) = balance {
            let acc = db_account(&self.state_db, address).unwrap();
            db_set_info(&mut self.state_db, address, b, acc.nonce, acc.code);
        }
        let ghost m1 = self.accounts();
        let ghost acc = m1[*address];
        let ghost s0 = acc.storage;
        proof {
            assert(s0.union_prefer_right(pairs_map(cells@.take(0)).restrict(s0.dom())) =~= s0);
            assert(m1.insert(*address, acc) =~= m1);
        }
        let mut wrote = false;
        let mut j: usize = 0;
        while j < cells.len()
            invariant
                0 <= j <= cells@.len(),
                m1.contains_key(*address),
                acc == m1[*address],
                s0 == acc.storage,
                self.read_only() == old(self).read_only(),
                self.forced() == old(self).forced(),
                wrote == exists|q: int| 0 <= q < j && s0.contains_key(#[trigger] cells@[q].0),
                self.accounts() == m1.insert(
                    *address,
                    AccountModel {
                        storage: s0.union_prefer_right(pairs_map(cells@.take(j as int)).restrict(s0.dom())),
                        marker: marker_after_writes(acc.marker, wrote),
                        ..acc
                    },
                ),
            decreases cells@.len() - j,
        {
            let (cell, value) = cells[j];
            let ghost cur = s0.union_prefer_right(pairs_map(cells@.take(j as int)).restrict(s0.dom()));
            proof {
                assert(cur.dom() =~= s0.dom());
            }
            if db_slot(&self.state_db, address, &cell).is_some() {
                self.write_slot(address, cell, value);
                wrote = true;
            }
            proof {
                assert(cells@.take(j as int + 1).drop_last() =~= cells@.take(j as int));
                if s0.contains_key(cell) {
                    assert(s0.union_prefer_right(pairs_map(cells@.take(j as int + 1)).restrict(s0.dom())) =~= cur.insert(
                        cell,
                        value,
                    ));
                } else {
                    assert(s0.union_prefer_right(pairs_map(cells@.take(j as int + 1)).restrict(s0.dom())) =~= cur);
                }
                assert(wrote == exists|q: int| 0 <= q < j + 1 && s0.contains_key(#[trigger] cells@[q].0));
                assert(self.accounts() =~= m1.insert(
                    *address,
                    AccountModel {
                        storage: s0.union_prefer_right(pairs_map(cells@.take(j as int + 1)).restrict(s0.dom())),
                        marker: marker_after_writes(acc.marker, wrote),
                        ..acc
                    },
                ));
            }
            j = j + 1;
        }
        proof {
            assert(cells@.take(cells@.len() as int) =~= cells@);
            assert(self.accounts() =~= old(self).accounts().insert(
                *address,
                AccountModel {
                    balance: match balance {
                        Some(b) => b,
                        None => loaded(old(self).accounts(), *address).balance,
                    },
                    storage: loaded(old(self).accounts(), *address).storage.union_prefer_right(
                        pairs_map(cells@).restrict(loaded(old(self).accounts(), *address).storage.dom()),
                    ),
                    marker: marker_after_writes(loaded(old(self).accounts(), *address).marker, wrote),
                    ..loaded(old(self).accounts(), *address)
                },
            ));
        }
    }
}

/// The policy test of `info_applies`, computed.
pub fn info_applies_exec(marker: AccountMarker, insert: bool, only_new: bool) -> (r: bool)
    ensures
        r == info_applies(marker, insert, only_new),
{
    let unwritten = marker == AccountMarker::NotExisting || marker == AccountMarker::Untouched;
    let written = marker == AccountMarker::Touched || marker == AccountMarker::StorageCleared;
    insert || (only_new && unwritten) || (!only_new && written)
}

} // verus!
