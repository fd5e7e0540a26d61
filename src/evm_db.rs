//! The in-memory EVM database that backs the market-state mirror, seen
//! through a map from addresses to account records.
use vstd::prelude::*;

use crate::primitives::{Address, Word};
use crate::state_update::{keys_distinct, pairs_map};

verus! {

/// revm's `CacheDB`, held opaque; `db_accounts` names what it caches.
#[verifier::external_type_specification]
#[verifier::external_body]
#[verifier::reject_recursive_types(ExtDB)]
pub struct ExCacheDB<ExtDB>(revm::db::CacheDB<ExtDB>);

/// revm's `EmptyDB`, the backing store that holds nothing.
#[verifier::external_type_specification]
#[verifier::external_body]
#[verifier::reject_recursive_types(E)]
pub struct ExEmptyDBTyped<E>(revm::db::EmptyDBTyped<E>);

/// The cache database over an empty backing store.
pub type InMemoryDB = revm::db::CacheDB<revm::db::EmptyDBTyped<core::convert::Infallible>>;

/// How the EVM last left an account.
#[derive(Clone, Copy, Debug, PartialEq, Eq, Structural)]
pub enum AccountMarker {
    /// Known not to exist on chain.
    NotExisting,
    /// Written since it was loaded.
    Touched,
    /// Storage wiped; missing slots read as zero.
    StorageCleared,
    /// Loaded and never written.
    Untouched,
}

/// What the database holds for one account.
pub struct AccountModel {
    pub balance: Word,
    pub nonce: u64,
    pub code: Option<Seq<u8>>,
    pub marker: AccountMarker,
    pub storage: Map<Word, Word>,
}

/// The accounts that an in-memory database caches, by address.
pub uninterp spec fn db_accounts(db: InMemoryDB) -> Map<Address, AccountModel>;

/// The record the database creates for an account it has not seen: zero
/// balance and nonce, the empty program, no storage.
pub open spec fn fresh_account(marker: AccountMarker) -> AccountModel {
    AccountModel {
        balance: Word { l0: 0, l1: 0, l2: 0, l3: 0 },
        nonce: 0,
        code: Some(Seq::empty()),
        marker,
        storage: Map::empty(),
    }
}

pub open spec fn code_view(c: Option<Vec<u8>>) -> Option<Seq<u8>> {
    match c {
        Some(v) => Some(v@),
        None => None,
    }
}

/// A copy of one account's info and storage.
pub struct AccountSnapshot {
    pub balance: Word,
    pub nonce: u64,
    pub code: Option<Vec<u8>>,
    pub storage: Vec<(Word, Word)>,
}

impl AccountSnapshot {
    /// The snapshot is a faithful copy of `m`.
    pub open spec fn copies(&self, m: AccountModel) -> bool {
        &&& self.balance == m.balance
        &&& self.nonce == m.nonce
        &&& code_view(self.code) == m.code
        &&& keys_distinct(self.storage@)
        &&& pairs_map(self.storage@) == m.storage
    }
}

/// Relies on `CacheDB::new` over an `EmptyDB`: it starts with no cached account.
#[verifier::external_body]
pub(crate) fn db_new() -> (r: InMemoryDB)
    ensures
        db_accounts(r).dom().is_empty(),
{
    revm::db::CacheDB::new(revm::db::EmptyDB::default())
}

/// Relies on `HashMap::keys` over `CacheDB::accounts`: each cached address once.
#[verifier::external_body]
pub(crate) fn db_addresses(db: &InMemoryDB) -> (r: Vec<Address>)
    ensures
        r@.no_duplicates(),
        forall|a: Address| r@.contains(a) <==> db_accounts(*db).contains_key(a),
{
    db.accounts.keys().map(|k| Address { bytes: k.0.0 }).collect()
}

/// Relies on `HashMap::get` over `CacheDB::accounts`: the marker of a cached account.
#[verifier::external_body]
pub(crate) fn db_marker(db: &InMemoryDB, a: &Address) -> (r: Option<AccountMarker>)
    ensures
        r is Some <==> db_accounts(*db).contains_key(*a),
        r is Some ==> r->0 == db_accounts(*db)[*a].marker,
{
    match db.accounts.get(&revm::primitives::Address::new(a.bytes)).map(|x| &x.account_state) {
        Some(revm::db::AccountState::NotExisting) => Some(AccountMarker::NotExisting),
        Some(revm::db::AccountState::Touched) => Some(AccountMarker::Touched),
        Some(revm::db::AccountState::StorageCleared) => Some(AccountMarker::StorageCleared),
        Some(revm::db::AccountState::None) => Some(AccountMarker::Untouched),
        None => None,
    }
}

/// Relies on `HashMap::get` over a cached account's storage: the value held in a slot.
#[verifier::external_body]
pub(crate) fn db_slot(db: &InMemoryDB, a: &Address, slot: &Word) -> (r: Option<Word>)
    ensures
        r is Some <==> (db_accounts(*db).contains_key(*a) && db_accounts(
            *db,
        )[*a].storage.contains_key(*slot)),
        r is Some ==> r->0 == db_accounts(*db)[*a].storage[*slot],
{
    let key = revm::primitives::U256::from_limbs([slot.l0, slot.l1, slot.l2, slot.l3]);
    let acc = db.accounts.get(&revm::primitives::Address::new(a.bytes));
    match acc.and_then(|x| x.storage.get(&key)).map(|v| v.into_limbs()) {
        Some(l) => Some(Word { l0: l[0], l1: l[1], l2: l[2], l3: l[3] }),
        None => None,
    }
}

/// Relies on `HashMap::get` over `CacheDB::accounts`: a copy of a cached
/// account's info (the code as its original bytes) and storage.
#[verifier::external_body]
pub(crate) fn db_account(db: &InMemoryDB, a: &Address) -> (r: Option<AccountSnapshot>)
    ensures
        r is Some <==> db_accounts(*db).contains_key(*a),
        r is Some ==> r->0.copies(db_accounts(*db)[*a]),
{
    let acc = db.accounts.get(&revm::primitives::Address::new(a.bytes))?;
    let word = |v: &revm::primitives::U256| {
        let l = v.into_limbs();
        Word { l0: l[0], l1: l[1], l2: l[2], l3: l[3] }
    };
    Some(AccountSnapshot {
        balance: word(&acc.info.balance),
        nonce: acc.info.nonce,
        code: acc.info.code.as_ref().map(|c| c.original_bytes().to_vec()),
        storage: acc.storage.iter().map(|(k, v)| (word(k), word(v))).collect(),
    })
}

/// Relies on `CacheDB::load_account` over an `EmptyDB`: an address not yet
/// cached is cached as not existing, with default info and no storage.
#[verifier::external_body]
pub(crate) fn db_load_account(db: &mut InMemoryDB, a: &Address)
    ensures
        db_accounts(*final(db)) == (if db_accounts(*old(db)).contains_key(*a) {
            db_accounts(*old(db))
        } else {
            db_accounts(*old(db)).insert(*a, fresh_account(AccountMarker::NotExisting))
        }),
{
    let _ = db.load_account(revm::primitives::Address::new(a.bytes));
}

/// Relies on `CacheDB::insert_account_info`: it replaces balance, nonce and
/// code and keeps marker and storage; an address not yet cached gets a new
/// untouched record with no storage.
#[verifier::external_body]
pub(crate) fn db_set_info(db: &mut InMemoryDB, a: &Address, balance: Word, nonce: u64, code: Option<Vec<u8>>)
    ensures
        db_accounts(*final(db)) == db_accounts(*old(db)).insert(
            *a,
            (AccountModel {
                balance,
                nonce,
                code: code_view(code),
                ..(if db_accounts(*old(db)).contains_key(*a) {
                    db_accounts(*old(db))[*a]
                } else {
                    fresh_account(AccountMarker::Untouched)
                })
            }),
        ),
{
    let info = revm::primitives::AccountInfo {
        balance: revm::primitives::U256::from_limbs([balance.l0, balance.l1, balance.l2, balance.l3]),
        nonce,
        code_hash: revm::primitives::KECCAK_EMPTY,
        code: code.map(|c| revm::primitives::Bytecode::new_raw(c.into())),
    };
    db.insert_account_info(revm::primitives::Address::new(a.bytes), info);
}

/// Relies on `CacheDB::load_account`: the marker of the cached account,
/// cached first as not existing if it was missing, is set.
#[verifier::external_body]
pub(crate) fn db_set_marker(db: &mut InMemoryDB, a: &Address, marker: AccountMarker)
    ensures
        db_accounts(*final(db)) == db_accounts(*old(db)).insert(
            *a,
            (AccountModel {
                marker,
                ..(if db_accounts(*old(db)).contains_key(*a) {
                    db_accounts(*old(db))[*a]
                } else {
                    fresh_account(AccountMarker::NotExisting)
                })
            }),
        ),
{
    if let Ok(acc) = db.load_account(revm::primitives::Address::new(a.bytes)) {
        acc.account_state = match marker {
            AccountMarker::NotExisting => revm::db::AccountState::NotExisting,
            AccountMarker::Touched => revm::db::AccountState::Touched,
            AccountMarker::StorageCleared => revm::db::AccountState::StorageCleared,
            AccountMarker::Untouched => revm::db::AccountState::None,
        };
    }
}

/// Relies on `CacheDB::insert_account_storage`: the slot is set, the account
/// being cached first as not existing if it was missing.
#[verifier::external_body]
pub(crate) fn db_insert_storage(db: &mut InMemoryDB, a: &Address, slot: Word, value: Word)
    ensures
        db_accounts(*final(db)) == ({
            let acc = if db_accounts(*old(db)).contains_key(*a) {
                db_accounts(*old(db))[*a]
            } else {
                fresh_account(AccountMarker::NotExisting)
            };
            db_accounts(*old(db)).insert(
                *a,
                AccountModel { storage: acc.storage.insert(slot, value), ..acc },
            )
        }),
{
    let _ = db.insert_account_storage(
        revm::primitives::Address::new(a.bytes),
        revm::primitives::U256::from_limbs([slot.l0, slot.l1, slot.l2, slot.l3]),
        revm::primitives::U256::from_limbs([value.l0, value.l1, value.l2, value.l3]),
    );
}

} // verus!
