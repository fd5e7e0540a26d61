//! Laws of state application on the mirror.
use vstd::prelude::*;

use crate::evm_db::{AccountMarker, AccountModel};
use crate::market_state::{
    account_after, entries_after, info_after, loaded, slot_written, storage_after, updates_after,
};
use crate::primitives::{Address, Word};
use crate::state_update::{addresses_distinct, pairs_map, AccountDiff, GethStateUpdate};

verus! {

/// The value held in slot `k` of account `a`, if any.
pub open spec fn slot_at(m: Map<Address, AccountModel>, a: Address, k: Word) -> Option<Word> {
    if m.contains_key(a) && m[a].storage.contains_key(k) {
        Some(m[a].storage[k])
    } else {
        None
    }
}

/// The storage after applying slot pairs, in closed form: each slot the
/// pairs name and the policy lets through takes the last value given for it.
pub proof fn lemma_storage_after_closed(
    a: Address,
    before: Map<Word, Word>,
    s: Seq<(Word, Word)>,
    read_only: Set<(Address, Word)>,
    insert: bool,
    only_new: bool,
)
    ensures
        storage_after(a, before, s, read_only, insert, only_new) == Map::new(
            |k: Word|
                before.contains_key(k) || (pairs_map(s).contains_key(k) && slot_written(
                    a,
                    k,
                    read_only,
                    before,
                    insert,
                    only_new,
                )),
            |k: Word|
                if pairs_map(s).contains_key(k) && slot_written(a, k, read_only, before, insert, only_new) {
                    pairs_map(s)[k]
                } else {
                    before[k]
                },
        ),
    decreases s.len(),
{
    if s.len() > 0 {
        lemma_storage_after_closed(a, before, s.drop_last(), read_only, insert, only_new);
    }
    assert(storage_after(a, before, s, read_only, insert, only_new) =~= Map::new(
        |k: Word|
            before.contains_key(k) || (pairs_map(s).contains_key(k) && slot_written(
                a,
                k,
                read_only,
                before,
                insert,
                only_new,
            )),
        |k: Word|
            if pairs_map(s).contains_key(k) && slot_written(a, k, read_only, before, insert, only_new) {
                pairs_map(s)[k]
            } else {
                before[k]
            },
    ));
}

/// Entries for other addresses leave `k` as it was.
pub proof fn lemma_entries_after_miss(
    m: Map<Address, AccountModel>,
    s: Seq<(Address, AccountDiff)>,
    read_only: Set<(Address, Word)>,
    forced: Set<Address>,
    insert: bool,
    only_new: bool,
    k: Address,
)
    requires
        forall|j: int| 0 <= j < s.len() ==> s[j].0 != k,
    ensures
        entries_after(m, s, read_only, forced, insert, only_new).contains_key(k) == m.contains_key(k),
        m.contains_key(k) ==> entries_after(m, s, read_only, forced, insert, only_new)[k] == m[k],
        loaded(entries_after(m, s, read_only, forced, insert, only_new), k) == loaded(m, k),
    decreases s.len(),
{
    if s.len() > 0 {
        lemma_entries_after_miss(m, s.drop_last(), read_only, forced, insert, only_new, k);
    }
}

/// The entry for an address decides that account alone, from its state before
/// the update.
pub proof fn lemma_entries_after_hit(
    m: Map<Address, AccountModel>,
    s: Seq<(Address, AccountDiff)>,
    read_only: Set<(Address, Word)>,
    forced: Set<Address>,
    insert: bool,
    only_new: bool,
    j: int,
)
    requires
        addresses_distinct(s),
        0 <= j < s.len(),
    ensures
        entries_after(m, s, read_only, forced, insert, only_new).contains_key(s[j].0),
        entries_after(m, s, read_only, forced, insert, only_new)[s[j].0] == account_after(
            loaded(m, s[j].0),
            s[j].0,
            s[j].1,
            read_only,
            insert || forced.contains(s[j].0),
            only_new,
        ),
    decreases s.len(),
{
    let k = s[j].0;
    if j == s.len() - 1 {
        assert forall|i: int| 0 <= i < s.drop_last().len() implies s.drop_last()[i].0 != k by {
            assert(s[i].0 != s[j].0);
        }
        lemma_entries_after_miss(m, s.drop_last(), read_only, forced, insert, only_new, k);
    } else {
        assert(addresses_distinct(s.drop_last()));
        assert(s.drop_last()[j] == s[j]);
        lemma_entries_after_hit(m, s.drop_last(), read_only, forced, insert, only_new, j);
        assert(s.last().0 != k);
    }
}


/// A list of one update applies its entries.
pub proof fn lemma_updates_after_one(
    m: Map<Address, AccountModel>,
    u: GethStateUpdate,
    read_only: Set<(Address, Word)>,
    forced: Set<Address>,
    insert: bool,
    only_new: bool,
)
    ensures
        updates_after(m, seq![u], read_only, forced, insert, only_new) == entries_after(m, u@, read_only, forced, insert, only_new),
{
    let us = seq![u];
    assert(us.drop_last() =~= Seq::<GethStateUpdate>::empty());
    assert(us.last() == u);
    assert(updates_after(m, us.drop_last(), read_only, forced, insert, only_new) == m);
}

/// A list of two updates applies the first one's entries, then the second's.
pub proof fn lemma_updates_after_two(
    m: Map<Address, AccountModel>,
    u1: GethStateUpdate,
    u2: GethStateUpdate,
    read_only: Set<(Address, Word)>,
    forced: Set<Address>,
    insert: bool,
    only_new: bool,
)
    ensures
        updates_after(m, seq![u1, u2], read_only, forced, insert, only_new) == entries_after(
            entries_after(m, u1@, read_only, forced, insert, only_new),
            u2@,
            read_only,
            forced,
            insert,
            only_new,
        ),
{
    let us = seq![u1, u2];
    assert(us.drop_last() =~= seq![u1]);
    assert(us.last() == u2);
    lemma_updates_after_one(m, u1, read_only, forced, insert, only_new);
}

/// Applying one account's diff a second time changes nothing, unless the
/// diff's info was skipped the first time because the account had not yet
/// been written by the EVM and neither `insert` nor `only_new` is set.
pub proof fn lemma_account_after_idempotent(
    acc: AccountModel,
    a: Address,
    d: AccountDiff,
    read_only: Set<(Address, Word)>,
    insert: bool,
    only_new: bool,
)
    requires
        insert || only_new || acc.marker == AccountMarker::Touched || acc.marker
            == AccountMarker::StorageCleared,
    ensures
        account_after(account_after(acc, a, d, read_only, insert, only_new), a, d, read_only, insert, only_new)
            == account_after(acc, a, d, read_only, insert, only_new),
{
    let acc1 = account_after(acc, a, d, read_only, insert, only_new);
    let acc2 = account_after(acc1, a, d, read_only, insert, only_new);
    let i1 = info_after(acc, d, insert, only_new);
    let i2 = info_after(acc1, d, insert, only_new);
    lemma_storage_after_closed(a, i1.storage, d.storage@, read_only, insert, only_new);
    lemma_storage_after_closed(a, i2.storage, d.storage@, read_only, insert, only_new);
    assert(i2.storage == acc1.storage);
    assert(acc2.storage =~= acc1.storage);
}

/// Applying the same update twice yields the state that applying it once
/// yields, under `insert` or `only_new`; with neither flag, for each account
/// the update names that is forced, or already held and marked as written by
/// the EVM.
pub proof fn lemma_apply_idempotent(
    m: Map<Address, AccountModel>,
    u: GethStateUpdate,
    read_only: Set<(Address, Word)>,
    forced: Set<Address>,
    insert: bool,
    only_new: bool,
)
    requires
        u.wf(),
        insert || only_new || forall|j: int|
            0 <= j < u@.len() ==> forced.contains(#[trigger] u@[j].0) || (m.contains_key(u@[j].0) && (
            m[u@[j].0].marker == AccountMarker::Touched || m[u@[j].0].marker == AccountMarker::StorageCleared)),
    ensures
        updates_after(m, seq![u, u], read_only, forced, insert, only_new) == updates_after(
            m,
            seq![u],
            read_only,
            forced,
            insert,
            only_new,
        ),
{
    let s = u@;
    assert(seq![u, u].drop_last() =~= seq![u]);
    assert(seq![u].drop_last() =~= Seq::<GethStateUpdate>::empty());
    let e1 = entries_after(m, s, read_only, forced, insert, only_new);
    let e2 = entries_after(e1, s, read_only, forced, insert, only_new);
    lemma_updates_after_one(m, u, read_only, forced, insert, only_new);
    lemma_updates_after_two(m, u, u, read_only, forced, insert, only_new);
    assert(updates_after(m, seq![u], read_only, forced, insert, only_new) == e1);
    assert(updates_after(m, seq![u, u], read_only, forced, insert, only_new) == e2);
    assert forall|k: Address| #[trigger] e2.dom().contains(k) == e1.dom().contains(k) && (e1.dom().contains(k) ==> e2[k]
        == e1[k]) by {
        if exists|j: int| 0 <= j < s.len() && s[j].0 == k {
            let j = choose|j: int| 0 <= j < s.len() && s[j].0 == k;
            lemma_entries_after_hit(m, s, read_only, forced, insert, only_new, j);
            lemma_entries_after_hit(e1, s, read_only, forced, insert, only_new, j);
            lemma_account_after_idempotent(loaded(m, k), k, s[j].1, read_only, insert || forced.contains(k), only_new);
        } else {
            lemma_entries_after_miss(m, s, read_only, forced, insert, only_new, k);
            lemma_entries_after_miss(e1, s, read_only, forced, insert, only_new, k);
        }
    }
    assert(e2.dom() =~= e1.dom());
    assert forall|k: Address| e1.dom().contains(k) implies #[trigger] e2[k] == e1[k] by {
        assert(e2.dom().contains(k) == e1.dom().contains(k));
    }
    assert(e2 =~= e1);
}

/// Two updates that name disjoint sets of accounts give the same state in
/// either order.
pub proof fn lemma_disjoint_updates_commute(
    m: Map<Address, AccountModel>,
    u1: GethStateUpdate,
    u2: GethStateUpdate,
    read_only: Set<(Address, Word)>,
    forced: Set<Address>,
    insert: bool,
    only_new: bool,
)
    requires
        u1.wf(),
        u2.wf(),
        forall|i: int, j: int| 0 <= i < u1@.len() && 0 <= j < u2@.len() ==> u1@[i].0 != u2@[j].0,
    ensures
        updates_after(m, seq![u1, u2], read_only, forced, insert, only_new) == updates_after(
            m,
            seq![u2, u1],
            read_only,
            forced,
            insert,
            only_new,
        ),
{
    let s1 = u1@;
    let s2 = u2@;
    assert(seq![u1, u2].drop_last() =~= seq![u1]);
    assert(seq![u2, u1].drop_last() =~= seq![u2]);
    assert(seq![u1].drop_last() =~= Seq::<GethStateUpdate>::empty());
    assert(seq![u2].drop_last() =~= Seq::<GethStateUpdate>::empty());
    let a1 = entries_after(m, s1, read_only, forced, insert, only_new);
    let a2 = entries_after(m, s2, read_only, forced, insert, only_new);
    let l = entries_after(a1, s2, read_only, forced, insert, only_new);
    let r = entries_after(a2, s1, read_only, forced, insert, only_new);
    lemma_updates_after_two(m, u1, u2, read_only, forced, insert, only_new);
    lemma_updates_after_two(m, u2, u1, read_only, forced, insert, only_new);
    assert(updates_after(m, seq![u1, u2], read_only, forced, insert, only_new) == l);
    assert(updates_after(m, seq![u2, u1], read_only, forced, insert, only_new) == r);
    assert forall|k: Address| #[trigger] l.dom().contains(k) == r.dom().contains(k) && (l.dom().contains(k) ==> l[k] == r[k]) by {
        if exists|j: int| 0 <= j < s1.len() && s1[j].0 == k {
            let j = choose|j: int| 0 <= j < s1.len() && s1[j].0 == k;
            assert forall|i: int| 0 <= i < s2.len() implies s2[i].0 != k by {
                assert(s1[j].0 != s2[i].0);
            }
            lemma_entries_after_hit(m, s1, read_only, forced, insert, only_new, j);
            lemma_entries_after_miss(a1, s2, read_only, forced, insert, only_new, k);
            lemma_entries_after_miss(m, s2, read_only, forced, insert, only_new, k);
            lemma_entries_after_hit(a2, s1, read_only, forced, insert, only_new, j);
        } else if exists|j: int| 0 <= j < s2.len() && s2[j].0 == k {
            let j = choose|j: int| 0 <= j < s2.len() && s2[j].0 == k;
            lemma_entries_after_hit(m, s2, read_only, forced, insert, only_new, j);
            lemma_entries_after_miss(a2, s1, read_only, forced, insert, only_new, k);
            lemma_entries_after_miss(m, s1, read_only, forced, insert, only_new, k);
            lemma_entries_after_hit(a1, s2, read_only, forced, insert, only_new, j);
        } else {
            lemma_entries_after_miss(m, s1, read_only, forced, insert, only_new, k);
            lemma_entries_after_miss(a1, s2, read_only, forced, insert, only_new, k);
            lemma_entries_after_miss(m, s2, read_only, forced, insert, only_new, k);
            lemma_entries_after_miss(a2, s1, read_only, forced, insert, only_new, k);
        }
    }
    assert(l.dom() =~= r.dom());
    assert forall|k: Address| l.dom().contains(k) implies #[trigger] l[k] == r[k] by {
        assert(l.dom().contains(k) == r.dom().contains(k));
    }
    assert(l =~= r);
}

/// A read-only cell keeps its storage while slot pairs are applied.
pub proof fn lemma_storage_after_read_only(
    a: Address,
    before: Map<Word, Word>,
    s: Seq<(Word, Word)>,
    read_only: Set<(Address, Word)>,
    insert: bool,
    only_new: bool,
    k: Word,
)
    requires
        read_only.contains((a, k)),
    ensures
        storage_after(a, before, s, read_only, insert, only_new).contains_key(k) == before.contains_key(k),
        before.contains_key(k) ==> storage_after(a, before, s, read_only, insert, only_new)[k] == before[k],
    decreases s.len(),
{
    if s.len() > 0 {
        lemma_storage_after_read_only(a, before, s.drop_last(), read_only, insert, only_new, k);
    }
}

/// A read-only cell keeps its value across the entries of an update.
pub proof fn lemma_entries_keep_read_only(
    m: Map<Address, AccountModel>,
    s: Seq<(Address, AccountDiff)>,
    read_only: Set<(Address, Word)>,
    forced: Set<Address>,
    insert: bool,
    only_new: bool,
    a: Address,
    k: Word,
)
    requires
        read_only.contains((a, k)),
    ensures
        slot_at(entries_after(m, s, read_only, forced, insert, only_new), a, k) == slot_at(m, a, k),
    decreases s.len(),
{
    if s.len() > 0 {
        let prev = entries_after(m, s.drop_last(), read_only, forced, insert, only_new);
        lemma_entries_keep_read_only(m, s.drop_last(), read_only, forced, insert, only_new, a, k);
        let (b, d) = s.last();
        if b == a {
            let i = info_after(loaded(prev, a), d, insert || forced.contains(a), only_new);
            lemma_storage_after_read_only(a, i.storage, d.storage@, read_only, insert || forced.contains(a), only_new, k);
        }
    }
}

/// Every read-only cell holds, after any sequence of state updates, the value
/// it held before them (or stays absent).
pub proof fn lemma_read_only_cells_kept(
    m: Map<Address, AccountModel>,
    us: Seq<GethStateUpdate>,
    read_only: Set<(Address, Word)>,
    forced: Set<Address>,
    insert: bool,
    only_new: bool,
    a: Address,
    k: Word,
)
    requires
        read_only.contains((a, k)),
    ensures
        slot_at(updates_after(m, us, read_only, forced, insert, only_new), a, k) == slot_at(m, a, k),
    decreases us.len(),
{
    if us.len() > 0 {
        lemma_read_only_cells_kept(m, us.drop_last(), read_only, forced, insert, only_new, a, k);
        lemma_entries_keep_read_only(
            updates_after(m, us.drop_last(), read_only, forced, insert, only_new),
            us.last()@,
            read_only,
            forced,
            insert,
            only_new,
            a,
            k,
        );
    }
}

/// The order of an update's entries does not matter: two lists of the same
/// entries, each naming every address once, give the same accounts.
pub proof fn lemma_entry_order_irrelevant(
    m: Map<Address, AccountModel>,
    s1: Seq<(Address, AccountDiff)>,
    s2: Seq<(Address, AccountDiff)>,
    read_only: Set<(Address, Word)>,
    forced: Set<Address>,
    insert: bool,
    only_new: bool,
)
    requires
        addresses_distinct(s1),
        addresses_distinct(s2),
        forall|e: (Address, AccountDiff)| s1.contains(e) <==> s2.contains(e),
    ensures
        entries_after(m, s1, read_only, forced, insert, only_new) == entries_after(
            m,
            s2,
            read_only,
            forced,
            insert,
            only_new,
        ),
{
    let l = entries_after(m, s1, read_only, forced, insert, only_new);
    let r = entries_after(m, s2, read_only, forced, insert, only_new);
    assert forall|k: Address| #[trigger] l.dom().contains(k) == r.dom().contains(k) && (l.dom().contains(k) ==> l[k]
        == r[k]) by {
        if exists|j: int| 0 <= j < s1.len() && s1[j].0 == k {
            let j = choose|j: int| 0 <= j < s1.len() && s1[j].0 == k;
            assert(s1.contains(s1[j]));
            let j2 = choose|j2: int| 0 <= j2 < s2.len() && s2[j2] == s1[j];
            lemma_entries_after_hit(m, s1, read_only, forced, insert, only_new, j);
            lemma_entries_after_hit(m, s2, read_only, forced, insert, only_new, j2);
        } else if exists|j: int| 0 <= j < s2.len() && s2[j].0 == k {
            let j = choose|j: int| 0 <= j < s2.len() && s2[j].0 == k;
            assert(s2.contains(s2[j]));
            let j1 = choose|j1: int| 0 <= j1 < s1.len() && s1[j1] == s2[j];
            assert(s1[j1].0 == k);
        } else {
            lemma_entries_after_miss(m, s1, read_only, forced, insert, only_new, k);
            lemma_entries_after_miss(m, s2, read_only, forced, insert, only_new, k);
        }
    }
    assert(l.dom() =~= r.dom());
    assert forall|k: Address| l.dom().contains(k) implies #[trigger] l[k] == r[k] by {
        assert(l.dom().contains(k) == r.dom().contains(k));
    }
    assert(l =~= r);
}

} // verus!
