use loom_core::evm_db::AccountMarker;
use loom_core::market_state::MarketState;
use loom_core::primitives::{Address, Word};
use loom_core::state_update::{AccountDiff, GethStateUpdate};

fn w(x: u64) -> Word {
    Word::from_u64(x)
}

fn diff(balance: Option<u64>, slots: &[(u64, u64)]) -> AccountDiff {
    let mut d = AccountDiff::new(balance.map(w), None, None);
    for (k, v) in slots {
        d.set_slot(w(*k), w(*v));
    }
    d
}

fn single(a: Address, d: AccountDiff) -> Vec<GethStateUpdate> {
    let mut u = GethStateUpdate::new();
    u.insert(a, d);
    vec![u]
}

fn balance(m: &MarketState, a: &Address) -> Word {
    m.account(a).unwrap().balance
}

#[test]
fn mirror_update_layering() {
    let a = Address::with_last_byte(0x0a);
    let mut m = MarketState::empty();
    // account 0xA with balance 100 and slot 1 = 10, as the EVM left it
    m.apply_state_update(&single(a, diff(Some(100), &[(1, 10)])), true, false);
    assert_eq!(balance(&m, &a), w(100));
    assert_eq!(m.storage_value(&a, &w(1)), Some(w(10)));
    assert_eq!(m.account_marker(&a), Some(AccountMarker::Touched));

    let update = single(a, diff(Some(200), &[(1, 20), (2, 30)]));
    // neither flag: info of a touched account is taken, only held slots change
    m.apply_state_update(&update, false, false);
    assert_eq!(balance(&m, &a), w(200));
    assert_eq!(m.storage_value(&a, &w(1)), Some(w(20)));
    assert_eq!(m.storage_value(&a, &w(2)), None);

    // only_new: the touched account's info is kept, the new slot is added
    m.apply_state_update(&update, false, true);
    assert_eq!(balance(&m, &a), w(200));
    assert_eq!(m.storage_value(&a, &w(1)), Some(w(20)));
    assert_eq!(m.storage_value(&a, &w(2)), Some(w(30)));

    // and once more changes nothing
    m.apply_state_update(&update, false, true);
    assert_eq!(balance(&m, &a), w(200));
    assert_eq!(m.storage_value(&a, &w(1)), Some(w(20)));
    assert_eq!(m.storage_value(&a, &w(2)), Some(w(30)));
}

#[test]
fn apply_skips_info_of_untouched_account_without_flags() {
    let a = Address::with_last_byte(1);
    let mut m = MarketState::empty();
    m.apply_state_update(&single(a, diff(Some(5), &[(1, 1)])), false, false);
    // loaded as not existing: info and new slots skipped, account now touched
    assert_eq!(balance(&m, &a), w(0));
    assert_eq!(m.storage_value(&a, &w(1)), None);
    assert_eq!(m.account_marker(&a), Some(AccountMarker::Touched));
}

#[test]
fn apply_only_new_seeds_missing_account() {
    let a = Address::with_last_byte(2);
    let mut m = MarketState::empty();
    m.apply_state_update(&single(a, diff(Some(7), &[(3, 4)])), false, true);
    assert_eq!(balance(&m, &a), w(7));
    assert_eq!(m.storage_value(&a, &w(3)), Some(w(4)));
}

#[test]
fn apply_twice_equals_once_under_insert() {
    let a = Address::with_last_byte(3);
    let b = Address::with_last_byte(4);
    let mut u = GethStateUpdate::new();
    u.insert(a, diff(Some(9), &[(1, 2), (5, 6)]));
    u.insert(b, diff(None, &[(7, 8)]));
    let us = vec![u];
    let mut once = MarketState::empty();
    once.apply_state_update(&us, true, false);
    let mut twice = MarketState::empty();
    twice.apply_state_update(&us, true, false);
    twice.apply_state_update(&us, true, false);
    for acc in [a, b] {
        assert_eq!(once.account(&acc).unwrap().balance, twice.account(&acc).unwrap().balance);
        for k in [1u64, 5, 7] {
            assert_eq!(once.storage_value(&acc, &w(k)), twice.storage_value(&acc, &w(k)));
        }
    }
    assert_eq!(once.accounts_len(), 2);
    assert_eq!(twice.accounts_len(), 2);
}

#[test]
fn disjoint_updates_commute() {
    let a = Address::with_last_byte(5);
    let b = Address::with_last_byte(6);
    let u1 = single(a, diff(Some(1), &[(1, 1)]));
    let u2 = single(b, diff(Some(2), &[(2, 2)]));
    let mut x = MarketState::empty();
    x.apply_state_update(&u1, true, false);
    x.apply_state_update(&u2, true, false);
    let mut y = MarketState::empty();
    y.apply_state_update(&u2, true, false);
    y.apply_state_update(&u1, true, false);
    for acc in [a, b] {
        assert_eq!(x.account(&acc).unwrap().balance, y.account(&acc).unwrap().balance);
        for k in [1u64, 2] {
            assert_eq!(x.storage_value(&acc, &w(k)), y.storage_value(&acc, &w(k)));
        }
    }
}

#[test]
fn read_only_cell_survives_updates() {
    let a = Address::with_last_byte(7);
    let mut m = MarketState::empty();
    m.apply_state_update(&single(a, diff(None, &[(1, 10), (2, 20)])), true, false);
    m.disable_cell(a, w(1));
    assert!(m.is_read_only_cell(&a, &w(1)));
    assert!(!m.is_read_only_cell(&a, &w(2)));
    let u = single(a, diff(None, &[(1, 11), (2, 21), (3, 31)]));
    m.apply_state_update(&u, true, false);
    m.apply_state_update(&u, false, false);
    m.apply_state_update(&u, false, true);
    assert_eq!(m.storage_value(&a, &w(1)), Some(w(10)));
    assert_eq!(m.storage_value(&a, &w(2)), Some(w(21)));
    assert_eq!(m.storage_value(&a, &w(3)), Some(w(31)));
}

#[test]
fn disable_cell_vec_marks_each_cell() {
    let a = Address::with_last_byte(8);
    let mut m = MarketState::empty();
    m.disable_cell_vec(a, vec![w(4), w(5)]);
    assert!(m.is_read_only_cell(&a, &w(4)));
    assert!(m.is_read_only_cell(&a, &w(5)));
    assert!(!m.is_read_only_cell(&a, &w(6)));
    assert!(!m.is_read_only_cell(&Address::with_last_byte(9), &w(4)));
}

#[test]
fn short_code_keeps_existing_code() {
    let a = Address::with_last_byte(10);
    let mut m = MarketState::empty();
    let with_code = AccountDiff::new(Some(w(1)), Some(3), Some(vec![0x60, 0x80, 0x60]));
    m.apply_state_update(&single(a, with_code), true, false);
    assert_eq!(m.account(&a).unwrap().code, Some(vec![0x60, 0x80, 0x60]));
    assert_eq!(m.account(&a).unwrap().nonce, 3);
    let short = AccountDiff::new(Some(w(2)), None, Some(vec![0x00]));
    m.apply_state_update(&single(a, short), true, false);
    let acc = m.account(&a).unwrap();
    assert_eq!(acc.code, Some(vec![0x60, 0x80, 0x60]));
    assert_eq!(acc.balance, w(2));
    assert_eq!(acc.nonce, 0);
}

#[test]
fn add_state_replaces_info_and_adds_slots() {
    let a = Address::with_last_byte(11);
    let mut m = MarketState::empty();
    let mut u = GethStateUpdate::new();
    u.insert(a, diff(Some(100), &[(1, 10)]));
    m.add_state(&u);
    assert_eq!(balance(&m, &a), w(100));
    assert_eq!(m.storage_value(&a, &w(1)), Some(w(10)));
    assert_eq!(m.account_marker(&a), Some(AccountMarker::Untouched));
    assert!(m.is_account(&a));
    assert!(m.is_slot(&a, &w(1)));
    assert!(!m.is_slot(&a, &w(2)));
    assert!(!m.is_account(&Address::with_last_byte(12)));
}

#[test]
fn update_account_storage_only_touches_held_slots() {
    let a = Address::with_last_byte(13);
    let mut m = MarketState::empty();
    let mut u = GethStateUpdate::new();
    u.insert(a, diff(None, &[(1, 10)]));
    m.add_state(&u);
    m.update_account_storage(a, w(1), w(11));
    m.update_account_storage(a, w(2), w(22));
    assert_eq!(m.storage_value(&a, &w(1)), Some(w(11)));
    assert_eq!(m.storage_value(&a, &w(2)), None);
}

#[test]
fn merge_db_copies_missing_accounts_and_changed_slots() {
    let a = Address::with_last_byte(14);
    let b = Address::with_last_byte(15);
    let mut local = MarketState::empty();
    let mut u = GethStateUpdate::new();
    u.insert(a, diff(Some(1), &[(1, 10), (2, 20)]));
    local.add_state(&u);

    let mut other = MarketState::empty();
    let mut v = GethStateUpdate::new();
    v.insert(a, diff(Some(5), &[(2, 21), (3, 30)]));
    v.insert(b, diff(Some(7), &[(4, 40)]));
    other.add_state(&v);

    local.merge_db(&other.state_db);
    assert_eq!(balance(&local, &a), w(1));
    assert_eq!(local.storage_value(&a, &w(1)), Some(w(10)));
    assert_eq!(local.storage_value(&a, &w(2)), Some(w(21)));
    assert_eq!(local.storage_value(&a, &w(3)), Some(w(30)));
    assert_eq!(balance(&local, &b), w(7));
    assert_eq!(local.storage_value(&b, &w(4)), Some(w(40)));
    assert_eq!(local.accounts_len(), 2);
}

#[test]
fn refresh_account_overwrites_balance_and_held_slots() {
    let a = Address::with_last_byte(16);
    let mut m = MarketState::empty();
    let mut u = GethStateUpdate::new();
    u.insert(a, diff(Some(1), &[(1, 10)]));
    m.add_state(&u);
    m.refresh_account(&a, Some(w(50)), &vec![(w(1), w(12)), (w(9), w(99))]);
    assert_eq!(balance(&m, &a), w(50));
    assert_eq!(m.storage_value(&a, &w(1)), Some(w(12)));
    assert_eq!(m.storage_value(&a, &w(9)), None);
    assert_eq!(m.account_slots(&a), vec![w(1)]);
    assert_eq!(m.account_addresses(), vec![a]);
}

#[test]
fn force_insert_set() {
    let a = Address::with_last_byte(17);
    let mut m = MarketState::empty();
    assert!(!m.is_force_insert(&a));
    m.add_force_insert(a);
    m.add_force_insert(a);
    assert!(m.is_force_insert(&a));
}

#[test]
fn slot_write_promotes_not_existing_account() {
    let a = Address::with_last_byte(20);
    let mut m = MarketState::empty();
    let mut d = AccountDiff::new(None, None, None);
    d.set_slot(w(1), w(2));
    m.apply_account_storage(&a, &d, true, false);
    assert_eq!(m.account_marker(&a), Some(AccountMarker::Touched));
    assert_eq!(m.storage_value(&a, &w(1)), Some(w(2)));

    let b = Address::with_last_byte(21);
    let mut n = MarketState::empty();
    n.apply_account_storage(&b, &d, false, false);
    assert_eq!(n.account_marker(&b), Some(AccountMarker::NotExisting));
}

#[test]
fn forced_account_is_applied_as_insert() {
    let a = Address::with_last_byte(22);
    let mut m = MarketState::empty();
    m.add_force_insert(a);
    m.apply_state_update(&single(a, diff(Some(9), &[(1, 1)])), false, false);
    assert_eq!(balance(&m, &a), w(9));
    assert_eq!(m.storage_value(&a, &w(1)), Some(w(1)));
}

#[test]
fn add_state_keeps_code_on_short_or_missing_code() {
    let a = Address::with_last_byte(23);
    let mut m = MarketState::empty();
    let mut u = GethStateUpdate::new();
    u.insert(a, AccountDiff::new(Some(w(1)), None, Some(vec![1, 2, 3])));
    m.add_state(&u);
    let mut v = GethStateUpdate::new();
    v.insert(a, AccountDiff::new(Some(w(2)), None, Some(vec![7])));
    m.add_state(&v);
    assert_eq!(m.account(&a).unwrap().code, Some(vec![1, 2, 3]));
    let mut x = GethStateUpdate::new();
    x.insert(a, AccountDiff::new(Some(w(3)), Some(4), None));
    m.add_state(&x);
    let acc = m.account(&a).unwrap();
    assert_eq!(acc.code, Some(vec![1, 2, 3]));
    assert_eq!(acc.balance, w(3));
    assert_eq!(acc.nonce, 4);
}

#[test]
fn preload_seeds_multicaller_and_signers() {
    let mc = Address::with_last_byte(30);
    let s1 = Address::with_last_byte(31);
    let s2 = Address::with_last_byte(32);
    let u = loom_core::preload::preload_update(mc, vec![0x60, 0x80], &vec![(s1, 5, w(100)), (s2, 6, w(200))]);
    assert_eq!(u.len(), 3);
    assert_eq!(u.entry(0).0, mc);
    assert_eq!(u.entry(0).1.code, Some(vec![0x60, 0x80]));
    assert_eq!(u.entry(0).1.balance, Some(w(0)));
    assert_eq!(u.entry(2).0, s2);
    assert_eq!(u.entry(2).1.nonce, Some(6));
    let mut m = MarketState::empty();
    m.add_state(&u);
    assert_eq!(balance(&m, &s1), w(100));
    assert_eq!(m.account(&s2).unwrap().nonce, 6);
    assert_eq!(m.account(&mc).unwrap().code, Some(vec![0x60, 0x80]));
}
