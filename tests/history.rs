use loom_core::accounts::{AccountNonceAndBalanceState, ConfirmedTx};
use loom_core::block_history::{BlockHeader, BlockHistory};
use loom_core::primitives::{Address, Word};

fn w(x: u64) -> Word {
    Word::from_u64(x)
}

fn header(hash: u64, parent: u64, number: u64, td: u64) -> BlockHeader {
    BlockHeader { hash: w(hash), parent_hash: w(parent), number, total_difficulty: w(td) }
}

#[test]
fn history_keeps_last_capacity_blocks() {
    let mut h = BlockHistory::new(3);
    for i in 1..=5u64 {
        h.add_block_header(header(i, i - 1, i, i));
    }
    assert_eq!(h.len(), 3);
    assert!(!h.contains(&w(1)));
    assert!(!h.contains(&w(2)));
    assert!(h.contains(&w(3)));
    assert!(h.contains(&w(4)));
    assert!(h.contains(&w(5)));
}

#[test]
fn history_below_capacity_keeps_all() {
    let mut h = BlockHistory::new(10);
    for i in 1..=4u64 {
        h.add_block_header(header(i, i - 1, i, i));
    }
    h.add_block_header(header(2, 1, 2, 2));
    assert_eq!(h.len(), 4);
}

#[test]
fn history_with_zero_capacity_keeps_nothing() {
    let mut h = BlockHistory::new(0);
    h.add_block_header(header(1, 0, 1, 1));
    assert_eq!(h.len(), 0);
    assert!(!h.contains(&w(1)));
}

#[test]
fn history_reorg() {
    let mut h = BlockHistory::new(10);
    h.add_block_header(header(1, 0, 1, 10));
    h.add_block_header(header(0x2a, 1, 2, 20));
    h.add_block_header(header(0x2b, 1, 2, 25));
    assert!(h.contains(&w(0x2a)));
    assert!(h.contains(&w(0x2b)));
    assert_eq!(h.len(), 3);
    assert_eq!(h.tip().unwrap().hash, w(0x2b));
    // a lighter sibling does not move the tip
    h.add_block_header(header(0x2c, 1, 2, 21));
    assert_eq!(h.tip().unwrap().hash, w(0x2b));
}

#[test]
fn block_tx_update_applies_kept_transactions() {
    let me = Address::with_last_byte(1);
    let eth = Address::zero();
    let mut accounts = AccountNonceAndBalanceState::new();
    accounts.add_account(me);
    accounts.set_balance(&me, &eth, w(1000));
    let mut h = BlockHistory::new(4);
    h.add_block_header(header(7, 6, 7, 7));
    let tx = ConfirmedTx {
        from: me,
        to: None,
        nonce: 9,
        gas: 10,
        max_fee_per_gas: Some(3),
        max_priority_fee_per_gas: Some(1),
        value: w(60),
    };
    assert!(h.set_transactions(&w(7), vec![tx]));
    assert!(!h.set_transactions(&w(8), vec![]));
    assert!(h.set_state_update(&w(7), vec![]));
    accounts.on_block_tx_update(&h, &w(8));
    assert_eq!(accounts.get_nonce(&me), Some(0));
    accounts.on_block_tx_update(&h, &w(7));
    assert_eq!(accounts.get_nonce(&me), Some(9));
    assert_eq!(accounts.get_balance(&me, &eth), Some(w(1000 - 100)));
    let entry = h.get_market_history_entry(&w(7)).unwrap();
    assert_eq!(entry.header.number, 7);
}

#[test]
fn history_state_update_attaches() {
    let mut h = BlockHistory::new(2);
    h.add_block_header(header(1, 0, 1, 1));
    assert!(h.set_state_update(&w(1), vec![loom_core::state_update::GethStateUpdate::new()]));
    assert_eq!(h.get_market_history_entry(&w(1)).unwrap().state_update.as_ref().map(|u| u.len()), Some(1));
    assert!(!h.set_state_update(&w(9), vec![]));
}
