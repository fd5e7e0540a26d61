use std::cmp::Ordering;
use std::sync::Arc;

use loom_core::accounts::{tx_cost, AccountNonceAndBalanceState, ConfirmedTx};
use loom_core::pool::{
    address_cmp, AbiSwapEncoder, DefaultAbiSwapEncoder, EmptyPool, Pool, PoolClass, PoolError, PoolProtocol,
    PoolWrapper, PreswapRequirement,
};
use loom_core::market_state::MarketState;
use loom_core::primitives::{word_max, Address, Word};
use loom_core::topology::{
    multicaller_of, ClientConfig, ClientConfigParams, EncoderConfig, NodeType, SwapStepEncoderConfig, TopologyError,
    TransportType,
};

fn w(x: u64) -> Word {
    Word::from_u64(x)
}

#[test]
fn pool_wrappers_compare_by_address() {
    let a = PoolWrapper::empty(Address::with_last_byte(1));
    let a2 = PoolWrapper::new(Arc::new(EmptyPool::new(Address::with_last_byte(1))));
    let b = PoolWrapper::empty(Address::with_last_byte(2));
    assert!(a == a2);
    assert!(a != b);
    assert_eq!(a.cmp(&b), Ordering::Less);
    assert_eq!(b.cmp(&a), Ordering::Greater);
    assert_eq!(a.cmp(&a2), Ordering::Equal);
    assert!(a.clone() == a);
    assert!(a < b);
    assert!(b > a);
    assert!(a <= a2 && a >= a2);
    assert_eq!(a.get_address(), Address::with_last_byte(1));
}

#[test]
fn address_order_is_big_endian() {
    let mut hi = [0u8; 20];
    hi[0] = 1;
    let x = Address { bytes: hi };
    let y = Address::with_last_byte(0xff);
    assert_eq!(address_cmp(&x, &y), Ordering::Greater);
    assert_eq!(address_cmp(&y, &x), Ordering::Less);
    assert_eq!(address_cmp(&x, &x), Ordering::Equal);
}

#[test]
fn empty_pool_defaults() {
    let p = EmptyPool::new(Address::with_last_byte(3));
    assert!(p.get_class() == PoolClass::Unknown);
    assert!(p.get_protocol() == PoolProtocol::Unknown);
    assert_eq!(p.get_fee(), w(0));
    assert!(p.get_tokens().is_empty());
    assert!(p.get_swap_directions().is_empty());
    assert!(!p.can_flash_swap());
    assert!(p.can_calculate_in_amount());
    assert!(p.get_read_only_cell_vec().is_empty());
    let db = MarketState::empty().state_db;
    let env = revm::primitives::Env::default();
    let from = Address::with_last_byte(4);
    let to = Address::with_last_byte(5);
    assert!(p.calculate_out_amount(&db, &env, &from, &to, w(1)) == Err(PoolError::NotImplemented));
    assert!(p.calculate_in_amount(&db, &env, &from, &to, w(1)) == Err(PoolError::NotImplemented));
    let e = DefaultAbiSwapEncoder {};
    assert!(e.preswap_requirement() == PreswapRequirement::Unknown);
    assert!(!e.is_native());
    assert_eq!(e.swap_in_amount_offset(from, to), None);
    assert_eq!(e.swap_out_amount_return_script(from, to), None);
    assert!(e.encode_swap_in_amount_provided(from, to, w(1), from, vec![]) == Err(PoolError::NotImplemented));
}

#[test]
fn protocol_names() {
    assert_eq!(PoolProtocol::UniswapV2.to_string(), "UniswapV2");
    assert_eq!(PoolProtocol::DooarSwap.to_string(), "Dooarswap");
    assert_eq!(PoolProtocol::LidoWstEth.to_string(), "WstEth");
    assert_eq!(PoolProtocol::LidoStEth.to_string(), "StEth");
    assert_eq!(PoolProtocol::RocketEth.to_string(), "RocketEth");
    assert_eq!(PoolProtocol::Unknown.to_string(), "Unknown");
}

#[test]
fn word_arithmetic_through_balances() {
    let me = Address::with_last_byte(1);
    let eth = Address::zero();
    let mut s = AccountNonceAndBalanceState::new();
    s.add_account(me);
    s.set_balance(&me, &eth, w(2));
    s.add_balance(&me, &eth, w(3));
    assert_eq!(s.get_balance(&me, &eth), Some(w(5)));
    s.sub_balance(&me, &eth, w(3));
    assert_eq!(s.get_balance(&me, &eth), Some(w(2)));
    s.set_balance(&me, &eth, word_max());
    s.add_balance(&me, &eth, w(1));
    assert_eq!(s.get_balance(&me, &eth), Some(word_max()));
    let big = Word::from_u128(1u128 << 64);
    assert_eq!(big, Word { l0: 0, l1: 1, l2: 0, l3: 0 });
    let t = ConfirmedTx {
        from: me,
        to: None,
        nonce: 0,
        gas: 1u128 << 64,
        max_fee_per_gas: Some(1u128 << 64),
        max_priority_fee_per_gas: None,
        value: w(0),
    };
    assert_eq!(tx_cost(&t), Some(Word { l0: 0, l1: 0, l2: 1, l3: 0 }));
    let huge = ConfirmedTx { gas: u128::MAX, max_fee_per_gas: Some(u128::MAX), max_priority_fee_per_gas: Some(u128::MAX), ..t };
    assert_eq!(tx_cost(&huge), None);
}

fn tx(from: Address, to: Option<Address>, nonce: u64, gas: u128, fee: u128, tip: u128, value: u64) -> ConfirmedTx {
    ConfirmedTx {
        from,
        to,
        nonce,
        gas,
        max_fee_per_gas: Some(fee),
        max_priority_fee_per_gas: Some(tip),
        value: w(value),
    }
}

#[test]
fn nonce_monitor_charges_sender_and_credits_receiver() {
    let me = Address::with_last_byte(1);
    let other = Address::with_last_byte(2);
    let eth = Address::zero();
    let mut s = AccountNonceAndBalanceState::new();
    s.add_account(me);
    s.set_balance(&me, &eth, w(1_000_000));
    let t = tx(me, Some(other), 7, 21_000, 10, 2, 500);
    assert_eq!(tx_cost(&t), Some(w((10 + 2) * 21_000 + 500)));
    s.apply_confirmed_tx(&t);
    assert_eq!(s.get_nonce(&me), Some(7));
    assert_eq!(s.get_balance(&me, &eth), Some(w(1_000_000 - 252_500)));
    assert_eq!(s.get_balance(&other, &eth), None);

    let incoming = tx(other, Some(me), 1, 21_000, 1, 1, 42);
    s.apply_confirmed_tx(&incoming);
    assert_eq!(s.get_balance(&me, &eth), Some(w(1_000_000 - 252_500 + 42)));
    assert_eq!(s.get_nonce(&me), Some(7));
    assert_eq!(s.get_nonce(&other), None);
}

#[test]
fn nonce_monitor_clamps_balance_at_zero() {
    let me = Address::with_last_byte(1);
    let eth = Address::zero();
    let mut s = AccountNonceAndBalanceState::new();
    s.add_account(me);
    s.set_balance(&me, &eth, w(10));
    s.apply_block_txs(&vec![tx(me, None, 3, 100, 1, 0, 0), tx(me, None, 4, u128::MAX, u128::MAX, 1, 0)]);
    assert_eq!(s.get_balance(&me, &eth), Some(w(0)));
    assert_eq!(s.get_nonce(&me), Some(4));
}

#[test]
fn fetched_values_replace_tracked_ones() {
    let me = Address::with_last_byte(1);
    let stranger = Address::with_last_byte(9);
    let eth = Address::zero();
    let mut s = AccountNonceAndBalanceState::new();
    s.add_account(me);
    assert!(s.is_monitored(&me));
    assert!(!s.is_monitored(&stranger));
    s.apply_fetched(&me, Some(5), Some(w(77)));
    s.apply_fetched(&stranger, Some(5), Some(w(77)));
    assert_eq!(s.get_nonce(&me), Some(5));
    assert_eq!(s.get_balance(&me, &eth), Some(w(77)));
    assert_eq!(s.get_nonce(&stranger), None);
    assert_eq!(s.get_accounts_vec(), vec![me]);
    s.sub_balance(&me, &eth, w(100));
    assert_eq!(s.get_balance(&me, &eth), Some(w(0)));
    s.add_balance(&me, &eth, w(3));
    assert_eq!(s.get_balance(&me, &eth), Some(w(3)));
}

#[test]
fn client_config_forms() {
    let bare = ClientConfig::String("ws://node:8546".to_string());
    assert_eq!(bare.url(), "ws://node:8546");
    let p = bare.config_params();
    assert_eq!(p.url, "ws://node:8546");
    assert!(p.node == NodeType::Geth);
    assert!(p.transport == TransportType::Ws);
    assert!(p.db_path.is_none());

    let full = ClientConfig::Params(ClientConfigParams {
        url: "http://x".to_string(),
        node: NodeType::Reth,
        transport: TransportType::Http,
        db_path: Some("/db".to_string()),
        exex: None,
    });
    assert_eq!(full.url(), "http://x");
    let q = full.config_params();
    assert!(q.node == NodeType::Reth);
    assert!(q.transport == TransportType::Http);
    assert_eq!(q.db_path, Some("/db".to_string()));
}

#[test]
fn multicaller_address_parsing() {
    let good = EncoderConfig::SwapStep(SwapStepEncoderConfig {
        address: "0x000000000000000000000000000000000000002a".to_string(),
    });
    assert_eq!(multicaller_of(Some(&good)), Ok(Address::with_last_byte(0x2a)));
    let bad = EncoderConfig::SwapStep(SwapStepEncoderConfig { address: "0x12".to_string() });
    assert_eq!(multicaller_of(Some(&bad)), Err(TopologyError::MulticallerAddressNotSet));
    assert_eq!(multicaller_of(None), Err(TopologyError::NoEncoder));
    let upper = EncoderConfig::SwapStep(SwapStepEncoderConfig {
        address: "000000000000000000000000000000000000002A".to_string(),
    });
    assert_eq!(multicaller_of(Some(&upper)), Ok(Address::with_last_byte(0x2a)));
    let bad_digit = EncoderConfig::SwapStep(SwapStepEncoderConfig {
        address: "0xzz0000000000000000000000000000000000002a".to_string(),
    });
    assert_eq!(multicaller_of(Some(&bad_digit)), Err(TopologyError::MulticallerAddressNotSet));
}

#[test]
fn empty_pool_handle_states_its_pool() {
    let w_ = PoolWrapper::empty(Address::with_last_byte(9));
    assert_eq!(w_.pool().get_address(), Address::with_last_byte(9));
    assert!(!w_.pool().can_flash_swap());
    assert!(w_.pool().get_class() == PoolClass::Unknown);
}
