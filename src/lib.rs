//! Core state and decision logic of an EVM backrunning engine: the
//! market-state mirror and its laws, pool identities and health, candidate
//! cycle search and merging, account nonce and balance tracking, the
//! recent-block history, the startup seeding of the mirror, the swap-line
//! encoder, the input-amount search and the topology configuration model.

pub mod primitives;
pub mod evm_db;
pub mod state_update;
pub mod market_state;
pub mod mirror_laws;
pub mod pool;
pub mod accounts;
pub mod topology;
pub mod block_history;
pub mod health;
pub mod search;
pub mod merger;
pub mod tasks;
pub mod amount_search;
pub mod encoder;
pub mod preload;
