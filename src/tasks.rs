//! Work handed to the pool loaders.
use vstd::prelude::*;

use crate::pool::PoolClass;
use crate::primitives::Address;

verus! {

/// Pools to materialize and register, each by address and class.
#[derive(Clone, Debug)]
pub enum Task {
    /// Fetch each pool's data and add it to the market.
    FetchAndAddPools(Vec<(Address, PoolClass)>),
    /// Fetch each pool's data and required state, then add it.
    FetchStateAndAddPools(Vec<(Address, PoolClass)>),
}

} // verus!
