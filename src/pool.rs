//! Liquidity pools as the search sees them: an identity (the address), a
//! class and protocol, and the capability set each protocol implements.
use std::sync::Arc;
use vstd::prelude::*;
use vstd::std_specs::cmp::{PartialEqSpec, PartialOrdSpec};

use crate::evm_db::InMemoryDB;
use crate::primitives::{Address, Word};

verus! {

/// revm's `Env`, the block and transaction environment of a simulation,
/// carried through to the pools and never read here.
#[verifier::external_type_specification]
#[verifier::external_body]
pub struct ExEnv(revm::primitives::Env);

/// The family of pool math a pool uses.
#[derive(Clone, Copy, Debug, PartialEq, Eq, Structural)]
pub enum PoolClass {
    Unknown,
    UniswapV2,
    UniswapV3,
    Curve,
    LidoStEth,
    LidoWstEth,
    RocketPool,
}

/// The brand of a pool, finer than its class.
#[derive(Clone, Copy, Debug, PartialEq, Eq, Structural)]
pub enum PoolProtocol {
    Unknown,
    UniswapV2,
    UniswapV2Like,
    NomiswapStable,
    Sushiswap,
    SushiswapV3,
    DooarSwap,
    Safeswap,
    Miniswap,
    Shibaswap,
    UniswapV3,
    UniswapV3Like,
    PancakeV3,
    Integral,
    Maverick,
    Curve,
    LidoStEth,
    LidoWstEth,
    RocketEth,
}

/// The display name of a protocol.
pub open spec fn protocol_name(p: PoolProtocol) -> Seq<char> {
    match p {
        PoolProtocol::Unknown => "Unknown"@,
        PoolProtocol::UniswapV2 => "UniswapV2"@,
        PoolProtocol::UniswapV2Like => "UniswapV2Like"@,
        PoolProtocol::NomiswapStable => "NomiswapStable"@,
        PoolProtocol::Sushiswap => "Sushiswap"@,
        PoolProtocol::SushiswapV3 => "SushiswapV3"@,
        PoolProtocol::DooarSwap => "Dooarswap"@,
        PoolProtocol::Safeswap => "Safeswap"@,
        PoolProtocol::Miniswap => "Miniswap"@,
        PoolProtocol::Shibaswap => "Shibaswap"@,
        PoolProtocol::UniswapV3 => "UniswapV3"@,
        PoolProtocol::UniswapV3Like => "UniswapV3Like"@,
        PoolProtocol::PancakeV3 => "PancakeV3"@,
        PoolProtocol::Integral => "Integral"@,
        PoolProtocol::Maverick => "Maverick"@,
        PoolProtocol::Curve => "Curve"@,
        PoolProtocol::LidoStEth => "StEth"@,
        PoolProtocol::LidoWstEth => "WstEth"@,
        PoolProtocol::RocketEth => "RocketEth"@,
    }
}

impl PoolProtocol {
    /// The display name of the protocol.
    pub fn to_string(&self) -> (r: String)
        ensures
            r@ == protocol_name(*self),
    {
        let name = match self {
            PoolProtocol::Unknown => "Unknown",
            PoolProtocol::UniswapV2 => "UniswapV2",
            PoolProtocol::UniswapV2Like => "UniswapV2Like",
            PoolProtocol::NomiswapStable => "NomiswapStable",
            PoolProtocol::Sushiswap => "Sushiswap",
            PoolProtocol::SushiswapV3 => "SushiswapV3",
            PoolProtocol::DooarSwap => "Dooarswap",
            PoolProtocol::Safeswap => "Safeswap",
            PoolProtocol::Miniswap => "Miniswap",
            PoolProtocol::Shibaswap => "Shibaswap",
            PoolProtocol::UniswapV3 => "UniswapV3",
            PoolProtocol::UniswapV3Like => "UniswapV3Like",
            PoolProtocol::PancakeV3 => "PancakeV3",
            PoolProtocol::Integral => "Integral",
            PoolProtocol::Maverick => "Maverick",
            PoolProtocol::Curve => "Curve",
            PoolProtocol::LidoStEth => "StEth",
            PoolProtocol::LidoWstEth => "WstEth",
            PoolProtocol::RocketEth => "RocketEth",
        };
        name.to_owned()
    }
}

/// Why a pool could not compute a swap or encode a call.
#[derive(Clone, Copy, Debug, PartialEq, Eq, Structural)]
pub enum PoolError {
    NotImplemented,
}

/// What must happen before a pool's swap call.
#[derive(Clone, Copy, Debug, PartialEq, Eq)]
pub enum PreswapRequirement {
    Unknown,
    /// Funds are transferred to the given address first.
    Transfer(Address),
    Allowance,
    Callback,
    Base,
}

/// Builds a pool's swap calls and locates the amounts in their call and
/// return data. Every method has a default meaning "not supported".
pub trait AbiSwapEncoder {
    fn encode_swap_in_amount_provided(
        &self,
        token_from_address: Address,
        token_to_address: Address,
        amount: Word,
        recipient: Address,
        payload: Vec<u8>,
    ) -> Result<Vec<u8>, PoolError> {
        Err(PoolError::NotImplemented)
    }

    fn encode_swap_out_amount_provided(
        &self,
        token_from_address: Address,
        token_to_address: Address,
        amount: Word,
        recipient: Address,
        payload: Vec<u8>,
    ) -> Result<Vec<u8>, PoolError> {
        Err(PoolError::NotImplemented)
    }

    fn preswap_requirement(&self) -> PreswapRequirement {
        PreswapRequirement::Unknown
    }

    fn is_native(&self) -> bool {
        false
    }

    fn swap_in_amount_offset(&self, token_from_address: Address, token_to_address: Address) -> Option<u32> {
        None
    }

    fn swap_out_amount_offset(&self, token_from_address: Address, token_to_address: Address) -> Option<u32> {
        None
    }

    fn swap_out_amount_return_offset(&self, token_from_address: Address, token_to_address: Address) -> Option<u32> {
        None
    }

    fn swap_in_amount_return_offset(&self, token_from_address: Address, token_to_address: Address) -> Option<u32> {
        None
    }

    fn swap_out_amount_return_script(&self, token_from_address: Address, token_to_address: Address) -> Option<Vec<u8>> {
        None
    }

    fn swap_in_amount_return_script(&self, token_from_address: Address, token_to_address: Address) -> Option<Vec<u8>> {
        None
    }
}

/// The encoder of a pool that supports no swap encoding.
#[derive(Clone, Copy, Debug)]
pub struct DefaultAbiSwapEncoder {}

impl AbiSwapEncoder for DefaultAbiSwapEncoder {
}

/// The capability set of a pool. Protocols implement it; the search sees
/// pools only through it.
pub trait Pool {
    /// The encoder type the pool hands out.
    type Encoder: AbiSwapEncoder;

    fn get_class(&self) -> PoolClass {
        PoolClass::Unknown
    }

    fn get_protocol(&self) -> PoolProtocol {
        PoolProtocol::Unknown
    }

    fn get_address(&self) -> Address;

    fn get_fee(&self) -> Word {
        Word::zero()
    }

    fn get_tokens(&self) -> Vec<Address> {
        Vec::new()
    }

    fn get_swap_directions(&self) -> Vec<(Address, Address)> {
        Vec::new()
    }

    /// The output amount and gas used of swapping `in_amount`.
    fn calculate_out_amount(
        &self,
        state: &InMemoryDB,
        env: &revm::primitives::Env,
        token_address_from: &Address,
        token_address_to: &Address,
        in_amount: Word,
    ) -> Result<(Word, u64), PoolError>;

    /// The input amount and gas used of receiving `out_amount`.
    fn calculate_in_amount(
        &self,
        state: &InMemoryDB,
        env: &revm::primitives::Env,
        token_address_from: &Address,
        token_address_to: &Address,
        out_amount: Word,
    ) -> Result<(Word, u64), PoolError>;

    fn can_flash_swap(&self) -> bool;

    fn can_calculate_in_amount(&self) -> bool {
        true
    }

    fn get_encoder(&self) -> &Self::Encoder;

    fn get_read_only_cell_vec(&self) -> Vec<Word> {
        Vec::new()
    }
}

/// A placeholder pool known by its address alone; it computes nothing.
#[derive(Clone, Copy, Debug)]
pub struct EmptyPool {
    pub address: Address,
    pub encoder: DefaultAbiSwapEncoder,
}

impl EmptyPool {
    pub fn new(address: Address) -> (r: EmptyPool)
        ensures
            r.address == address,
    {
        EmptyPool { address, encoder: DefaultAbiSwapEncoder {} }
    }
}

impl Pool for EmptyPool {
    type Encoder = DefaultAbiSwapEncoder;

    fn get_class(&self) -> (r: PoolClass)
        ensures
            r == PoolClass::Unknown,
    {
        PoolClass::Unknown
    }

    fn get_protocol(&self) -> (r: PoolProtocol)
        ensures
            r == PoolProtocol::Unknown,
    {
        PoolProtocol::Unknown
    }

    fn get_address(&self) -> (r: Address)
        ensures
            r == self.address,
    {
        self.address
    }

    fn calculate_out_amount(
        &self,
        state: &InMemoryDB,
        env: &revm::primitives::Env,
        token_address_from: &Address,
        token_address_to: &Address,
        in_amount: Word,
    ) -> (r: Result<(Word, u64), PoolError>)
        ensures
            r == Err::<(Word, u64), PoolError>(PoolError::NotImplemented),
    {
        Err(PoolError::NotImplemented)
    }

    fn calculate_in_amount(
        &self,
        state: &InMemoryDB,
        env: &revm::primitives::Env,
        token_address_from: &Address,
        token_address_to: &Address,
        out_amount: Word,
    ) -> (r: Result<(Word, u64), PoolError>)
        ensures
            r == Err::<(Word, u64), PoolError>(PoolError::NotImplemented),
    {
        Err(PoolError::NotImplemented)
    }

    fn can_flash_swap(&self) -> (r: bool)
        ensures
            !r,
    {
        false
    }

    fn get_encoder(&self) -> &DefaultAbiSwapEncoder {
        &self.encoder
    }
}

/// Lexicographic order of byte strings, first byte most significant.
pub open spec fn lex_cmp(a: Seq<u8>, b: Seq<u8>) -> core::cmp::Ordering
    decreases a.len(),
{
    if a.len() == 0 || b.len() == 0 {
        if a.len() == b.len() {
            core::cmp::Ordering::Equal
        } else if a.len() == 0 {
            core::cmp::Ordering::Less
        } else {
            core::cmp::Ordering::Greater
        }
    } else if a[0] < b[0] {
        core::cmp::Ordering::Less
    } else if a[0] > b[0] {
        core::cmp::Ordering::Greater
    } else {
        lex_cmp(a.drop_first(), b.drop_first())
    }
}

/// Compares two addresses as unsigned big-endian numbers.
pub fn address_cmp(a: &Address, b: &Address) -> (r: core::cmp::Ordering)
    ensures
        r == lex_cmp(a@, b@),
{
    let mut i: usize = 0;
    proof {
        assert(a@.subrange(0, 20) =~= a@);
        assert(b@.subrange(0, 20) =~= b@);
    }
    while i < 20
        invariant
            0 <= i <= 20,
            a@.len() == 20,
            b@.len() == 20,
            lex_cmp(a@, b@) == lex_cmp(a@.subrange(i as int, 20), b@.subrange(i as int, 20)),
        decreases 20 - i,
    {
        let x = a.bytes[i];
        let y = b.bytes[i];
        proof {
            assert(a@.subrange(i as int, 20).drop_first() =~= a@.subrange(i as int + 1, 20));
            assert(b@.subrange(i as int, 20).drop_first() =~= b@.subrange(i as int + 1, 20));
        }
        if x < y {
            return core::cmp::Ordering::Less;
        } else if x > y {
            return core::cmp::Ordering::Greater;
        }
        i = i + 1;
    }
    core::cmp::Ordering::Equal
}

/// Lexicographic order on equally long byte strings is a total order whose
/// equality is equality of the strings.
pub proof fn lemma_lex_cmp_total_order(a: Seq<u8>, b: Seq<u8>, c: Seq<u8>)
    requires
        a.len() == b.len(),
        b.len() == c.len(),
    ensures
        (lex_cmp(a, b) == core::cmp::Ordering::Equal) <==> (a == b),
        (lex_cmp(a, b) == core::cmp::Ordering::Less) <==> (lex_cmp(b, a) == core::cmp::Ordering::Greater),
        lex_cmp(a, b) == core::cmp::Ordering::Less && lex_cmp(b, c) == core::cmp::Ordering::Less ==> lex_cmp(a, c)
            == core::cmp::Ordering::Less,
    decreases a.len(),
{
    if a.len() > 0 {
        lemma_lex_cmp_total_order(a.drop_first(), b.drop_first(), c.drop_first());
        if a.drop_first() == b.drop_first() && a[0] == b[0] {
            assert forall|i: int| 0 <= i < a.len() implies a[i] == b[i] by {
                if i > 0 {
                    assert(a[i] == a.drop_first()[i - 1]);
                    assert(b[i] == b.drop_first()[i - 1]);
                }
            }
            assert(a =~= b);
        }
        if a == b {
            assert(a.drop_first() == b.drop_first());
        }
    } else {
        assert(a =~= b);
    }
}

/// A pool handle whose identity is the pool's address, read once when the
/// handle is made: equality and order go by that address alone.
pub struct PoolWrapper<P: Pool> {
    address: Address,
    pool: Arc<P>,
}

impl<P: Pool> PoolWrapper<P> {
    /// The address the handle was made with.
    pub closed spec fn addr(&self) -> Address {
        self.address
    }

    /// The pool behind the handle.
    pub closed spec fn inner(&self) -> P {
        *self.pool
    }

    /// A handle on `pool`, identified by the address it reports now.
    pub fn new(pool: Arc<P>) -> (r: PoolWrapper<P>)
        ensures
            r.inner() == *pool,
    {
        let address = pool.get_address();
        PoolWrapper { address, pool }
    }

    /// The pool behind the handle.
    pub fn pool(&self) -> (r: &Arc<P>)
        ensures
            **r == self.inner(),
    {
        &self.pool
    }

    /// Compares the addresses of the two pools.
    pub fn cmp(&self, other: &PoolWrapper<P>) -> (r: core::cmp::Ordering)
        ensures
            r == lex_cmp(self.addr()@, other.addr()@),
    {
        address_cmp(&self.address, &other.address)
    }

    pub fn get_address(&self) -> (r: Address)
        ensures
            r == self.addr(),
    {
        self.address
    }
}

impl PoolWrapper<EmptyPool> {
    /// A handle on an empty pool at `pool_address`: its swap calculations
    /// fail as not implemented, it cannot flash-swap and its class and
    /// protocol are unknown (see the `Pool` impl of `EmptyPool`).
    pub fn empty(pool_address: Address) -> (r: PoolWrapper<EmptyPool>)
        ensures
            r.addr() == pool_address,
            r.inner() == (EmptyPool { address: pool_address, encoder: (DefaultAbiSwapEncoder {  }) }),
    {
        PoolWrapper { address: pool_address, pool: Arc::new(EmptyPool::new(pool_address)) }
    }
}

impl<P: Pool> Clone for PoolWrapper<P> {
    fn clone(&self) -> (r: PoolWrapper<P>)
        ensures
            r.addr() == self.addr(),
    {
        PoolWrapper { address: self.address, pool: self.pool.clone() }
    }
}

impl<P: Pool> PartialEq for PoolWrapper<P> {
    fn eq(&self, other: &PoolWrapper<P>) -> (r: bool) {
        self.address == other.address
    }
}

impl<P: Pool> vstd::std_specs::cmp::PartialEqSpecImpl for PoolWrapper<P> {
    open spec fn obeys_eq_spec() -> bool {
        true
    }

    open spec fn eq_spec(&self, other: &PoolWrapper<P>) -> bool {
        self.addr()@ == other.addr()@
    }
}

impl<P: Pool> PartialOrd for PoolWrapper<P> {
    fn partial_cmp(&self, other: &PoolWrapper<P>) -> (r: Option<core::cmp::Ordering>) {
        Some(address_cmp(&self.address, &other.address))
    }
}

impl<P: Pool> vstd::std_specs::cmp::PartialOrdSpecImpl for PoolWrapper<P> {
    open spec fn obeys_partial_cmp_spec() -> bool {
        true
    }

    open spec fn partial_cmp_spec(&self, other: &PoolWrapper<P>) -> Option<core::cmp::Ordering> {
        Some(lex_cmp(self.addr()@, other.addr()@))
    }
}

/// Two pool handles are equal exactly when their addresses are, and the order
/// on handles is the total order on addresses.
pub proof fn lemma_pool_identity<P: Pool>(w1: PoolWrapper<P>, w2: PoolWrapper<P>, w3: PoolWrapper<P>)
    ensures
        w1.eq_spec(&w2) <==> w1.addr() == w2.addr(),
        w1.partial_cmp_spec(&w2) == Some(lex_cmp(w1.addr()@, w2.addr()@)),
        (lex_cmp(w1.addr()@, w2.addr()@) == core::cmp::Ordering::Equal) <==> w1.eq_spec(&w2),
        (lex_cmp(w1.addr()@, w2.addr()@) == core::cmp::Ordering::Less) <==> (lex_cmp(w2.addr()@, w1.addr()@)
            == core::cmp::Ordering::Greater),
        lex_cmp(w1.addr()@, w2.addr()@) == core::cmp::Ordering::Less && lex_cmp(w2.addr()@, w3.addr()@)
            == core::cmp::Ordering::Less ==> lex_cmp(w1.addr()@, w3.addr()@) == core::cmp::Ordering::Less,
{
    crate::primitives::lemma_address_eq(w1.addr(), w2.addr());
    lemma_lex_cmp_total_order(w1.addr()@, w2.addr()@, w3.addr()@);
}

} // verus!
