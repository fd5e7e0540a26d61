//! The topology configuration: node clients, chains, signers, encoders and
//! the parameters of each worker, as handed to the engine once parsed.
use std::collections::HashMap;
use vstd::prelude::*;

use crate::primitives::{hex_address, parse_address, Address};

verus! {

#[derive(Clone, Copy, Debug)]
pub struct BlockchainConfig {
    pub chain_id: Option<i64>,
}

/// The node software behind a client.
#[derive(Clone, Copy, Debug, PartialEq, Eq, Structural)]
pub enum NodeType {
    Geth,
    Reth,
}

impl Default for NodeType {
    fn default() -> (r: NodeType)
        ensures
            r == NodeType::Geth,
    {
        NodeType::Geth
    }
}

/// How a client reaches its node.
#[derive(Clone, Copy, Debug, PartialEq, Eq, Structural)]
pub enum TransportType {
    Ws,
    Http,
    Ipc,
}

impl Default for TransportType {
    fn default() -> (r: TransportType)
        ensures
            r == TransportType::Ws,
    {
        TransportType::Ws
    }
}

pub open spec fn opt_string_view(s: Option<String>) -> Option<Seq<char>> {
    match s {
        Some(v) => Some(v@),
        None => None,
    }
}

fn clone_opt_string(s: &Option<String>) -> (r: Option<String>)
    ensures
        opt_string_view(r) == opt_string_view(*s),
{
    match s {
        Some(v) => Some(v.clone()),
        None => None,
    }
}

/// A node client in full form.
#[derive(Debug)]
pub struct ClientConfigParams {
    pub url: String,
    pub node: NodeType,
    pub transport: TransportType,
    pub db_path: Option<String>,
    pub exex: Option<String>,
}

impl ClientConfigParams {
    /// The same parameters.
    pub open spec fn same_as(&self, o: &ClientConfigParams) -> bool {
        &&& self.url@ == o.url@
        &&& self.node == o.node
        &&& self.transport == o.transport
        &&& opt_string_view(self.db_path) == opt_string_view(o.db_path)
        &&& opt_string_view(self.exex) == opt_string_view(o.exex)
    }

    /// A websocket geth client at `url`, with no database path or ExEx.
    pub fn with_url(url: String) -> (r: ClientConfigParams)
        ensures
            r.url@ == url@,
            r.node == NodeType::Geth,
            r.transport == TransportType::Ws,
            r.db_path is None,
            r.exex is None,
    {
        ClientConfigParams { url, node: NodeType::Geth, transport: TransportType::Ws, db_path: None, exex: None }
    }
}

/// A node client: a bare URL or full parameters.
#[derive(Debug)]
pub enum ClientConfig {
    String(String),
    Params(ClientConfigParams),
}

impl ClientConfig {
    /// The client's URL.
    pub fn url(&self) -> (r: String)
        ensures
            r@ == (match self {
                ClientConfig::String(s) => s@,
                ClientConfig::Params(p) => p.url@,
            }),
    {
        match self {
            ClientConfig::String(s) => s.clone(),
            ClientConfig::Params(p) => p.url.clone(),
        }
    }

    /// The client in full form: a bare URL becomes a websocket geth client
    /// at that URL.
    pub fn config_params(&self) -> (r: ClientConfigParams)
        ensures
            match self {
                ClientConfig::String(s) => r.url@ == s@ && r.node == NodeType::Geth && r.transport
                    == TransportType::Ws && r.db_path is None && r.exex is None,
                ClientConfig::Params(p) => r.same_as(p),
            },
    {
        match self {
            ClientConfig::String(s) => ClientConfigParams::with_url(s.clone()),
            ClientConfig::Params(p) => ClientConfigParams {
                url: p.url.clone(),
                node: p.node,
                transport: p.transport,
                db_path: clone_opt_string(&p.db_path),
                exex: clone_opt_string(&p.exex),
            },
        }
    }
}

#[derive(Debug)]
pub struct EnvSingerConfig {
    pub blockchain: Option<String>,
}

#[derive(Debug)]
pub enum SignersConfig {
    Env(EnvSingerConfig),
}

#[derive(Debug)]
pub struct PreloaderConfig {
    pub client: Option<String>,
    pub blockchain: Option<String>,
    pub encoder: Option<String>,
    pub signers: Option<String>,
}

#[derive(Debug)]
pub struct SwapStepEncoderConfig {
    pub address: String,
}

#[derive(Debug)]
pub enum EncoderConfig {
    SwapStep(SwapStepEncoderConfig),
}

/// Why the configuration cannot start the engine.
#[derive(Clone, Copy, Debug, PartialEq, Eq, Structural)]
pub enum TopologyError {
    /// No encoder is configured.
    NoEncoder,
    /// The encoder's multicaller address is not a valid address.
    MulticallerAddressNotSet,
}

impl EncoderConfig {
    /// The multicaller contract address the encoder names.
    pub fn multicaller_address(&self) -> (r: Result<Address, TopologyError>)
        ensures
            match self {
                EncoderConfig::SwapStep(e) => match hex_address(e.address@) {
                    Some(b) => r is Ok && r->Ok_0@ == b,
                    None => r == Err::<Address, TopologyError>(TopologyError::MulticallerAddressNotSet),
                },
            },
    {
        match self {
            EncoderConfig::SwapStep(e) => match parse_address(e.address.as_str()) {
                Some(a) => Ok(a),
                None => Err(TopologyError::MulticallerAddressNotSet),
            },
        }
    }
}

/// The multicaller address of the first configured encoder.
pub fn multicaller_of(encoder: Option<&EncoderConfig>) -> (r: Result<Address, TopologyError>)
    ensures
        match encoder {
            None => r == Err::<Address, TopologyError>(TopologyError::NoEncoder),
            Some(EncoderConfig::SwapStep(e)) => match hex_address(e.address@) {
                Some(b) => r is Ok && r->Ok_0@ == b,
                None => r == Err::<Address, TopologyError>(TopologyError::MulticallerAddressNotSet),
            },
        },
{
    match encoder {
        None => Err(TopologyError::NoEncoder),
        Some(e) => e.multicaller_address(),
    }
}

#[derive(Debug)]
pub struct BlockchainClientConfig {
    pub blockchain: Option<String>,
    pub client: Option<String>,
}

#[derive(Debug)]
pub struct ExExClientConfig {
    pub blockchain: Option<String>,
    pub url: Option<String>,
}

#[derive(Debug)]
pub struct FlashbotsBroadcasaterConfig {
    pub blockchain: Option<String>,
    pub client: Option<String>,
    pub smart: Option<bool>,
}

#[derive(Debug)]
pub enum BroadcasterConfig {
    Flashbots(FlashbotsBroadcasaterConfig),
}

#[derive(Debug)]
pub struct EvmEstimatorConfig {
    pub blockchain: Option<String>,
    pub encoder: Option<String>,
}

#[derive(Debug)]
pub struct GethEstimatorConfig {
    pub client: Option<String>,
    pub blockchain: Option<String>,
    pub encoder: Option<String>,
}

#[derive(Debug)]
pub enum EstimatorConfig {
    Evm(EvmEstimatorConfig),
    Geth(GethEstimatorConfig),
}

#[derive(Debug)]
pub struct PoolsConfig {
    pub blockchain: Option<String>,
    pub client: Option<String>,
    pub history: bool,
    pub new: bool,
    pub protocol: bool,
}

#[derive(Debug)]
pub struct ActorConfig {
    pub broadcaster: Option<HashMap<String, BroadcasterConfig>>,
    pub node: Option<HashMap<String, BlockchainClientConfig>>,
    pub node_exex: Option<HashMap<String, ExExClientConfig>>,
    pub mempool: Option<HashMap<String, BlockchainClientConfig>>,
    pub price: Option<HashMap<String, BlockchainClientConfig>>,
    pub pools: Option<HashMap<String, PoolsConfig>>,
    pub noncebalance: Option<HashMap<String, BlockchainClientConfig>>,
    pub estimator: Option<HashMap<String, EstimatorConfig>>,
}

#[derive(Debug)]
pub struct TopologyConfig {
    pub clients: HashMap<String, ClientConfig>,
    pub blockchains: HashMap<String, BlockchainConfig>,
    pub actors: ActorConfig,
    pub signers: HashMap<String, SignersConfig>,
    pub encoders: HashMap<String, EncoderConfig>,
    pub preloaders: Option<HashMap<String, PreloaderConfig>>,
}

} // verus!
