//! The settings of a process: where the ledger and the metadata service are
//! found, which contract is read, and what the built-in server may do.

use vstd::prelude::*;

verus! {

/// The ledger's request endpoint.
pub const RPC_URL: &'static str = "https://api.nitrogen.fhenix.zone";

/// The ledger's subscription endpoint.
pub const RPC_URL_WS: &'static str = "wss://api.nitrogen.fhenix.zone:8548";

/// How the ledger is reached and what is read from it.
#[derive(Clone, PartialEq, Eq, Debug)]
pub struct ChainConfig {
    pub rpc_url: String,
    pub rpc_url_ws: String,
    pub orderbook_address: [u8; 20],
    pub private_key: String,
    pub orderbook_start_block: u64,
}

/// Where the decryption service is found.
#[derive(Clone, PartialEq, Eq, Debug)]
pub struct FheDecryptionConfig {
    pub api_url: String,
}

/// All settings of a process.
#[derive(Clone, PartialEq, Eq, Debug)]
pub struct Config {
    pub chain: ChainConfig,
    pub fhe_decryption: FheDecryptionConfig,
}

/// Puts the settings together from the four values that a deployment
/// chooses; the ledger's endpoints are fixed.
pub fn resolve_config(
    orderbook_address: [u8; 20],
    private_key: String,
    orderbook_start_block: u64,
    api_url: String,
) -> (config: Config)
    ensures
        config.chain.rpc_url@ == RPC_URL@,
        config.chain.rpc_url_ws@ == RPC_URL_WS@,
        config.chain.orderbook_address == orderbook_address,
        config.chain.private_key == private_key,
        config.chain.orderbook_start_block == orderbook_start_block,
        config.fhe_decryption.api_url == api_url,
{
    Config {
        chain: ChainConfig {
            rpc_url: RPC_URL.to_owned(),
            rpc_url_ws: RPC_URL_WS.to_owned(),
            orderbook_address,
            private_key,
            orderbook_start_block,
        },
        fhe_decryption: FheDecryptionConfig { api_url },
    }
}

/// The settings of the built-in server.
#[derive(Clone, PartialEq, Eq, Debug)]
pub struct ServerConfig {
    address: String,
    allow_reboot: bool,
    requires_auth: bool,
}

impl ServerConfig {
    /// The address as a sequence of characters.
    pub closed spec fn spec_address(&self) -> Seq<char> {
        self.address@
    }

    /// Whether the server may reboot its host.
    pub closed spec fn spec_allow_reboot(&self) -> bool {
        self.allow_reboot
    }

    /// Whether callers must prove who they are.
    pub closed spec fn spec_requires_auth(&self) -> bool {
        self.requires_auth
    }

    /// Settings with the given values.
    pub fn new(address: String, allow_reboot: bool, requires_auth: bool) -> (config: ServerConfig)
        ensures
            config.spec_address() == address@,
            config.spec_allow_reboot() == allow_reboot,
            config.spec_requires_auth() == requires_auth,
    {
        ServerConfig { address, allow_reboot, requires_auth }
    }

    /// The address on which the server listens.
    pub fn address(&self) -> (address: &str)
        ensures
            address@ == self.spec_address(),
    {
        self.address.as_str()
    }

    /// Whether the server may reboot its host.
    #[verifier::when_used_as_spec(spec_allow_reboot)]
    pub fn allow_reboot(&self) -> (allowed: bool)
        ensures
            allowed == self.spec_allow_reboot(),
    {
        self.allow_reboot
    }

    /// Whether callers must prove who they are.
    #[verifier::when_used_as_spec(spec_requires_auth)]
    pub fn requires_auth(&self) -> (required: bool)
        ensures
            required == self.spec_requires_auth(),
    {
        self.requires_auth
    }
}

} // verus!
