//! Process configuration: server endpoint, ledger defaults, and the storage
//! location. Reading and writing a configuration file is I/O the embedding
//! program performs; the values and their defaults live here.

use vstd::prelude::*;
use vstd::string::StringExecFns;

use crate::digits::{dec_digits, u64_to_string};

verus! {

/// Where the service listens.
#[derive(Debug)]
pub struct ServerSettings {
    pub host: String,
    pub port: u16,
}

/// Ledger defaults.
#[derive(Debug)]
pub struct BlockchainSettings {
    pub default_difficulty: usize,
    pub max_block_size: usize,
}

/// Where the store keeps its data.
#[derive(Debug)]
pub struct StorageSettings {
    pub data_dir: String,
}

/// The whole configuration.
#[derive(Debug)]
pub struct Settings {
    pub server: ServerSettings,
    pub blockchain: BlockchainSettings,
    pub storage: StorageSettings,
}

impl Default for Settings {
    /// The defaults used when no configuration file exists.
    fn default() -> (r: Settings)
        ensures
            r.server.host@ == "0.0.0.0"@,
            r.server.port == 50051,
            r.blockchain.default_difficulty == 2,
            r.blockchain.max_block_size == 1048576,
            r.storage.data_dir@ == "./data/blockchain"@,
    {
        Settings {
            server: ServerSettings { host: String::from_str("0.0.0.0"), port: 50051 },
            blockchain: BlockchainSettings { default_difficulty: 2, max_block_size: 1048576 },
            storage: StorageSettings { data_dir: String::from_str("./data/blockchain") },
        }
    }
}

impl Settings {
    /// The listen address: host, a colon, and the port in decimal.
    pub fn server_address(&self) -> (r: String)
        ensures
            r@ == self.server.host@ + seq![':'] + dec_digits(self.server.port as nat),
    {
        let mut out = self.server.host.clone();
        out.append(":");
        out.append(u64_to_string(self.server.port as u64).as_str());
        proof {
            reveal_strlit(":");
            assert(":"@ =~= seq![':']);
        }
        out
    }
}

} // verus!
