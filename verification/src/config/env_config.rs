//! The full settings of a back-end node.
use vstd::prelude::*;

verus! {

/// The settings a node is started with: the chain settings, the port it
/// serves on and the treasury that collects fees.
#[derive(Debug, Clone)]
pub struct Config {
    pub payer_keypair: String,
    pub rpc_url: String,
    pub program_id: String,
    pub server_port: String,
    pub treasury: String,
}

} // verus!
