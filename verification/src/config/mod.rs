//! The settings the back end reads from its environment.
use vstd::prelude::*;

pub mod env_config;

verus! {

/// The chain settings: the payer keypair, the RPC endpoint and the
/// program id.
#[derive(Debug, Clone)]
pub struct Config {
    pub payer_keypair: String,
    pub rpc_url: String,
    pub program_id: String,
}

} // verus!
