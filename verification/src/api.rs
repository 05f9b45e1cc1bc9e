//! The requests and answers of the HTTP interface, as plain values.
use vstd::prelude::*;
use crate::auth::Action;

verus! {

/// The pause flag of a pause request.
#[derive(Debug)]
pub struct AuthQuery {
    pub paused: Option<bool>,
}

/// A grant or revocation: the administrator, the user and the actions.
#[derive(Debug)]
pub struct AuthRequest {
    pub admin_pubkey: Option<String>,
    pub user_pubkey: Option<String>,
    pub perm_char: Option<Vec<Action>>,
}

/// A page of users, or a lookup of users by key prefix.
#[derive(Debug)]
pub struct AuthPageRequest {
    pub pubkey: Option<String>,
    pub page: Option<usize>,
    pub limit: usize,
}

/// New fee settings.
#[derive(Debug)]
pub struct FeeRequest {
    pub base_fee: u64,
    pub fee_per_byte: u64,
    pub scan_fee_per_item: u64,
}

/// The answer to a health check.
#[derive(Debug)]
pub struct HealthResponse {
    pub status: String,
    pub program_id: String,
    pub message: String,
}

/// A write, or a scan from `key` of at most `limit` keys.
#[derive(Debug)]
pub struct KVRequest {
    pub key: String,
    pub value: String,
    pub limit: u64,
}

/// A page of keys.
#[derive(Debug)]
pub struct PageRequest {
    pub page: usize,
    pub limit: usize,
}

/// A read or delete of a key.
#[derive(Debug)]
pub struct KVQuery {
    pub key: String,
}

/// The health answer of a node serving the program `program_id`.
pub fn health_response(program_id: &str) -> (r: HealthResponse)
    ensures
        r.status@ == "ok"@,
        r.program_id@ == program_id@,
        r.message@ == "service is running"@,
{
    HealthResponse {
        status: String::from_str("ok"),
        program_id: String::from_str(program_id),
        message: String::from_str("service is running"),
    }
}

/// A request replicated through the log before it goes on chain: a write
/// of the data (upsert, delete) or a change of the settings (pause, fees).
/// The two answer failures with different status codes.
#[derive(Debug, Clone, Copy, PartialEq, Eq, Structural)]
pub enum ReplicatedKind {
    DataWrite,
    Setting,
}

/// What the node does next with a replicated request.
#[derive(Debug, Clone, Copy, PartialEq, Eq, Structural)]
pub enum ReplicatedAction {
    /// Send the transaction to the chain.
    SendToChain,
    /// Answer with this HTTP status.
    Answer { status: u16 },
}

/// After the proposal to the log: once it is committed the transaction is
/// sent; a failed proposal is answered at once (500 for a data write, 503
/// for a setting), and nothing goes on chain.
pub fn after_proposal(kind: ReplicatedKind, committed: bool) -> (r: ReplicatedAction)
    ensures
        committed ==> r == ReplicatedAction::SendToChain,
        !committed && kind == ReplicatedKind::DataWrite ==> r == (ReplicatedAction::Answer { status: 500 }),
        !committed && kind == ReplicatedKind::Setting ==> r == (ReplicatedAction::Answer { status: 503 }),
{
    if committed {
        ReplicatedAction::SendToChain
    } else {
        match kind {
            ReplicatedKind::DataWrite => ReplicatedAction::Answer { status: 500 },
            ReplicatedKind::Setting => ReplicatedAction::Answer { status: 503 },
        }
    }
}

/// The status of the answer once the transaction was sent: 200 when it
/// went through; otherwise 400 for a data write and 500 for a setting.
pub fn after_chain(kind: ReplicatedKind, sent: bool) -> (r: u16)
    ensures
        sent ==> r == 200,
        !sent && kind == ReplicatedKind::DataWrite ==> r == 400,
        !sent && kind == ReplicatedKind::Setting ==> r == 500,
{
    if sent {
        200
    } else {
        match kind {
            ReplicatedKind::DataWrite => 400,
            ReplicatedKind::Setting => 500,
        }
    }
}

/// The raft network: peers are reached over HTTP at their addresses.
pub struct Network {}

impl Network {
    /// The network; it holds nothing until a peer is reached.
    pub fn new() -> (r: Network)
        ensures
            r == (Network {}),
    {
        Network {}
    }
}

} // verus!
