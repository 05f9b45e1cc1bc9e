//! AeroKV: a key-value service whose keys live in a Bitcask-style
//! append-only log, replicated by a small Raft-like protocol and mirrored
//! on a Solana program.  This crate holds the verified core: the log
//! format and index, the key order, permission handling, the replication
//! state machine and the decisions of the on-chain program.
pub mod api;
pub mod auth;
pub mod chain;
pub mod chainlog;
pub mod config;
pub mod constants;
pub mod error;
pub mod keyorder;
pub mod keypair;
pub mod log_store;
pub mod merkle;
pub mod program;
pub mod proxy;
pub mod sessions;
pub mod solana;
pub mod state_machine;
pub mod storage;
pub mod text;
pub mod validator;
pub mod raft_node;
pub mod raft_server;
