//! The Bitcask-style store: an append-only log and a sorted in-memory index.
pub mod codec;
pub mod keydir;
pub mod engine;
