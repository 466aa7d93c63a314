//! A log-structured, persistent key/value store.
//!
//! The store appends every mutation as a self-describing record to a
//! per-generation log, keeps an in-memory index from key to record
//! location, and compacts stale data into a fresh generation once a
//! threshold of dead bytes accumulates.  A length-framed binary wire
//! protocol connects a thin client to a server that multiplexes
//! requests onto an engine.
//!
//! All state kept by the engine is modelled over plain byte and
//! character sequences, so the write path, the read path, recovery and
//! compaction are verified against a single specification of what a
//! log replays to.  The surrounding process (files, sockets, clocks)
//! hands plain values in and out.

pub mod bytesutil;
pub mod codec;
pub mod engines;
pub mod error;
pub mod index;
pub mod kv;
pub mod laws;
pub mod logset;
pub mod server;
pub mod sled_engine;
pub mod thread_pool;
pub mod varint;
pub mod wire;

pub use engines::KvsEngine;
pub use error::KvsError;
pub use kv::KvStore;
pub use server::KvsServer;
pub use sled_engine::SledKvsEngine;
