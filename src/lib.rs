//! An in-memory key-value store speaking a RESP-style wire protocol, with a
//! durable append-only command log.
//!
//! The library holds the verified core: the wire codec, the command parser,
//! the storage engine's per-command semantics, the binary log format and the
//! per-connection request buffering.

pub mod codec;
pub mod command;
pub mod config;
pub mod connection;
pub mod number;
pub mod processor;
pub mod storage;
pub mod text;
pub mod transaction;
pub mod types;
