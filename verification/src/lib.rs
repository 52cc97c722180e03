#![verifier::loop_isolation(false)]
//! A verified core of a Topos Certificate Exchange (TCE) node: the double-echo
//! reliable-broadcast engine, the certificate storage and index engine with
//! checkpoint queries, the API runtime's stream bookkeeping, and the protocol
//! router that wires them to the gossip fabric.
//!
//! All state lives in memory. A deployment that persists the store to disk
//! and recovers it on restart sits outside this crate; the storage contracts
//! here are what such an embedding must preserve.

pub mod types;
pub mod store;
pub mod double_echo;
pub mod pipeline;
pub mod runtime;
pub mod config;
pub mod protocol;

