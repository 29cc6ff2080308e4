//! A single-node, in-memory key-value store behind a framed, checksummed
//! datagram protocol: the wire codec, the bounded store, the cache that
//! suppresses duplicate requests, and the request-handling engine.

pub mod application;
pub mod engine;
pub mod expiring_hashmap;
pub mod kv_store;
pub mod protocol;
pub mod server;
pub mod wire;
