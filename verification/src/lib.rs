//! A verified core for a broker-compatible event-streaming TCP server.
//!
//! The library holds the wire codec (varints, big-endian integers, UUIDs,
//! compact strings and arrays), the cluster-metadata log parser, the
//! request/response framing, and the per-API handlers. All I/O (sockets,
//! files) lives outside the library; every function here is pure
//! byte-in/byte-out logic with a verified contract.

pub mod codec;
pub mod cluster;
pub mod protocol;
pub mod handlers;
pub mod server;
