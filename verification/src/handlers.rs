//! The per-API handlers: each consumes a parsed request and appends exact
//! response-body bytes.

pub mod api_version;
pub mod describe_topic_partitions;
pub mod fetch;
