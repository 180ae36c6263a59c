//! An overlay messaging router: nodes with string identities exchange
//! length-delimited message batches over an outside transport, maintain a
//! distance-vector route table, buffer unforwardable batches in a backlog,
//! and run trace, ticket and broadcast services on top of the mesh.
//!
//! Everything here is deterministic state logic: the callers own the clock,
//! the transport and the scheduler, and hand in plain values.

pub mod backlog;
pub mod broadcasting;
pub mod codec;
pub mod config;
pub mod message;
pub mod peering;
pub mod processing;
pub mod routing;
pub mod seq_util;
pub mod state;
pub mod ticket;
pub mod tracing;
