//! Broker engine between a text editor and out-of-process language servers:
//! framed JSON-RPC transport, reply correlation, connection registry,
//! method dispatch, and per-request context resolution.

pub mod codec;
pub mod context;
pub mod dispatch;
pub mod json;
pub mod message;
pub mod pending;
pub mod registry;
pub mod rpcclient;
pub mod transport;
