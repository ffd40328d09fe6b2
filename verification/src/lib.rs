//! Verified core of a small RPC library: client load balancing,
//! request identifiers and the server's per-request dispatch decisions.

pub mod text;
pub mod balance;
pub mod codec;
pub mod manager;
pub mod stub;
