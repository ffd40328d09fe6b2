//! Configuration and address sources for managers of client pools.

use std::collections::HashMap;
use std::time::Duration;
use vstd::prelude::*;

use crate::balance::LoadBalanceType;

verus! {

/// Fetches the remote service address lists: service name to addresses.
pub trait Fetcher: Sync + Send {
    /// Fetch the address lists.
    fn fetch(&self) -> HashMap<String, Vec<String>>;
}

/// Fetches the addresses of one remote service.
pub trait AddrFetcher {
    /// Fetch the addresses.
    fn fetch_addr(&self) -> Vec<String>;
}

/// How a manager balances calls and how often it refreshes its addresses.
#[derive(Debug, Clone, Copy)]
pub struct ManagerConfig {
    /// The rule for picking a client for each call.
    pub balance: LoadBalanceType,
    /// Time between two address fetches.
    pub interval: Duration,
}

} // verus!
