//! The adapter's configuration.
use crate::types::NetworkKind;
use vstd::prelude::*;

verus! {

/// The settings that the adapter runs with.
pub struct Config {
    /// The Bitcoin network to follow; it fixes the genesis header.
    pub network: NetworkKind,
    /// The SOCKS proxy to reach peers through, as a URL.
    pub socks_proxy: Option<String>,
    /// Seconds without requests after which the adapter goes idle.
    pub idle_seconds: u64,
}

} // verus!
