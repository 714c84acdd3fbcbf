//! State engine of a Bitcoin P2P adapter: a tree of validated block headers
//! with heaviest-chain tip selection and a block cache, and a bounded relay
//! cache of outbound transactions.
pub mod types;
pub mod config;
pub mod cli;
pub mod bitcoin_types;
pub mod bitcoin_ops;
pub mod header_cache;
pub mod blockchainstate;
pub mod transaction_manager;
