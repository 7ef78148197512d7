//! Block, chain and data-availability logic of an OptChain node: the
//! proposer, availability and ordering chains, the pools of transaction
//! blocks and coded symbols, and the decisions a node takes on messages.

pub mod hash;
pub mod hex;
pub mod merkle;
pub mod transaction;
pub mod block;
pub mod tree;
pub mod store;
pub mod configuration;
pub mod blockchain;
pub mod multichain;
pub mod mempool;
pub mod symbolpool;
pub mod message;
pub mod worker;
pub mod validator;
pub mod setup;
pub mod api;
