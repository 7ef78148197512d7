//! The messages nodes exchange.

use vstd::prelude::*;
use crate::hash::H256;
use crate::block::transaction_block::TransactionBlock;
use crate::block::versa_block::{VersaBlock, VersaHash};
use crate::symbolpool::{Symbol, SymbolIndex};

verus! {

/// A message between two nodes.
#[derive(Debug)]
pub enum Message {
    Ping(String),
    Pong(String),
    /// Hashes of transaction blocks a node has.
    NewTxBlockHash(Vec<H256>),
    /// A request for transaction blocks.
    GetTxBlocks(Vec<H256>),
    TxBlocks(Vec<TransactionBlock>),
    /// Hashes of blocks a node has, tagged with their chain.
    NewBlockHash(Vec<VersaHash>),
    /// A request for blocks.
    GetBlocks(Vec<VersaHash>),
    Blocks(Vec<VersaBlock>),
    /// Indexes of symbols a node has.
    NewSymbols(Vec<SymbolIndex>),
    /// A request for symbols.
    GetSymbols(Vec<SymbolIndex>),
    Symbols(Vec<Symbol>),
}

} // verus!
