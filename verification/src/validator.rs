//! Checks a block must pass before a node takes it.

use vstd::prelude::*;
use crate::hash::H256;
use crate::configuration::Configuration;
use crate::symbolpool::SymbolPool;
use crate::block::transaction_block::TxBlockModel;
use crate::block::versa_block::{VersaBlock, versa_hash_valid, versa_tx_blocks};

verus! {

/// Checks blocks against the symbols a node received.
pub struct Validator {
    config: Configuration,
}

/// Where a value to validate came from.
#[derive(Debug, Clone, Copy, PartialEq, Eq, Structural)]
pub enum ValidationSource {
    FromBlock,
    FromTransaction,
}

/// What became of an output referred to across shards.
#[derive(Debug, Clone, Copy, PartialEq, Eq, Structural)]
pub enum CrossUtxoStatus {
    Available,
    Confirmed,
}

/// Why a block failed validation.
#[derive(Debug, Clone, Copy, PartialEq, Eq, Structural)]
pub enum ValidationError {
    /// The stored hash is not the hash of the block's header and nonce.
    IncorrectHash,
    /// Some symbols of a commitment of the block are not received.
    SymbolsMissing,
}

/// Whether the pool requested commitment `cmt` and holds all its requested
/// symbols.
pub open spec fn cmt_available(p: SymbolPool, cmt: H256) -> bool {
    p.requested().contains_key(cmt) && p.unreceived(cmt).len() == 0
}

/// Whether every transaction block of the list has its commitment available.
pub open spec fn all_available(p: SymbolPool, txs: Seq<TxBlockModel>) -> bool {
    forall|i: int| 0 <= i < txs.len() ==> #[trigger] cmt_available(p, txs[i].header.cmt_root)
}

impl Validator {
    pub closed spec fn config_of(&self) -> Configuration {
        self.config
    }

    pub fn new(config: &Configuration) -> (v: Self)
        ensures
            v.config_of() == *config,
    {
        Validator { config: *config }
    }

    /// A block passes when its stored hash is right and, for an
    /// availability block, when the symbols of all its commitments are
    /// received.
    pub fn validate_block(&self, block: &VersaBlock, pool: &SymbolPool) -> (r: Result<bool, ValidationError>)
        ensures
            !versa_hash_valid(block@) ==> r == Err::<bool, ValidationError>(ValidationError::IncorrectHash),
            versa_hash_valid(block@) && (block@ is Prop || block@ is Order) ==> r == Ok::<bool, ValidationError>(true),
            versa_hash_valid(block@) && (block@ is ExAvai || block@ is InAvai) ==> r == if all_available(
                *pool,
                versa_tx_blocks(block@),
            ) {
                Ok::<bool, ValidationError>(true)
            } else {
                Err::<bool, ValidationError>(ValidationError::SymbolsMissing)
            },
    {
        if !block.verify_hash() {
            return Err(ValidationError::IncorrectHash);
        }
        match block {
            VersaBlock::PropBlock(_) | VersaBlock::OrderBlock(_) => Ok(true),
            VersaBlock::ExAvaiBlock(ab) | VersaBlock::InAvaiBlock(ab) => {
                let txs = ab.get_avai_tx_set();
                let ghost s = versa_tx_blocks(block@);
                let mut i: usize = 0;
                while i < txs.len()
                    invariant
                        i <= txs@.len(),
                        versa_hash_valid(block@),
                        block@ is ExAvai || block@ is InAvai,
                        s == versa_tx_blocks(block@),
                        s == crate::block::transaction_block::tx_block_views(txs@),
                        forall|j: int| 0 <= j < i ==> #[trigger] cmt_available(*pool, s[j].header.cmt_root),
                    decreases txs@.len() - i,
                {
                    let cmt = txs[i].get_cmt_root();
                    let available = match pool.get_unreceived_symbols(&cmt) {
                        Ok(v) => v.len() == 0,
                        Err(_) => false,
                    };
                    if !available {
                        assert(s[i as int] == txs@[i as int]@);
                        assert(!cmt_available(*pool, s[i as int].header.cmt_root));
                        return Err(ValidationError::SymbolsMissing);
                    }
                    i = i + 1;
                }
                Ok(true)
            },
        }
    }
}

} // verus!
