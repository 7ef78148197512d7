//! A node's configuration from its parameters, and its chains from their
//! genesis blocks.

use vstd::prelude::*;
use crate::hash::H256;
use crate::configuration::Configuration;
use crate::merkle::MerkleTree;
use crate::blockchain::Blockchain;
use crate::multichain::{Multichain, genesis_of};
use crate::block::BlockHeader;
use crate::block::transaction_block::TransactionBlock;
use crate::block::proposer_block::ProposerBlock;
use crate::block::availability_block::AvailabilityBlock;
use crate::block::ordering_block::OrderingBlock;
use crate::block::versa_block::{VersaBlock, VersaModel};

verus! {

/// The parameters a node is started with.
#[derive(Debug, Clone, Copy)]
pub struct NodeParams {
    pub shard_id: usize,
    pub node_id: usize,
    pub exper_number: usize,
    pub exper_iter: usize,
    pub shard_num: usize,
    pub shard_size: usize,
    pub block_size: usize,
    pub symbol_size: usize,
    pub prop_size: usize,
    pub avai_size: usize,
    pub ex_req_num: usize,
    pub in_req_num: usize,
    pub confirmation_depth: usize,
    pub tx_diff: H256,
    pub prop_diff: H256,
    pub avai_diff: H256,
    pub in_avai_diff: H256,
}

/// Why a node cannot be set up from its parameters.
#[derive(Debug, Clone, Copy, PartialEq, Eq, Structural)]
pub enum SetupError {
    /// The symbol size is zero.
    SymbolSizeZero,
    /// The block size is not a multiple of the symbol size.
    BlockSizeNotMultiple,
    /// The node's shard is not one of the shards.
    ShardOutOfRange,
}

/// The configuration the parameters give: symbols per block is the block
/// size over the symbol size, the confirmation depth is `k`.
pub open spec fn configured(p: NodeParams, c: Configuration) -> bool {
    &&& c.tx_diff == p.tx_diff
    &&& c.prop_diff == p.prop_diff
    &&& c.avai_diff == p.avai_diff
    &&& c.in_avai_diff == p.in_avai_diff
    &&& c.block_size == p.block_size
    &&& c.symbol_size == p.symbol_size
    &&& c.num_symbol_per_block == p.block_size / p.symbol_size
    &&& c.prop_size == p.prop_size
    &&& c.avai_size == p.avai_size
    &&& c.ex_req_num == p.ex_req_num
    &&& c.in_req_num == p.in_req_num
    &&& c.k == p.confirmation_depth
    &&& c.shard_id == p.shard_id
    &&& c.node_id == p.node_id
    &&& c.exper_number == p.exper_number
    &&& c.exper_iter == p.exper_iter
    &&& c.shard_num == p.shard_num
    &&& c.shard_size == p.shard_size
}

/// The configuration of a node; the block size must be a multiple of a
/// symbol size that is not zero.
pub fn make_configuration(p: &NodeParams) -> (r: Result<Configuration, SetupError>)
    ensures
        p.symbol_size == 0 ==> r == Err::<Configuration, SetupError>(SetupError::SymbolSizeZero),
        p.symbol_size != 0 && p.block_size % p.symbol_size != 0 ==> r == Err::<Configuration, SetupError>(
            SetupError::BlockSizeNotMultiple,
        ),
        p.symbol_size != 0 && p.block_size % p.symbol_size == 0 ==> (r matches Ok(c) && configured(*p, c)),
{
    if p.symbol_size == 0 {
        return Err(SetupError::SymbolSizeZero);
    }
    if p.block_size % p.symbol_size != 0 {
        return Err(SetupError::BlockSizeNotMultiple);
    }
    let mut config = Configuration::new();
    config.tx_diff = p.tx_diff;
    config.prop_diff = p.prop_diff;
    config.avai_diff = p.avai_diff;
    config.in_avai_diff = p.in_avai_diff;
    config.block_size = p.block_size;
    config.symbol_size = p.symbol_size;
    config.num_symbol_per_block = p.block_size / p.symbol_size;
    config.prop_size = p.prop_size;
    config.avai_size = p.avai_size;
    config.ex_req_num = p.ex_req_num;
    config.in_req_num = p.in_req_num;
    config.k = p.confirmation_depth;
    config.shard_id = p.shard_id;
    config.node_id = p.node_id;
    config.exper_number = p.exper_number;
    config.exper_iter = p.exper_iter;
    config.shard_num = p.shard_num;
    config.shard_size = p.shard_size;
    Ok(config)
}

/// The genesis block of availability chain `i`: an exclusive availability
/// block with the default header set to shard `i`, nonce 0 and no
/// transaction blocks.
pub fn avai_genesis_block(i: usize) -> (b: VersaBlock)
    ensures
        b@ matches VersaModel::ExAvai(a) && a.header.shard_id == i as u32 && a.nonce == 0 && a.avai_tx_set.len() == 0,
{
    let mut header = BlockHeader::default();
    header.set_shard_id(i);
    let empty: Vec<TransactionBlock> = Vec::new();
    let tree = MerkleTree::<TransactionBlock>::new(empty.as_slice());
    VersaBlock::ExAvaiBlock(AvailabilityBlock::new(header, 0, tree))
}

/// The chains a node starts with: the default proposer block, one
/// availability genesis block per shard, and an ordering genesis block that
/// confirms all of those; each chain holds only its genesis block.
pub fn genesis_multichain(config: &Configuration) -> (r: Result<Multichain, SetupError>)
    ensures
        config.shard_id >= config.shard_num ==> r == Err::<Multichain, SetupError>(SetupError::ShardOutOfRange),
        config.shard_id < config.shard_num ==> (r matches Ok(m) && {
            &&& m.wf()
            &&& m.config_of() == *config
            &&& m.avai_chains().len() == config.shard_num
            &&& m.prop_chain().size_of() == 1
            &&& m.order_chain().size_of() == 1
            &&& genesis_of(m.prop_chain()) is PropBlock
            &&& genesis_of(m.order_chain())@ matches VersaModel::Order(o) && o.confirmed_avai_set.len() == config.shard_num
                && forall|i: int| 0 <= i < config.shard_num ==> #[trigger] o.confirmed_avai_set[i] == (
                m.avai_chains()[i].tree().val,
                i as u32,
            )
            &&& forall|i: int| 0 <= i < config.shard_num ==> #[trigger] m.avai_chains()[i].size_of() == 1
                && (genesis_of(m.avai_chains()[i])@ matches VersaModel::ExAvai(a) && a.header.shard_id == i as u32)
        }),
{
    if config.shard_id >= config.shard_num {
        return Err(SetupError::ShardOutOfRange);
    }
    let prop_chain = Blockchain::new(VersaBlock::PropBlock(ProposerBlock::default()), config);
    let mut avai_chains: Vec<Blockchain> = Vec::new();
    let mut genesis_avai_set: Vec<(H256, u32)> = Vec::new();
    let mut i: usize = 0;
    while i < config.shard_num
        invariant
            i <= config.shard_num,
            avai_chains@.len() == i,
            genesis_avai_set@.len() == i,
            forall|j: int| 0 <= j < i ==> {
                &&& (#[trigger] avai_chains@[j]).wf()
                &&& avai_chains@[j].size_of() == 1
                &&& genesis_of(avai_chains@[j])@ matches VersaModel::ExAvai(a) && a.header.shard_id == j as u32
                &&& avai_chains@[j].config_of() == *config
                &&& genesis_avai_set@[j] == (avai_chains@[j].tree().val, j as u32)
            },
        decreases config.shard_num - i,
    {
        let block = avai_genesis_block(i);
        let h = block.hash_value();
        let c = Blockchain::new(block, config);
        proof {
            crate::blockchain::law_genesis_held(&c);
        }
        avai_chains.push(c);
        genesis_avai_set.push((h, i as u32));
        i = i + 1;
    }
    let ghost set = genesis_avai_set@;
    let ordering_chain = Blockchain::new(
        VersaBlock::OrderBlock(OrderingBlock::new(BlockHeader::default(), 0, genesis_avai_set)),
        config,
    );
    let m = Multichain::new(prop_chain, avai_chains, ordering_chain, config);
    Ok(m)
}

} // verus!
