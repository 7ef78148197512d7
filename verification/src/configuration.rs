//! The parameters a node runs with.

use vstd::prelude::*;
use crate::hash::H256;

verus! {

/// Difficulties, sizes, the confirmation depth and the node's place among
/// the shards.
#[derive(Debug, Clone, Copy)]
pub struct Configuration {
    pub tx_diff: H256,
    pub prop_diff: H256,
    pub avai_diff: H256,
    pub in_avai_diff: H256,
    pub block_size: usize,
    pub symbol_size: usize,
    pub num_symbol_per_block: usize,
    pub prop_size: usize,
    pub avai_size: usize,
    pub ex_req_num: usize,
    pub in_req_num: usize,
    pub k: usize,
    pub shard_id: usize,
    pub node_id: usize,
    pub shard_num: usize,
    pub shard_size: usize,
    pub exper_number: usize,
    pub exper_iter: usize,
}

/// The hash with all 32 bytes zero.
pub open spec fn zero_view() -> Seq<u8> {
    Seq::new(32, |i: int| 0u8)
}

/// Zero difficulties and sizes, confirmation depth 6, first shard and node.
pub open spec fn is_initial_configuration(c: Configuration) -> bool {
    &&& c.tx_diff@ == zero_view()
    &&& c.prop_diff@ == zero_view()
    &&& c.avai_diff@ == zero_view()
    &&& c.in_avai_diff@ == zero_view()
    &&& c.block_size == 0
    &&& c.symbol_size == 0
    &&& c.num_symbol_per_block == 0
    &&& c.prop_size == 0
    &&& c.avai_size == 0
    &&& c.ex_req_num == 0
    &&& c.in_req_num == 0
    &&& c.k == 6
    &&& c.shard_id == 0
    &&& c.node_id == 0
    &&& c.shard_num == 0
    &&& c.shard_size == 0
    &&& c.exper_number == 0
    &&& c.exper_iter == 0
}

impl Configuration {
    /// The initial configuration.
    pub fn new() -> (c: Self)
        ensures
            is_initial_configuration(c),
    {
        Configuration {
            tx_diff: H256::default(),
            prop_diff: H256::default(),
            avai_diff: H256::default(),
            in_avai_diff: H256::default(),
            block_size: 0,
            symbol_size: 0,
            num_symbol_per_block: 0,
            prop_size: 0,
            avai_size: 0,
            ex_req_num: 0,
            in_req_num: 0,
            k: 6,
            shard_id: 0,
            node_id: 0,
            shard_num: 0,
            shard_size: 0,
            exper_number: 0,
            exper_iter: 0,
        }
    }
}

} // verus!
