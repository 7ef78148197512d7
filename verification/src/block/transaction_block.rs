//! Transaction blocks: a header and a nonce.

use vstd::prelude::*;
use crate::hash::{H256, Hashable, Duplicate};
use crate::block::{BlockHeader, HeaderModel, Info, Timestamp, spec_header_hash, is_default_header};

verus! {

/// What a transaction block holds.
pub struct TxBlockModel {
    pub header: HeaderModel,
    pub nonce: u32,
}

/// A transaction block.
#[derive(Debug)]
pub struct TransactionBlock {
    header: BlockHeader,
    nonce: u32,
}

impl View for TransactionBlock {
    type V = TxBlockModel;

    closed spec fn view(&self) -> TxBlockModel {
        TxBlockModel { header: self.header@, nonce: self.nonce }
    }
}

impl TransactionBlock {
    /// A transaction block; the nonce is cut to 32 bits.
    pub fn new(header: BlockHeader, nonce: usize) -> (b: Self)
        ensures
            b@ == (TxBlockModel { header: header@, nonce: nonce as u32 }),
    {
        TransactionBlock { header, nonce: nonce as u32 }
    }

    /// Bytes the block's values take: its nonce and its header.
    pub fn get_mem_size(&self) -> (n: usize)
        requires
            32 * (5 + self@.header.global_parents.len()) + 24 <= usize::MAX,
        ensures
            n == 4 + 32 * (5 + self@.header.global_parents.len()) + 20,
    {
        4 + self.header.get_mem_size()
    }

    pub fn get_nonce(&self) -> (n: usize)
        ensures
            n == self@.nonce,
    {
        self.nonce as usize
    }

    pub fn get_cmt_root(&self) -> (r: H256)
        ensures
            r == self@.header.cmt_root,
    {
        self.header.get_cmt_root()
    }

    /// The block's header.
    pub fn header(&self) -> (r: &BlockHeader)
        ensures
            r@ == self@.header,
    {
        &self.header
    }

    /// Whether two transaction blocks hold the same values.
    pub fn same(&self, other: &TransactionBlock) -> (b: bool)
        ensures
            b == (self@ == other@),
    {
        self.nonce == other.nonce && self.header.same(&other.header)
    }
}

impl Default for TransactionBlock {
    fn default() -> (b: Self)
        ensures
            is_default_header(b@.header),
            b@.nonce == 0,
    {
        TransactionBlock { header: BlockHeader::default(), nonce: 0 }
    }
}

impl Hashable for TransactionBlock {
    open spec fn hash_of(v: TxBlockModel) -> Seq<u8> {
        spec_header_hash(v.header)
    }

    fn hash(&self) -> (h: H256) {
        self.header.hash()
    }
}

impl Duplicate for TransactionBlock {
    fn duplicate(&self) -> (r: Self) {
        TransactionBlock { header: self.header.duplicate(), nonce: self.nonce }
    }
}

impl Clone for TransactionBlock {
    fn clone(&self) -> (r: Self)
        ensures
            r@ == self@,
    {
        self.duplicate()
    }
}

impl Info for TransactionBlock {
    open spec fn info_header(&self) -> HeaderModel {
        self@.header
    }

    fn get_shard_id(&self) -> (r: usize) {
        self.header.get_shard_id()
    }

    fn get_prop_parent(&self) -> (r: H256) {
        self.header.get_prop_parent()
    }

    fn get_inter_parent(&self) -> (r: H256) {
        self.header.get_inter_parent()
    }

    fn get_global_parents(&self) -> (r: Vec<(H256, usize)>) {
        self.header.get_global_parents()
    }

    fn get_order_parent(&self) -> (r: H256) {
        self.header.get_order_parent()
    }

    fn get_prop_root(&self) -> (r: H256) {
        self.header.get_prop_root()
    }

    fn get_avai_root(&self) -> (r: H256) {
        self.header.get_avai_root()
    }

    fn get_order_root(&self) -> (r: H256) {
        self.header.get_order_root()
    }

    fn get_cmt_root(&self) -> (r: H256) {
        self.header.get_cmt_root()
    }

    fn get_timestamp(&self) -> (r: Timestamp) {
        self.header.get_timestamp()
    }

    fn get_info_hash(&self) -> (r: Vec<H256>) {
        self.header.get_info_hash()
    }
}

/// Copies a list of transaction blocks.
pub fn copy_tx_blocks(v: &Vec<TransactionBlock>) -> (r: Vec<TransactionBlock>)
    ensures
        tx_block_views(r@) == tx_block_views(v@),
{
    let mut r: Vec<TransactionBlock> = Vec::new();
    let mut i: usize = 0;
    while i < v.len()
        invariant
            i <= v@.len(),
            r@.len() == i,
            forall|k: int| 0 <= k < i ==> #[trigger] r@[k]@ == v@[k]@,
        decreases v@.len() - i,
    {
        r.push(v[i].duplicate());
        i = i + 1;
    }
    assert(tx_block_views(r@) =~= tx_block_views(v@));
    r
}

/// Views of a list of transaction blocks.
pub open spec fn tx_block_views(s: Seq<TransactionBlock>) -> Seq<TxBlockModel> {
    s.map_values(|b: TransactionBlock| b@)
}

} // verus!
