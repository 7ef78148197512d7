//! Availability blocks: a header, a nonce, the nonce-hash and the transaction blocks an availability chain links.

use vstd::prelude::*;
use crate::hash::{H256, Hashable, Duplicate, spec_pow_hash};
use crate::merkle::MerkleTree;
use crate::block::{BlockHeader, HeaderModel, Info, Timestamp, spec_header_hash, is_default_header, is_zero_hash};
use crate::block::transaction_block::{TransactionBlock, TxBlockModel, tx_block_views, copy_tx_blocks};

verus! {

/// What an availability block holds.
pub struct AvaiModel {
    pub header: HeaderModel,
    pub nonce: u32,
    pub hash: H256,
    pub avai_tx_set: Seq<TxBlockModel>,
}

/// Whether the stored hash is the nonce-hash of the header.
pub open spec fn avai_hash_valid(m: AvaiModel) -> bool {
    m.hash@ == spec_pow_hash(spec_header_hash(m.header), m.nonce)
}

#[derive(Debug)]
pub struct AvailabilityBlock {
    header: BlockHeader,
    nonce: u32,
    hash: H256,
    avai_tx_set: MerkleTree<TransactionBlock>,
}

impl View for AvailabilityBlock {
    type V = AvaiModel;

    closed spec fn view(&self) -> AvaiModel {
        AvaiModel { header: self.header@, nonce: self.nonce, hash: self.hash, avai_tx_set: self.avai_tx_set@ }
    }
}

impl Default for AvailabilityBlock {
    /// The default block: default header, nonce 0, zero hash, no transaction blocks.
    fn default() -> (b: Self)
        ensures
            is_default_header(b@.header),
            b@.nonce == 0,
            is_zero_hash(b@.hash),
            b@.avai_tx_set.len() == 0,
    {
        let empty: Vec<TransactionBlock> = Vec::new();
        AvailabilityBlock {
            header: BlockHeader::default(),
            nonce: 0,
            avai_tx_set: MerkleTree::<TransactionBlock>::new(empty.as_slice()),
            hash: H256::zero(),
        }
    }
}

impl Hashable for AvailabilityBlock {
    open spec fn hash_of(v: AvaiModel) -> Seq<u8> {
        v.hash@
    }

    fn hash(&self) -> (h: H256) {
        self.hash
    }
}

impl Duplicate for AvailabilityBlock {
    fn duplicate(&self) -> (r: Self) {
        AvailabilityBlock {
            header: self.header.duplicate(),
            nonce: self.nonce,
            hash: self.hash,
            avai_tx_set: self.avai_tx_set.duplicate(),
        }
    }
}

impl Clone for AvailabilityBlock {
    fn clone(&self) -> (r: Self)
        ensures
            r@ == self@,
    {
        self.duplicate()
    }
}

impl Info for AvailabilityBlock {
    open spec fn info_header(&self) -> HeaderModel {
        self@.header
    }

    fn get_shard_id(&self) -> (r: usize) {
        self.header.get_shard_id()
    }

    fn get_prop_parent(&self) -> (r: H256) {
        self.header.get_prop_parent()
    }

    fn get_inter_parent(&self) -> (r: H256) {
        self.header.get_inter_parent()
    }

    fn get_global_parents(&self) -> (r: Vec<(H256, usize)>) {
        self.header.get_global_parents()
    }

    fn get_order_parent(&self) -> (r: H256) {
        self.header.get_order_parent()
    }

    fn get_prop_root(&self) -> (r: H256) {
        self.header.get_prop_root()
    }

    fn get_avai_root(&self) -> (r: H256) {
        self.header.get_avai_root()
    }

    fn get_order_root(&self) -> (r: H256) {
        self.header.get_order_root()
    }

    fn get_cmt_root(&self) -> (r: H256) {
        self.header.get_cmt_root()
    }

    fn get_timestamp(&self) -> (r: Timestamp) {
        self.header.get_timestamp()
    }

    fn get_info_hash(&self) -> (r: Vec<H256>) {
        self.header.get_info_hash()
    }
}

impl AvailabilityBlock {
    /// A block as received: its parts, with the hash it carries, checked
    /// later by `verify_hash`.
    pub fn from_parts(header: BlockHeader, nonce: u32, avai_tx_set: MerkleTree<TransactionBlock>, hash: H256) -> (b: Self)
        ensures
            b@ == (AvaiModel { header: header@, nonce, hash, avai_tx_set: avai_tx_set@ }),
    {
        AvailabilityBlock { header, nonce, hash, avai_tx_set }
    }

    /// A block whose hash is the nonce-hash of the header; the nonce is cut to 32 bits.
    pub fn new(header: BlockHeader, nonce: usize, avai_tx_set: MerkleTree<TransactionBlock>) -> (b: Self)
        ensures
            b@.header == header@,
            b@.nonce == nonce as u32,
            b@.avai_tx_set == avai_tx_set@,
            b@.hash@ == spec_pow_hash(spec_header_hash(header@), nonce as u32),
            avai_hash_valid(b@),
    {
        let h = header.hash();
        AvailabilityBlock { hash: H256::pow_hash(&h, nonce as u32), header, nonce: nonce as u32, avai_tx_set }
    }

    pub fn get_nonce(&self) -> (n: usize)
        ensures
            n == self@.nonce,
    {
        self.nonce as usize
    }

    /// The transaction blocks the block links.
    pub fn get_avai_tx_set(&self) -> (r: Vec<TransactionBlock>)
        ensures
            tx_block_views(r@) == self@.avai_tx_set,
    {
        copy_tx_blocks(self.avai_tx_set.data())
    }

    /// The block's header.
    pub fn header(&self) -> (r: &BlockHeader)
        ensures
            r@ == self@.header,
    {
        &self.header
    }

    /// Whether the stored hash is the nonce-hash of the header.
    pub fn verify_hash(&self) -> (b: bool)
        ensures
            b == avai_hash_valid(self@),
    {
        let h = self.header.hash();
        let p = H256::pow_hash(&h, self.nonce);
        p.equals(&self.hash)
    }

    /// Whether two blocks hold the same values.
    pub fn same(&self, other: &AvailabilityBlock) -> (b: bool)
        ensures
            b == (self@ == other@),
    {
        if self.nonce != other.nonce || !self.hash.equals(&other.hash) || !self.header.same(&other.header) {
            return false;
        }
        let a = self.get_avai_tx_set();
        let c = other.get_avai_tx_set();
        if a.len() != c.len() {
            proof {
                if self@ == other@ {
                    assert(tx_block_views(a@).len() == tx_block_views(c@).len());
                }
            }
            return false;
        }
        let mut i: usize = 0;
        while i < a.len()
            invariant
                a@.len() == c@.len(),
                i <= a@.len(),
                tx_block_views(a@) == self@.avai_tx_set,
                tx_block_views(c@) == other@.avai_tx_set,
                forall|k: int| 0 <= k < i ==> a@[k]@ == c@[k]@,
            decreases a@.len() - i,
        {
            if !a[i].same(&c[i]) {
                proof {
                    if self@ == other@ {
                        assert(tx_block_views(a@)[i as int] == tx_block_views(c@)[i as int]);
                    }
                }
                return false;
            }
            i = i + 1;
        }
        assert(tx_block_views(a@) =~= tx_block_views(c@));
        true
    }
}

} // verus!
