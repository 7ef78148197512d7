//! Ordering blocks: a header, a nonce, the nonce-hash and the availability
//! blocks (hash, shard) the block confirms.

use vstd::prelude::*;
use crate::hash::{H256, Hashable, Duplicate, spec_pow_hash};
use crate::block::{BlockHeader, HeaderModel, Info, Timestamp, spec_header_hash, is_default_header, copy_vec};

verus! {

/// What an ordering block holds.
pub struct OrderModel {
    pub header: HeaderModel,
    pub nonce: u32,
    pub hash: H256,
    pub confirmed_avai_set: Seq<(H256, u32)>,
}

/// Whether the stored hash is the nonce-hash of the header.
pub open spec fn order_hash_valid(m: OrderModel) -> bool {
    m.hash@ == spec_pow_hash(spec_header_hash(m.header), m.nonce)
}

#[derive(Debug)]
pub struct OrderingBlock {
    header: BlockHeader,
    nonce: u32,
    hash: H256,
    confirmed_avai_set: Vec<(H256, u32)>,
}

impl View for OrderingBlock {
    type V = OrderModel;

    closed spec fn view(&self) -> OrderModel {
        OrderModel {
            header: self.header@,
            nonce: self.nonce,
            hash: self.hash,
            confirmed_avai_set: self.confirmed_avai_set@,
        }
    }
}

impl Default for OrderingBlock {
    /// The default ordering block: default header and nonce 1, so that its hash
    /// differs from the default availability block of shard 0.
    fn default() -> (b: Self)
        ensures
            is_default_header(b@.header),
            b@.nonce == 1,
            b@.confirmed_avai_set.len() == 0,
            order_hash_valid(b@),
    {
        let header = BlockHeader::default();
        let h = header.hash();
        OrderingBlock { nonce: 1, confirmed_avai_set: Vec::new(), hash: H256::pow_hash(&h, 1), header }
    }
}

impl Hashable for OrderingBlock {
    open spec fn hash_of(v: OrderModel) -> Seq<u8> {
        v.hash@
    }

    fn hash(&self) -> (h: H256) {
        self.hash
    }
}

impl Duplicate for OrderingBlock {
    fn duplicate(&self) -> (r: Self) {
        OrderingBlock {
            header: self.header.duplicate(),
            nonce: self.nonce,
            hash: self.hash,
            confirmed_avai_set: copy_vec(&self.confirmed_avai_set),
        }
    }
}

impl Clone for OrderingBlock {
    fn clone(&self) -> (r: Self)
        ensures
            r@ == self@,
    {
        self.duplicate()
    }
}

impl Info for OrderingBlock {
    open spec fn info_header(&self) -> HeaderModel {
        self@.header
    }

    fn get_shard_id(&self) -> (r: usize) {
        self.header.get_shard_id()
    }

    fn get_prop_parent(&self) -> (r: H256) {
        self.header.get_prop_parent()
    }

    fn get_inter_parent(&self) -> (r: H256) {
        self.header.get_inter_parent()
    }

    fn get_global_parents(&self) -> (r: Vec<(H256, usize)>) {
        self.header.get_global_parents()
    }

    fn get_order_parent(&self) -> (r: H256) {
        self.header.get_order_parent()
    }

    fn get_prop_root(&self) -> (r: H256) {
        self.header.get_prop_root()
    }

    fn get_avai_root(&self) -> (r: H256) {
        self.header.get_avai_root()
    }

    fn get_order_root(&self) -> (r: H256) {
        self.header.get_order_root()
    }

    fn get_cmt_root(&self) -> (r: H256) {
        self.header.get_cmt_root()
    }

    fn get_timestamp(&self) -> (r: Timestamp) {
        self.header.get_timestamp()
    }

    fn get_info_hash(&self) -> (r: Vec<H256>) {
        self.header.get_info_hash()
    }
}

impl OrderingBlock {
    /// A block as received: its parts, with the hash it carries, checked
    /// later by `verify_hash`.
    pub fn from_parts(header: BlockHeader, nonce: u32, confirmed_avai_set: Vec<(H256, u32)>, hash: H256) -> (b: Self)
        ensures
            b@ == (OrderModel { header: header@, nonce, hash, confirmed_avai_set: confirmed_avai_set@ }),
    {
        OrderingBlock { header, nonce, hash, confirmed_avai_set }
    }

    /// A block whose hash is the nonce-hash of the header.
    /// An ordering block with a random header, nonce 0 and nothing confirmed.
    pub fn random() -> (b: Self)
        ensures
            b@.nonce == 0,
            b@.confirmed_avai_set.len() == 0,
            b@.header.global_parents == seq![(b@.header.prop_parent, b@.header.shard_id)],
            order_hash_valid(b@),
    {
        let header = BlockHeader::random();
        OrderingBlock::new(header, 0, Vec::new())
    }

    pub fn new(header: BlockHeader, nonce: u32, confirmed_avai_set: Vec<(H256, u32)>) -> (b: Self)
        ensures
            b@.header == header@,
            b@.nonce == nonce,
            b@.confirmed_avai_set == confirmed_avai_set@,
            b@.hash@ == spec_pow_hash(spec_header_hash(header@), nonce),
            order_hash_valid(b@),
    {
        let h = header.hash();
        OrderingBlock { hash: H256::pow_hash(&h, nonce), header, nonce, confirmed_avai_set }
    }

    pub fn get_nonce(&self) -> (n: u32)
        ensures
            n == self@.nonce,
    {
        self.nonce
    }

    /// The (hash, shard) pairs of the availability blocks this block confirms.
    pub fn get_confirmed_avai_set(&self) -> (r: Vec<(H256, u32)>)
        ensures
            r@ == self@.confirmed_avai_set,
    {
        copy_vec(&self.confirmed_avai_set)
    }

    /// The block's header.
    pub fn header(&self) -> (r: &BlockHeader)
        ensures
            r@ == self@.header,
    {
        &self.header
    }

    /// Whether the stored hash is the nonce-hash of the header.
    pub fn verify_hash(&self) -> (b: bool)
        ensures
            b == order_hash_valid(self@),
    {
        let h = self.header.hash();
        let p = H256::pow_hash(&h, self.nonce);
        p.equals(&self.hash)
    }

    /// Whether two blocks hold the same values.
    pub fn same(&self, other: &OrderingBlock) -> (b: bool)
        ensures
            b == (self@ == other@),
    {
        if self.nonce != other.nonce || !self.hash.equals(&other.hash) || !self.header.same(&other.header)
            || self.confirmed_avai_set.len() != other.confirmed_avai_set.len() {
            return false;
        }
        let mut i: usize = 0;
        while i < self.confirmed_avai_set.len()
            invariant
                self.confirmed_avai_set@.len() == other.confirmed_avai_set@.len(),
                i <= self.confirmed_avai_set@.len(),
                forall|k: int| 0 <= k < i ==> self.confirmed_avai_set@[k] == other.confirmed_avai_set@[k],
            decreases self.confirmed_avai_set@.len() - i,
        {
            let (a, x) = self.confirmed_avai_set[i];
            let (c, y) = other.confirmed_avai_set[i];
            if x != y || !a.equals(&c) {
                proof {
                    if self@ == other@ {
                        assert(self@.confirmed_avai_set[i as int] == other@.confirmed_avai_set[i as int]);
                    }
                }
                return false;
            }
            i = i + 1;
        }
        assert(self@.confirmed_avai_set =~= other@.confirmed_avai_set);
        true
    }
}

} // verus!
