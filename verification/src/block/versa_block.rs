//! A block of any of the four chains, and a hash tagged with its chain.

use vstd::prelude::*;
use crate::hash::{H256, Hashable, Duplicate, lemma_h256_view_eq};
use crate::block::{HeaderModel, Info, Timestamp, spec_info_hashes, is_default_header, is_zero_hash};
use crate::block::transaction_block::{TransactionBlock, TxBlockModel, tx_block_views};
use crate::block::proposer_block::{ProposerBlock, PropModel, prop_hash_valid};
use crate::block::availability_block::{AvailabilityBlock, AvaiModel, avai_hash_valid};
use crate::block::ordering_block::{OrderingBlock, OrderModel, order_hash_valid};
use crate::hash::hash_views;

verus! {

/// What a block of any chain holds.
pub enum VersaModel {
    Prop(PropModel),
    ExAvai(AvaiModel),
    InAvai(AvaiModel),
    Order(OrderModel),
}

/// A block of the proposer chain, of an availability chain (exclusive or
/// inclusive) or of the ordering chain.
#[derive(Debug)]
pub enum VersaBlock {
    PropBlock(ProposerBlock),
    ExAvaiBlock(AvailabilityBlock),
    InAvaiBlock(AvailabilityBlock),
    OrderBlock(OrderingBlock),
}

/// A block hash tagged with the chain the block belongs to.
#[derive(Clone, Copy, Debug, Hash, Eq)]
pub enum VersaHash {
    PropHash(H256),
    ExHash(H256),
    InHash(H256),
    OrderHash(H256),
}

impl PartialEq for VersaHash {
    fn eq(&self, other: &VersaHash) -> (b: bool) {
        match (self, other) {
            (VersaHash::PropHash(a), VersaHash::PropHash(c)) => a.equals(c),
            (VersaHash::ExHash(a), VersaHash::ExHash(c)) => a.equals(c),
            (VersaHash::InHash(a), VersaHash::InHash(c)) => a.equals(c),
            (VersaHash::OrderHash(a), VersaHash::OrderHash(c)) => a.equals(c),
            _ => false,
        }
    }
}

impl vstd::std_specs::cmp::PartialEqSpecImpl for VersaHash {
    open spec fn obeys_eq_spec() -> bool {
        true
    }

    open spec fn eq_spec(&self, other: &VersaHash) -> bool {
        *self == *other
    }
}

impl VersaHash {
    /// The hash without its tag.
    pub open spec fn inner(self) -> H256 {
        match self {
            VersaHash::PropHash(h) => h,
            VersaHash::ExHash(h) => h,
            VersaHash::InHash(h) => h,
            VersaHash::OrderHash(h) => h,
        }
    }

    /// Whether two tagged hashes are equal.
    pub fn equals(&self, other: &VersaHash) -> (b: bool)
        ensures
            b == (*self == *other),
    {
        *self == *other
    }
}

impl View for VersaBlock {
    type V = VersaModel;

    open spec fn view(&self) -> VersaModel {
        match self {
            VersaBlock::PropBlock(b) => VersaModel::Prop(b@),
            VersaBlock::ExAvaiBlock(b) => VersaModel::ExAvai(b@),
            VersaBlock::InAvaiBlock(b) => VersaModel::InAvai(b@),
            VersaBlock::OrderBlock(b) => VersaModel::Order(b@),
        }
    }
}

/// The stored hash of a block of any chain.
pub open spec fn versa_hash_of(v: VersaModel) -> H256 {
    match v {
        VersaModel::Prop(b) => b.hash,
        VersaModel::ExAvai(b) => b.hash,
        VersaModel::InAvai(b) => b.hash,
        VersaModel::Order(b) => b.hash,
    }
}

/// The header of a block of any chain.
pub open spec fn versa_header(v: VersaModel) -> HeaderModel {
    match v {
        VersaModel::Prop(b) => b.header,
        VersaModel::ExAvai(b) => b.header,
        VersaModel::InAvai(b) => b.header,
        VersaModel::Order(b) => b.header,
    }
}

/// Whether the stored hash of a block is the nonce-hash of its header.
pub open spec fn versa_hash_valid(v: VersaModel) -> bool {
    match v {
        VersaModel::Prop(b) => prop_hash_valid(b),
        VersaModel::ExAvai(b) => avai_hash_valid(b),
        VersaModel::InAvai(b) => avai_hash_valid(b),
        VersaModel::Order(b) => order_hash_valid(b),
    }
}

/// The transaction blocks a block links (none for an ordering block).
pub open spec fn versa_tx_blocks(v: VersaModel) -> Seq<TxBlockModel> {
    match v {
        VersaModel::Prop(b) => b.prop_tx_set,
        VersaModel::ExAvai(b) => b.avai_tx_set,
        VersaModel::InAvai(b) => b.avai_tx_set,
        VersaModel::Order(b) => Seq::empty(),
    }
}

/// The parents a block names in its header, as its chain reads them: the
/// proposer parent of a proposer block, the intra-shard parent of an exclusive
/// availability block, the global parents of an inclusive one and the ordering
/// parent of an ordering block.
pub open spec fn versa_parents(v: VersaModel) -> Seq<H256> {
    match v {
        VersaModel::Prop(b) => seq![b.header.prop_parent],
        VersaModel::ExAvai(b) => seq![b.header.inter_parent],
        VersaModel::InAvai(b) => b.header.global_parents.map_values(|p: (H256, u32)| p.0),
        VersaModel::Order(b) => seq![b.header.order_parent],
    }
}

impl Default for VersaBlock {
    /// The genesis proposer block: default header, nonce 0, zero hash, no
    /// transaction blocks.
    fn default() -> (b: Self)
        ensures
            b@ matches VersaModel::Prop(p) && is_default_header(p.header) && p.nonce == 0 && is_zero_hash(p.hash)
                && p.prop_tx_set.len() == 0,
    {
        VersaBlock::PropBlock(ProposerBlock::default())
    }
}

impl Hashable for VersaBlock {
    open spec fn hash_of(v: VersaModel) -> Seq<u8> {
        versa_hash_of(v)@
    }

    fn hash(&self) -> (h: H256) {
        match self {
            VersaBlock::PropBlock(b) => b.hash(),
            VersaBlock::ExAvaiBlock(b) => b.hash(),
            VersaBlock::InAvaiBlock(b) => b.hash(),
            VersaBlock::OrderBlock(b) => b.hash(),
        }
    }
}

impl Duplicate for VersaBlock {
    fn duplicate(&self) -> (r: Self) {
        match self {
            VersaBlock::PropBlock(b) => VersaBlock::PropBlock(b.duplicate()),
            VersaBlock::ExAvaiBlock(b) => VersaBlock::ExAvaiBlock(b.duplicate()),
            VersaBlock::InAvaiBlock(b) => VersaBlock::InAvaiBlock(b.duplicate()),
            VersaBlock::OrderBlock(b) => VersaBlock::OrderBlock(b.duplicate()),
        }
    }
}

impl Clone for VersaBlock {
    fn clone(&self) -> (r: Self)
        ensures
            r@ == self@,
    {
        self.duplicate()
    }
}

impl VersaBlock {
    /// The stored hash.
    pub fn hash_value(&self) -> (h: H256)
        ensures
            h == versa_hash_of(self@),
    {
        let h = self.hash();
        proof {
            lemma_h256_view_eq(h, versa_hash_of(self@));
        }
        h
    }

    /// The block's hash tagged with its chain.
    pub fn versa_hash(&self) -> (h: VersaHash)
        ensures
            h.inner() == versa_hash_of(self@),
            self is PropBlock <==> h is PropHash,
            self is ExAvaiBlock <==> h is ExHash,
            self is InAvaiBlock <==> h is InHash,
            self is OrderBlock <==> h is OrderHash,
    {
        let h = self.hash_value();
        match self {
            VersaBlock::PropBlock(_) => VersaHash::PropHash(h),
            VersaBlock::ExAvaiBlock(_) => VersaHash::ExHash(h),
            VersaBlock::InAvaiBlock(_) => VersaHash::InHash(h),
            VersaBlock::OrderBlock(_) => VersaHash::OrderHash(h),
        }
    }

    /// Whether the stored hash is the nonce-hash of the header.
    pub fn verify_hash(&self) -> (b: bool)
        ensures
            b == versa_hash_valid(self@),
    {
        match self {
            VersaBlock::PropBlock(b) => b.verify_hash(),
            VersaBlock::ExAvaiBlock(b) => b.verify_hash(),
            VersaBlock::InAvaiBlock(b) => b.verify_hash(),
            VersaBlock::OrderBlock(b) => b.verify_hash(),
        }
    }

    /// The shard of an availability block.
    pub fn get_shard_id(&self) -> (r: Option<usize>)
        ensures
            r == match self@ {
                VersaModel::ExAvai(b) => Some(b.header.shard_id as usize),
                VersaModel::InAvai(b) => Some(b.header.shard_id as usize),
                _ => None::<usize>,
            },
    {
        match self {
            VersaBlock::ExAvaiBlock(b) => Some(b.get_shard_id()),
            VersaBlock::InAvaiBlock(b) => Some(b.get_shard_id()),
            _ => None,
        }
    }

    /// The proposer parent of a proposer block.
    pub fn get_prop_parent(&self) -> (r: Option<H256>)
        ensures
            r == match self@ {
                VersaModel::Prop(b) => Some(b.header.prop_parent),
                _ => None::<H256>,
            },
    {
        match self {
            VersaBlock::PropBlock(b) => Some(b.get_prop_parent()),
            _ => None,
        }
    }

    /// The intra-shard parent of an availability block.
    pub fn get_inter_parent(&self) -> (r: Option<H256>)
        ensures
            r == match self@ {
                VersaModel::ExAvai(b) => Some(b.header.inter_parent),
                VersaModel::InAvai(b) => Some(b.header.inter_parent),
                _ => None::<H256>,
            },
    {
        match self {
            VersaBlock::ExAvaiBlock(b) => Some(b.get_inter_parent()),
            VersaBlock::InAvaiBlock(b) => Some(b.get_inter_parent()),
            _ => None,
        }
    }

    /// The global parents of an inclusive availability block.
    pub fn get_global_parents(&self) -> (r: Option<Vec<(H256, usize)>>)
        ensures
            r is Some <==> self is InAvaiBlock,
            r matches Some(v) ==> v@.len() == versa_header(self@).global_parents.len() && forall|i: int|
                0 <= i < v@.len() ==> #[trigger] v@[i] == (
                    versa_header(self@).global_parents[i].0,
                    versa_header(self@).global_parents[i].1 as usize,
                ),
    {
        match self {
            VersaBlock::InAvaiBlock(b) => Some(b.get_global_parents()),
            _ => None,
        }
    }

    /// The ordering parent of an ordering block.
    pub fn get_order_parent(&self) -> (r: Option<H256>)
        ensures
            r == match self@ {
                VersaModel::Order(b) => Some(b.header.order_parent),
                _ => None::<H256>,
            },
    {
        match self {
            VersaBlock::OrderBlock(b) => Some(b.get_order_parent()),
            _ => None,
        }
    }

    /// The proposer root of a proposer block.
    pub fn get_prop_root(&self) -> (r: Option<H256>)
        ensures
            r == match self@ {
                VersaModel::Prop(b) => Some(b.header.prop_root),
                _ => None::<H256>,
            },
    {
        match self {
            VersaBlock::PropBlock(b) => Some(b.get_prop_root()),
            _ => None,
        }
    }

    /// The availability root of an availability block.
    pub fn get_avai_root(&self) -> (r: Option<H256>)
        ensures
            r == match self@ {
                VersaModel::ExAvai(b) => Some(b.header.avai_root),
                VersaModel::InAvai(b) => Some(b.header.avai_root),
                _ => None::<H256>,
            },
    {
        match self {
            VersaBlock::ExAvaiBlock(b) => Some(b.get_avai_root()),
            VersaBlock::InAvaiBlock(b) => Some(b.get_avai_root()),
            _ => None,
        }
    }

    /// No block of these chains exposes a commitment root.
    pub fn get_cmt_root(&self) -> (r: Option<H256>)
        ensures
            r is None,
    {
        None
    }

    pub fn get_timestamp(&self) -> (r: Timestamp)
        ensures
            r == versa_header(self@).timestamp,
    {
        match self {
            VersaBlock::PropBlock(b) => b.get_timestamp(),
            VersaBlock::ExAvaiBlock(b) => b.get_timestamp(),
            VersaBlock::InAvaiBlock(b) => b.get_timestamp(),
            VersaBlock::OrderBlock(b) => b.get_timestamp(),
        }
    }

    pub fn get_info_hash(&self) -> (r: Vec<H256>)
        ensures
            hash_views(r@) == spec_info_hashes(versa_header(self@)),
    {
        match self {
            VersaBlock::PropBlock(b) => b.get_info_hash(),
            VersaBlock::ExAvaiBlock(b) => b.get_info_hash(),
            VersaBlock::InAvaiBlock(b) => b.get_info_hash(),
            VersaBlock::OrderBlock(b) => b.get_info_hash(),
        }
    }

    /// The transaction blocks the block links; none for an ordering block.
    pub fn get_tx_blocks(&self) -> (r: Vec<TransactionBlock>)
        ensures
            tx_block_views(r@) == versa_tx_blocks(self@),
    {
        match self {
            VersaBlock::PropBlock(b) => b.get_prop_tx_set(),
            VersaBlock::ExAvaiBlock(b) => b.get_avai_tx_set(),
            VersaBlock::InAvaiBlock(b) => b.get_avai_tx_set(),
            VersaBlock::OrderBlock(_) => {
                let r: Vec<TransactionBlock> = Vec::new();
                assert(tx_block_views(r@) =~= Seq::<TxBlockModel>::empty());
                r
            }
        }
    }

    /// The confirmed availability set of an ordering block.
    pub fn get_confirmed_avai_set(&self) -> (r: Option<Vec<(H256, u32)>>)
        ensures
            r is Some <==> self is OrderBlock,
            r matches Some(v) ==> (self@ matches VersaModel::Order(b) && v@ == b.confirmed_avai_set),
    {
        match self {
            VersaBlock::OrderBlock(b) => Some(b.get_confirmed_avai_set()),
            _ => None,
        }
    }

    /// The parents the block names in its header, as its chain reads them.
    pub fn parents(&self) -> (r: Vec<H256>)
        ensures
            r@ == versa_parents(self@),
    {
        match self {
            VersaBlock::PropBlock(b) => {
                let mut r = Vec::new();
                r.push(b.get_prop_parent());
                assert(r@ =~= versa_parents(self@));
                r
            }
            VersaBlock::ExAvaiBlock(b) => {
                let mut r = Vec::new();
                r.push(b.get_inter_parent());
                assert(r@ =~= versa_parents(self@));
                r
            }
            VersaBlock::InAvaiBlock(b) => {
                let gp = b.get_global_parents();
                let mut r: Vec<H256> = Vec::new();
                let mut i: usize = 0;
                while i < gp.len()
                    invariant
                        i <= gp@.len(),
                        r@.len() == i,
                        forall|k: int| 0 <= k < i ==> #[trigger] r@[k] == gp@[k].0,
                    decreases gp@.len() - i,
                {
                    r.push(gp[i].0);
                    i = i + 1;
                }
                assert(r@ =~= versa_parents(self@));
                r
            }
            VersaBlock::OrderBlock(b) => {
                let mut r = Vec::new();
                r.push(b.get_order_parent());
                assert(r@ =~= versa_parents(self@));
                r
            }
        }
    }

    /// Whether the block is a proposer block.
    pub fn is_prop_block(&self) -> (b: bool)
        ensures
            b == self is PropBlock,
    {
        match self {
            VersaBlock::PropBlock(_) => true,
            _ => false,
        }
    }

    /// Whether the block is an ordering block.
    pub fn is_order_block(&self) -> (b: bool)
        ensures
            b == self is OrderBlock,
    {
        match self {
            VersaBlock::OrderBlock(_) => true,
            _ => false,
        }
    }

    /// Whether two blocks hold the same values.
    pub fn same(&self, other: &VersaBlock) -> (b: bool)
        ensures
            b == (self@ == other@),
    {
        match (self, other) {
            (VersaBlock::PropBlock(a), VersaBlock::PropBlock(c)) => a.same(c),
            (VersaBlock::ExAvaiBlock(a), VersaBlock::ExAvaiBlock(c)) => a.same(c),
            (VersaBlock::InAvaiBlock(a), VersaBlock::InAvaiBlock(c)) => a.same(c),
            (VersaBlock::OrderBlock(a), VersaBlock::OrderBlock(c)) => a.same(c),
            _ => false,
        }
    }
}

} // verus!
