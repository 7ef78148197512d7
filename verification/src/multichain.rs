//! The proposer chain, one availability chain per shard and the ordering
//! chain, with what each block commits to along its branch.

use vstd::prelude::*;
use crate::hash::H256;
use crate::configuration::Configuration;
use crate::store::Store;
use crate::blockchain::{Blockchain, ChainError, chain_insert_post};
use crate::block::Info;
use crate::block::transaction_block::{TransactionBlock, TxBlockModel, tx_block_views};
use crate::block::proposer_block::ProposerBlock;
use crate::block::availability_block::AvailabilityBlock;
use crate::block::ordering_block::OrderingBlock;
use crate::block::versa_block::{VersaBlock, VersaHash, VersaModel, versa_hash_of, versa_tx_blocks, versa_parents};

verus! {

/// Why a request to the chains failed.
#[derive(Debug, Clone, Copy, PartialEq, Eq, Structural)]
pub enum MultichainError {
    /// The ordering chain holds no block with this hash.
    OrderingBlockMissing,
}

/// The proposer, availability and ordering chains of a node.
pub struct Multichain {
    config: Configuration,
    proposer_chain: Blockchain,
    availability_chains: Vec<Blockchain>,
    ordering_chain: Blockchain,
    hash2prop_cmts: Store<Vec<TransactionBlock>>,
    hash2avai_cmts: Store<Vec<TransactionBlock>>,
    hash2confirmed_avai_blks: Store<Vec<(H256, u32)>>,
}

/// Whether a transaction block belongs to `shard`.
pub open spec fn in_shard(t: TxBlockModel, shard: usize) -> bool {
    t.header.shard_id as int == shard as int
}

/// The transaction blocks of `s` that belong to `shard`.
pub open spec fn of_shard(s: Seq<TxBlockModel>, shard: usize) -> Seq<TxBlockModel> {
    s.filter(|t: TxBlockModel| in_shard(t, shard))
}

/// The ordering block's confirmed set of an ordering block, empty for any
/// other block.
pub open spec fn confirmed_set_of(v: VersaModel) -> Seq<(H256, u32)> {
    match v {
        VersaModel::Order(b) => b.confirmed_avai_set,
        _ => Seq::empty(),
    }
}

/// Whether a block belongs in an availability chain.
pub open spec fn is_avai(v: VersaModel) -> bool {
    v is ExAvai || v is InAvai
}

/// The hash a chain's genesis block is held under.
pub open spec fn genesis_of(c: Blockchain) -> VersaBlock {
    c.blocks()[c.tree().val]
}

/// The blocks along the longest chain of `c` that lie at least `k` blocks
/// below its tip, each with the chain's index `i`.
pub open spec fn chain_confirmed(c: Blockchain, i: int, k: usize) -> Seq<(H256, u32)> {
    let p = c.longest_chain();
    if p.len() <= k {
        Seq::empty()
    } else {
        p.take(p.len() - k).map_values(|h: H256| (h, i as u32))
    }
}

/// The confirmed blocks of the first `n` chains, chain after chain.
pub open spec fn all_confirmed(chains: Seq<Blockchain>, n: int, k: usize) -> Seq<(H256, u32)>
    decreases n,
{
    if n <= 0 {
        Seq::empty()
    } else {
        all_confirmed(chains, n - 1, k) + chain_confirmed(chains[n - 1], n - 1, k)
    }
}

/// What inserting `block` under `parent` does to the chains: the chain that
/// the parent's tag and the shard name takes the block as a chain does, and
/// the commitments of the new block are those of its parent followed by the
/// block's own (for the proposer chain, those of this node's shard; for an
/// availability chain, only when `shard_id` is this node's shard).
pub open spec fn multichain_insert_post(
    old: Multichain,
    new: Multichain,
    block: VersaBlock,
    parent: VersaHash,
    shard_id: usize,
    r: Result<bool, ChainError>,
) -> bool {
    let h = versa_hash_of(block@);
    &&& new.config_of() == old.config_of()
    &&& match parent {
        VersaHash::PropHash(p) => {
            &&& chain_insert_post(old.prop_chain(), new.prop_chain(), block, p, r)
            &&& new.avai_chains() == old.avai_chains()
            &&& new.order_chain() == old.order_chain()
            &&& new.avai_cmts() == old.avai_cmts()
            &&& new.confirmed() == old.confirmed()
            &&& new.prop_cmts() == if r is Ok {
                old.prop_cmts().insert(h, old.prop_cmts()[p] + of_shard(versa_tx_blocks(block@), old.config_of().shard_id))
            } else {
                old.prop_cmts()
            }
        },
        VersaHash::OrderHash(p) => {
            &&& chain_insert_post(old.order_chain(), new.order_chain(), block, p, r)
            &&& new.avai_chains() == old.avai_chains()
            &&& new.prop_chain() == old.prop_chain()
            &&& new.avai_cmts() == old.avai_cmts()
            &&& new.prop_cmts() == old.prop_cmts()
            &&& new.confirmed() == if r is Ok {
                old.confirmed().insert(h, old.confirmed()[p] + confirmed_set_of(block@))
            } else {
                old.confirmed()
            }
        },
        _ => {
            let p = parent.inner();
            let i: int = if parent is ExHash { avai_shard(block@) } else { shard_id as int };
            &&& chain_insert_post(old.avai_chains()[i], new.avai_chains()[i], block, p, r)
            &&& new.avai_chains() == old.avai_chains().update(i, new.avai_chains()[i])
            &&& new.prop_chain() == old.prop_chain()
            &&& new.order_chain() == old.order_chain()
            &&& new.prop_cmts() == old.prop_cmts()
            &&& new.confirmed() == old.confirmed()
            &&& new.avai_cmts() == if r is Ok && shard_id == old.config_of().shard_id {
                old.avai_cmts().insert(h, old.avai_cmts()[p] + versa_tx_blocks(block@))
            } else {
                old.avai_cmts()
            }
        },
    }
}

/// The shard an availability block names.
pub open spec fn avai_shard(v: VersaModel) -> int {
    match v {
        VersaModel::ExAvai(b) => b.header.shard_id as int,
        VersaModel::InAvai(b) => b.header.shard_id as int,
        _ => -1,
    }
}

/// Whether a chain takes `block` under `p`: it does not hold the block yet,
/// the block names `p` as a parent, and the chain holds `p`.
pub open spec fn insert_succeeds(c: Blockchain, block: VersaBlock, p: H256) -> bool {
    &&& !c.blocks().contains_key(versa_hash_of(block@))
    &&& versa_parents(block@).contains(p)
    &&& c.blocks().contains_key(p)
}

/// The inputs an insertion accepts. Left out are those on which reading the
/// block's shard, the shard's chain or an ordering block's confirmed set
/// panics: an exclusive hash for a block with no shard or a shard the node
/// lacks, an inclusive hash into a shard the node lacks, a block that is not
/// an ordering block taken by the ordering chain. Left out too are those
/// after which a chain would hold a block of another kind, or this node's
/// availability chain would hold a block without its commitments (or the
/// reverse): the readers of the chains panic on such a state. Every other
/// input is accepted, and the insertion then fails with the chain's error
/// or takes the block.
pub open spec fn insert_allowed(m: Multichain, block: VersaBlock, parent: VersaHash, shard_id: usize) -> bool {
    let own = m.config_of().shard_id;
    match parent {
        VersaHash::PropHash(p) => insert_succeeds(m.prop_chain(), block, p) ==> block@ is Prop,
        VersaHash::OrderHash(p) => insert_succeeds(m.order_chain(), block, p) ==> block@ is Order,
        VersaHash::ExHash(p) => {
            &&& is_avai(block@)
            &&& 0 <= avai_shard(block@) < m.avai_chains().len()
            &&& insert_succeeds(m.avai_chains()[avai_shard(block@)], block, p) ==> ((avai_shard(block@) == own as int)
                == (shard_id == own))
        },
        VersaHash::InHash(p) => {
            &&& shard_id < m.avai_chains().len()
            &&& insert_succeeds(m.avai_chains()[shard_id as int], block, p) ==> is_avai(block@)
        },
    }
}

/// Well-formed chains of a node are each well formed, this node's shard has
/// its availability chain, each chain holds blocks of its kind only, and the
/// commitments and confirmed sets are kept for exactly the blocks of their
/// chain.
pub proof fn law_chains_wf(m: &Multichain)
    requires
        m.wf(),
    ensures
        m.prop_chain().wf(),
        m.order_chain().wf(),
        forall|i: int| 0 <= i < m.avai_chains().len() ==> #[trigger] m.avai_chains()[i].wf(),
        m.config_of().shard_id < m.avai_chains().len(),
        forall|x: H256| #[trigger] m.confirmed().contains_key(x) <==> m.order_chain().blocks().contains_key(x),
        forall|x: H256| #[trigger] m.prop_cmts().contains_key(x) <==> m.prop_chain().blocks().contains_key(x),
        forall|x: H256| #[trigger] m.avai_cmts().contains_key(x) <==> m.avai_chains()[m.config_of().shard_id as int].blocks().contains_key(x),
        forall|x: H256| #[trigger] m.prop_chain().blocks().contains_key(x) ==> m.prop_chain().blocks()[x]@ is Prop,
        forall|x: H256| #[trigger] m.order_chain().blocks().contains_key(x) ==> m.order_chain().blocks()[x]@ is Order,
        forall|i: int, x: H256| 0 <= i < m.avai_chains().len() && #[trigger] m.avai_chains()[i].blocks().contains_key(x)
            ==> is_avai(m.avai_chains()[i].blocks()[x]@),
{
}

/// A set of one element holds nothing else.
proof fn lemma_single(s: Set<H256>, a: H256, y: H256)
    requires
        s.finite(),
        s.len() == 1,
        s.contains(a),
        s.contains(y),
    ensures
        y == a,
{
    if y != a {
        assert(s.remove(a).len() == 0);
        s.remove(a).lemma_len0_is_empty();
        assert(s.remove(a).contains(y));
    }
}

/// Appends copies of the transaction blocks of `b` to `a`.
fn append_tx_blocks(a: &mut Vec<TransactionBlock>, b: &Vec<TransactionBlock>)
    ensures
        tx_block_views(final(a)@) == tx_block_views(old(a)@) + tx_block_views(b@),
{
    let ghost before = a@;
    let mut j: usize = 0;
    while j < b.len()
        invariant
            j <= b@.len(),
            a@.len() == before.len() + j,
            forall|x: int| 0 <= x < before.len() ==> #[trigger] a@[x] == before[x],
            forall|x: int| 0 <= x < j ==> #[trigger] a@[before.len() + x]@ == b@[x]@,
        decreases b@.len() - j,
    {
        a.push(b[j].clone());
        j = j + 1;
    }
    assert forall|k: int| 0 <= k < a@.len() implies #[trigger] tx_block_views(a@)[k] == (tx_block_views(before)
        + tx_block_views(b@))[k] by {
        if k >= before.len() {
            let x = k - before.len();
            assert(a@[before.len() + x]@ == b@[x]@);
        }
    }
    assert(tx_block_views(a@) =~= tx_block_views(before) + tx_block_views(b@));
}

/// Whether a list of transaction blocks holds one with the same values as `t`.
pub fn contains_tx_block(v: &Vec<TransactionBlock>, t: &TransactionBlock) -> (b: bool)
    ensures
        b == tx_block_views(v@).contains(t@),
{
    let mut i: usize = 0;
    while i < v.len()
        invariant
            i <= v@.len(),
            forall|j: int| 0 <= j < i ==> v@[j]@ != t@,
        decreases v@.len() - i,
    {
        if v[i].same(t) {
            assert(tx_block_views(v@)[i as int] == t@);
            return true;
        }
        i = i + 1;
    }
    false
}

/// Copies a list of transaction blocks.
fn copy_tx_list(v: &Vec<TransactionBlock>) -> (r: Vec<TransactionBlock>)
    ensures
        tx_block_views(r@) == tx_block_views(v@),
{
    crate::block::transaction_block::copy_tx_blocks(v)
}

/// The transaction blocks of `s` that `l` does not hold.
pub open spec fn unreferred(s: Seq<TxBlockModel>, l: Seq<TxBlockModel>) -> Seq<TxBlockModel> {
    s.filter(|t: TxBlockModel| !l.contains(t))
}

/// Whether a list of confirmed blocks holds `x`.
fn contains_pair(v: &Vec<(H256, u32)>, x: &(H256, u32)) -> (b: bool)
    ensures
        b == v@.contains(*x),
{
    let mut i: usize = 0;
    while i < v.len()
        invariant
            i <= v@.len(),
            forall|j: int| 0 <= j < i ==> v@[j] != *x,
        decreases v@.len() - i,
    {
        if v[i].0.equals(&x.0) && v[i].1 == x.1 {
            assert(v@[i as int] == *x);
            return true;
        }
        i = i + 1;
    }
    false
}

impl Multichain {
    /// The configuration the chains were made with.
    pub closed spec fn config_of(&self) -> Configuration {
        self.config
    }

    pub closed spec fn prop_chain(&self) -> Blockchain {
        self.proposer_chain
    }

    pub closed spec fn avai_chains(&self) -> Seq<Blockchain> {
        self.availability_chains@
    }

    pub closed spec fn order_chain(&self) -> Blockchain {
        self.ordering_chain
    }

    /// For each proposer block, the transaction blocks of this node's shard
    /// committed along its branch.
    pub closed spec fn prop_cmts(&self) -> Map<H256, Seq<TxBlockModel>> {
        self.hash2prop_cmts.view().map_values(|v: Vec<TransactionBlock>| tx_block_views(v@))
    }

    /// For each block of this node's availability chain, the transaction
    /// blocks committed along its branch.
    pub closed spec fn avai_cmts(&self) -> Map<H256, Seq<TxBlockModel>> {
        self.hash2avai_cmts.view().map_values(|v: Vec<TransactionBlock>| tx_block_views(v@))
    }

    /// For each ordering block, the availability blocks confirmed along its
    /// branch.
    pub closed spec fn confirmed(&self) -> Map<H256, Seq<(H256, u32)>> {
        self.hash2confirmed_avai_blks.view().map_values(|v: Vec<(H256, u32)>| v@)
    }

    /// The chains are well formed, hold blocks of their kind, and the
    /// commitment maps have exactly the blocks of their chain as keys.
    pub closed spec fn wf(&self) -> bool {
        let prop = self.proposer_chain;
        let order = self.ordering_chain;
        let avai = self.availability_chains@;
        &&& prop.wf()
        &&& order.wf()
        &&& forall|i: int| 0 <= i < avai.len() ==> #[trigger] avai[i].wf()
        &&& self.config.shard_id < avai.len()
        &&& forall|x: H256| #[trigger] self.prop_cmts().contains_key(x) <==> prop.blocks().contains_key(x)
        &&& forall|x: H256| #[trigger] self.avai_cmts().contains_key(x)
            <==> avai[self.config.shard_id as int].blocks().contains_key(x)
        &&& forall|x: H256| #[trigger] self.confirmed().contains_key(x) <==> order.blocks().contains_key(x)
        &&& forall|x: H256| #[trigger] prop.blocks().contains_key(x) ==> prop.blocks()[x] is PropBlock
        &&& forall|x: H256| #[trigger] order.blocks().contains_key(x) ==> order.blocks()[x] is OrderBlock
        &&& forall|i: int, x: H256| 0 <= i < avai.len() && #[trigger] avai[i].blocks().contains_key(x)
            ==> is_avai(avai[i].blocks()[x]@)
    }

    /// The chains of a node, each holding only its genesis block.
    ///
    /// The proposer and availability chains must hold one block each, and
    /// the genesis blocks of the proposer chain, this node's availability
    /// chain and the ordering chain must be of their chain's kind: on any
    /// other input the chains are refused outright. The ordering chain must
    /// hold its genesis block alone too, and every availability chain an
    /// availability block: the confirmed sets and commitments are kept for
    /// the genesis blocks only, and the readers of the chains refuse a block
    /// of another kind, so chains built otherwise could not be read.
    pub fn new(
        proposer_chain: Blockchain,
        availability_chains: Vec<Blockchain>,
        ordering_chain: Blockchain,
        config: &Configuration,
    ) -> (m: Self)
        requires
            proposer_chain.wf(),
            proposer_chain.size_of() == 1,
            genesis_of(proposer_chain) is PropBlock,
            ordering_chain.wf(),
            ordering_chain.size_of() == 1,
            genesis_of(ordering_chain) is OrderBlock,
            config.shard_id < availability_chains@.len(),
            genesis_of(availability_chains@[config.shard_id as int]) is ExAvaiBlock,
            forall|i: int| 0 <= i < availability_chains@.len() ==> {
                &&& (#[trigger] availability_chains@[i]).wf()
                &&& availability_chains@[i].size_of() == 1
                &&& is_avai(genesis_of(availability_chains@[i])@)
            },
        ensures
            m.wf(),
            m.config_of() == *config,
            m.prop_chain() == proposer_chain,
            m.avai_chains() == availability_chains@,
            m.order_chain() == ordering_chain,
            m.prop_cmts() == Map::<H256, Seq<TxBlockModel>>::empty().insert(
                proposer_chain.tree().val,
                versa_tx_blocks(genesis_of(proposer_chain)@),
            ),
            m.avai_cmts() == Map::<H256, Seq<TxBlockModel>>::empty().insert(
                availability_chains@[config.shard_id as int].tree().val,
                versa_tx_blocks(genesis_of(availability_chains@[config.shard_id as int])@),
            ),
            m.confirmed() == Map::<H256, Seq<(H256, u32)>>::empty().insert(
                ordering_chain.tree().val,
                confirmed_set_of(genesis_of(ordering_chain)@),
            ),
    {
        let pg = proposer_chain.get_genesis_block();
        let ag = availability_chains[config.shard_id].get_genesis_block();
        let og = ordering_chain.get_genesis_block();
        let mut hash2prop_cmts: Store<Vec<TransactionBlock>> = Store::new();
        let mut hash2avai_cmts: Store<Vec<TransactionBlock>> = Store::new();
        let mut hash2confirmed_avai_blks: Store<Vec<(H256, u32)>> = Store::new();
        let ph = pg.hash_value();
        let ah = ag.hash_value();
        let oh = og.hash_value();
        hash2prop_cmts.insert(ph, pg.get_tx_blocks());
        hash2avai_cmts.insert(ah, ag.get_tx_blocks());
        let confirmed = match og.get_confirmed_avai_set() {
            Some(v) => v,
            None => Vec::new(),
        };
        hash2confirmed_avai_blks.insert(oh, confirmed);
        let m = Multichain {
            proposer_chain,
            availability_chains,
            ordering_chain,
            hash2prop_cmts,
            hash2avai_cmts,
            hash2confirmed_avai_blks,
            config: *config,
        };
        proof {
            let p = m.proposer_chain;
            let o = m.ordering_chain;
            let a = m.availability_chains@[config.shard_id as int];
            crate::blockchain::law_block_under_own_hash(&p, p.tree().val);
            crate::blockchain::law_block_under_own_hash(&o, o.tree().val);
            crate::blockchain::law_block_under_own_hash(&a, a.tree().val);
            crate::blockchain::law_genesis_held(&p);
            crate::blockchain::law_genesis_held(&o);
            crate::blockchain::law_genesis_held(&a);
            assert(m.prop_cmts() =~= Map::<H256, Seq<TxBlockModel>>::empty().insert(ph, tx_block_views(m.hash2prop_cmts.view()[ph]@)));
            assert(m.avai_cmts() =~= Map::<H256, Seq<TxBlockModel>>::empty().insert(ah, tx_block_views(m.hash2avai_cmts.view()[ah]@)));
            assert(m.confirmed() =~= Map::<H256, Seq<(H256, u32)>>::empty().insert(oh, m.hash2confirmed_avai_blks.view()[oh]@));
            assert forall|x: H256| #[trigger] m.prop_cmts().contains_key(x) <==> p.blocks().contains_key(x) by {
                if p.blocks().contains_key(x) {
                    lemma_single(p.blocks().dom(), p.tree().val, x);
                }
            }
            assert forall|x: H256| #[trigger] m.avai_cmts().contains_key(x) <==> a.blocks().contains_key(x) by {
                if a.blocks().contains_key(x) {
                    lemma_single(a.blocks().dom(), a.tree().val, x);
                }
            }
            assert forall|x: H256| #[trigger] m.confirmed().contains_key(x) <==> o.blocks().contains_key(x) by {
                if o.blocks().contains_key(x) {
                    lemma_single(o.blocks().dom(), o.tree().val, x);
                }
            }
            assert forall|x: H256| #[trigger] p.blocks().contains_key(x) implies p.blocks()[x] is PropBlock by {
                lemma_single(p.blocks().dom(), p.tree().val, x);
            }
            assert forall|x: H256| #[trigger] o.blocks().contains_key(x) implies o.blocks()[x] is OrderBlock by {
                lemma_single(o.blocks().dom(), o.tree().val, x);
            }
            assert forall|i: int, x: H256| 0 <= i < m.availability_chains@.len()
                && #[trigger] m.availability_chains@[i].blocks().contains_key(x)
                implies is_avai(m.availability_chains@[i].blocks()[x]@) by {
                let c = m.availability_chains@[i];
                crate::blockchain::law_genesis_held(&c);
                lemma_single(c.blocks().dom(), c.tree().val, x);
            }
        }
        m
    }

    /// The configuration the chains were made with.
    pub fn config(&self) -> (c: Configuration)
        ensures
            c == self.config_of(),
    {
        self.config
    }

    /// Inserts a block under a parent of the chain its tag names (for an
    /// inclusive hash, the availability chain of `shard_id`; for an exclusive
    /// one, that of the block's own shard).
    pub fn insert_block_with_parent(&mut self, block: VersaBlock, parent: &VersaHash, shard_id: usize) -> (r: Result<
        bool,
        ChainError,
    >)
        requires
            old(self).wf(),
            insert_allowed(*old(self), block, *parent, shard_id),
        ensures
            final(self).wf(),
            multichain_insert_post(*old(self), *final(self), block, *parent, shard_id, r),
    {
        let ghost old_self = *self;
        let blk_hash = block.hash_value();
        let r = match parent {
            VersaHash::PropHash(h) => {
                let tx_blocks = block.get_tx_blocks();
                let r = self.proposer_chain.insert_block_with_parent(block, h);
                if r.is_ok() {
                    assert(old_self.proposer_chain.blocks().contains_key(*h));
                    assert(old_self.prop_cmts().contains_key(*h));
                    assert(self.hash2prop_cmts.view().contains_key(*h));
                    let old_tx_blocks = match self.hash2prop_cmts.get(h) {
                        Some(v) => copy_tx_list(v),
                        None => Vec::new(),
                    };
                    let filtered = Self::filter_shard(&tx_blocks, self.config.shard_id);
                    let mut new_tx_blocks = old_tx_blocks;
                    append_tx_blocks(&mut new_tx_blocks, &filtered);
                    self.hash2prop_cmts.insert(blk_hash, new_tx_blocks);
                    proof {
                        assert(self.prop_cmts() =~= old_self.prop_cmts().insert(
                            blk_hash,
                            old_self.prop_cmts()[*h] + of_shard(versa_tx_blocks(block@), old_self.config.shard_id),
                        ));
                        assert forall|x: H256| #[trigger] self.prop_cmts().contains_key(x)
                            <==> self.proposer_chain.blocks().contains_key(x) by {
                            assert(old_self.prop_cmts().contains_key(x) <==> old_self.proposer_chain.blocks().contains_key(x));
                        }
                    }
                }
                r
            },
            VersaHash::OrderHash(h) => {
                let set = match block.get_confirmed_avai_set() {
                    Some(v) => v,
                    None => Vec::new(),
                };
                let r = self.ordering_chain.insert_block_with_parent(block, h);
                if r.is_ok() {
                    assert(old_self.ordering_chain.blocks().contains_key(*h));
                    assert(old_self.confirmed().contains_key(*h));
                    assert(self.hash2confirmed_avai_blks.view().contains_key(*h));
                    let mut new_set = match self.hash2confirmed_avai_blks.get(h) {
                        Some(v) => crate::block::copy_vec(v),
                        None => Vec::new(),
                    };
                    let mut j: usize = 0;
                    let ghost before = new_set@;
                    while j < set.len()
                        invariant
                            j <= set@.len(),
                            new_set@ == before + set@.subrange(0, j as int),
                        decreases set@.len() - j,
                    {
                        new_set.push(set[j]);
                        j = j + 1;
                        assert(new_set@ =~= before + set@.subrange(0, j as int));
                    }
                    assert(set@.subrange(0, j as int) =~= set@);
                    self.hash2confirmed_avai_blks.insert(blk_hash, new_set);
                    proof {
                        assert(self.confirmed() =~= old_self.confirmed().insert(
                            blk_hash,
                            old_self.confirmed()[*h] + confirmed_set_of(block@),
                        ));
                        assert forall|x: H256| #[trigger] self.confirmed().contains_key(x)
                            <==> self.ordering_chain.blocks().contains_key(x) by {
                            assert(old_self.confirmed().contains_key(x) <==> old_self.ordering_chain.blocks().contains_key(x));
                        }
                    }
                }
                r
            },
            VersaHash::ExHash(h) | VersaHash::InHash(h) => {
                let i: usize = match parent {
                    VersaHash::ExHash(_) => match block.get_shard_id() {
                        Some(s) => s,
                        None => 0,
                    },
                    _ => shard_id,
                };
                let tx_blocks = block.get_tx_blocks();
                let mut chain = self.availability_chains.remove(i);
                let r = chain.insert_block_with_parent(block, h);
                self.availability_chains.insert(i, chain);
                proof {
                    assert(self.availability_chains@ =~= old_self.availability_chains@.update(i as int, chain));
                }
                if r.is_ok() && shard_id == self.config.shard_id {
                    assert(old_self.availability_chains@[i as int].blocks().contains_key(*h));
                    assert(old_self.avai_cmts().contains_key(*h));
                    assert(self.hash2avai_cmts.view().contains_key(*h));
                    let mut new_tx_blocks = match self.hash2avai_cmts.get(h) {
                        Some(v) => copy_tx_list(v),
                        None => Vec::new(),
                    };
                    append_tx_blocks(&mut new_tx_blocks, &tx_blocks);
                    self.hash2avai_cmts.insert(blk_hash, new_tx_blocks);
                    proof {
                        assert(self.avai_cmts() =~= old_self.avai_cmts().insert(
                            blk_hash,
                            old_self.avai_cmts()[*h] + versa_tx_blocks(block@),
                        ));
                    }
                }
                proof {
                    let own = self.config.shard_id as int;
                    assert forall|x: H256| #[trigger] self.avai_cmts().contains_key(x)
                        <==> self.availability_chains@[own].blocks().contains_key(x) by {
                        assert(old_self.avai_cmts().contains_key(x)
                            <==> old_self.availability_chains@[own].blocks().contains_key(x));
                    }
                    assert forall|k: int| 0 <= k < self.availability_chains@.len() implies #[trigger] self.availability_chains@[k].wf() by {
                        if k != i {
                            assert(old_self.availability_chains@[k].wf());
                        }
                    }
                    assert forall|k: int, x: H256| 0 <= k < self.availability_chains@.len()
                        && #[trigger] self.availability_chains@[k].blocks().contains_key(x)
                        implies is_avai(self.availability_chains@[k].blocks()[x]@) by {
                        if k != i || x != blk_hash {
                            assert(old_self.availability_chains@[k].blocks().contains_key(x));
                        }
                    }
                }
                r
            },
        };
        proof {
            let own = self.config.shard_id as int;
            assert forall|x: H256| #[trigger] self.prop_cmts().contains_key(x)
                <==> self.proposer_chain.blocks().contains_key(x) by {
                assert(old_self.prop_cmts().contains_key(x) <==> old_self.proposer_chain.blocks().contains_key(x));
            }
            assert forall|x: H256| #[trigger] self.confirmed().contains_key(x)
                <==> self.ordering_chain.blocks().contains_key(x) by {
                assert(old_self.confirmed().contains_key(x) <==> old_self.ordering_chain.blocks().contains_key(x));
            }
            assert forall|x: H256| #[trigger] self.avai_cmts().contains_key(x)
                <==> self.availability_chains@[own].blocks().contains_key(x) by {
                assert(old_self.avai_cmts().contains_key(x)
                    <==> old_self.availability_chains@[own].blocks().contains_key(x));
            }
            assert forall|x: H256| #[trigger] self.proposer_chain.blocks().contains_key(x)
                implies self.proposer_chain.blocks()[x] is PropBlock by {
                if x != blk_hash {
                    assert(old_self.proposer_chain.blocks().contains_key(x));
                }
            }
            assert forall|x: H256| #[trigger] self.ordering_chain.blocks().contains_key(x)
                implies self.ordering_chain.blocks()[x] is OrderBlock by {
                if x != blk_hash {
                    assert(old_self.ordering_chain.blocks().contains_key(x));
                }
            }
        }
        r
    }

    /// The transaction blocks of `v` that belong to `shard`.
    fn filter_shard(v: &Vec<TransactionBlock>, shard: usize) -> (r: Vec<TransactionBlock>)
        ensures
            tx_block_views(r@) == of_shard(tx_block_views(v@), shard),
    {
        let ghost s = tx_block_views(v@);
        let mut r: Vec<TransactionBlock> = Vec::new();
        let mut i: usize = 0;
        while i < v.len()
            invariant
                i <= v@.len(),
                s == tx_block_views(v@),
                tx_block_views(r@) == of_shard(s.subrange(0, i as int), shard),
            decreases v@.len() - i,
        {
            assert(s.subrange(0, i + 1).drop_last() =~= s.subrange(0, i as int));
            assert(s.subrange(0, i + 1).last() == s[i as int]);
            proof {
                reveal(Seq::filter);
            }
            assert(of_shard(s.subrange(0, i + 1), shard) == if in_shard(s[i as int], shard) {
                of_shard(s.subrange(0, i as int), shard).push(s[i as int])
            } else {
                of_shard(s.subrange(0, i as int), shard)
            });
            if v[i].get_shard_id() == shard {
                r.push(v[i].clone());
                assert(tx_block_views(r@) =~= of_shard(s.subrange(0, i as int), shard).push(v@[i as int]@));
            } else {
                assert(!in_shard(s[i as int], shard));
            }
            i = i + 1;
        }
        assert(s.subrange(0, i as int) =~= s);
        r
    }

    pub fn all_blocks_in_longest_proposer_chain(&self) -> (r: Vec<H256>)
        requires
            self.wf(),
        ensures
            r@ == self.prop_chain().longest_chain(),
    {
        self.proposer_chain.all_blocks_in_longest_chain()
    }

    pub fn all_blocks_in_longest_ordering_chain(&self) -> (r: Vec<H256>)
        requires
            self.wf(),
        ensures
            r@ == self.order_chain().longest_chain(),
    {
        self.ordering_chain.all_blocks_in_longest_chain()
    }

    pub fn all_blocks_in_longest_availability_chain_by_shard(&self, shard_id: usize) -> (r: Vec<H256>)
        requires
            self.wf(),
            shard_id < self.avai_chains().len(),
        ensures
            r@ == self.avai_chains()[shard_id as int].longest_chain(),
    {
        self.availability_chains[shard_id].all_blocks_in_longest_chain()
    }

    pub fn all_proposer_blocks_end_with_block(&self, hash: &H256) -> (r: Option<Vec<H256>>)
        requires
            self.wf(),
        ensures
            crate::tree::opt_hashes(r) == crate::tree::path(self.prop_chain().tree(), *hash),
    {
        self.proposer_chain.all_blocks_end_with_block(hash)
    }

    pub fn get_proposer_block(&self, hash: &H256) -> (r: Option<VersaBlock>)
        requires
            self.wf(),
        ensures
            r is Some <==> self.prop_chain().blocks().contains_key(*hash),
            r matches Some(b) ==> b@ == self.prop_chain().blocks()[*hash]@,
    {
        self.proposer_chain.get_block(hash)
    }

    pub fn get_tx_blk_in_longest_proposer_chain(&self, blk_hash: &H256) -> (r: Option<TransactionBlock>)
        requires
            self.wf(),
        ensures
            ({
                let c = self.prop_chain();
                let s = crate::blockchain::tx_blocks_along(c.blocks(), c.longest_chain());
                match r {
                    Some(t) => crate::blockchain::first_with_hash(s, blk_hash@) == Some(t@),
                    None => crate::blockchain::first_with_hash(s, blk_hash@) is None,
                }
            }),
    {
        self.proposer_chain.get_tx_blk_in_longest_chain(blk_hash)
    }

    pub fn get_highest_prop_block(&self) -> (r: H256)
        requires
            self.wf(),
        ensures
            r == self.prop_chain().tip_hash(),
    {
        self.proposer_chain.tip()
    }

    pub fn get_highest_avai_block(&self, shard_id: usize) -> (r: H256)
        requires
            self.wf(),
            shard_id < self.avai_chains().len(),
        ensures
            r == self.avai_chains()[shard_id as int].tip_hash(),
    {
        self.availability_chains[shard_id].tip()
    }

    /// The tip of each of the first `shard_num` availability chains, with
    /// its shard.
    pub fn get_all_highest_avai_blocks(&self) -> (r: Vec<(H256, usize)>)
        requires
            self.wf(),
            self.config_of().shard_num <= self.avai_chains().len(),
        ensures
            r@.len() == self.config_of().shard_num,
            forall|i: int| 0 <= i < r@.len() ==> #[trigger] r@[i] == (self.avai_chains()[i].tip_hash(), i as usize),
    {
        let mut r: Vec<(H256, usize)> = Vec::new();
        let mut i: usize = 0;
        while i < self.config.shard_num
            invariant
                self.wf(),
                self.config_of().shard_num <= self.avai_chains().len(),
                i <= self.config_of().shard_num,
                r@.len() == i,
                forall|j: int| 0 <= j < i ==> #[trigger] r@[j] == (self.avai_chains()[j].tip_hash(), j as usize),
            decreases self.config_of().shard_num - i,
        {
            assert(self.availability_chains@[i as int].wf());
            r.push((self.availability_chains[i].tip(), i));
            i = i + 1;
        }
        r
    }

    /// The transaction blocks committed along the branch of a proposer block.
    pub fn get_prop_cmts(&self, prop_hash: &H256) -> (r: Vec<TransactionBlock>)
        requires
            self.wf(),
            self.prop_chain().blocks().contains_key(*prop_hash),
        ensures
            tx_block_views(r@) == self.prop_cmts()[*prop_hash],
    {
        assert(self.prop_cmts().contains_key(*prop_hash));
        match self.hash2prop_cmts.get(prop_hash) {
            Some(v) => copy_tx_list(v),
            None => Vec::new(),
        }
    }

    /// The transaction blocks committed along the branch of a proposer block
    /// that the tip of this node's availability chain has not committed.
    pub fn get_unreferred_cmt(&self, prop_hash: &H256) -> (r: Vec<TransactionBlock>)
        requires
            self.wf(),
            self.prop_chain().blocks().contains_key(*prop_hash),
        ensures
            tx_block_views(r@) == unreferred(self.prop_cmts()[*prop_hash], self.latest_avai_cmts()),
            forall|t: TxBlockModel| #[trigger] tx_block_views(r@).contains(t) <==> self.prop_cmts()[*prop_hash].contains(t)
                && !self.latest_avai_cmts().contains(t),
    {
        proof {
            law_unreferred_is_difference(self.prop_cmts()[*prop_hash], self.latest_avai_cmts());
        }
        let prop_tx_set = self.get_prop_cmts(prop_hash);
        let own = self.config.shard_id;
        let tip = self.availability_chains[own].tip();
        proof {
            assert(self.availability_chains@[own as int].wf());
            crate::blockchain::law_tip_is_highest(&self.availability_chains@[own as int]);
            assert(self.avai_cmts().contains_key(tip));
        }
        let latest = match self.hash2avai_cmts.get(&tip) {
            Some(v) => copy_tx_list(v),
            None => Vec::new(),
        };
        let ghost s = tx_block_views(prop_tx_set@);
        let ghost l = tx_block_views(latest@);
        let mut r: Vec<TransactionBlock> = Vec::new();
        let mut i: usize = 0;
        while i < prop_tx_set.len()
            invariant
                i <= prop_tx_set@.len(),
                s == tx_block_views(prop_tx_set@),
                l == tx_block_views(latest@),
                tx_block_views(r@) == unreferred(s.subrange(0, i as int), l),
            decreases prop_tx_set@.len() - i,
        {
            assert(s.subrange(0, i + 1).drop_last() =~= s.subrange(0, i as int));
            assert(s.subrange(0, i + 1).last() == s[i as int]);
            proof {
                reveal(Seq::filter);
            }
            if !contains_tx_block(&latest, &prop_tx_set[i]) {
                r.push(prop_tx_set[i].clone());
                assert(tx_block_views(r@) =~= unreferred(s.subrange(0, i as int), l).push(s[i as int]));
            }
            i = i + 1;
        }
        assert(s.subrange(0, i as int) =~= s);
        r
    }

    /// The commitments along the tip of this node's availability chain.
    pub open spec fn latest_avai_cmts(&self) -> Seq<TxBlockModel> {
        self.avai_cmts()[self.avai_chains()[self.config_of().shard_id as int].tip_hash()]
    }

    /// The proposer block `k` blocks below the tip of the proposer chain,
    /// or the genesis block when the chain is shorter.
    pub open spec fn confirmed_prop_hash(&self) -> H256 {
        let p = self.prop_chain().longest_chain();
        if p.len() > self.config_of().k {
            p[p.len() - 1 - self.config_of().k]
        } else {
            p[0]
        }
    }

    /// Up to `num` transaction blocks that a confirmed proposer block commits
    /// and this node's availability chain has not: all `num` first ones, or,
    /// as an error, all there are when fewer.
    pub fn get_avai_tx_blocks(&self, num: usize) -> (r: Result<Vec<TransactionBlock>, Vec<TransactionBlock>>)
        requires
            self.wf(),
        ensures
            ({
                let u = unreferred(self.prop_cmts()[self.confirmed_prop_hash()], self.latest_avai_cmts());
                match r {
                    Ok(v) => u.len() >= num && tx_block_views(v@) == u.take(num as int),
                    Err(v) => u.len() < num && tx_block_views(v@) == u,
                }
            }),
    {
        let chain = self.proposer_chain.all_blocks_in_longest_chain();
        proof {
            crate::blockchain::law_longest_chain_shape(&self.proposer_chain);
            crate::blockchain::law_longest_chain_held(&self.proposer_chain);
        }
        let k = self.config.k;
        let confirmed = if chain.len() > k {
            chain[chain.len() - 1 - k]
        } else {
            chain[0]
        };
        let unreferred_cmts = self.get_unreferred_cmt(&confirmed);
        if unreferred_cmts.len() >= num {
            let mut res: Vec<TransactionBlock> = Vec::new();
            let mut i: usize = 0;
            while i < num
                invariant
                    i <= num,
                    num <= unreferred_cmts@.len(),
                    res@.len() == i,
                    forall|j: int| 0 <= j < i ==> #[trigger] res@[j]@ == unreferred_cmts@[j]@,
                decreases num - i,
            {
                res.push(unreferred_cmts[i].clone());
                i = i + 1;
            }
            assert(tx_block_views(res@) =~= tx_block_views(unreferred_cmts@).take(num as int));
            Ok(res)
        } else {
            Err(unreferred_cmts)
        }
    }

    /// The proposer block `hash`.
    pub fn get_prop_block(&self, hash: &H256) -> (r: Option<ProposerBlock>)
        requires
            self.wf(),
        ensures
            r is Some <==> self.prop_chain().blocks().contains_key(*hash),
            r matches Some(b) ==> VersaModel::Prop(b@) == self.prop_chain().blocks()[*hash]@,
    {
        match self.proposer_chain.get_block(hash) {
            Some(VersaBlock::PropBlock(b)) => Some(b),
            _ => None,
        }
    }

    /// The ordering block `hash`.
    pub fn get_order_block(&self, hash: &H256) -> (r: Option<OrderingBlock>)
        requires
            self.wf(),
        ensures
            r is Some <==> self.order_chain().blocks().contains_key(*hash),
            r matches Some(b) ==> VersaModel::Order(b@) == self.order_chain().blocks()[*hash]@,
    {
        match self.ordering_chain.get_block(hash) {
            Some(VersaBlock::OrderBlock(b)) => Some(b),
            _ => None,
        }
    }

    /// The availability block `hash` of shard `shard_id`.
    pub fn get_avai_block_by_shard(&self, hash: &H256, shard_id: usize) -> (r: Option<AvailabilityBlock>)
        requires
            self.wf(),
            shard_id < self.avai_chains().len(),
        ensures
            r is Some <==> self.avai_chains()[shard_id as int].blocks().contains_key(*hash),
            r matches Some(b) ==> (VersaModel::ExAvai(b@) == self.avai_chains()[shard_id as int].blocks()[*hash]@
                || VersaModel::InAvai(b@) == self.avai_chains()[shard_id as int].blocks()[*hash]@),
    {
        assert(self.availability_chains@[shard_id as int].wf());
        match self.availability_chains[shard_id].get_block(hash) {
            Some(VersaBlock::ExAvaiBlock(b)) => Some(b),
            Some(VersaBlock::InAvaiBlock(b)) => Some(b),
            _ => None,
        }
    }

    pub fn get_prop_size(&self) -> (n: usize)
        requires
            self.wf(),
        ensures
            n == self.prop_chain().size_of(),
    {
        self.proposer_chain.size()
    }

    pub fn get_avai_size(&self, shard_id: usize) -> (n: usize)
        requires
            self.wf(),
            shard_id < self.avai_chains().len(),
        ensures
            n == self.avai_chains()[shard_id as int].size_of(),
    {
        assert(self.availability_chains@[shard_id as int].wf());
        self.availability_chains[shard_id].size()
    }

    /// The number of availability chains.
    pub fn get_num_avai_chains(&self) -> (n: usize)
        ensures
            n == self.avai_chains().len(),
    {
        self.availability_chains.len()
    }

    pub fn get_order_size(&self) -> (n: usize)
        requires
            self.wf(),
        ensures
            n == self.order_chain().size_of(),
    {
        self.ordering_chain.size()
    }

    pub fn get_highest_order_block(&self) -> (r: H256)
        requires
            self.wf(),
        ensures
            r == self.order_chain().tip_hash(),
    {
        self.ordering_chain.tip()
    }

    /// The availability blocks confirmed along the branch of an ordering
    /// block.
    pub fn get_confirmed_avai_set_by_order_hash(&self, order_hash: &H256) -> (r: Result<Vec<(H256, u32)>, MultichainError>)
        requires
            self.wf(),
        ensures
            match r {
                Ok(v) => self.confirmed().contains_key(*order_hash) && v@ == self.confirmed()[*order_hash],
                Err(e) => !self.confirmed().contains_key(*order_hash) && e == MultichainError::OrderingBlockMissing,
            },
    {
        match self.hash2confirmed_avai_blks.get(order_hash) {
            Some(v) => Ok(crate::block::copy_vec(v)),
            None => Err(MultichainError::OrderingBlockMissing),
        }
    }

    /// The availability blocks lying `k` blocks or more below the tip of
    /// their chain that the tip of the ordering chain has not confirmed yet,
    /// chain after chain.
    pub fn get_new_confirmed_avai_set(&self) -> (r: Vec<(H256, u32)>)
        requires
            self.wf(),
        ensures
            r@ == all_confirmed(self.avai_chains(), self.avai_chains().len() as int, self.config_of().k).filter(
                |x: (H256, u32)| !self.confirmed()[self.order_chain().tip_hash()].contains(x),
            ),
            forall|x: (H256, u32)| #[trigger] r@.contains(x) ==> !self.confirmed()[self.order_chain().tip_hash()].contains(x)
                && exists|i: int, p: int|
                0 <= i < self.avai_chains().len() && x.1 == i as u32 && 0 <= p && p + self.config_of().k
                    < self.avai_chains()[i].longest_chain().len() && self.avai_chains()[i].longest_chain()[p] == x.0,
            forall|i: int, p: int|
                0 <= i < self.avai_chains().len() && 0 <= p && p + self.config_of().k < self.avai_chains()[i].longest_chain().len()
                    && !self.confirmed()[self.order_chain().tip_hash()].contains((self.avai_chains()[i].longest_chain()[p], i as u32))
                    ==> r@.contains((#[trigger] self.avai_chains()[i].longest_chain()[p], i as u32)),
    {
        proof {
            law_new_confirmed(self);
        }
        let order_parent = self.ordering_chain.tip();
        proof {
            crate::blockchain::law_tip_is_highest(&self.ordering_chain);
        }
        let old_set = match self.hash2confirmed_avai_blks.get(&order_parent) {
            Some(v) => crate::block::copy_vec(v),
            None => Vec::new(),
        };
        let k = self.config.k;
        let mut all: Vec<(H256, u32)> = Vec::new();
        let mut i: usize = 0;
        while i < self.availability_chains.len()
            invariant
                self.wf(),
                i <= self.avai_chains().len(),
                k == self.config_of().k,
                all@ == all_confirmed(self.avai_chains(), i as int, k),
            decreases self.avai_chains().len() - i,
        {
            assert(self.availability_chains@[i as int].wf());
            let chain = self.availability_chains[i].all_blocks_in_longest_chain();
            let ghost before = all@;
            if chain.len() > k {
                let n = chain.len() - k;
                let mut j: usize = 0;
                while j < n
                    invariant
                        j <= n,
                        n <= chain@.len(),
                        all@ == before + chain@.take(j as int).map_values(|h: H256| (h, i as u32)),
                    decreases n - j,
                {
                    all.push((chain[j], i as u32));
                    j = j + 1;
                    assert(all@ =~= before + chain@.take(j as int).map_values(|h: H256| (h, i as u32)));
                }
            } else {
                assert(all@ =~= before + Seq::<(H256, u32)>::empty());
            }
            i = i + 1;
        }
        let ghost a = all@;
        let mut r: Vec<(H256, u32)> = Vec::new();
        let mut j: usize = 0;
        while j < all.len()
            invariant
                j <= all@.len(),
                a == all@,
                r@ == a.subrange(0, j as int).filter(|x: (H256, u32)| !old_set@.contains(x)),
            decreases all@.len() - j,
        {
            assert(a.subrange(0, j + 1).drop_last() =~= a.subrange(0, j as int));
            assert(a.subrange(0, j + 1).last() == a[j as int]);
            proof {
                reveal(Seq::filter);
            }
            if !contains_pair(&old_set, &all[j]) {
                r.push(all[j]);
            }
            j = j + 1;
        }
        assert(a.subrange(0, j as int) =~= a);
        proof {
            assert(self.confirmed().contains_key(order_parent));
            assert((|x: (H256, u32)| !old_set@.contains(x)) =~= (|x: (H256, u32)|
                !self.confirmed()[self.order_chain().tip_hash()].contains(x)));
        }
        r
    }
}

/// The blocks taken as confirmed from the first `n` chains are exactly the
/// blocks of each chain's longest chain that have at least `k` blocks after
/// them on it, each with its chain's index.
pub proof fn law_confirmed_are_deep(chains: Seq<Blockchain>, n: int, k: usize)
    requires
        0 <= n <= chains.len(),
    ensures
        forall|x: (H256, u32)| #[trigger] all_confirmed(chains, n, k).contains(x) ==> exists|i: int, p: int|
            0 <= i < n && x.1 == i as u32 && 0 <= p && p + k < chains[i].longest_chain().len() && chains[i].longest_chain()[p]
                == x.0,
        forall|i: int, p: int|
            0 <= i < n && 0 <= p && p + k < chains[i].longest_chain().len() ==> all_confirmed(chains, n, k).contains(
                (#[trigger] chains[i].longest_chain()[p], i as u32),
            ),
    decreases n,
{
    if n > 0 {
        law_confirmed_are_deep(chains, n - 1, k);
        let a = all_confirmed(chains, n - 1, k);
        let c = chains[n - 1];
        let lc = c.longest_chain();
        let b = chain_confirmed(c, n - 1, k);
        assert(all_confirmed(chains, n, k) == a + b);
        assert forall|x: (H256, u32)| #[trigger] all_confirmed(chains, n, k).contains(x) implies exists|i: int, p: int|
            0 <= i < n && x.1 == i as u32 && 0 <= p && p + k < chains[i].longest_chain().len() && chains[i].longest_chain()[p]
                == x.0 by {
            let y = choose|y: int| 0 <= y < (a + b).len() && (a + b)[y] == x;
            if y < a.len() {
                assert(a[y] == x);
                assert(a.contains(x));
            } else {
                let p = y - a.len();
                assert(b[p] == x);
                assert(lc.len() > k);
                assert(b == lc.take(lc.len() - k).map_values(|h: H256| (h, (n - 1) as u32)));
                assert(x == (lc[p], (n - 1) as u32));
            }
        }
        assert forall|i: int, p: int|
            0 <= i < n && 0 <= p && p + k < chains[i].longest_chain().len() implies all_confirmed(chains, n, k).contains(
                (#[trigger] chains[i].longest_chain()[p], i as u32),
            ) by {
            let x = (chains[i].longest_chain()[p], i as u32);
            if i < n - 1 {
                assert(a.contains(x));
                let y = choose|y: int| 0 <= y < a.len() && a[y] == x;
                assert((a + b)[y] == x);
            } else {
                assert(b[p] == x);
                assert((a + b)[a.len() + p] == x);
            }
        }
    }
}

/// What a proposer block commits and the availability chain has not: each
/// kept transaction block is one the proposer branch commits and the
/// availability tip does not, and each such one is kept.
pub proof fn law_unreferred_is_difference(s: Seq<TxBlockModel>, l: Seq<TxBlockModel>)
    ensures
        forall|t: TxBlockModel| #[trigger] unreferred(s, l).contains(t) <==> s.contains(t) && !l.contains(t),
{
    let f = |t: TxBlockModel| !l.contains(t);
    assert forall|t: TxBlockModel| #[trigger] unreferred(s, l).contains(t) <==> s.contains(t) && !l.contains(t) by {
        s.filter_lemma(f);
        if unreferred(s, l).contains(t) {
            s.lemma_filter_contains_rev(f, t);
            let y = choose|y: int| 0 <= y < s.filter(f).len() && s.filter(f)[y] == t;
            assert(f(s.filter(f)[y]));
        }
        if s.contains(t) && !l.contains(t) {
            let y = choose|y: int| 0 <= y < s.len() && s[y] == t;
            assert(f(s[y]));
        }
    }
}

/// The newly confirmed availability blocks of a node: each lies on the
/// longest chain of its availability chain with at least `k` blocks after
/// it, and the tip of the ordering chain has not confirmed it; each such
/// block is among them.
pub proof fn law_new_confirmed(m: &Multichain)
    requires
        m.wf(),
    ensures
        ({
            let r = all_confirmed(m.avai_chains(), m.avai_chains().len() as int, m.config_of().k).filter(
                |x: (H256, u32)| !m.confirmed()[m.order_chain().tip_hash()].contains(x),
            );
            let done = m.confirmed()[m.order_chain().tip_hash()];
            let k = m.config_of().k;
            let cs = m.avai_chains();
            &&& forall|x: (H256, u32)| #[trigger] r.contains(x) ==> !done.contains(x) && exists|i: int, p: int|
                0 <= i < cs.len() && x.1 == i as u32 && 0 <= p && p + k < cs[i].longest_chain().len()
                    && cs[i].longest_chain()[p] == x.0
            &&& forall|i: int, p: int|
                0 <= i < cs.len() && 0 <= p && p + k < cs[i].longest_chain().len() && !done.contains(
                    (cs[i].longest_chain()[p], i as u32),
                ) ==> r.contains((#[trigger] cs[i].longest_chain()[p], i as u32))
        }),
{
    let cs = m.avai_chains();
    let k = m.config_of().k;
    let done = m.confirmed()[m.order_chain().tip_hash()];
    let all = all_confirmed(cs, cs.len() as int, k);
    let f = |x: (H256, u32)| !done.contains(x);
    law_confirmed_are_deep(cs, cs.len() as int, k);
    all.filter_lemma(f);
    assert forall|x: (H256, u32)| #[trigger] all.filter(f).contains(x) implies !done.contains(x) && exists|i: int, p: int|
        0 <= i < cs.len() && x.1 == i as u32 && 0 <= p && p + k < cs[i].longest_chain().len() && cs[i].longest_chain()[p]
            == x.0 by {
        all.lemma_filter_contains_rev(f, x);
        let y = choose|y: int| 0 <= y < all.filter(f).len() && all.filter(f)[y] == x;
        assert(f(all.filter(f)[y]));
        assert(all.contains(x));
    }
    assert forall|i: int, p: int|
        0 <= i < cs.len() && 0 <= p && p + k < cs[i].longest_chain().len() && !done.contains((cs[i].longest_chain()[p], i as u32))
            implies all.filter(f).contains((#[trigger] cs[i].longest_chain()[p], i as u32)) by {
        let x = (cs[i].longest_chain()[p], i as u32);
        assert(all.contains(x));
        let y = choose|y: int| 0 <= y < all.len() && all[y] == x;
        assert(f(all[y]));
    }
}

} // verus!
