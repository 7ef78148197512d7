//! One chain of blocks: the blocks by hash, the tree they form under the
//! genesis block, and the tip of the longest chain.

use vstd::prelude::*;
use crate::hash::{H256, contains_hash};
use crate::configuration::Configuration;
use crate::store::Store;
use crate::tree::{
    Node, NodeModel, wf, find, path, max_height, ins, leaf, opt_model, opt_hashes,
    lemma_insert_new_hash, lemma_insert_under_found, lemma_path_found, lemma_path_len,
    lemma_found_wf, lemma_found_height,
};
use crate::block::transaction_block::{TransactionBlock, TxBlockModel, tx_block_views};
use crate::block::versa_block::{VersaBlock, versa_hash_of, versa_parents, versa_tx_blocks};
use crate::hash::Hashable;

verus! {

/// Why a block was not inserted.
#[derive(Debug, Clone, Copy, PartialEq, Eq, Structural)]
pub enum ChainError {
    /// The chain already holds a block with this hash.
    BlockExists,
    /// The block does not name the given parent.
    WrongParent,
    /// The chain does not hold the parent.
    ParentMissing,
    /// No node of the tree holds the parent.
    InsertionFailed,
}

/// A chain of blocks.
pub struct Blockchain {
    blocks: Store<VersaBlock>,
    root: Box<Node>,
    longest_chain_hash: H256,
    height: usize,
    config: Configuration,
}

/// The transaction blocks of a block the map holds (none for another hash).
pub open spec fn tx_blocks_of(blocks: Map<H256, VersaBlock>, h: H256) -> Seq<TxBlockModel> {
    if blocks.contains_key(h) {
        versa_tx_blocks(blocks[h]@)
    } else {
        Seq::empty()
    }
}

/// The transaction blocks of the blocks along a list of hashes, in order.
pub open spec fn tx_blocks_along(blocks: Map<H256, VersaBlock>, p: Seq<H256>) -> Seq<TxBlockModel>
    decreases p.len(),
{
    if p.len() == 0 {
        Seq::empty()
    } else {
        tx_blocks_along(blocks, p.drop_last()) + tx_blocks_of(blocks, p.last())
    }
}

/// The first transaction block of the list whose hash is `h`.
pub open spec fn first_with_hash(s: Seq<TxBlockModel>, h: Seq<u8>) -> Option<TxBlockModel>
    decreases s.len(),
{
    if s.len() == 0 {
        None
    } else if TransactionBlock::hash_of(s[0]) == h {
        Some(s[0])
    } else {
        first_with_hash(s.drop_first(), h)
    }
}

/// What inserting `block` under `parent` does to a chain `old`, giving
/// `new` and answering `r`: a block the chain holds already, a parent the
/// block does not name and a parent the chain does not hold are refused in
/// that order and change nothing; otherwise the block is held under its hash,
/// its node hangs under the parent's in the tree, one level lower, and it
/// becomes the tip when it lies higher than the old tip.
pub open spec fn chain_insert_post(
    old: Blockchain,
    new: Blockchain,
    block: VersaBlock,
    parent: H256,
    r: Result<bool, ChainError>,
) -> bool {
    let h = versa_hash_of(block@);
    let exists = old.blocks().contains_key(h);
    let named = versa_parents(block@).contains(parent);
    let known = old.blocks().contains_key(parent);
    &&& exists ==> r == Err::<bool, ChainError>(ChainError::BlockExists)
    &&& (!exists && !named) ==> r == Err::<bool, ChainError>(ChainError::WrongParent)
    &&& (!exists && named && !known) ==> r == Err::<bool, ChainError>(ChainError::ParentMissing)
    &&& r is Err ==> new == old
    &&& (!exists && named && known) ==> {
        let (t, n) = ins(old.tree(), parent, h);
        let height = n.unwrap().height;
        &&& r == Ok::<bool, ChainError>(true)
        &&& new.blocks() == old.blocks().insert(h, block)
        &&& new.size_of() == old.size_of() + 1
        &&& new.tree() == t
        &&& n.unwrap() == leaf(h, height)
        &&& new.config_of() == old.config_of()
        &&& if height > old.chain_height() {
            new.tip_hash() == h && new.chain_height() == height
        } else {
            new.tip_hash() == old.tip_hash() && new.chain_height() == old.chain_height()
        }
    }
}

impl Blockchain {
    /// The blocks by hash.
    pub closed spec fn blocks(&self) -> Map<H256, VersaBlock> {
        self.blocks.view()
    }

    /// The number of blocks.
    pub closed spec fn size_of(&self) -> nat {
        self.blocks.size()
    }

    /// The tree of block hashes under the genesis block.
    pub closed spec fn tree(&self) -> NodeModel {
        self.root.model()
    }

    /// The hash at the end of the longest chain.
    pub closed spec fn tip_hash(&self) -> H256 {
        self.longest_chain_hash
    }

    /// The height of the longest chain.
    pub closed spec fn chain_height(&self) -> nat {
        self.height as nat
    }

    /// The configuration the chain was made with.
    pub closed spec fn config_of(&self) -> Configuration {
        self.config
    }

    /// The blocks are the nodes of a well-formed tree with the genesis block
    /// at height 0, each block is held under its own hash, and the tip is a
    /// node at the greatest height.
    pub closed spec fn wf(&self) -> bool {
        let t = self.root.model();
        let b = self.blocks.view();
        &&& wf(t)
        &&& t.height == 0
        &&& forall|x: H256| #[trigger] b.contains_key(x) <==> find(t, x) is Some
        &&& forall|x: H256| #[trigger] b.contains_key(x) ==> versa_hash_of(b[x]@) == x
        &&& find(t, self.longest_chain_hash) matches Some(n) && n.height == self.height
        &&& self.height == max_height(t)
        &&& self.height < self.blocks.size()
        &&& b.dom().finite()
        &&& b.dom().len() == self.blocks.size()
    }

    /// The path of hashes from the genesis block to the tip.
    pub open spec fn longest_chain(&self) -> Seq<H256> {
        path(self.tree(), self.tip_hash()).unwrap()
    }

    /// A chain holding only the genesis block.
    pub fn new(genesis: VersaBlock, config: &Configuration) -> (c: Self)
        ensures
            c.wf(),
            c.blocks() == Map::<H256, VersaBlock>::empty().insert(versa_hash_of(genesis@), genesis),
            c.size_of() == 1,
            c.tree() == leaf(versa_hash_of(genesis@), 0),
            c.tip_hash() == versa_hash_of(genesis@),
            c.chain_height() == 0,
            c.config_of() == *config,
    {
        let genesis_hash = genesis.hash_value();
        let mut blocks: Store<VersaBlock> = Store::new();
        blocks.insert(genesis_hash, genesis);
        let _n = blocks.len();
        let root = Box::new(Node { val: genesis_hash, children: Vec::new(), height: 0, longest_height: 0 });
        let c = Blockchain { blocks, root, longest_chain_hash: genesis_hash, height: 0, config: *config };
        proof {
            let t = c.root.model();
            assert(t.children =~= Seq::<NodeModel>::empty());
            assert(t == leaf(genesis_hash, 0));
            assert forall|x: H256| #[trigger] c.blocks.view().contains_key(x) <==> find(t, x) is Some by {}
        }
        c
    }

    /// Inserts a block under one of the parents it names.
    pub fn insert_block_with_parent(&mut self, block: VersaBlock, parent: &H256) -> (r: Result<bool, ChainError>)
        requires
            old(self).wf(),
        ensures
            final(self).wf(),
            chain_insert_post(*old(self), *final(self), block, *parent, r),
    {
        let ghost t0 = self.root.model();
        let ghost b0 = self.blocks.view();
        let blk_hash = block.hash_value();
        if self.blocks.contains(&blk_hash) {
            return Err(ChainError::BlockExists);
        }
        let parents = block.parents();
        if !contains_hash(&parents, parent) {
            return Err(ChainError::WrongParent);
        }
        if !self.blocks.contains(parent) {
            return Err(ChainError::ParentMissing);
        }
        let size = self.blocks.len();
        proof {
            assert(b0.contains_key(*parent));
            lemma_insert_under_found(t0, *parent, blk_hash);
            assert(!b0.contains_key(blk_hash));
        }
        let possible_node = Node::insert(&mut self.root, parent, blk_hash, self.config.k);
        let new_node = match possible_node {
            Some(n) => n,
            None => {
                return Err(ChainError::InsertionFailed);
            }
        };
        let ghost t1 = self.root.model();
        proof {
            lemma_insert_new_hash(t0, *parent, blk_hash, blk_hash);
            assert forall|x: H256| #[trigger] find(t1, x) is Some <==> (find(t0, x) is Some || x == blk_hash) by {
                lemma_insert_new_hash(t0, *parent, blk_hash, x);
            }
            lemma_insert_new_hash(t0, *parent, blk_hash, self.longest_chain_hash);
        }
        self.blocks.insert(blk_hash, block);
        let _n = self.blocks.len();
        if new_node.height > self.height {
            self.height = new_node.height;
            self.longest_chain_hash = new_node.val;
        }
        proof {
            let b1 = self.blocks.view();
            assert forall|x: H256| #[trigger] b1.contains_key(x) <==> find(t1, x) is Some by {
                assert(b0.contains_key(x) <==> find(t0, x) is Some);
            }
            assert forall|x: H256| #[trigger] b1.contains_key(x) implies versa_hash_of(b1[x]@) == x by {
                if x != blk_hash {
                    assert(b0.contains_key(x));
                }
            }
        }
        Ok(true)
    }

    /// The hash at the end of the longest chain.
    pub fn tip(&self) -> (r: H256)
        requires
            self.wf(),
        ensures
            r == self.tip_hash(),
    {
        self.longest_chain_hash
    }

    /// The hashes of the longest chain, from the genesis block to the tip.
    pub fn all_blocks_in_longest_chain(&self) -> (r: Vec<H256>)
        requires
            self.wf(),
        ensures
            path(self.tree(), self.tip_hash()) == Some(r@),
    {
        proof {
            lemma_path_found(self.root.model(), self.longest_chain_hash);
        }
        match Node::get_path(&self.root, &self.longest_chain_hash) {
            Some(v) => v,
            None => Vec::new(),
        }
    }

    /// The hashes from the genesis block to the block `hash`, if the chain
    /// holds it.
    pub fn all_blocks_end_with_block(&self, hash: &H256) -> (r: Option<Vec<H256>>)
        requires
            self.wf(),
        ensures
            opt_hashes(r) == path(self.tree(), *hash),
            r is Some <==> self.blocks().contains_key(*hash),
    {
        proof {
            lemma_path_found(self.root.model(), *hash);
        }
        Node::get_path(&self.root, hash)
    }

    /// A copy of the block `hash`.
    pub fn get_block(&self, hash: &H256) -> (r: Option<VersaBlock>)
        requires
            self.wf(),
        ensures
            r is Some <==> self.blocks().contains_key(*hash),
            r matches Some(b) ==> b@ == self.blocks()[*hash]@,
    {
        match self.blocks.get(hash) {
            Some(b) => Some(b.clone()),
            None => None,
        }
    }

    /// Height and greatest height below of the node holding `hash`.
    fn node_heights(root: &Box<Node>, hash: &H256) -> (r: Option<(usize, usize)>)
        ensures
            r matches Some(p) ==> (find(root.model(), *hash) matches Some(n) && p.0 == n.height
                && p.1 == n.longest_height),
            r is None ==> find(root.model(), *hash) is None,
        decreases root,
    {
        proof {
            crate::tree::lemma_model_children(root);
        }
        if root.val.equals(hash) {
            return Some((root.height, root.longest_height));
        }
        let ghost f = crate::tree::models(root.children@);
        let mut i: usize = 0;
        assert(f.subrange(0, f.len() as int) =~= f);
        while i < root.children.len()
            invariant
                i <= root.children@.len(),
                f == crate::tree::models(root.children@),
                root.model().children == f,
                root.val != *hash,
                crate::tree::find_forest(f, *hash) == crate::tree::find_forest(
                    f.subrange(i as int, f.len() as int),
                    *hash,
                ),
            decreases root.children@.len() - i,
        {
            let ghost rest = f.subrange(i as int, f.len() as int);
            assert(rest[0] == f[i as int]);
            match Self::node_heights(&root.children[i], hash) {
                Some(p) => {
                    assert(f[i as int] == root.children@[i as int].model());
                    return Some(p);
                },
                None => {
                    assert(rest.subrange(1, rest.len() as int) =~= f.subrange(i + 1, f.len() as int));
                },
            }
            i = i + 1;
        }
        assert(f.subrange(i as int, f.len() as int) =~= Seq::<NodeModel>::empty());
        None
    }

    /// Whether at least `k` blocks lie below the block `hash` on its longest
    /// branch.
    pub fn is_block_confirmed(&self, hash: &H256, k: usize) -> (b: bool)
        requires
            self.wf(),
        ensures
            b == (match find(self.tree(), *hash) {
                Some(n) => n.longest_height - n.height >= k,
                None => false,
            }),
    {
        proof {
            lemma_found_wf(self.root.model(), *hash);
        }
        match Self::node_heights(&self.root, hash) {
            Some(p) => p.1 - p.0 >= k,
            None => false,
        }
    }

    /// The height of the block `hash`.
    pub fn get_block_height(&self, block_hash: &H256) -> (r: Option<usize>)
        requires
            self.wf(),
        ensures
            r is Some <==> self.blocks().contains_key(*block_hash),
            r matches Some(h) ==> h == find(self.tree(), *block_hash).unwrap().height,
    {
        match Self::node_heights(&self.root, block_hash) {
            Some(p) => Some(p.0),
            None => None,
        }
    }

    /// The transaction blocks of the blocks along a list of hashes.
    fn tx_blocks_of_chain(&self, hashes: &Vec<H256>) -> (r: Vec<TransactionBlock>)
        ensures
            tx_block_views(r@) == tx_blocks_along(self.blocks(), hashes@),
    {
        let mut r: Vec<TransactionBlock> = Vec::new();
        let mut i: usize = 0;
        while i < hashes.len()
            invariant
                i <= hashes@.len(),
                tx_block_views(r@) == tx_blocks_along(self.blocks(), hashes@.subrange(0, i as int)),
            decreases hashes@.len() - i,
        {
            let ghost before = r@;
            assert(hashes@.subrange(0, i + 1).drop_last() =~= hashes@.subrange(0, i as int));
            match self.blocks.get(&hashes[i]) {
                Some(b) => {
                    let txs = b.get_tx_blocks();
                    let mut j: usize = 0;
                    while j < txs.len()
                        invariant
                            j <= txs@.len(),
                            r@.len() == before.len() + j,
                            forall|a: int| 0 <= a < before.len() ==> #[trigger] r@[a] == before[a],
                            forall|a: int| 0 <= a < j ==> #[trigger] r@[before.len() + a]@ == txs@[a]@,
                        decreases txs@.len() - j,
                    {
                        r.push(txs[j].clone());
                        j = j + 1;
                    }
                    assert forall|k: int| 0 <= k < r@.len() implies #[trigger] tx_block_views(r@)[k] == (
                        tx_block_views(before) + tx_block_views(txs@))[k] by {
                        if k >= before.len() {
                            let a = k - before.len();
                            assert(r@[before.len() + a]@ == txs@[a]@);
                        }
                    }
                    assert(tx_block_views(r@) =~= tx_block_views(before) + tx_block_views(txs@));
                },
                None => {
                    assert(tx_block_views(r@) =~= tx_block_views(before) + Seq::<TxBlockModel>::empty());
                },
            }
            i = i + 1;
        }
        assert(hashes@.subrange(0, i as int) =~= hashes@);
        r
    }

    /// The transaction block `blk_hash` among those the longest chain links,
    /// the first if several have that hash.
    pub fn get_tx_blk_in_longest_chain(&self, blk_hash: &H256) -> (r: Option<TransactionBlock>)
        requires
            self.wf(),
        ensures
            match r {
                Some(t) => first_with_hash(tx_blocks_along(self.blocks(), self.longest_chain()), blk_hash@) == Some(t@),
                None => first_with_hash(tx_blocks_along(self.blocks(), self.longest_chain()), blk_hash@) is None,
            },
            (r is Some) <==> exists|j: int, k: int|
                0 <= j < self.longest_chain().len() && 0 <= k < versa_tx_blocks(self.blocks()[self.longest_chain()[j]]@).len()
                    && TransactionBlock::hash_of(#[trigger] versa_tx_blocks(self.blocks()[self.longest_chain()[j]]@)[k])
                    == blk_hash@,
            r matches Some(t) ==> TransactionBlock::hash_of(t@) == blk_hash@,
    {
        let r = self.first_tx_blk_in_longest_chain(blk_hash);
        proof {
            law_longest_chain_tx_blocks(self);
            let s = tx_blocks_along(self.blocks(), self.longest_chain());
            law_first_with_hash(s, blk_hash@);
            let lc = self.longest_chain();
            if exists|j: int, k: int|
                0 <= j < lc.len() && 0 <= k < versa_tx_blocks(self.blocks()[lc[j]]@).len() && TransactionBlock::hash_of(
                    #[trigger] versa_tx_blocks(self.blocks()[lc[j]]@)[k],
                ) == blk_hash@ {
                let (j, k) = choose|j: int, k: int|
                    0 <= j < lc.len() && 0 <= k < versa_tx_blocks(self.blocks()[lc[j]]@).len() && TransactionBlock::hash_of(
                        #[trigger] versa_tx_blocks(self.blocks()[lc[j]]@)[k],
                    ) == blk_hash@;
                let t = versa_tx_blocks(self.blocks()[lc[j]]@)[k];
                assert(s.contains(t));
                let i = choose|i: int| 0 <= i < s.len() && s[i] == t;
                assert(TransactionBlock::hash_of(s[i]) == blk_hash@);
            }
            if first_with_hash(s, blk_hash@) is Some {
                let t = first_with_hash(s, blk_hash@).unwrap();
                assert(s.contains(t));
                let (j, k) = choose|j: int, k: int|
                    0 <= j < lc.len() && 0 <= k < versa_tx_blocks(self.blocks()[lc[j]]@).len()
                        && versa_tx_blocks(self.blocks()[lc[j]]@)[k] == t;
                assert(TransactionBlock::hash_of(versa_tx_blocks(self.blocks()[lc[j]]@)[k]) == blk_hash@);
            }
        }
        r
    }

    /// The first transaction block with hash `blk_hash` along the longest chain.
    fn first_tx_blk_in_longest_chain(&self, blk_hash: &H256) -> (r: Option<TransactionBlock>)
        requires
            self.wf(),
        ensures
            match r {
                Some(t) => first_with_hash(tx_blocks_along(self.blocks(), self.longest_chain()), blk_hash@) == Some(t@),
                None => first_with_hash(tx_blocks_along(self.blocks(), self.longest_chain()), blk_hash@) is None,
            },
    {
        let hashes = self.all_blocks_in_longest_chain();
        let txs = self.tx_blocks_of_chain(&hashes);
        let ghost s = tx_block_views(txs@);
        let mut i: usize = 0;
        assert(s.subrange(0, s.len() as int) =~= s);
        while i < txs.len()
            invariant
                i <= txs@.len(),
                s == tx_block_views(txs@),
                s == tx_blocks_along(self.blocks(), self.longest_chain()),
                first_with_hash(s, blk_hash@) == first_with_hash(s.subrange(i as int, s.len() as int), blk_hash@),
            decreases txs@.len() - i,
        {
            let ghost rest = s.subrange(i as int, s.len() as int);
            assert(rest[0] == txs@[i as int]@);
            let h = txs[i].hash();
            if h.equals(blk_hash) {
                return Some(txs[i].clone());
            }
            assert(rest.drop_first() =~= s.subrange(i + 1, s.len() as int));
            i = i + 1;
        }
        None
    }

    /// The transaction blocks the longest chain links, block by block.
    pub fn get_all_tx_blk_in_longest_chain(&self) -> (r: Vec<TransactionBlock>)
        requires
            self.wf(),
        ensures
            tx_block_views(r@) == tx_blocks_along(self.blocks(), self.longest_chain()),
            forall|j: int, k: int|
                0 <= j < self.longest_chain().len() && 0 <= k < versa_tx_blocks(self.blocks()[self.longest_chain()[j]]@).len()
                    ==> tx_block_views(r@).contains(#[trigger] versa_tx_blocks(self.blocks()[self.longest_chain()[j]]@)[k]),
            forall|t: TxBlockModel| #[trigger] tx_block_views(r@).contains(t) ==> exists|j: int, k: int|
                0 <= j < self.longest_chain().len() && 0 <= k < versa_tx_blocks(self.blocks()[self.longest_chain()[j]]@).len()
                    && versa_tx_blocks(self.blocks()[self.longest_chain()[j]]@)[k] == t,
    {
        proof {
            law_longest_chain_tx_blocks(self);
        }
        let hashes = self.all_blocks_in_longest_chain();
        self.tx_blocks_of_chain(&hashes)
    }

    /// The transaction blocks the longest chain links, block by block; the
    /// shard is not used to select them.
    pub fn get_all_tx_blk_in_longest_chain_by_shard(&self, shard_id: usize) -> (r: Vec<TransactionBlock>)
        requires
            self.wf(),
        ensures
            tx_block_views(r@) == tx_blocks_along(self.blocks(), self.longest_chain()),
            forall|j: int, k: int|
                0 <= j < self.longest_chain().len() && 0 <= k < versa_tx_blocks(self.blocks()[self.longest_chain()[j]]@).len()
                    ==> tx_block_views(r@).contains(#[trigger] versa_tx_blocks(self.blocks()[self.longest_chain()[j]]@)[k]),
            forall|t: TxBlockModel| #[trigger] tx_block_views(r@).contains(t) ==> exists|j: int, k: int|
                0 <= j < self.longest_chain().len() && 0 <= k < versa_tx_blocks(self.blocks()[self.longest_chain()[j]]@).len()
                    && versa_tx_blocks(self.blocks()[self.longest_chain()[j]]@)[k] == t,
    {
        proof {
            law_longest_chain_tx_blocks(self);
        }
        let hashes = self.all_blocks_in_longest_chain();
        self.tx_blocks_of_chain(&hashes)
    }

    /// The number of blocks.
    pub fn size(&self) -> (n: usize)
        requires
            self.wf(),
        ensures
            n == self.size_of(),
            n == self.blocks().dom().len(),
    {
        self.blocks.len()
    }

    /// A copy of the genesis block.
    pub fn get_genesis_block(&self) -> (r: VersaBlock)
        requires
            self.wf(),
        ensures
            self.blocks().contains_key(self.tree().val),
            r@ == self.blocks()[self.tree().val]@,
    {
        match self.blocks.get(&self.root.val) {
            Some(b) => b.clone(),
            None => VersaBlock::default(),
        }
    }

    /// The configuration the chain was made with.
    pub fn config(&self) -> (c: Configuration)
        ensures
            c == self.config_of(),
    {
        self.config
    }
}

// ----- laws -----

/// The tip is a block of the chain, at the greatest height of the tree.
pub proof fn law_tip_is_highest(c: &Blockchain)
    requires
        c.wf(),
    ensures
        c.blocks().contains_key(c.tip_hash()),
        find(c.tree(), c.tip_hash()).unwrap().height == max_height(c.tree()),
        c.chain_height() == max_height(c.tree()),
{
}

/// Every block of the chain lies no higher than the tip.
pub proof fn law_no_block_above_tip(c: &Blockchain, x: H256)
    requires
        c.wf(),
        c.blocks().contains_key(x),
    ensures
        find(c.tree(), x).unwrap().height <= c.chain_height(),
{
    lemma_found_height(c.tree(), x);
}

/// The longest chain starts at the genesis block, ends at the tip and holds
/// one block per height, from 0 to the chain's height.
pub proof fn law_longest_chain_shape(c: &Blockchain)
    requires
        c.wf(),
    ensures
        c.longest_chain().len() == c.chain_height() + 1,
        c.longest_chain()[0] == c.tree().val,
        c.longest_chain()[c.chain_height() as int] == c.tip_hash(),
{
    lemma_path_len(c.tree(), c.tip_hash());
    lemma_path_found(c.tree(), c.tip_hash());
}

/// After a successful insertion the chain holds the block under its hash,
/// keeps every block it held, and its tip is no lower than before.
pub proof fn law_insert_then_held(old: Blockchain, new: Blockchain, block: VersaBlock, parent: H256, r: Result<bool, ChainError>)
    requires
        chain_insert_post(old, new, block, parent, r),
        r is Ok,
    ensures
        new.blocks().contains_key(versa_hash_of(block@)),
        new.blocks()[versa_hash_of(block@)] == block,
        forall|x: H256| #[trigger] old.blocks().contains_key(x) ==> new.blocks().contains_key(x) && new.blocks()[x] == old.blocks()[x],
        new.chain_height() >= old.chain_height(),
{
    let h = versa_hash_of(block@);
    if old.blocks().contains_key(h) || !versa_parents(block@).contains(parent) || !old.blocks().contains_key(parent) {
        assert(r is Err);
    }
}

/// The genesis block is held, and the chain holds as many hashes as blocks.
pub proof fn law_genesis_held(c: &Blockchain)
    requires
        c.wf(),
    ensures
        c.blocks().contains_key(c.tree().val),
        c.blocks().dom().finite(),
        c.blocks().dom().len() == c.size_of(),
{
}

/// Every hash on the longest chain is a block of the chain.
pub proof fn law_longest_chain_held(c: &Blockchain)
    requires
        c.wf(),
    ensures
        forall|i: int| 0 <= i < c.longest_chain().len() ==> #[trigger] c.blocks().contains_key(c.longest_chain()[i]),
{
    lemma_path_found(c.tree(), c.tip_hash());
    crate::tree::lemma_path_elements_found(c.tree(), c.tip_hash());
    assert forall|i: int| 0 <= i < c.longest_chain().len() implies #[trigger] c.blocks().contains_key(c.longest_chain()[i]) by {
        assert(find(c.tree(), c.longest_chain()[i]) is Some);
    }
}

/// A block is held under its own hash.
pub proof fn law_block_under_own_hash(c: &Blockchain, x: H256)
    requires
        c.wf(),
        c.blocks().contains_key(x),
    ensures
        versa_hash_of(c.blocks()[x]@) == x,
{
}

/// The path to any block of the chain starts at the genesis block and ends
/// at that block.
pub proof fn law_path_to_block(c: &Blockchain, x: H256)
    requires
        c.wf(),
        c.blocks().contains_key(x),
    ensures
        path(c.tree(), x) matches Some(p) && p[0] == c.tree().val && p[p.len() - 1] == x,
        path(c.tree(), x).unwrap().len() == find(c.tree(), x).unwrap().height + 1,
{
    lemma_path_found(c.tree(), x);
    lemma_path_len(c.tree(), x);
}

/// An insertion changes no block's place: every block held before is still
/// held, at the same height; the new block is held, as a leaf of the tree;
/// and the tip moves only to the new block, and only when it lies higher
/// than the old tip.
pub proof fn law_insert_keeps_heights(
    old: Blockchain,
    new: Blockchain,
    block: VersaBlock,
    parent: H256,
    r: Result<bool, ChainError>,
)
    requires
        old.wf(),
        chain_insert_post(old, new, block, parent, r),
        r is Ok,
    ensures
        forall|x: H256| #[trigger] old.blocks().contains_key(x) ==> find(new.tree(), x) is Some && find(new.tree(), x).unwrap().height
            == find(old.tree(), x).unwrap().height,
        find(new.tree(), versa_hash_of(block@)) is Some,
        find(new.tree(), versa_hash_of(block@)).unwrap().children.len() == 0,
        new.tip_hash() == old.tip_hash() || (new.tip_hash() == versa_hash_of(block@) && find(
            new.tree(),
            versa_hash_of(block@),
        ).unwrap().height > old.chain_height()),
{
    let h = versa_hash_of(block@);
    if old.blocks().contains_key(h) || !versa_parents(block@).contains(parent) || !old.blocks().contains_key(parent) {
        assert(r is Err);
    }
    lemma_insert_under_found(old.tree(), parent, h);
    assert forall|x: H256| #[trigger] old.blocks().contains_key(x) implies find(new.tree(), x) is Some && find(
        new.tree(),
        x,
    ).unwrap().height == find(old.tree(), x).unwrap().height by {
        lemma_insert_new_hash(old.tree(), parent, h, x);
    }
    lemma_insert_new_hash(old.tree(), parent, h, h);
}

/// The transaction blocks along a list of hashes are exactly those of the
/// blocks the list names: each transaction block of each named block the
/// map holds is among them, and each of them is a transaction block of one
/// of those blocks.
pub proof fn law_tx_blocks_along_collects(blocks: Map<H256, VersaBlock>, p: Seq<H256>)
    ensures
        forall|j: int, k: int|
            0 <= j < p.len() && blocks.contains_key(p[j]) && 0 <= k < versa_tx_blocks(blocks[p[j]]@).len()
                ==> tx_blocks_along(blocks, p).contains(#[trigger] versa_tx_blocks(blocks[p[j]]@)[k]),
        forall|t: TxBlockModel| #[trigger] tx_blocks_along(blocks, p).contains(t) ==> exists|j: int, k: int|
            0 <= j < p.len() && blocks.contains_key(p[j]) && 0 <= k < versa_tx_blocks(blocks[p[j]]@).len()
                && versa_tx_blocks(blocks[p[j]]@)[k] == t,
    decreases p.len(),
{
    if p.len() > 0 {
        let q = p.drop_last();
        law_tx_blocks_along_collects(blocks, q);
        let a = tx_blocks_along(blocks, q);
        let b = tx_blocks_of(blocks, p.last());
        assert(tx_blocks_along(blocks, p) == a + b);
        assert forall|j: int, k: int|
            0 <= j < p.len() && blocks.contains_key(p[j]) && 0 <= k < versa_tx_blocks(blocks[p[j]]@).len()
                implies tx_blocks_along(blocks, p).contains(#[trigger] versa_tx_blocks(blocks[p[j]]@)[k]) by {
            let t = versa_tx_blocks(blocks[p[j]]@)[k];
            if j < p.len() - 1 {
                assert(q[j] == p[j]);
                assert(a.contains(t));
                let x = choose|x: int| 0 <= x < a.len() && a[x] == t;
                assert((a + b)[x] == t);
            } else {
                assert(b[k] == t);
                assert((a + b)[a.len() + k] == t);
            }
        }
        assert forall|t: TxBlockModel| #[trigger] tx_blocks_along(blocks, p).contains(t) implies exists|j: int, k: int|
            0 <= j < p.len() && blocks.contains_key(p[j]) && 0 <= k < versa_tx_blocks(blocks[p[j]]@).len()
                && versa_tx_blocks(blocks[p[j]]@)[k] == t by {
            let x = choose|x: int| 0 <= x < (a + b).len() && (a + b)[x] == t;
            if x < a.len() {
                assert(a[x] == t);
                assert(a.contains(t));
                let (j, k) = choose|j: int, k: int|
                    0 <= j < q.len() && blocks.contains_key(q[j]) && 0 <= k < versa_tx_blocks(blocks[q[j]]@).len()
                        && versa_tx_blocks(blocks[q[j]]@)[k] == t;
                assert(q[j] == p[j]);
            } else {
                let k = x - a.len();
                assert(b[k] == t);
                assert(blocks.contains_key(p.last()));
                assert(p[p.len() - 1] == p.last());
            }
        }
    }
}

/// The first transaction block with hash `h` is one of the list with that
/// hash, and there is one exactly when some block of the list has it.
pub proof fn law_first_with_hash(s: Seq<TxBlockModel>, h: Seq<u8>)
    ensures
        first_with_hash(s, h) matches Some(t) ==> s.contains(t) && TransactionBlock::hash_of(t) == h,
        (first_with_hash(s, h) is Some) <==> exists|i: int| 0 <= i < s.len() && TransactionBlock::hash_of(#[trigger] s[i]) == h,
    decreases s.len(),
{
    if s.len() > 0 {
        law_first_with_hash(s.drop_first(), h);
        if TransactionBlock::hash_of(s[0]) != h {
            if first_with_hash(s, h) is Some {
                let t = first_with_hash(s, h).unwrap();
                let x = choose|x: int| 0 <= x < s.drop_first().len() && s.drop_first()[x] == t;
                assert(s[x + 1] == t);
            }
            if exists|i: int| 0 <= i < s.len() && TransactionBlock::hash_of(#[trigger] s[i]) == h {
                let i = choose|i: int| 0 <= i < s.len() && TransactionBlock::hash_of(#[trigger] s[i]) == h;
                assert(i > 0);
                assert(s.drop_first()[i - 1] == s[i]);
            }
        } else {
            assert(s[0] == s[0]);
        }
    }
}

/// Every transaction block of every block on the longest chain is among
/// the transaction blocks the longest chain links, and those are all of
/// that kind.
pub proof fn law_longest_chain_tx_blocks(c: &Blockchain)
    requires
        c.wf(),
    ensures
        forall|j: int, k: int|
            0 <= j < c.longest_chain().len() && 0 <= k < versa_tx_blocks(c.blocks()[c.longest_chain()[j]]@).len()
                ==> tx_blocks_along(c.blocks(), c.longest_chain()).contains(
                #[trigger] versa_tx_blocks(c.blocks()[c.longest_chain()[j]]@)[k],
            ),
        forall|t: TxBlockModel| #[trigger] tx_blocks_along(c.blocks(), c.longest_chain()).contains(t) ==> exists|j: int, k: int|
            0 <= j < c.longest_chain().len() && 0 <= k < versa_tx_blocks(c.blocks()[c.longest_chain()[j]]@).len()
                && versa_tx_blocks(c.blocks()[c.longest_chain()[j]]@)[k] == t,
{
    law_longest_chain_held(c);
    law_tx_blocks_along_collects(c.blocks(), c.longest_chain());
    assert forall|j: int, k: int|
        0 <= j < c.longest_chain().len() && 0 <= k < versa_tx_blocks(c.blocks()[c.longest_chain()[j]]@).len()
            implies tx_blocks_along(c.blocks(), c.longest_chain()).contains(
            #[trigger] versa_tx_blocks(c.blocks()[c.longest_chain()[j]]@)[k],
        ) by {
        assert(c.blocks().contains_key(c.longest_chain()[j]));
    }
}

} // verus!
