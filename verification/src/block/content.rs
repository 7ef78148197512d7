//! Content of a hybrid block and the hybrid block itself.

use vstd::prelude::*;
use crate::hash::{
    H256, Hashable, Duplicate, hash_views, spec_sha256, spec_multi_hash, spec_pow_hash,
    hash_count_fits,
};
use crate::merkle::{MerkleTree, leaf_hashes, merkle_proof, merkle_root, spec_verify};
use crate::transaction::{Transaction, copy_transactions};
use crate::block::{
    BlockHeader, HeaderModel, Info, Timestamp, spec_header_hash, is_default_header, copy_vec,
};
use crate::block::transaction_block::{TransactionBlock, TxBlockModel, tx_block_views, copy_tx_blocks};

verus! {

/// What a block's content holds.
pub struct ContentModel {
    pub prop_tx_set: Seq<TxBlockModel>,
    pub avai_tx_set: Seq<TxBlockModel>,
    pub confirmed_avai_set: Seq<(H256, u32)>,
    pub txs: Seq<Seq<Seq<u8>>>,
}

/// The symbol of a group of transactions: the hash of their hashes.
pub open spec fn spec_symbol(group: Seq<Seq<u8>>) -> Seq<u8> {
    spec_multi_hash(group.map_values(|t: Seq<u8>| spec_sha256(t)))
}

/// The symbols of all groups of transactions.
pub open spec fn spec_symbols(txs: Seq<Seq<Seq<u8>>>) -> Seq<Seq<u8>> {
    txs.map_values(|g: Seq<Seq<u8>>| spec_symbol(g))
}

/// Views of groups of transactions.
pub open spec fn tx_group_views(txs: Seq<Vec<Transaction>>) -> Seq<Seq<Seq<u8>>> {
    txs.map_values(|g: Vec<Transaction>| g@.map_values(|t: Transaction| t@))
}

/// Whether every group of transactions is short enough to be hashed.
pub open spec fn groups_fit(txs: Seq<Seq<Seq<u8>>>) -> bool {
    forall|i: int| 0 <= i < txs.len() ==> hash_count_fits(#[trigger] txs[i].len())
}

/// The content of a hybrid block.
#[derive(Debug)]
pub struct BlockContent {
    prop_tx_set: MerkleTree<TransactionBlock>,
    avai_tx_set: MerkleTree<TransactionBlock>,
    confirmed_avai_set: Vec<(H256, u32)>,
    txs: Vec<Vec<Transaction>>,
    symbol_merkle_tree: MerkleTree<H256>,
}

impl View for BlockContent {
    type V = ContentModel;

    closed spec fn view(&self) -> ContentModel {
        ContentModel {
            prop_tx_set: self.prop_tx_set@,
            avai_tx_set: self.avai_tx_set@,
            confirmed_avai_set: self.confirmed_avai_set@,
            txs: tx_group_views(self.txs@),
        }
    }
}

/// The hash of a group of transactions.
fn symbol_of(group: &Vec<Transaction>) -> (h: H256)
    requires
        hash_count_fits(group@.len()),
    ensures
        h@ == spec_symbol(group@.map_values(|t: Transaction| t@)),
{
    let mut hashes: Vec<H256> = Vec::new();
    let mut i: usize = 0;
    while i < group.len()
        invariant
            i <= group@.len(),
            hashes@.len() == i,
            forall|k: int| 0 <= k < i ==> #[trigger] hashes@[k]@ == spec_sha256(group@[k]@),
        decreases group@.len() - i,
    {
        hashes.push(group[i].hash());
        i = i + 1;
    }
    assert(hash_views(hashes@) =~= group@.map_values(|t: Transaction| t@).map_values(
        |t: Seq<u8>| spec_sha256(t),
    ));
    H256::multi_hash(&hashes)
}

/// The symbols of groups of transactions.
fn symbols_of(txs: &Vec<Vec<Transaction>>) -> (s: Vec<H256>)
    requires
        groups_fit(tx_group_views(txs@)),
    ensures
        hash_views(s@) == spec_symbols(tx_group_views(txs@)),
{
    let mut s: Vec<H256> = Vec::new();
    let mut i: usize = 0;
    while i < txs.len()
        invariant
            i <= txs@.len(),
            groups_fit(tx_group_views(txs@)),
            s@.len() == i,
            forall|k: int| 0 <= k < i ==> #[trigger] s@[k]@ == spec_symbol(tx_group_views(txs@)[k]),
        decreases txs@.len() - i,
    {
        assert(hash_count_fits(tx_group_views(txs@)[i as int].len()));
        s.push(symbol_of(&txs[i]));
        i = i + 1;
    }
    assert(hash_views(s@) =~= spec_symbols(tx_group_views(txs@)));
    s
}

fn copy_groups(txs: &Vec<Vec<Transaction>>) -> (r: Vec<Vec<Transaction>>)
    ensures
        tx_group_views(r@) == tx_group_views(txs@),
{
    let mut r: Vec<Vec<Transaction>> = Vec::new();
    let mut i: usize = 0;
    while i < txs.len()
        invariant
            i <= txs@.len(),
            r@.len() == i,
            forall|k: int| 0 <= k < i ==> #[trigger] tx_group_views(r@)[k] == tx_group_views(txs@)[k],
        decreases txs@.len() - i,
    {
        let g = copy_transactions(&txs[i]);
        let ghost old_r = r@;
        r.push(g);
        assert(r@ == old_r.push(g));
        assert(tx_group_views(r@)[i as int] == g@.map_values(|t: Transaction| t@));
        assert forall|k: int| 0 <= k < i implies #[trigger] tx_group_views(r@)[k] == tx_group_views(txs@)[k] by {
            assert(r@[k] == old_r[k]);
            assert(tx_group_views(old_r)[k] == tx_group_views(txs@)[k]);
        }
        i = i + 1;
    }
    assert(tx_group_views(r@) =~= tx_group_views(txs@));
    r
}

impl BlockContent {
    #[verifier::type_invariant]
    spec fn inv(self) -> bool {
        self.symbol_merkle_tree@ == spec_symbols(tx_group_views(self.txs@))
    }

    /// The symbols under the content's symbol tree are those of its transactions.
    pub fn lemma_symbols(&self)
        ensures
            self.symbol_tree()@ == spec_symbols(self@.txs),
    {
        proof {
            use_type_invariant(self);
        }
    }

    /// Content with the given sets; the symbol tree is built over the hashes of
    /// the groups of transactions.
    pub fn create(
        prop_tx_set: MerkleTree<TransactionBlock>,
        avai_tx_set: MerkleTree<TransactionBlock>,
        confirmed_avai_set: Vec<(H256, u32)>,
        txs: Vec<Vec<Transaction>>,
    ) -> (c: Self)
        requires
            groups_fit(tx_group_views(txs@)),
        ensures
            c@ == (ContentModel {
                prop_tx_set: prop_tx_set@,
                avai_tx_set: avai_tx_set@,
                confirmed_avai_set: confirmed_avai_set@,
                txs: tx_group_views(txs@),
            }),
    {
        let symbols = symbols_of(&txs);
        let symbol_merkle_tree = MerkleTree::<H256>::new(symbols.as_slice());
        assert(symbol_merkle_tree@ =~= spec_symbols(tx_group_views(txs@)));
        BlockContent { prop_tx_set, avai_tx_set, confirmed_avai_set, txs, symbol_merkle_tree }
    }

    /// The tree over the symbols.
    pub closed spec fn symbol_tree(&self) -> MerkleTree<H256> {
        self.symbol_merkle_tree
    }

    pub fn get_prop_merkle_root(&self) -> (r: H256)
        ensures
            r@ == merkle_root(leaf_hashes::<TransactionBlock>(self@.prop_tx_set)),
    {
        self.prop_tx_set.root()
    }

    pub fn get_prop_merkle_proof(&self, index: usize) -> (p: Vec<H256>)
        requires
            index < self@.prop_tx_set.len(),
        ensures
            hash_views(p@) == merkle_proof(leaf_hashes::<TransactionBlock>(self@.prop_tx_set), index as int),
    {
        self.prop_tx_set.inclusion_proof(index)
    }

    pub fn prop_merkle_prove(&self, datum: &H256, merkle_path: &Vec<H256>, index: usize) -> (b: bool)
        ensures
            b == spec_verify(merkle_root(leaf_hashes::<TransactionBlock>(self@.prop_tx_set)), datum@, hash_views(merkle_path@), index as int, self@.prop_tx_set.len() as int),
    {
        self.prop_tx_set.merkle_prove(datum, merkle_path, index)
    }

    pub fn get_avai_merkle_root(&self) -> (r: H256)
        ensures
            r@ == merkle_root(leaf_hashes::<TransactionBlock>(self@.avai_tx_set)),
    {
        self.avai_tx_set.root()
    }

    pub fn get_avai_merkle_proof(&self, index: usize) -> (p: Vec<H256>)
        requires
            index < self@.avai_tx_set.len(),
        ensures
            hash_views(p@) == merkle_proof(leaf_hashes::<TransactionBlock>(self@.avai_tx_set), index as int),
    {
        self.avai_tx_set.inclusion_proof(index)
    }

    pub fn avai_merkle_prove(&self, datum: &H256, merkle_path: &Vec<H256>, index: usize) -> (b: bool)
        ensures
            b == spec_verify(merkle_root(leaf_hashes::<TransactionBlock>(self@.avai_tx_set)), datum@, hash_views(merkle_path@), index as int, self@.avai_tx_set.len() as int),
    {
        self.avai_tx_set.merkle_prove(datum, merkle_path, index)
    }

    pub fn get_symbol_merkle_root(&self) -> (r: H256)
        ensures
            r@ == merkle_root(leaf_hashes::<H256>(spec_symbols(self@.txs))),
    {
        proof {
            use_type_invariant(self);
        }
        self.symbol_merkle_tree.root()
    }

    pub fn get_symbol_merkle_proof(&self, tx_index: usize) -> (p: Vec<H256>)
        requires
            tx_index < self@.txs.len(),
        ensures
            hash_views(p@) == merkle_proof(leaf_hashes::<H256>(spec_symbols(self@.txs)), tx_index as int),
    {
        proof {
            use_type_invariant(self);
        }
        self.symbol_merkle_tree.inclusion_proof(tx_index)
    }

    pub fn symbol_merkle_prove(&self, datum: &H256, merkle_path: &Vec<H256>, index: usize) -> (b: bool)
        ensures
            b == spec_verify(self.symbol_tree().spec_root(), datum@, hash_views(merkle_path@), index as int, self@.txs.len() as int),
    {
        proof {
            use_type_invariant(self);
        }
        self.symbol_merkle_tree.merkle_prove(datum, merkle_path, index)
    }

    /// The transactions of symbol `index`, or an error when there is no such symbol.
    pub fn get_symbol_txs(&self, index: usize) -> (r: Result<Vec<Transaction>, IndexError>)
        ensures
            r is Ok <==> index < self@.txs.len(),
            r matches Ok(v) ==> v@.map_values(|t: Transaction| t@) == self@.txs[index as int],
            r matches Err(e) ==> e == (IndexError::OutOfBoundary { index }),
    {
        if index < self.txs.len() {
            let v = copy_transactions(&self.txs[index]);
            Ok(v)
        } else {
            Err(IndexError::OutOfBoundary { index })
        }
    }
}

/// An index past the end of a list.
#[derive(Clone, Copy, Debug, PartialEq, Eq, Structural)]
pub enum IndexError {
    OutOfBoundary { index: usize },
}

impl Default for BlockContent {
    fn default() -> (c: Self)
        ensures
            c@.prop_tx_set.len() == 0,
            c@.avai_tx_set.len() == 0,
            c@.confirmed_avai_set.len() == 0,
            c@.txs.len() == 0,
    {
        let empty: Vec<TransactionBlock> = Vec::new();
        let empty2: Vec<TransactionBlock> = Vec::new();
        let txs: Vec<Vec<Transaction>> = Vec::new();
        proof {
            assert(groups_fit(tx_group_views(txs@)));
        }
        BlockContent::create(
            MerkleTree::new(empty.as_slice()),
            MerkleTree::new(empty2.as_slice()),
            Vec::new(),
            txs,
        )
    }
}

impl Duplicate for BlockContent {
    fn duplicate(&self) -> (r: Self) {
        proof {
            use_type_invariant(self);
        }
        BlockContent {
            prop_tx_set: self.prop_tx_set.duplicate(),
            avai_tx_set: self.avai_tx_set.duplicate(),
            confirmed_avai_set: copy_vec(&self.confirmed_avai_set),
            txs: copy_groups(&self.txs),
            symbol_merkle_tree: self.symbol_merkle_tree.duplicate(),
        }
    }
}

impl Clone for BlockContent {
    fn clone(&self) -> (r: Self)
        ensures
            r@ == self@,
    {
        self.duplicate()
    }
}

/// All transactions of all groups, one group after another.
pub open spec fn flatten_groups(txs: Seq<Seq<Seq<u8>>>) -> Seq<Seq<u8>>
    decreases txs.len(),
{
    if txs.len() == 0 {
        Seq::empty()
    } else {
        flatten_groups(txs.drop_last()) + txs.last()
    }
}

/// Read access to the sets a block's content holds.
pub trait Content {
    /// The content this value carries.
    spec fn content_of(&self) -> ContentModel;

    fn get_prop_tx_set(&self) -> (r: Vec<TransactionBlock>)
        ensures
            tx_block_views(r@) == self.content_of().prop_tx_set,
    ;

    fn get_prop_tx_set_ref(&self) -> (r: &Vec<TransactionBlock>)
        ensures
            tx_block_views(r@) == self.content_of().prop_tx_set,
    ;

    fn get_avai_tx_set(&self) -> (r: Vec<TransactionBlock>)
        ensures
            tx_block_views(r@) == self.content_of().avai_tx_set,
    ;

    fn get_avai_tx_set_ref(&self) -> (r: &Vec<TransactionBlock>)
        ensures
            tx_block_views(r@) == self.content_of().avai_tx_set,
    ;

    fn get_confirmed_avai_set(&self) -> (r: Vec<(H256, u32)>)
        ensures
            r@ == self.content_of().confirmed_avai_set,
    ;

    fn get_confirmed_avai_set_ref(&self) -> (r: &Vec<(H256, u32)>)
        ensures
            r@ == self.content_of().confirmed_avai_set,
    ;

    /// All transactions, group after group.
    fn get_txs(&self) -> (r: Vec<Transaction>)
        ensures
            r@.map_values(|t: Transaction| t@) == flatten_groups(self.content_of().txs),
    ;

    fn get_prop_merkle_tree(&self) -> (r: MerkleTree<TransactionBlock>)
        ensures
            r@ == self.content_of().prop_tx_set,
    ;

    fn get_avai_merkle_tree(&self) -> (r: MerkleTree<TransactionBlock>)
        ensures
            r@ == self.content_of().avai_tx_set,
    ;
}

impl Content for BlockContent {
    open spec fn content_of(&self) -> ContentModel {
        self@
    }

    fn get_prop_tx_set(&self) -> (r: Vec<TransactionBlock>) {
        copy_tx_blocks(self.prop_tx_set.data())
    }

    fn get_prop_tx_set_ref(&self) -> (r: &Vec<TransactionBlock>) {
        self.prop_tx_set.data()
    }

    fn get_avai_tx_set(&self) -> (r: Vec<TransactionBlock>) {
        copy_tx_blocks(self.avai_tx_set.data())
    }

    fn get_avai_tx_set_ref(&self) -> (r: &Vec<TransactionBlock>) {
        self.avai_tx_set.data()
    }

    fn get_confirmed_avai_set(&self) -> (r: Vec<(H256, u32)>) {
        copy_vec(&self.confirmed_avai_set)
    }

    fn get_confirmed_avai_set_ref(&self) -> (r: &Vec<(H256, u32)>) {
        &self.confirmed_avai_set
    }

    fn get_txs(&self) -> (r: Vec<Transaction>) {
        let mut r: Vec<Transaction> = Vec::new();
        let mut i: usize = 0;
        let ghost g = tx_group_views(self.txs@);
        while i < self.txs.len()
            invariant
                i <= self.txs@.len(),
                g == tx_group_views(self.txs@),
                r@.map_values(|t: Transaction| t@) == flatten_groups(g.subrange(0, i as int)),
            decreases self.txs@.len() - i,
        {
            let group = &self.txs[i];
            let ghost before = r@.map_values(|t: Transaction| t@);
            let mut j: usize = 0;
            while j < group.len()
                invariant
                    j <= group@.len(),
                    r@.map_values(|t: Transaction| t@) == before + group@.subrange(0, j as int).map_values(|t: Transaction| t@),
                decreases group@.len() - j,
            {
                let t = group[j].duplicate();
                let ghost old_r = r@;
                r.push(t);
                assert(r@.map_values(|t: Transaction| t@) =~= old_r.map_values(|t: Transaction| t@).push(t@));
                j = j + 1;
                assert(r@.map_values(|t: Transaction| t@) =~= before + group@.subrange(0, j as int).map_values(|t: Transaction| t@));
            }
            assert(group@.subrange(0, j as int) =~= group@);
            assert(g.subrange(0, i + 1).drop_last() =~= g.subrange(0, i as int));
            i = i + 1;
        }
        assert(g.subrange(0, i as int) =~= g);
        r
    }

    fn get_prop_merkle_tree(&self) -> (r: MerkleTree<TransactionBlock>) {
        self.prop_tx_set.duplicate()
    }

    fn get_avai_merkle_tree(&self) -> (r: MerkleTree<TransactionBlock>) {
        self.avai_tx_set.duplicate()
    }
}

/// What a hybrid block holds.
pub struct BlockModel {
    pub header: HeaderModel,
    pub content: ContentModel,
    pub hash: H256,
}

/// The ordering root of a confirmed availability set: the root of the
/// Merkle tree over its pairs, each pair hashed as the nonce-hash of its
/// hash and shard.
pub open spec fn spec_order_root(set: Seq<(H256, u32)>) -> Seq<u8> {
    merkle_root(leaf_hashes::<(H256, u32)>(set.map_values(|p: (H256, u32)| p@)))
}

/// The header that `Block::construct_at` builds.
pub open spec fn constructed_header(
    shard_id: usize,
    prop_parent: H256,
    inter_parent: H256,
    global_parents: Seq<(H256, usize)>,
    order_parent: H256,
    prop_tx_set: Seq<TxBlockModel>,
    avai_tx_set: Seq<TxBlockModel>,
    confirmed_avai_set: Seq<(H256, u32)>,
    txs: Seq<Seq<Seq<u8>>>,
    h: HeaderModel,
) -> bool {
    &&& h.shard_id == shard_id as u32
    &&& h.prop_parent == prop_parent
    &&& h.inter_parent == inter_parent
    &&& h.global_parents.len() == global_parents.len()
    &&& forall|i: int|
        0 <= i < global_parents.len() ==> #[trigger] h.global_parents[i] == (
            global_parents[i].0,
            global_parents[i].1 as u32,
        )
    &&& h.order_parent == order_parent
    &&& h.prop_root@ == merkle_root(leaf_hashes::<TransactionBlock>(prop_tx_set))
    &&& h.avai_root@ == merkle_root(leaf_hashes::<TransactionBlock>(avai_tx_set))
    &&& h.order_root@ == spec_order_root(confirmed_avai_set)
    &&& h.cmt_root@ == merkle_root(leaf_hashes::<H256>(spec_symbols(txs)))
}

/// A hybrid block: header, content and the hash of the header.
#[derive(Debug)]
pub struct Block {
    header: BlockHeader,
    content: BlockContent,
    hash: H256,
}

impl View for Block {
    type V = BlockModel;

    closed spec fn view(&self) -> BlockModel {
        BlockModel { header: self.header@, content: self.content@, hash: self.hash }
    }
}

impl Hashable for Block {
    open spec fn hash_of(v: BlockModel) -> Seq<u8> {
        v.hash@
    }

    fn hash(&self) -> (h: H256) {
        self.hash
    }
}

impl Default for Block {
    fn default() -> (b: Self)
        ensures
            is_default_header(b@.header),
            b@.content.prop_tx_set.len() == 0,
            b@.content.avai_tx_set.len() == 0,
            b@.content.confirmed_avai_set.len() == 0,
            b@.content.txs.len() == 0,
            b@.hash@ == spec_header_hash(b@.header),
    {
        let header = BlockHeader::default();
        let content = BlockContent::default();
        let hash = header.hash();
        Block { header, content, hash }
    }
}

fn order_root_of(set: &Vec<(H256, u32)>) -> (h: H256)
    ensures
        h@ == spec_order_root(set@),
{
    let tree = MerkleTree::<(H256, u32)>::new(set.as_slice());
    tree.root()
}

impl Block {
    /// Whether the stored hash is the hash of the header.
    pub fn verify_hash(blk: &Block) -> (b: bool)
        ensures
            b == (blk@.hash@ == spec_header_hash(blk@.header)),
    {
        let h = blk.header.hash();
        blk.hash.equals(&h)
    }

    pub fn get_header(&self) -> (h: BlockHeader)
        ensures
            h@ == self@.header,
    {
        self.header.duplicate()
    }

    pub fn get_content(&self) -> (c: BlockContent)
        ensures
            c@ == self@.content,
    {
        self.content.duplicate()
    }

    /// Builds a hybrid block stamped with the current time.
    pub fn construct(
        shard_id: usize,
        prop_parent: H256,
        inter_parent: H256,
        global_parents: Vec<(H256, usize)>,
        order_parent: H256,
        prop_tx_set: Vec<TransactionBlock>,
        avai_tx_set: Vec<TransactionBlock>,
        confirmed_avai_set: Vec<(H256, u32)>,
        txs: Vec<Vec<Transaction>>,
    ) -> (b: Block)
        requires
            hash_count_fits(global_parents@.len()),
            groups_fit(tx_group_views(txs@)),
        ensures
            constructed_header(
                shard_id,
                prop_parent,
                inter_parent,
                global_parents@,
                order_parent,
                tx_block_views(prop_tx_set@),
                tx_block_views(avai_tx_set@),
                confirmed_avai_set@,
                tx_group_views(txs@),
                b@.header,
            ),
            b@.content == (ContentModel {
                prop_tx_set: tx_block_views(prop_tx_set@),
                avai_tx_set: tx_block_views(avai_tx_set@),
                confirmed_avai_set: confirmed_avai_set@,
                txs: tx_group_views(txs@),
            }),
            b@.hash@ == spec_header_hash(b@.header),
    {
        let now = Timestamp::now();
        Self::construct_at(
            shard_id,
            prop_parent,
            inter_parent,
            global_parents,
            order_parent,
            prop_tx_set,
            avai_tx_set,
            confirmed_avai_set,
            txs,
            now,
        )
    }

    /// Builds a hybrid block: the header's roots are those of the content's
    /// sets and the block's hash is the header's.
    pub fn construct_at(
        shard_id: usize,
        prop_parent: H256,
        inter_parent: H256,
        global_parents: Vec<(H256, usize)>,
        order_parent: H256,
        prop_tx_set: Vec<TransactionBlock>,
        avai_tx_set: Vec<TransactionBlock>,
        confirmed_avai_set: Vec<(H256, u32)>,
        txs: Vec<Vec<Transaction>>,
        timestamp: Timestamp,
    ) -> (b: Block)
        requires
            hash_count_fits(global_parents@.len()),
            groups_fit(tx_group_views(txs@)),
        ensures
            constructed_header(
                shard_id,
                prop_parent,
                inter_parent,
                global_parents@,
                order_parent,
                tx_block_views(prop_tx_set@),
                tx_block_views(avai_tx_set@),
                confirmed_avai_set@,
                tx_group_views(txs@),
                b@.header,
            ),
            b@.header.timestamp == timestamp,
            b@.content == (ContentModel {
                prop_tx_set: tx_block_views(prop_tx_set@),
                avai_tx_set: tx_block_views(avai_tx_set@),
                confirmed_avai_set: confirmed_avai_set@,
                txs: tx_group_views(txs@),
            }),
            b@.hash@ == spec_header_hash(b@.header),
    {
        let prop_tree = MerkleTree::<TransactionBlock>::new(prop_tx_set.as_slice());
        let avai_tree = MerkleTree::<TransactionBlock>::new(avai_tx_set.as_slice());
        let order_root = order_root_of(&confirmed_avai_set);
        let mut gp: Vec<(H256, u32)> = Vec::new();
        let mut i: usize = 0;
        while i < global_parents.len()
            invariant
                i <= global_parents@.len(),
                gp@.len() == i,
                forall|k: int|
                    0 <= k < i ==> #[trigger] gp@[k] == (
                        global_parents@[k].0,
                        global_parents@[k].1 as u32,
                    ),
            decreases global_parents@.len() - i,
        {
            let (h, s) = global_parents[i];
            gp.push((h, s as u32));
            i = i + 1;
        }
        let content = BlockContent::create(prop_tree, avai_tree, confirmed_avai_set, txs);
        let prop_root = content.get_prop_merkle_root();
        let avai_root = content.get_avai_merkle_root();
        content.lemma_symbols();
        let cmt_root = content.get_symbol_merkle_root();
        let header = BlockHeader::from_fields(
            shard_id as u32,
            prop_parent,
            inter_parent,
            gp,
            order_parent,
            prop_root,
            avai_root,
            order_root,
            cmt_root,
            timestamp,
        );
        let hash = header.hash();
        let b = Block { header, content, hash };
        assert(tx_block_views(prop_tx_set@) =~= prop_tx_set@.map_values(|d: TransactionBlock| d@));
        assert(tx_block_views(avai_tx_set@) =~= avai_tx_set@.map_values(|d: TransactionBlock| d@));
        b
    }
}

impl Content for Block {
    open spec fn content_of(&self) -> ContentModel {
        self@.content
    }

    fn get_prop_tx_set(&self) -> (r: Vec<TransactionBlock>) {
        self.content.get_prop_tx_set()
    }

    fn get_prop_tx_set_ref(&self) -> (r: &Vec<TransactionBlock>) {
        self.content.get_prop_tx_set_ref()
    }

    fn get_avai_tx_set(&self) -> (r: Vec<TransactionBlock>) {
        self.content.get_avai_tx_set()
    }

    fn get_avai_tx_set_ref(&self) -> (r: &Vec<TransactionBlock>) {
        self.content.get_avai_tx_set_ref()
    }

    fn get_confirmed_avai_set(&self) -> (r: Vec<(H256, u32)>) {
        self.content.get_confirmed_avai_set()
    }

    fn get_confirmed_avai_set_ref(&self) -> (r: &Vec<(H256, u32)>) {
        self.content.get_confirmed_avai_set_ref()
    }

    fn get_txs(&self) -> (r: Vec<Transaction>) {
        self.content.get_txs()
    }

    fn get_prop_merkle_tree(&self) -> (r: MerkleTree<TransactionBlock>) {
        self.content.get_prop_merkle_tree()
    }

    fn get_avai_merkle_tree(&self) -> (r: MerkleTree<TransactionBlock>) {
        self.content.get_avai_merkle_tree()
    }
}

impl Info for Block {
    open spec fn info_header(&self) -> HeaderModel {
        self@.header
    }

    fn get_shard_id(&self) -> (r: usize) {
        self.header.get_shard_id()
    }

    fn get_prop_parent(&self) -> (r: H256) {
        self.header.get_prop_parent()
    }

    fn get_inter_parent(&self) -> (r: H256) {
        self.header.get_inter_parent()
    }

    fn get_global_parents(&self) -> (r: Vec<(H256, usize)>) {
        self.header.get_global_parents()
    }

    fn get_order_parent(&self) -> (r: H256) {
        self.header.get_order_parent()
    }

    fn get_prop_root(&self) -> (r: H256) {
        self.header.get_prop_root()
    }

    fn get_avai_root(&self) -> (r: H256) {
        self.header.get_avai_root()
    }

    fn get_order_root(&self) -> (r: H256) {
        self.header.get_order_root()
    }

    fn get_cmt_root(&self) -> (r: H256) {
        self.header.get_cmt_root()
    }

    fn get_timestamp(&self) -> (r: Timestamp) {
        self.header.get_timestamp()
    }

    fn get_info_hash(&self) -> (r: Vec<H256>) {
        self.header.get_info_hash()
    }
}

} // verus!
