//! What a node decides on each message it receives: which blocks, symbols
//! and transaction blocks it takes, asks for, buffers or answers with.

use vstd::prelude::*;
use crate::hash::{H256, Hashable, contains_hash};
use crate::block::Info;
use crate::configuration::Configuration;
use crate::multichain::{Multichain, unreferred};
use crate::mempool::Mempool;
use crate::symbolpool::{SymbolPool, SymbolIndex, Symbol, SymbolModel, index_key, symbol_valid, indexes_of};
use crate::message::Message;
use crate::blockchain::{tx_blocks_along, first_with_hash};
use crate::block::transaction_block::{TransactionBlock, TxBlockModel, tx_block_views};
use crate::block::availability_block::AvaiModel;
use crate::block::versa_block::{VersaBlock, VersaHash, VersaModel, versa_hash_valid, versa_hash_of, versa_tx_blocks};

verus! {

/// The state a node's network workers share: the chains, the pools, and the
/// blocks waiting for a parent or for the symbols of their commitments.
pub struct WorkerState {
    multichain: Multichain,
    mempool: Mempool,
    symbolpool: SymbolPool,
    config: Configuration,
    /// Blocks waiting for a parent, by that parent's hash.
    blk_buff: Vec<(VersaHash, Vec<VersaBlock>)>,
    /// Availability blocks waiting for the symbols of a commitment, by it.
    unavailable_cmt2avai_blocks: Vec<(H256, Vec<VersaBlock>)>,
    /// The commitments an availability block is waiting for, by its hash.
    unavailable_avai_block2cmts: Vec<(H256, Vec<H256>)>,
}

/// The transaction blocks the longest proposer chain links.
pub open spec fn chain_tx_blocks(m: Multichain) -> Seq<TxBlockModel> {
    tx_blocks_along(m.prop_chain().blocks(), m.prop_chain().longest_chain())
}

/// The transaction block with hash `h` in the pool, or else in the longest
/// proposer chain.
pub open spec fn tx_lookup(pool: Map<H256, TxBlockModel>, m: Multichain, h: H256) -> Option<TxBlockModel> {
    if pool.contains_key(h) {
        Some(pool[h])
    } else {
        first_with_hash(chain_tx_blocks(m), h@)
    }
}

/// The availability block held in a block of an availability chain.
pub open spec fn avai_model(v: VersaModel) -> AvaiModel {
    match v {
        VersaModel::ExAvai(b) => b,
        VersaModel::InAvai(b) => b,
        _ => arbitrary(),
    }
}

/// The first of the first `n` availability chains that holds `h`.
pub open spec fn first_shard_with(m: Multichain, n: int, h: H256) -> Option<int>
    decreases n,
{
    if n <= 0 {
        None
    } else {
        match first_shard_with(m, n - 1, h) {
            Some(i) => Some(i),
            None => if m.avai_chains()[n - 1].blocks().contains_key(h) {
                Some(n - 1)
            } else {
                None
            },
        }
    }
}

/// The block a tagged hash names, looked up in its chain (for an
/// availability hash, in the first of the node's shards that holds it, and
/// given the kind the tag names).
pub open spec fn block_lookup(m: Multichain, vh: VersaHash) -> Option<VersaModel> {
    match vh {
        VersaHash::PropHash(h) => if m.prop_chain().blocks().contains_key(h) {
            Some(m.prop_chain().blocks()[h]@)
        } else {
            None
        },
        VersaHash::OrderHash(h) => if m.order_chain().blocks().contains_key(h) {
            Some(m.order_chain().blocks()[h]@)
        } else {
            None
        },
        VersaHash::ExHash(h) => match first_shard_with(m, m.config_of().shard_num as int, h) {
            Some(i) => Some(VersaModel::ExAvai(avai_model(m.avai_chains()[i].blocks()[h]@))),
            None => None,
        },
        VersaHash::InHash(h) => match first_shard_with(m, m.config_of().shard_num as int, h) {
            Some(i) => Some(VersaModel::InAvai(avai_model(m.avai_chains()[i].blocks()[h]@))),
            None => None,
        },
    }
}

/// Whether the symbol at `i` is one the pool asked for and does not hold.
pub open spec fn symbol_wanted(p: SymbolPool, i: SymbolIndex) -> bool {
    &&& p.requested().contains_key(i.root)
    &&& p.requested()[i.root].contains(i.index as usize)
    &&& !p.held(i.root, i.index)
}

/// The symbol the pool holds at `i`.
pub open spec fn symbol_lookup(p: SymbolPool, i: SymbolIndex) -> Option<SymbolModel> {
    if p.held(i.root, i.index) {
        Some(p.symbols()[choose|k: H256| p.symbols().contains_key(k) && k@ == index_key(i.root, i.index)])
    } else {
        None
    }
}

/// The hashes, as bytes, of the pool's transaction blocks.
pub open spec fn pooled(pool: Map<H256, TxBlockModel>) -> Set<Seq<u8>> {
    pool.dom().map(|k: H256| k@)
}

/// The hashes of the transaction blocks of `blks` that are new: neither
/// known (in `known` or the chain) nor met earlier in the list.
pub open spec fn intake(known: Set<Seq<u8>>, chain: Seq<TxBlockModel>, blks: Seq<TxBlockModel>) -> Seq<Seq<u8>>
    decreases blks.len(),
{
    if blks.len() == 0 {
        Seq::empty()
    } else {
        let h = TransactionBlock::hash_of(blks[0]);
        if known.contains(h) || first_with_hash(chain, h) is Some {
            intake(known, chain, blks.drop_first())
        } else {
            seq![h] + intake(known.insert(h), chain, blks.drop_first())
        }
    }
}

/// Pushing an element adds it to the set of elements.
proof fn lemma_push_to_set(s: Seq<Seq<u8>>, x: Seq<u8>)
    ensures
        s.push(x).to_set() == s.to_set().insert(x),
{
    assert forall|y: Seq<u8>| #[trigger] s.push(x).to_set().contains(y) <==> s.to_set().insert(x).contains(y) by {
        if s.push(x).contains(y) && y != x {
            let j = choose|j: int| 0 <= j < s.push(x).len() && s.push(x)[j] == y;
            assert(s[j] == y);
        }
        if s.contains(y) {
            let j = choose|j: int| 0 <= j < s.len() && s[j] == y;
            assert(s.push(x)[j] == y);
        }
        if y == x {
            assert(s.push(x)[s.len() as int] == y);
        }
    }
    assert(s.push(x).to_set() =~= s.to_set().insert(x));
}

/// Adding a key adds its bytes to the pooled hashes.
proof fn lemma_pooled_insert(before: Map<H256, TxBlockModel>, k: H256, v: TxBlockModel)
    ensures
        pooled(before.insert(k, v)) == pooled(before).insert(k@),
{
    let after = before.insert(k, v);
    assert forall|x: Seq<u8>| #[trigger] pooled(after).contains(x) <==> pooled(before).insert(k@).contains(x) by {
        if pooled(after).contains(x) {
            let y = choose|y: H256| after.dom().contains(y) && y@ == x;
            if y != k {
                assert(before.dom().contains(y));
            }
        }
        if pooled(before).contains(x) {
            let y = choose|y: H256| before.dom().contains(y) && y@ == x;
            assert(after.dom().contains(y));
        }
        if x == k@ {
            assert(after.dom().contains(k));
        }
    }
    assert(pooled(after) =~= pooled(before).insert(k@));
}

/// A shard found among the first `n` is one of them and holds `h`.
proof fn lemma_first_shard_valid(m: Multichain, n: int, h: H256)
    ensures
        first_shard_with(m, n, h) matches Some(i) ==> 0 <= i < n && m.avai_chains()[i].blocks().contains_key(h),
    decreases n,
{
    if n > 0 {
        lemma_first_shard_valid(m, n - 1, h);
    }
}

/// The hashes seen so far and the ones still to come make the whole intake.
proof fn lemma_intake_step(
    total: Seq<Seq<u8>>,
    done: Seq<Seq<u8>>,
    known: Set<Seq<u8>>,
    chain: Seq<TxBlockModel>,
    rest: Seq<TxBlockModel>,
)
    requires
        rest.len() > 0,
        total == done + intake(known, chain, rest),
    ensures
        ({
            let h = TransactionBlock::hash_of(rest[0]);
            if known.contains(h) || first_with_hash(chain, h) is Some {
                total == done + intake(known, chain, rest.drop_first())
            } else {
                total == done.push(h) + intake(known.insert(h), chain, rest.drop_first())
            }
        }),
{
    let h = TransactionBlock::hash_of(rest[0]);
    if !(known.contains(h) || first_with_hash(chain, h) is Some) {
        assert(done + (seq![h] + intake(known.insert(h), chain, rest.drop_first())) =~= done.push(h) + intake(
            known.insert(h),
            chain,
            rest.drop_first(),
        ));
    }
}

/// A shard found among the first `n` stays the first among more.
proof fn lemma_first_shard_extend(m: Multichain, n: int, n2: int, h: H256)
    requires
        0 <= n <= n2,
        first_shard_with(m, n, h) is Some,
    ensures
        first_shard_with(m, n2, h) == first_shard_with(m, n, h),
    decreases n2 - n,
{
    if n2 > n {
        lemma_first_shard_extend(m, n, n2 - 1, h);
    }
}

/// The tagged hash of a block: its stored hash with the tag of its kind.
pub open spec fn tag_of(v: VersaModel) -> VersaHash {
    match v {
        VersaModel::Prop(b) => VersaHash::PropHash(b.hash),
        VersaModel::ExAvai(b) => VersaHash::ExHash(b.hash),
        VersaModel::InAvai(b) => VersaHash::InHash(b.hash),
        VersaModel::Order(b) => VersaHash::OrderHash(b.hash),
    }
}

/// Whether the chains hold the block a tagged hash names (an availability
/// hash in any availability chain).
pub open spec fn held_in(m: Multichain, vh: VersaHash) -> bool {
    match vh {
        VersaHash::PropHash(h) => m.prop_chain().blocks().contains_key(h),
        VersaHash::OrderHash(h) => m.order_chain().blocks().contains_key(h),
        _ => exists|i: int| 0 <= i < m.avai_chains().len() && #[trigger] m.avai_chains()[i].blocks().contains_key(
            vh.inner(),
        ),
    }
}

/// Every block a chain held is still held there, the same, and so is what
/// each ordering block confirms.
pub open spec fn chains_grow(old: Multichain, new: Multichain) -> bool {
    &&& new.config_of() == old.config_of()
    &&& new.avai_chains().len() == old.avai_chains().len()
    &&& forall|x: H256| #[trigger] old.prop_chain().blocks().contains_key(x) ==> new.prop_chain().blocks().contains_key(x)
        && new.prop_chain().blocks()[x] == old.prop_chain().blocks()[x]
    &&& forall|x: H256| #[trigger] old.order_chain().blocks().contains_key(x) ==> new.order_chain().blocks().contains_key(x)
        && new.order_chain().blocks()[x] == old.order_chain().blocks()[x]
    &&& forall|i: int, x: H256| 0 <= i < old.avai_chains().len() && #[trigger] old.avai_chains()[i].blocks().contains_key(x)
        ==> new.avai_chains()[i].blocks().contains_key(x) && new.avai_chains()[i].blocks()[x] == old.avai_chains()[i].blocks()[x]
    &&& forall|x: H256| #[trigger] old.confirmed().contains_key(x) ==> new.confirmed().contains_key(x)
        && new.confirmed()[x] == old.confirmed()[x]
}

/// The number of blocks a buffer holds.
pub open spec fn buff_size(b: Seq<(VersaHash, Vec<VersaBlock>)>) -> nat
    decreases b.len(),
{
    if b.len() == 0 {
        0
    } else {
        buff_size(b.drop_last()) + b.last().1@.len()
    }
}

proof fn lemma_buff_size_remove(b: Seq<(VersaHash, Vec<VersaBlock>)>, j: int)
    requires
        0 <= j < b.len(),
    ensures
        buff_size(b.remove(j)) + b[j].1@.len() == buff_size(b),
    decreases b.len(),
{
    if j < b.len() - 1 {
        lemma_buff_size_remove(b.drop_last(), j);
        assert(b.remove(j).drop_last() =~= b.drop_last().remove(j));
        assert(b.remove(j).last() == b.last());
    } else {
        assert(b.remove(j) =~= b.drop_last());
    }
}

/// Growing is transitive, and keeps what a tagged hash names held.
proof fn lemma_grow_trans(a: Multichain, b: Multichain, c: Multichain)
    requires
        chains_grow(a, b),
        chains_grow(b, c),
    ensures
        chains_grow(a, c),
        forall|vh: VersaHash| #[trigger] held_in(b, vh) ==> held_in(c, vh),
{
    assert forall|vh: VersaHash| #[trigger] held_in(b, vh) implies held_in(c, vh) by {
        match vh {
            VersaHash::PropHash(h) => {},
            VersaHash::OrderHash(h) => {},
            _ => {
                let i = choose|i: int| 0 <= i < b.avai_chains().len() && #[trigger] b.avai_chains()[i].blocks().contains_key(vh.inner());
                assert(c.avai_chains()[i].blocks().contains_key(vh.inner()));
            },
        }
    }
}

/// An insertion into the chains keeps every block they held.
proof fn lemma_insert_grows(
    m1: Multichain,
    m2: Multichain,
    b: VersaBlock,
    parent: VersaHash,
    shard_id: usize,
    r: Result<bool, crate::blockchain::ChainError>,
)
    requires
        m1.wf(),
        crate::multichain::insert_allowed(m1, b, parent, shard_id),
        crate::multichain::multichain_insert_post(m1, m2, b, parent, shard_id, r),
    ensures
        chains_grow(m1, m2),
{
    crate::multichain::law_chains_wf(&m1);
    match parent {
        VersaHash::PropHash(p) => {},
        VersaHash::OrderHash(p) => {
            assert forall|x: H256| #[trigger] m1.confirmed().contains_key(x) implies m2.confirmed().contains_key(x)
                && m2.confirmed()[x] == m1.confirmed()[x] by {
                assert(m1.order_chain().blocks().contains_key(x));
            }
        },
        _ => {
            let i: int = if parent is ExHash { crate::multichain::avai_shard(b@) } else { shard_id as int };
            assert forall|k: int, x: H256| 0 <= k < m1.avai_chains().len() && #[trigger] m1.avai_chains()[k].blocks().contains_key(x)
                implies m2.avai_chains()[k].blocks().contains_key(x) && m2.avai_chains()[k].blocks()[x] == m1.avai_chains()[k].blocks()[x] by {
                if k == i {
                } else {
                    assert(m2.avai_chains()[k] == m1.avai_chains()[k]);
                }
            }
        },
    }
}

/// A successful insertion holds the block under its tagged hash.
proof fn lemma_insert_holds(
    m1: Multichain,
    m2: Multichain,
    b: VersaBlock,
    parent: VersaHash,
    shard_id: usize,
    r: Result<bool, crate::blockchain::ChainError>,
)
    requires
        m1.wf(),
        crate::multichain::insert_allowed(m1, b, parent, shard_id),
        crate::multichain::multichain_insert_post(m1, m2, b, parent, shard_id, r),
        r is Ok,
    ensures
        held_in(m2, tag_of(b@)),
{
    match parent {
        VersaHash::PropHash(p) => {},
        VersaHash::OrderHash(p) => {},
        _ => {
            let i: int = if parent is ExHash { crate::multichain::avai_shard(b@) } else { shard_id as int };
            assert(m2.avai_chains()[i].blocks().contains_key(tag_of(b@).inner()));
        },
    }
}

/// Whether two tagged hashes name the same place: the same hash in the
/// proposer chain, in the ordering chain, or in the availability chains.
pub open spec fn same_place(a: VersaHash, b: VersaHash) -> bool {
    &&& a.inner() == b.inner()
    &&& (a is PropHash <==> b is PropHash)
    &&& (a is OrderHash <==> b is OrderHash)
}

/// Every place the second chains hold and the first did not is named by a
/// tagged hash of the list.
pub open spec fn announced(a: Multichain, b: Multichain, v: Seq<VersaHash>) -> bool {
    forall|vh: VersaHash| #[trigger] held_in(b, vh) && !held_in(a, vh) ==> exists|k: int| 0 <= k < v.len() && same_place(
        v[k],
        vh,
    )
}

/// Some parent of the block is held, in the chain it is inserted into.
pub open spec fn some_parent_held(m: Multichain, v: VersaModel) -> bool {
    exists|k: int| 0 <= k < parent_slots(v).len() && parent_held(m, #[trigger] parent_slots(v)[k].0, parent_slots(v)[k].1)
}

/// A held parent stays held as the chains grow.
proof fn lemma_parent_held_grows(a: Multichain, b: Multichain, parent: VersaHash, shard_id: usize)
    requires
        chains_grow(a, b),
        parent_held(a, parent, shard_id),
    ensures
        parent_held(b, parent, shard_id),
{
    match parent {
        VersaHash::PropHash(h) => {},
        VersaHash::OrderHash(h) => {},
        VersaHash::ExHash(h) => {
            assert(a.avai_chains()[shard_id as int].blocks().contains_key(h));
        },
        VersaHash::InHash(h) => {
            assert(a.avai_chains()[shard_id as int].blocks().contains_key(h));
        },
    }
}

/// A block under one of its own parents that the chains hold is one they
/// accept.
proof fn lemma_slot_allowed(m: Multichain, b: VersaBlock, k: int)
    requires
        m.wf(),
        0 <= k < parent_slots(b@).len(),
        parent_held(m, parent_slots(b@)[k].0, parent_slots(b@)[k].1),
    ensures
        crate::multichain::insert_allowed(m, b, parent_slots(b@)[k].0, parent_slots(b@)[k].1),
{
    crate::multichain::law_chains_wf(&m);
}

/// Inserting a block under one of its own parents that the chains hold
/// leaves it held; it fails only where it was held already.
proof fn lemma_slot_insert(
    m1: Multichain,
    m2: Multichain,
    b: VersaBlock,
    k: int,
    r: Result<bool, crate::blockchain::ChainError>,
)
    requires
        m1.wf(),
        0 <= k < parent_slots(b@).len(),
        parent_held(m1, parent_slots(b@)[k].0, parent_slots(b@)[k].1),
        crate::multichain::multichain_insert_post(m1, m2, b, parent_slots(b@)[k].0, parent_slots(b@)[k].1, r),
    ensures
        held_in(m2, tag_of(b@)),
        r is Ok || held_in(m1, tag_of(b@)),
{
    let parent = parent_slots(b@)[k].0;
    let shard_id = parent_slots(b@)[k].1;
    let h = crate::block::versa_block::versa_hash_of(b@);
    assert(crate::block::versa_block::versa_parents(b@).contains(parent.inner())) by {
        match b@ {
            VersaModel::InAvai(a) => {
                let g = a.header.global_parents;
                assert(crate::block::versa_block::versa_parents(b@)[k] == g[k].0);
            },
            _ => {
                assert(crate::block::versa_block::versa_parents(b@)[0] == parent.inner());
            },
        }
    }
    match b@ {
        VersaModel::Prop(a) => {},
        VersaModel::Order(a) => {},
        VersaModel::ExAvai(a) => {
            let i = a.header.shard_id as int;
            assert(0 <= i < m1.avai_chains().len());
            assert(tag_of(b@).inner() == h);
            if m1.avai_chains()[i].blocks().contains_key(h) {
                assert(m1.avai_chains()[i].blocks().contains_key(tag_of(b@).inner()));
                assert(held_in(m1, tag_of(b@)));
            }
            assert(m2.avai_chains()[i].blocks().contains_key(h));
        },
        VersaModel::InAvai(a) => {
            let i = shard_id as int;
            assert(0 <= i < m1.avai_chains().len());
            assert(tag_of(b@).inner() == h);
            if m1.avai_chains()[i].blocks().contains_key(h) {
                assert(m1.avai_chains()[i].blocks().contains_key(tag_of(b@).inner()));
                assert(held_in(m1, tag_of(b@)));
            }
            assert(m2.avai_chains()[i].blocks().contains_key(h));
        },
    }
}

/// What an insertion newly holds is the inserted block's place.
proof fn lemma_insert_new_held(
    m1: Multichain,
    m2: Multichain,
    b: VersaBlock,
    parent: VersaHash,
    shard_id: usize,
    r: Result<bool, crate::blockchain::ChainError>,
)
    requires
        m1.wf(),
        crate::multichain::insert_allowed(m1, b, parent, shard_id),
        crate::multichain::multichain_insert_post(m1, m2, b, parent, shard_id, r),
    ensures
        forall|vh: VersaHash| #[trigger] held_in(m2, vh) && !held_in(m1, vh) ==> r is Ok && same_place(tag_of(b@), vh),
{
    crate::multichain::law_chains_wf(&m1);
    assert forall|vh: VersaHash| #[trigger] held_in(m2, vh) && !held_in(m1, vh) implies r is Ok && same_place(
        tag_of(b@),
        vh,
    ) by {
        match parent {
            VersaHash::PropHash(p) => {
                match vh {
                    VersaHash::PropHash(x) => {},
                    VersaHash::OrderHash(x) => {},
                    _ => {
                        let i = choose|i: int| 0 <= i < m2.avai_chains().len() && #[trigger] m2.avai_chains()[i].blocks().contains_key(vh.inner());
                        assert(m1.avai_chains()[i].blocks().contains_key(vh.inner()));
                    },
                }
            },
            VersaHash::OrderHash(p) => {
                match vh {
                    VersaHash::PropHash(x) => {},
                    VersaHash::OrderHash(x) => {},
                    _ => {
                        let i = choose|i: int| 0 <= i < m2.avai_chains().len() && #[trigger] m2.avai_chains()[i].blocks().contains_key(vh.inner());
                        assert(m1.avai_chains()[i].blocks().contains_key(vh.inner()));
                    },
                }
            },
            _ => {
                let j: int = if parent is ExHash { crate::multichain::avai_shard(b@) } else { shard_id as int };
                match vh {
                    VersaHash::PropHash(x) => {},
                    VersaHash::OrderHash(x) => {},
                    _ => {
                        let i = choose|i: int| 0 <= i < m2.avai_chains().len() && #[trigger] m2.avai_chains()[i].blocks().contains_key(vh.inner());
                        if i != j {
                            assert(m2.avai_chains()[i] == m1.avai_chains()[i]);
                            assert(m1.avai_chains()[i].blocks().contains_key(vh.inner()));
                        } else {
                            if r is Err {
                                assert(m1.avai_chains()[i].blocks().contains_key(vh.inner()));
                            }
                        }
                    },
                }
            },
        }
    }
}

/// Received symbols stay received while the pool only asks for more.
proof fn lemma_complete_keeps(p0: SymbolPool, p1: SymbolPool, txs: Seq<TxBlockModel>)
    requires
        requested_grow(p0, p1),
        p1.symbols() == p0.symbols(),
        cmts_complete(p0, txs),
    ensures
        cmts_complete(p1, txs),
{
    assert forall|k: int| 0 <= k < txs.len() implies p1.requested().contains_key(#[trigger] txs[k].header.cmt_root)
        && p1.unreceived(txs[k].header.cmt_root).len() == 0 by {
        let root = txs[k].header.cmt_root;
        assert(p0.requested().contains_key(root));
        assert((|i: usize| !p1.held(root, i as u32)) =~= (|i: usize| !p0.held(root, i as u32)));
        assert(p1.unreceived(root) == p0.unreceived(root));
    }
}

/// The symbols a pool misses of a commitment it asked for stay the same
/// while it only asks for more.
proof fn lemma_unreceived_keeps(p0: SymbolPool, p1: SymbolPool, root: H256)
    requires
        requested_grow(p0, p1),
        p1.symbols() == p0.symbols(),
        p0.requested().contains_key(root),
    ensures
        p1.unreceived(root) == p0.unreceived(root),
{
    assert((|i: usize| !p1.held(root, i as u32)) =~= (|i: usize| !p0.held(root, i as u32)));
}

/// A symbol the pool misses of a commitment is one it asked for.
proof fn lemma_unreceived_asked(p: SymbolPool, root: H256, x: SymbolIndex)
    requires
        p.requested().contains_key(root),
        p.unreceived(root).contains(x),
    ensures
        indexes_of(root, p.requested()[root]).contains(x),
{
    let s = p.requested()[root];
    let f = s.filter(|i: usize| !p.held(root, i as u32));
    let k = choose|k: int| 0 <= k < f.len() && indexes_of(root, f)[k] == x;
    assert(f.contains(f[k]));
    s.lemma_filter_contains_rev(|i: usize| !p.held(root, i as u32), f[k]);
    let m = choose|m: int| 0 <= m < s.len() && s[m] == f[k];
    assert(indexes_of(root, s)[m] == x);
}

/// Some parent held stays held as the chains grow.
proof fn lemma_some_parent_grows(a: Multichain, b: Multichain, v: VersaModel)
    requires
        chains_grow(a, b),
        some_parent_held(a, v),
    ensures
        some_parent_held(b, v),
{
    let k = choose|k: int| 0 <= k < parent_slots(v).len() && parent_held(a, #[trigger] parent_slots(v)[k].0, parent_slots(v)[k].1);
    lemma_parent_held_grows(a, b, parent_slots(v)[k].0, parent_slots(v)[k].1);
}

/// What a list of messages announces grows by what the last one announces.
proof fn lemma_msgs_push(l: Seq<Message>, m: Message)
    ensures
        announced_in(l.push(m)) == announced_in(l) + announce_list(Some(m)),
        symbols_in(l.push(m)) == symbols_in(l) + symbol_list(Some(m)),
        requests_in(l.push(m)) == requests_in(l) + request_list(Some(m)),
        missing_in(l.push(m)) == missing_in(l) + missing_list(Some(m)),
{
    assert(l.push(m).drop_last() =~= l);
}

/// Taking an element out of a list without repeats leaves one without
/// repeats, and without the element taken out.
proof fn lemma_remove_no_dup(s: Seq<H256>, j: int)
    requires
        s.no_duplicates(),
        0 <= j < s.len(),
    ensures
        s.remove(j).no_duplicates(),
        !s.remove(j).contains(s[j]),
        forall|x: H256| #[trigger] s.remove(j).contains(x) ==> s.contains(x),
        forall|x: H256| #[trigger] s.contains(x) && x != s[j] ==> s.remove(j).contains(x),
{
    let t = s.remove(j);
    assert forall|x: H256| #[trigger] s.contains(x) && x != s[j] implies t.contains(x) by {
        let a = choose|a: int| 0 <= a < s.len() && s[a] == x;
        let a2 = if a < j { a } else { a - 1 };
        assert(t[a2] == s[a]);
    }
    assert forall|a: int, b: int| 0 <= a < t.len() && 0 <= b < t.len() && a != b implies t[a] != t[b] by {
        let a2 = if a < j { a } else { a + 1 };
        let b2 = if b < j { b } else { b + 1 };
        assert(t[a] == s[a2] && t[b] == s[b2]);
    }
    if t.contains(s[j]) {
        let a = choose|a: int| 0 <= a < t.len() && t[a] == s[j];
        let a2 = if a < j { a } else { a + 1 };
        assert(t[a] == s[a2]);
    }
    assert forall|x: H256| #[trigger] t.contains(x) implies s.contains(x) by {
        let a = choose|a: int| 0 <= a < t.len() && t[a] == x;
        let a2 = if a < j { a } else { a + 1 };
        assert(t[a] == s[a2]);
    }
}

/// The hashes of the blocks a buffer holds.
pub open spec fn buff_hashes(b: Seq<(VersaHash, Vec<VersaBlock>)>) -> Set<H256> {
    Set::new(
        |x: H256|
            exists|i: int, k: int|
                0 <= i < b.len() && 0 <= k < b[i].1@.len() && #[trigger] versa_hash_of(b[i].1@[k]@) == x,
    )
}

/// Appending keeps a prefix.
proof fn lemma_prefix_append(a: Seq<SymbolIndex>, b: Seq<SymbolIndex>, n: int)
    requires
        0 <= n <= a.len(),
    ensures
        (a + b).subrange(0, n) == a.subrange(0, n),
{
    assert((a + b).subrange(0, n) =~= a.subrange(0, n));
}

/// Whether a block's content meets its kind's condition for insertion: a
/// proposer block always; an ordering block when its parent's confirmed set
/// is kept and shares nothing with its own; an availability block when the
/// symbols of each of its commitments are all received.
pub open spec fn passes(w: WorkerState, v: VersaModel) -> bool {
    match v {
        VersaModel::Prop(_) => true,
        VersaModel::Order(o) => {
            &&& w.multichain().confirmed().contains_key(o.header.order_parent)
            &&& !shares_item(w.multichain().confirmed()[o.header.order_parent], o.confirmed_avai_set)
        },
        VersaModel::ExAvai(a) => cmts_complete(w.symbolpool(), a.avai_tx_set),
        VersaModel::InAvai(a) => cmts_complete(w.symbolpool(), a.avai_tx_set),
    }
}

/// No other block of the list whose stored hash is right has the stored
/// hash of the `j`-th.
pub open spec fn unique_hash(blocks: Seq<VersaBlock>, j: int) -> bool {
    forall|i: int| 0 <= i < blocks.len() && i != j && versa_hash_valid(#[trigger] blocks[i]@) ==> versa_hash_of(blocks[i]@)
        != versa_hash_of(blocks[j]@)
}

/// No block before the `j`-th of the list whose stored hash is right has
/// the stored hash of the `j`-th.
pub open spec fn first_of_hash(blocks: Seq<VersaBlock>, j: int) -> bool {
    forall|i: int| 0 <= i < j && versa_hash_valid(#[trigger] blocks[i]@) ==> versa_hash_of(blocks[i]@) != versa_hash_of(
        blocks[j]@,
    )
}

/// The tagged hashes a message asks for as missing blocks.
pub open spec fn missing_list(o: Option<Message>) -> Seq<VersaHash> {
    match o {
        Some(Message::GetBlocks(v)) => v@,
        _ => Seq::empty(),
    }
}

/// An availability block waits for symbols, its commitments are requested,
/// and every symbol still missing of them is in the list `ms`.
pub open spec fn avai_asked(w: WorkerState, v: VersaModel, ms: Seq<SymbolIndex>) -> bool {
    &&& w.waiting().contains(versa_hash_of(v))
    &&& cmts_requested(w.symbolpool(), versa_tx_blocks(v))
    &&& forall|k: int, x: SymbolIndex| 0 <= k < versa_tx_blocks(v).len()
        && #[trigger] w.symbolpool().unreceived(versa_tx_blocks(v)[k].header.cmt_root).contains(x) ==> ms.contains(x)
}

/// Every parent of a block that the chains do not hold is in the list `mp`.
pub open spec fn parents_reported(m: Multichain, v: VersaModel, mp: Seq<VersaHash>) -> bool {
    forall|k: int| 0 <= k < parent_slots(v).len() && !parent_held(m, #[trigger] parent_slots(v)[k].0, parent_slots(v)[k].1)
        ==> mp.contains(parent_slots(v)[k].0)
}

spec fn inv_buffered(w0: WorkerState, w: WorkerState, blocks: Seq<VersaBlock>, n: int) -> bool {
    forall|x: H256| #[trigger] w.buffered().contains(x) && !w0.buffered().contains(x) ==> exists|i: int|
        0 <= i < n && versa_hash_valid(#[trigger] blocks[i]@) && versa_hash_of(blocks[i]@) == x && passes(w, blocks[i]@)
}

spec fn inv_held(w0: WorkerState, w: WorkerState, blocks: Seq<VersaBlock>, n: int) -> bool {
    forall|vh: VersaHash| #[trigger] held_in(w.multichain(), vh) && !held_in(w0.multichain(), vh) && !w0.buffered().contains(
        vh.inner(),
    ) ==> exists|i: int|
        0 <= i < n && versa_hash_valid(#[trigger] blocks[i]@) && versa_hash_of(blocks[i]@) == vh.inner() && passes(w, blocks[i]@)
}

spec fn inv_waiting_req(w0: WorkerState, w: WorkerState, blocks: Seq<VersaBlock>, n: int, ms: Seq<SymbolIndex>) -> bool {
    forall|j: int| 0 <= j < n && versa_hash_valid(#[trigger] blocks[j]@) && crate::multichain::is_avai(blocks[j]@)
        && first_of_hash(blocks, j) && !w0.waiting().contains(versa_hash_of(blocks[j]@)) && !cmts_complete(
        w.symbolpool(),
        versa_tx_blocks(blocks[j]@),
    ) ==> avai_asked(w, blocks[j]@, ms)
}

spec fn inv_missing(w0: WorkerState, w: WorkerState, blocks: Seq<VersaBlock>, n: int, mp: Seq<VersaHash>) -> bool {
    forall|j: int| 0 <= j < n && versa_hash_valid(#[trigger] blocks[j]@) && block_ready(w0, blocks[j]@) && no_twin(blocks, j)
        ==> parents_reported(w.multichain(), blocks[j]@, mp)
}

spec fn inv_prop_req(w0: WorkerState, w: WorkerState, blocks: Seq<VersaBlock>, n: int) -> bool {
    forall|j: int| 0 <= j < n && versa_hash_valid(#[trigger] blocks[j]@) && blocks[j]@ is Prop && unique_hash(blocks, j)
        && !w0.buffered().contains(versa_hash_of(blocks[j]@)) && !held_in(w0.multichain(), tag_of(blocks[j]@))
        && some_parent_held(w0.multichain(), blocks[j]@) ==> cmts_requested(w.symbolpool(), versa_tx_blocks(blocks[j]@))
}

/// What a node takes to insertion passes its kind's condition.
proof fn lemma_ready_passes(w: WorkerState, v: VersaModel)
    requires
        block_ready(w, v),
    ensures
        passes(w, v),
{
}

/// The condition stays met as the chains grow and the pool asks for more.
proof fn lemma_passes_keeps(a: WorkerState, b: WorkerState, v: VersaModel)
    requires
        chains_grow(a.multichain(), b.multichain()),
        requested_grow(a.symbolpool(), b.symbolpool()),
        b.symbolpool().symbols() == a.symbolpool().symbols(),
        passes(a, v),
    ensures
        passes(b, v),
{
    match v {
        VersaModel::ExAvai(x) => lemma_complete_keeps(a.symbolpool(), b.symbolpool(), x.avai_tx_set),
        VersaModel::InAvai(x) => lemma_complete_keeps(a.symbolpool(), b.symbolpool(), x.avai_tx_set),
        VersaModel::Order(o) => {
            assert(a.multichain().confirmed().contains_key(o.header.order_parent));
        },
        _ => {},
    }
}

proof fn lemma_step_buffered_held(w0: WorkerState, w1: WorkerState, w2: WorkerState, blocks: Seq<VersaBlock>, i: int)
    requires
        0 <= i < blocks.len(),
        inv_buffered(w0, w1, blocks, i),
        inv_held(w0, w1, blocks, i),
        chains_grow(w0.multichain(), w1.multichain()),
        chains_grow(w1.multichain(), w2.multichain()),
        requested_grow(w1.symbolpool(), w2.symbolpool()),
        w2.symbolpool().symbols() == w1.symbolpool().symbols(),
        forall|x: H256| #[trigger] w2.buffered().contains(x) ==> w1.buffered().contains(x) || (x == versa_hash_of(
            blocks[i]@,
        ) && versa_hash_valid(blocks[i]@) && block_ready(w1, blocks[i]@)),
        forall|vh: VersaHash| #[trigger] held_in(w2.multichain(), vh) && !held_in(w1.multichain(), vh)
            ==> w1.buffered().contains(vh.inner()) || (vh.inner() == versa_hash_of(blocks[i]@) && versa_hash_valid(blocks[i]@)
            && block_ready(w1, blocks[i]@)),
    ensures
        inv_buffered(w0, w2, blocks, i + 1),
        inv_held(w0, w2, blocks, i + 1),
{
    assert forall|x: H256| #[trigger] w2.buffered().contains(x) && !w0.buffered().contains(x) implies exists|k: int|
        0 <= k < i + 1 && versa_hash_valid(#[trigger] blocks[k]@) && versa_hash_of(blocks[k]@) == x && passes(w2, blocks[k]@) by {
        if w1.buffered().contains(x) {
            let k = choose|k: int| 0 <= k < i && versa_hash_valid(#[trigger] blocks[k]@) && versa_hash_of(blocks[k]@) == x
                && passes(w1, blocks[k]@);
            lemma_passes_keeps(w1, w2, blocks[k]@);
        } else {
            lemma_ready_passes(w1, blocks[i]@);
            lemma_passes_keeps(w1, w2, blocks[i]@);
        }
    }
    assert forall|vh: VersaHash| #[trigger] held_in(w2.multichain(), vh) && !held_in(w0.multichain(), vh) && !w0.buffered().contains(
        vh.inner(),
    ) implies exists|k: int|
        0 <= k < i + 1 && versa_hash_valid(#[trigger] blocks[k]@) && versa_hash_of(blocks[k]@) == vh.inner() && passes(
            w2,
            blocks[k]@,
        ) by {
        if held_in(w1.multichain(), vh) {
            let k = choose|k: int| 0 <= k < i && versa_hash_valid(#[trigger] blocks[k]@) && versa_hash_of(blocks[k]@) == vh.inner()
                && passes(w1, blocks[k]@);
            lemma_passes_keeps(w1, w2, blocks[k]@);
        } else if w1.buffered().contains(vh.inner()) {
            let x = vh.inner();
            let k = choose|k: int| 0 <= k < i && versa_hash_valid(#[trigger] blocks[k]@) && versa_hash_of(blocks[k]@) == x
                && passes(w1, blocks[k]@);
            lemma_passes_keeps(w1, w2, blocks[k]@);
        } else {
            lemma_ready_passes(w1, blocks[i]@);
            lemma_passes_keeps(w1, w2, blocks[i]@);
        }
    }
}

proof fn lemma_step_waiting(
    w0: WorkerState,
    w1: WorkerState,
    w2: WorkerState,
    blocks: Seq<VersaBlock>,
    i: int,
    ms1: Seq<SymbolIndex>,
    ms2: Seq<SymbolIndex>,
)
    requires
        0 <= i < blocks.len(),
        inv_waiting_req(w0, w1, blocks, i, ms1),
        requested_grow(w1.symbolpool(), w2.symbolpool()),
        w2.symbolpool().symbols() == w1.symbolpool().symbols(),
        forall|x: H256| #[trigger] w1.waiting().contains(x) ==> w2.waiting().contains(x),
        ms1.len() <= ms2.len(),
        ms2.subrange(0, ms1.len() as int) == ms1,
        forall|x: H256| #[trigger] w1.waiting().contains(x) && !w0.waiting().contains(x) ==> exists|j: int|
            0 <= j < i && versa_hash_valid(#[trigger] blocks[j]@) && crate::multichain::is_avai(blocks[j]@) && x
            == versa_hash_of(blocks[j]@) && !cmts_complete(w0.symbolpool(), versa_tx_blocks(blocks[j]@)),
        versa_hash_valid(blocks[i]@) && crate::multichain::is_avai(blocks[i]@) && !w1.waiting().contains(
            versa_hash_of(blocks[i]@),
        ) && !cmts_complete(w2.symbolpool(), versa_tx_blocks(blocks[i]@)) ==> avai_asked(w2, blocks[i]@, ms2),
    ensures
        inv_waiting_req(w0, w2, blocks, i + 1, ms2),
{
    assert forall|j: int| 0 <= j < i + 1 && versa_hash_valid(#[trigger] blocks[j]@) && crate::multichain::is_avai(blocks[j]@)
        && first_of_hash(blocks, j) && !w0.waiting().contains(versa_hash_of(blocks[j]@)) && !cmts_complete(
        w2.symbolpool(),
        versa_tx_blocks(blocks[j]@),
    ) implies avai_asked(w2, blocks[j]@, ms2) by {
        let v = blocks[j]@;
        let tv = versa_tx_blocks(v);
        if j < i {
            if cmts_complete(w1.symbolpool(), tv) {
                lemma_complete_keeps(w1.symbolpool(), w2.symbolpool(), tv);
            }
            assert(avai_asked(w1, v, ms1));
            assert forall|k: int| 0 <= k < tv.len() implies w2.symbolpool().requested().contains_key(
                #[trigger] tv[k].header.cmt_root,
            ) by {
                assert(w1.symbolpool().requested().contains_key(tv[k].header.cmt_root));
            }
            assert forall|k: int, x: SymbolIndex| 0 <= k < tv.len() && #[trigger] w2.symbolpool().unreceived(
                tv[k].header.cmt_root,
            ).contains(x) implies ms2.contains(x) by {
                lemma_unreceived_keeps(w1.symbolpool(), w2.symbolpool(), tv[k].header.cmt_root);
                assert(ms1.contains(x));
                let q = choose|q: int| 0 <= q < ms1.len() && ms1[q] == x;
                assert(ms2.subrange(0, ms1.len() as int)[q] == x);
            }
        } else {
            if w1.waiting().contains(versa_hash_of(v)) {
                let k = choose|k: int| 0 <= k < i && versa_hash_valid(#[trigger] blocks[k]@) && crate::multichain::is_avai(
                    blocks[k]@,
                ) && versa_hash_of(v) == versa_hash_of(blocks[k]@) && !cmts_complete(
                    w0.symbolpool(),
                    versa_tx_blocks(blocks[k]@),
                );
                assert(versa_hash_of(blocks[k]@) != versa_hash_of(blocks[j]@));
            }
        }
    }
}

proof fn lemma_step_missing(
    w0: WorkerState,
    w1: WorkerState,
    w2: WorkerState,
    blocks: Seq<VersaBlock>,
    i: int,
    mp1: Seq<VersaHash>,
    mp2: Seq<VersaHash>,
)
    requires
        0 <= i < blocks.len(),
        inv_missing(w0, w1, blocks, i, mp1),
        chains_grow(w1.multichain(), w2.multichain()),
        mp1.len() <= mp2.len(),
        mp2.subrange(0, mp1.len() as int) == mp1,
        versa_hash_valid(blocks[i]@) && block_ready(w0, blocks[i]@) && no_twin(blocks, i) ==> block_ready(w1, blocks[i]@),
        versa_hash_valid(blocks[i]@) && block_ready(w1, blocks[i]@) ==> parents_reported(w2.multichain(), blocks[i]@, mp2),
    ensures
        inv_missing(w0, w2, blocks, i + 1, mp2),
{
    assert forall|j: int| 0 <= j < i + 1 && versa_hash_valid(#[trigger] blocks[j]@) && block_ready(w0, blocks[j]@) && no_twin(
        blocks,
        j,
    ) implies parents_reported(w2.multichain(), blocks[j]@, mp2) by {
        let v = blocks[j]@;
        if j < i {
            assert(parents_reported(w1.multichain(), v, mp1));
            assert forall|k: int| 0 <= k < parent_slots(v).len() && !parent_held(
                w2.multichain(),
                #[trigger] parent_slots(v)[k].0,
                parent_slots(v)[k].1,
            ) implies mp2.contains(parent_slots(v)[k].0) by {
                if parent_held(w1.multichain(), parent_slots(v)[k].0, parent_slots(v)[k].1) {
                    lemma_parent_held_grows(w1.multichain(), w2.multichain(), parent_slots(v)[k].0, parent_slots(v)[k].1);
                }
                let q = choose|q: int| 0 <= q < mp1.len() && mp1[q] == parent_slots(v)[k].0;
                assert(mp2.subrange(0, mp1.len() as int)[q] == mp1[q]);
            }
        }
    }
}

proof fn lemma_step_prop(w0: WorkerState, w1: WorkerState, w2: WorkerState, blocks: Seq<VersaBlock>, i: int)
    requires
        0 <= i < blocks.len(),
        inv_prop_req(w0, w1, blocks, i),
        inv_held(w0, w1, blocks, i),
        chains_grow(w0.multichain(), w1.multichain()),
        requested_grow(w1.symbolpool(), w2.symbolpool()),
        versa_hash_valid(blocks[i]@) && blocks[i]@ is Prop && some_parent_held(w1.multichain(), blocks[i]@) && !held_in(
            w1.multichain(),
            tag_of(blocks[i]@),
        ) ==> cmts_requested(w2.symbolpool(), versa_tx_blocks(blocks[i]@)),
    ensures
        inv_prop_req(w0, w2, blocks, i + 1),
{
    assert forall|j: int| 0 <= j < i + 1 && versa_hash_valid(#[trigger] blocks[j]@) && blocks[j]@ is Prop && unique_hash(
        blocks,
        j,
    ) && !w0.buffered().contains(versa_hash_of(blocks[j]@)) && !held_in(w0.multichain(), tag_of(blocks[j]@))
        && some_parent_held(w0.multichain(), blocks[j]@) implies cmts_requested(
        w2.symbolpool(),
        versa_tx_blocks(blocks[j]@),
    ) by {
        let v = blocks[j]@;
        let tv = versa_tx_blocks(v);
        if j < i {
            assert(cmts_requested(w1.symbolpool(), tv));
            assert forall|k: int| 0 <= k < tv.len() implies w2.symbolpool().requested().contains_key(
                #[trigger] tv[k].header.cmt_root,
            ) by {
                assert(w1.symbolpool().requested().contains_key(tv[k].header.cmt_root));
            }
        } else {
            lemma_some_parent_grows(w0.multichain(), w1.multichain(), v);
            if held_in(w1.multichain(), tag_of(v)) {
                assert(tag_of(v).inner() == versa_hash_of(v));
                let k = choose|k: int| 0 <= k < i && versa_hash_valid(#[trigger] blocks[k]@) && versa_hash_of(blocks[k]@)
                    == tag_of(v).inner() && passes(w1, blocks[k]@);
                assert(versa_hash_of(blocks[k]@) != versa_hash_of(blocks[j]@));
            }
        }
    }
}

/// A block that no other block of the list shares its hash with, that no
/// block waiting for a parent has the hash of, and whose condition the
/// final state does not meet, was not taken.
proof fn lemma_final_not_held(w0: WorkerState, w: WorkerState, blocks: Seq<VersaBlock>, j: int)
    requires
        inv_held(w0, w, blocks, blocks.len() as int),
        0 <= j < blocks.len(),
        versa_hash_valid(blocks[j]@),
        unique_hash(blocks, j),
        !w0.buffered().contains(versa_hash_of(blocks[j]@)),
        !held_in(w0.multichain(), tag_of(blocks[j]@)),
        !passes(w, blocks[j]@),
    ensures
        !held_in(w.multichain(), tag_of(blocks[j]@)),
{
    let v = blocks[j]@;
    assert(tag_of(v).inner() == versa_hash_of(v));
    if held_in(w.multichain(), tag_of(v)) {
        let k = choose|k: int| 0 <= k < blocks.len() && versa_hash_valid(#[trigger] blocks[k]@) && versa_hash_of(blocks[k]@)
            == tag_of(v).inner() && passes(w, blocks[k]@);
        if k != j {
            assert(versa_hash_of(blocks[k]@) != versa_hash_of(blocks[j]@));
        }
    }
}

/// An entry lists at least one commitment, and each is `c`.
pub open spec fn entry_only(p: (H256, Seq<H256>), c: H256) -> bool {
    &&& p.1.len() > 0
    &&& forall|m: int| 0 <= m < p.1.len() ==> p.1[m] == c
}

/// The availability block with hash `h` waits, and for commitment `c`
/// alone.
pub open spec fn waits_only_for(w: WorkerState, h: H256, c: H256) -> bool {
    &&& w.waiting().contains(h)
    &&& forall|i: int| 0 <= i < w.waiting_entries().len() && w.waiting_entries()[i].0 == h ==> #[trigger] entry_only(
        w.waiting_entries()[i],
        c,
    )
}

/// Block `v` is among those waiting for commitment `c`.
pub open spec fn waits_in_list(w: WorkerState, c: H256, v: VersaModel) -> bool {
    exists|i: int, k: int|
        0 <= i < w.waiter_lists().len() && w.waiter_lists()[i].0 == c && 0 <= k < w.waiter_lists()[i].1.len()
            && #[trigger] w.waiter_lists()[i].1[k] == v
}

/// Whether the arrival of all symbols of commitment `c` inserts block `v`:
/// `v` waits for `c` and for nothing else, it is the one block waiting for
/// `c` with its hash, and a parent of it is held.
pub open spec fn released_by(w: WorkerState, c: H256, v: VersaModel) -> bool {
    &&& waits_in_list(w, c, v)
    &&& waits_only_for(w, versa_hash_of(v), c)
    &&& some_parent_held(w.multichain(), v)
    &&& forall|u: VersaModel| #[trigger] waits_in_list(w, c, u) && versa_hash_of(u) == versa_hash_of(v) ==> u == v
}

/// Taking out the `j`-th waiting entry keeps what the others wait for.
proof fn lemma_entries_remove(w0: WorkerState, w1: WorkerState, j: int)
    requires
        0 <= j < w0.waiting_entries().len(),
        w0.waiting().no_duplicates(),
        w1.waiting_entries() == w0.waiting_entries().remove(j),
        w1.waiting() == w0.waiting().remove(j),
    ensures
        forall|h: H256, c: H256| h != w0.waiting()[j] && #[trigger] waits_only_for(w0, h, c) ==> waits_only_for(w1, h, c),
        !w1.waiting().contains(w0.waiting()[j]),
        forall|h: H256| #[trigger] w1.waiting().contains(h) ==> w0.waiting().contains(h),
        forall|h: H256| #[trigger] w0.waiting().contains(h) && h != w0.waiting()[j] ==> w1.waiting().contains(h),
{
    lemma_remove_no_dup(w0.waiting(), j);
    let e0 = w0.waiting_entries();
    let e1 = w1.waiting_entries();
    assert forall|h: H256, c: H256| h != w0.waiting()[j] && #[trigger] waits_only_for(w0, h, c) implies waits_only_for(
        w1,
        h,
        c,
    ) by {
        assert forall|i: int| 0 <= i < e1.len() && e1[i].0 == h implies #[trigger] entry_only(e1[i], c) by {
            let i2 = if i < j { i } else { i + 1 };
            assert(e1[i] == e0[i2]);
        }
    }
}

/// Adding an entry for a hash that did not wait keeps what the others wait
/// for.
proof fn lemma_entries_push(w0: WorkerState, w1: WorkerState, h0: H256, cs: Seq<H256>)
    requires
        !w0.waiting().contains(h0),
        w1.waiting_entries() == w0.waiting_entries().push((h0, cs)),
        w1.waiting() == w0.waiting().push(h0),
    ensures
        forall|h: H256, c: H256| h != h0 && #[trigger] waits_only_for(w0, h, c) ==> waits_only_for(w1, h, c),
        forall|i: int| 0 <= i < w1.waiting_entries().len() && w1.waiting_entries()[i].0 == h0 ==> #[trigger] w1.waiting_entries()[i]
            == (h0, cs),
{
    let e0 = w0.waiting_entries();
    let e1 = w1.waiting_entries();
    assert forall|h: H256, c: H256| h != h0 && #[trigger] waits_only_for(w0, h, c) implies waits_only_for(w1, h, c) by {
        assert forall|i: int| 0 <= i < e1.len() && e1[i].0 == h implies #[trigger] entry_only(e1[i], c) by {
            assert(i < e0.len());
            assert(e1[i] == e0[i]);
        }
        let a = choose|a: int| 0 <= a < w0.waiting().len() && w0.waiting()[a] == h;
        assert(w1.waiting()[a] == h);
    }
    assert forall|i: int| 0 <= i < e1.len() && e1[i].0 == h0 implies #[trigger] e1[i] == (h0, cs) by {
        if i < e0.len() {
            assert(e1[i] == e0[i]);
            assert(w0.waiting()[i] == e0[i].0);
        }
    }
}

/// Each symbol before the `j`-th of the list is kept under another key.
pub open spec fn first_key(symbols: Seq<Symbol>, j: int) -> bool {
    forall|i: int| 0 <= i < j ==> index_key(#[trigger] symbols[i]@.index.root, symbols[i]@.index.index) != index_key(
        symbols[j]@.index.root,
        symbols[j]@.index.index,
    )
}

/// The `j`-th symbol of the list is fresh to pool `p`, it is the last
/// symbol `p` misses of its commitment, and no symbol before it in the list
/// is kept under its key.
pub open spec fn completes(p: SymbolPool, symbols: Seq<Symbol>, j: int) -> bool {
    &&& fresh_symbol(p, symbols[j]@)
    &&& first_key(symbols, j)
    &&& p.unreceived(symbols[j]@.index.root) == seq![symbols[j]@.index]
}

/// A pool that misses none of a commitment's symbols misses none as it
/// receives more.
proof fn lemma_unreceived_empty_keeps(p: SymbolPool, q: SymbolPool, c: H256)
    requires
        q.requested() == p.requested(),
        forall|k: H256| #[trigger] p.symbols().contains_key(k) ==> q.symbols().contains_key(k),
        p.requested().contains_key(c),
        p.unreceived(c).len() == 0,
    ensures
        q.unreceived(c).len() == 0,
{
    let s = p.requested()[c];
    let fp = s.filter(|i: usize| !p.held(c, i as u32));
    let fq = s.filter(|i: usize| !q.held(c, i as u32));
    if fq.len() > 0 {
        let y = fq[0];
        s.filter_lemma(|i: usize| !q.held(c, i as u32));
        assert(!q.held(c, y as u32));
        assert(fq.contains(y));
        s.lemma_filter_contains_rev(|i: usize| !q.held(c, i as u32), y);
        let t = choose|t: int| 0 <= t < s.len() && s[t] == y;
        if p.held(c, y as u32) {
            let k = choose|k: H256| #[trigger] p.symbols().contains_key(k) && k@ == index_key(c, y as u32);
            assert(q.symbols().contains_key(k));
        }
        s.filter_lemma(|i: usize| !p.held(c, i as u32));
        assert(fp.contains(s[t]));
    }
}

/// A requested symbol not held is missed.
proof fn lemma_unreceived_has(p: SymbolPool, root: H256, idx: u32)
    requires
        p.requested().contains_key(root),
        p.requested()[root].contains(idx as usize),
        !p.held(root, idx),
    ensures
        p.unreceived(root).len() > 0,
{
    let s = p.requested()[root];
    let t = choose|t: int| 0 <= t < s.len() && s[t] == idx as usize;
    s.filter_lemma(|i: usize| !p.held(root, i as u32));
    assert(s.filter(|i: usize| !p.held(root, i as u32)).contains(s[t]));
}

/// Receiving the one symbol a pool missed of a commitment completes it.
proof fn lemma_last_symbol(p0: SymbolPool, pn: SymbolPool, root: H256, idx: SymbolIndex)
    requires
        pn.requested() == p0.requested(),
        p0.requested().contains_key(root),
        forall|k: H256| #[trigger] p0.symbols().contains_key(k) ==> pn.symbols().contains_key(k),
        idx.root == root,
        pn.held(root, idx.index),
        p0.unreceived(root) == seq![idx],
    ensures
        pn.unreceived(root).len() == 0,
{
    let s = p0.requested()[root];
    let f0 = s.filter(|i: usize| !p0.held(root, i as u32));
    let f1 = s.filter(|i: usize| !pn.held(root, i as u32));
    assert(indexes_of(root, f0).len() == 1);
    assert(f0.len() == 1);
    assert(indexes_of(root, f0)[0] == idx);
    if f1.len() > 0 {
        let y = f1[0];
        s.filter_lemma(|i: usize| !pn.held(root, i as u32));
        assert(!pn.held(root, y as u32));
        assert(f1.contains(y));
        s.lemma_filter_contains_rev(|i: usize| !pn.held(root, i as u32), y);
        let t = choose|t: int| 0 <= t < s.len() && s[t] == y;
        if p0.held(root, y as u32) {
            let k = choose|k: H256| #[trigger] p0.symbols().contains_key(k) && k@ == index_key(root, y as u32);
            assert(pn.symbols().contains_key(k));
        }
        s.filter_lemma(|i: usize| !p0.held(root, i as u32));
        assert(f0.contains(s[t]));
        let q = choose|q: int| 0 <= q < f0.len() && f0[q] == s[t];
        assert(q == 0);
        assert(y as u32 == idx.index);
    }
}

/// A release of one commitment keeps what releasing any other would do.
proof fn lemma_released_keeps(a: WorkerState, b: WorkerState, cm: H256)
    requires
        chains_grow(a.multichain(), b.multichain()),
        forall|h: H256, c: H256| c != cm && #[trigger] waits_only_for(a, h, c) ==> waits_only_for(b, h, c),
        forall|c: H256, v: VersaModel| c != cm ==> (#[trigger] waits_in_list(b, c, v) <==> waits_in_list(a, c, v)),
    ensures
        forall|c: H256, v: VersaModel| c != cm && #[trigger] released_by(a, c, v) ==> released_by(b, c, v),
{
    assert forall|c: H256, v: VersaModel| c != cm && #[trigger] released_by(a, c, v) implies released_by(b, c, v) by {
        lemma_some_parent_grows(a.multichain(), b.multichain(), v);
        assert(waits_in_list(b, c, v));
        assert(waits_only_for(b, versa_hash_of(v), c));
        assert forall|u: VersaModel| #[trigger] waits_in_list(b, c, u) && versa_hash_of(u) == versa_hash_of(v) implies u == v by {
            assert(waits_in_list(a, c, u));
        }
    }
}

/// A parent the chains hold is a place they hold.
proof fn lemma_parent_held_in(m: Multichain, parent: VersaHash, shard_id: usize)
    requires
        parent_held(m, parent, shard_id),
    ensures
        held_in(m, parent),
{
    match parent {
        VersaHash::ExHash(h) => {
            assert(m.avai_chains()[shard_id as int].blocks().contains_key(parent.inner()));
        },
        VersaHash::InHash(h) => {
            assert(m.avai_chains()[shard_id as int].blocks().contains_key(parent.inner()));
        },
        _ => {},
    }
}

/// Whether a block of the longest proposer chain links a transaction block
/// with hash `h`.
pub open spec fn chain_links(m: Multichain, h: H256) -> bool {
    let lc = m.prop_chain().longest_chain();
    let blocks = m.prop_chain().blocks();
    exists|j: int, k: int|
        0 <= j < lc.len() && 0 <= k < versa_tx_blocks(blocks[lc[j]]@).len() && TransactionBlock::hash_of(
            #[trigger] versa_tx_blocks(blocks[lc[j]]@)[k],
        ) == h@
}

/// A mapping that gives something on one element gives something on the
/// list.
proof fn lemma_filter_map_some<A, B>(s: Seq<A>, f: spec_fn(A) -> Option<B>, i: int)
    requires
        0 <= i < s.len(),
        f(s[i]) is Some,
    ensures
        s.filter_map(f).len() > 0,
    decreases s.len(),
{
    if i < s.len() - 1 {
        lemma_filter_map_some(s.drop_last(), f, i);
        assert(s.drop_last()[i] == s[i]);
    }
}

/// A transaction block is found by hash in the pool, else among those the
/// longest proposer chain links: one the pool holds is the pool's; one the
/// chain links is found whether or not the pool holds it; and what is found
/// has the hash asked for.
pub proof fn law_tx_lookup(pool: Map<H256, TxBlockModel>, m: Multichain, h: H256)
    requires
        m.wf(),
    ensures
        pool.contains_key(h) ==> tx_lookup(pool, m, h) == Some(pool[h]),
        (tx_lookup(pool, m, h) is Some) <==> (pool.contains_key(h) || chain_links(m, h)),
        !pool.contains_key(h) && tx_lookup(pool, m, h) is Some ==> TransactionBlock::hash_of(tx_lookup(pool, m, h).unwrap())
            == h@,
{
    crate::multichain::law_chains_wf(&m);
    let c = m.prop_chain();
    let s = chain_tx_blocks(m);
    crate::blockchain::law_longest_chain_tx_blocks(&c);
    crate::blockchain::law_first_with_hash(s, h@);
    if !pool.contains_key(h) {
        if chain_links(m, h) {
            let lc = c.longest_chain();
            let (j, k) = choose|j: int, k: int|
                0 <= j < lc.len() && 0 <= k < versa_tx_blocks(c.blocks()[lc[j]]@).len() && TransactionBlock::hash_of(
                    #[trigger] versa_tx_blocks(c.blocks()[lc[j]]@)[k],
                ) == h@;
            let t = versa_tx_blocks(c.blocks()[lc[j]]@)[k];
            assert(s.contains(t));
            let i = choose|i: int| 0 <= i < s.len() && s[i] == t;
            assert(TransactionBlock::hash_of(s[i]) == h@);
        }
        if first_with_hash(s, h@) is Some {
            let t = first_with_hash(s, h@).unwrap();
            assert(s.contains(t));
            let lc = c.longest_chain();
            let (j, k) = choose|j: int, k: int|
                0 <= j < lc.len() && 0 <= k < versa_tx_blocks(c.blocks()[lc[j]]@).len()
                    && versa_tx_blocks(c.blocks()[lc[j]]@)[k] == t;
            assert(TransactionBlock::hash_of(versa_tx_blocks(c.blocks()[lc[j]]@)[k]) == h@);
        }
    }
}

/// The answer to a request for transaction blocks is empty exactly when the
/// node has none of them, neither in its pool nor linked by its longest
/// proposer chain.
pub proof fn law_tx_request_answer(w: WorkerState, hashes: Seq<H256>, out: Seq<Message>)
    requires
        w.wf(),
        get_tx_blks_answer(w, hashes, out),
    ensures
        out.len() == 0 <==> forall|i: int| 0 <= i < hashes.len() ==> !w.mempool().pool().contains_key(#[trigger] hashes[i])
            && !chain_links(w.multichain(), hashes[i]),
{
    let f = |h: H256| tx_lookup(w.mempool().pool(), w.multichain(), h);
    let fm = hashes.filter_map(f);
    w.lemma_multichain_wf();
    if exists|i: int| 0 <= i < hashes.len() && (w.mempool().pool().contains_key(#[trigger] hashes[i]) || chain_links(
        w.multichain(),
        hashes[i],
    )) {
        let i = choose|i: int| 0 <= i < hashes.len() && (w.mempool().pool().contains_key(#[trigger] hashes[i]) || chain_links(
            w.multichain(),
            hashes[i],
        ));
        law_tx_lookup(w.mempool().pool(), w.multichain(), hashes[i]);
        lemma_filter_map_some(hashes, f, i);
    } else if fm.len() > 0 {
        assert(fm.contains(fm[0]));
        hashes.lemma_filter_map_contains(f, fm[0]);
        let h = choose|h: H256| #[trigger] hashes.contains(h) && f(h) == Some(fm[0]);
        let i = choose|i: int| 0 <= i < hashes.len() && hashes[i] == h;
        law_tx_lookup(w.mempool().pool(), w.multichain(), h);
        assert(w.mempool().pool().contains_key(hashes[i]) || chain_links(w.multichain(), hashes[i]));
    }
}

/// The answer to hashes of transaction blocks asks only for blocks the node
/// has neither in its pool nor linked by its longest proposer chain, and
/// for each such one.
pub proof fn law_tx_announce_answer(w: WorkerState, hashes: Seq<H256>, out: Seq<Message>)
    requires
        w.wf(),
        new_tx_blk_hash_answer(w, hashes, out),
    ensures
        out.len() > 0 ==> (out[0] matches Message::GetTxBlocks(v) && forall|i: int| 0 <= i < v@.len()
            ==> !w.mempool().pool().contains_key(#[trigger] v@[i]) && !chain_links(w.multichain(), v@[i])),
        forall|i: int| 0 <= i < hashes.len() && !w.mempool().pool().contains_key(#[trigger] hashes[i]) && !chain_links(
            w.multichain(),
            hashes[i],
        ) ==> out.len() > 0 && (out[0] matches Message::GetTxBlocks(v) && v@.contains(hashes[i])),
{
    let pred = |h: H256| tx_lookup(w.mempool().pool(), w.multichain(), h) is None;
    let u = hashes.filter(pred);
    w.lemma_multichain_wf();
    hashes.filter_lemma(pred);
    if out.len() > 0 {
        if let Message::GetTxBlocks(v) = out[0] {
            assert forall|i: int| 0 <= i < v@.len() implies !w.mempool().pool().contains_key(#[trigger] v@[i]) && !chain_links(
                w.multichain(),
                v@[i],
            ) by {
                assert(pred(u[i]));
                law_tx_lookup(w.mempool().pool(), w.multichain(), v@[i]);
            }
        }
    }
    assert forall|i: int| 0 <= i < hashes.len() && !w.mempool().pool().contains_key(#[trigger] hashes[i]) && !chain_links(
        w.multichain(),
        hashes[i],
    ) implies out.len() > 0 && (out[0] matches Message::GetTxBlocks(v) && v@.contains(hashes[i])) by {
        law_tx_lookup(w.mempool().pool(), w.multichain(), hashes[i]);
        assert(pred(hashes[i]));
        assert(u.contains(hashes[i]));
        assert(u.len() > 0);
    }
}

/// The answer to symbol indexes asks only for symbols the pool requested
/// and does not hold, and for each such one of the indexes.
pub proof fn law_new_symbols_answer(w: WorkerState, indexes: Seq<SymbolIndex>, out: Seq<Message>)
    requires
        new_symbols_answer(w, indexes, out),
    ensures
        out.len() > 0 ==> (out[0] matches Message::GetSymbols(v) && forall|i: int| 0 <= i < v@.len() ==> {
            &&& w.symbolpool().requested().contains_key(#[trigger] v@[i].root)
            &&& w.symbolpool().requested()[v@[i].root].contains(v@[i].index as usize)
            &&& !w.symbolpool().held(v@[i].root, v@[i].index)
        }),
        forall|i: int|
            0 <= i < indexes.len() && w.symbolpool().requested().contains_key(#[trigger] indexes[i].root)
                && w.symbolpool().requested()[indexes[i].root].contains(indexes[i].index as usize) && !w.symbolpool().held(
                indexes[i].root,
                indexes[i].index,
            ) ==> out.len() > 0 && (out[0] matches Message::GetSymbols(v) && v@.contains(indexes[i])),
{
    let p = w.symbolpool();
    let pred = |i: SymbolIndex| symbol_wanted(p, i);
    let u = indexes.filter(pred);
    indexes.filter_lemma(pred);
    if out.len() > 0 {
        if let Message::GetSymbols(v) = out[0] {
            assert forall|i: int| 0 <= i < v@.len() implies {
                &&& p.requested().contains_key(#[trigger] v@[i].root)
                &&& p.requested()[v@[i].root].contains(v@[i].index as usize)
                &&& !p.held(v@[i].root, v@[i].index)
            } by {
                assert(pred(u[i]));
            }
        }
    }
    assert forall|i: int|
        0 <= i < indexes.len() && p.requested().contains_key(#[trigger] indexes[i].root) && p.requested()[indexes[i].root].contains(
            indexes[i].index as usize,
        ) && !p.held(indexes[i].root, indexes[i].index) implies out.len() > 0 && (out[0] matches Message::GetSymbols(v)
        && v@.contains(indexes[i])) by {
        assert(pred(indexes[i]));
        assert(u.contains(indexes[i]));
        assert(u.len() > 0);
    }
}

/// Whether a list of blocks holds one with the same values as `b`.
fn contains_block(v: &Vec<VersaBlock>, b: &VersaBlock) -> (r: bool)
    ensures
        r == v@.map_values(|x: VersaBlock| x@).contains(b@),
{
    let mut i: usize = 0;
    while i < v.len()
        invariant
            i <= v@.len(),
            forall|j: int| 0 <= j < i ==> v@[j]@ != b@,
        decreases v@.len() - i,
    {
        if v[i].same(b) {
            assert(v@.map_values(|x: VersaBlock| x@)[i as int] == b@);
            return true;
        }
        i = i + 1;
    }
    false
}

/// Whether a list of tagged hashes holds `h`.
fn contains_versa_hash(v: &Vec<VersaHash>, h: &VersaHash) -> (r: bool)
    ensures
        r == v@.contains(*h),
{
    let mut i: usize = 0;
    while i < v.len()
        invariant
            i <= v@.len(),
            forall|j: int| 0 <= j < i ==> v@[j] != *h,
        decreases v@.len() - i,
    {
        if v[i].equals(h) {
            return true;
        }
        i = i + 1;
    }
    false
}

/// The tagged hash of a block.
fn tag(b: &VersaBlock) -> (r: VersaHash)
    ensures
        r == tag_of(b@),
{
    let h = b.hash_value();
    match b {
        VersaBlock::PropBlock(_) => VersaHash::PropHash(h),
        VersaBlock::ExAvaiBlock(_) => VersaHash::ExHash(h),
        VersaBlock::InAvaiBlock(_) => VersaHash::InHash(h),
        VersaBlock::OrderBlock(_) => VersaHash::OrderHash(h),
    }
}

/// The tagged parents a block names: its proposer, ordering or intra-shard
/// parent, or each of its global parents.
pub open spec fn parent_tags(v: VersaModel) -> Seq<VersaHash> {
    match v {
        VersaModel::Prop(b) => seq![VersaHash::PropHash(b.header.prop_parent)],
        VersaModel::Order(b) => seq![VersaHash::OrderHash(b.header.order_parent)],
        VersaModel::ExAvai(b) => seq![VersaHash::ExHash(b.header.inter_parent)],
        VersaModel::InAvai(b) => b.header.global_parents.map_values(|p: (H256, u32)| VersaHash::InHash(p.0)),
    }
}

/// The parents a block is inserted under, each with the shard whose chain
/// takes it: the proposer or ordering parent (shard 0), the intra-shard
/// parent of an exclusive block (its shard), each global parent of an
/// inclusive block (with the shard it names).
/// The parents of a block, each with the shard whose chain holds it.
pub open spec fn parent_slots(v: VersaModel) -> Seq<(VersaHash, usize)> {
    match v {
        VersaModel::Prop(b) => seq![(VersaHash::PropHash(b.header.prop_parent), 0usize)],
        VersaModel::Order(b) => seq![(VersaHash::OrderHash(b.header.order_parent), 0usize)],
        VersaModel::ExAvai(b) => seq![(VersaHash::ExHash(b.header.inter_parent), b.header.shard_id as usize)],
        VersaModel::InAvai(b) => b.header.global_parents.map_values(
            |p: (H256, u32)| (VersaHash::InHash(p.0), p.1 as usize),
        ),
    }
}

/// Whether the chains hold parent `parent` for shard `shard_id`: the
/// proposer or ordering chain for those parents, the availability chain of
/// the shard, if the node has it, for the others.
pub open spec fn parent_held(m: Multichain, parent: VersaHash, shard_id: usize) -> bool {
    match parent {
        VersaHash::PropHash(h) => m.prop_chain().blocks().contains_key(h),
        VersaHash::OrderHash(h) => m.order_chain().blocks().contains_key(h),
        VersaHash::ExHash(h) => shard_id < m.avai_chains().len() && m.avai_chains()[shard_id as int].blocks().contains_key(h),
        VersaHash::InHash(h) => shard_id < m.avai_chains().len() && m.avai_chains()[shard_id as int].blocks().contains_key(h),
    }
}

fn parents_with_shard(block: &VersaBlock) -> (r: Vec<(VersaHash, usize)>)
    ensures
        r@.map_values(|p: (VersaHash, usize)| p.0) == parent_tags(block@),
        r@ == parent_slots(block@),
{
    let mut r: Vec<(VersaHash, usize)> = Vec::new();
    match block {
        VersaBlock::PropBlock(b) => {
            r.push((VersaHash::PropHash(b.get_prop_parent()), 0));
        },
        VersaBlock::OrderBlock(b) => {
            r.push((VersaHash::OrderHash(b.get_order_parent()), 0));
        },
        VersaBlock::ExAvaiBlock(b) => {
            r.push((VersaHash::ExHash(b.get_inter_parent()), b.get_shard_id()));
        },
        VersaBlock::InAvaiBlock(b) => {
            let gp = b.get_global_parents();
            let mut i: usize = 0;
            while i < gp.len()
                invariant
                    i <= gp@.len(),
                    r@.len() == i,
                    gp@.len() == b@.header.global_parents.len(),
                    forall|k: int| 0 <= k < i ==> #[trigger] r@[k] == (
                        VersaHash::InHash(b@.header.global_parents[k].0),
                        b@.header.global_parents[k].1 as usize,
                    ),
                    forall|k: int| 0 <= k < gp@.len() ==> #[trigger] gp@[k] == (
                        b@.header.global_parents[k].0,
                        b@.header.global_parents[k].1 as usize,
                    ),
                decreases gp@.len() - i,
            {
                r.push((VersaHash::InHash(gp[i].0), gp[i].1));
                i = i + 1;
            }
        },
    }
    assert(r@.map_values(|p: (VersaHash, usize)| p.0) =~= parent_tags(block@));
    assert(r@ =~= parent_slots(block@));
    r
}

/// The messages an optional answer stands for: the one, or none.
pub open spec fn opt_msgs(o: Option<Message>) -> Seq<Message> {
    match o {
        Some(m) => seq![m],
        None => Seq::empty(),
    }
}

/// The answer to hashes of transaction blocks: a request for those neither
/// the pool nor the longest proposer chain holds, in their order, if any.
pub open spec fn new_tx_blk_hash_answer(w: WorkerState, hashes: Seq<H256>, out: Seq<Message>) -> bool {
    let u = hashes.filter(|h: H256| tx_lookup(w.mempool().pool(), w.multichain(), h) is None);
    &&& u.len() == 0 ==> out.len() == 0
    &&& u.len() > 0 ==> out.len() == 1 && (out[0] matches Message::GetTxBlocks(v) && v@ == u)
}

/// The answer to a request for transaction blocks: those of the named ones
/// the node holds, in their order, if any.
pub open spec fn get_tx_blks_answer(w: WorkerState, hashes: Seq<H256>, out: Seq<Message>) -> bool {
    let f = hashes.filter_map(|h: H256| tx_lookup(w.mempool().pool(), w.multichain(), h));
    &&& f.len() == 0 ==> out.len() == 0
    &&& f.len() > 0 ==> out.len() == 1 && (out[0] matches Message::TxBlocks(v) && tx_block_views(v@) == f)
}

/// The answer to tagged block hashes: a request for those the chains do not
/// hold, in their order, if any.
pub open spec fn new_block_hash_answer(w: WorkerState, hashes: Seq<VersaHash>, out: Seq<Message>) -> bool {
    let u = hashes.filter(|vh: VersaHash| block_lookup(w.multichain(), vh) is None);
    &&& u.len() == 0 ==> out.len() == 0
    &&& u.len() > 0 ==> out.len() == 1 && (out[0] matches Message::GetBlocks(v) && v@ == u)
}

/// The answer to a request for blocks: those of the named ones the chains
/// hold, in their order, if any.
pub open spec fn get_blocks_answer(w: WorkerState, hashes: Seq<VersaHash>, out: Seq<Message>) -> bool {
    let f = hashes.filter_map(|vh: VersaHash| block_lookup(w.multichain(), vh));
    &&& f.len() == 0 ==> out.len() == 0
    &&& f.len() > 0 ==> out.len() == 1 && (out[0] matches Message::Blocks(v) && v@.map_values(|b: VersaBlock| b@) == f)
}

/// The answer to symbol indexes: a request for those the pool asked for and
/// does not hold, in their order, if any.
pub open spec fn new_symbols_answer(w: WorkerState, indexes: Seq<SymbolIndex>, out: Seq<Message>) -> bool {
    let u = indexes.filter(|i: SymbolIndex| symbol_wanted(w.symbolpool(), i));
    &&& u.len() == 0 ==> out.len() == 0
    &&& u.len() > 0 ==> out.len() == 1 && (out[0] matches Message::GetSymbols(v) && v@ == u)
}

/// The answer to a request for symbols: those of the named ones the pool
/// holds, in their order, if any.
pub open spec fn get_symbols_answer(w: WorkerState, indexes: Seq<SymbolIndex>, out: Seq<Message>) -> bool {
    let f = indexes.filter_map(|i: SymbolIndex| symbol_lookup(w.symbolpool(), i));
    &&& f.len() == 0 ==> out.len() == 0
    &&& f.len() > 0 ==> out.len() == 1 && (out[0] matches Message::Symbols(v) && v@.map_values(|x: Symbol| x@) == f)
}

/// The transaction blocks the tip of the longest proposer chain commits
/// along its branch and this node's availability chain has not committed.
pub open spec fn unreferred_cmts(m: Multichain) -> Seq<TxBlockModel> {
    unreferred(m.prop_cmts()[m.prop_chain().tip_hash()], m.latest_avai_cmts())
}

/// The symbols the pool still misses of the commitment of each block of the
/// list, in order.
pub open spec fn unreceived_all(p: SymbolPool, txs: Seq<TxBlockModel>) -> Seq<SymbolIndex>
    decreases txs.len(),
{
    if txs.len() == 0 {
        Seq::empty()
    } else {
        unreceived_all(p, txs.drop_last()) + p.unreceived(txs.last().header.cmt_root)
    }
}

/// Tagged hash `h` is a parent of one of the first `n` blocks of the list
/// whose stored hash is right.
pub open spec fn parent_of_valid(blocks: Seq<VersaBlock>, n: int, h: VersaHash) -> bool {
    exists|j: int| 0 <= j < n && versa_hash_valid(blocks[j]@) && #[trigger] parent_tags(blocks[j]@).contains(h)
}

/// A symbol the pool asked for, that verifies, and whose place the pool
/// does not hold yet.
pub open spec fn fresh_symbol(p: SymbolPool, s: SymbolModel) -> bool {
    &&& p.requested().contains_key(s.index.root)
    &&& p.requested()[s.index.root].contains(s.index.index as usize)
    &&& symbol_valid(s)
    &&& !p.held(s.index.root, s.index.index)
}

/// Index `idx` is that of a symbol of the list that is fresh to pool `p`.
pub open spec fn fresh_in(symbols: Seq<Symbol>, p: SymbolPool, idx: SymbolIndex) -> bool {
    exists|j: int| 0 <= j < symbols.len() && symbols[j]@.index == idx && #[trigger] fresh_symbol(p, symbols[j]@)
}

/// Every commitment the first pool asked for, the second asks for the same.
pub open spec fn requested_grow(a: SymbolPool, b: SymbolPool) -> bool {
    forall|k: H256| #[trigger] a.requested().contains_key(k) ==> b.requested().contains_key(k)
        && b.requested()[k] == a.requested()[k]
}

/// Every symbol index of the list names a commitment the pool asked for.
pub open spec fn all_requested(p: SymbolPool, v: Seq<SymbolIndex>) -> bool {
    forall|i: int| 0 <= i < v.len() ==> #[trigger] p.requested().contains_key(v[i].root)
}

/// Appends the symbol indexes of `b` to `a`.
fn append_indexes(a: &mut Vec<SymbolIndex>, b: &Vec<SymbolIndex>)
    ensures
        final(a)@ == old(a)@ + b@,
{
    let ghost a0 = a@;
    let mut i: usize = 0;
    while i < b.len()
        invariant
            i <= b@.len(),
            a@ == a0 + b@.subrange(0, i as int),
        decreases b@.len() - i,
    {
        a.push(b[i]);
        i = i + 1;
        assert(a@ =~= a0 + b@.subrange(0, i as int));
    }
    assert(b@.subrange(0, i as int) =~= b@);
}

/// Appends the tagged hashes of `b` to `a`.
fn append_versa_hashes(a: &mut Vec<VersaHash>, b: &Vec<VersaHash>)
    ensures
        final(a)@ == old(a)@ + b@,
{
    let ghost a0 = a@;
    let mut i: usize = 0;
    while i < b.len()
        invariant
            i <= b@.len(),
            a@ == a0 + b@.subrange(0, i as int),
        decreases b@.len() - i,
    {
        a.push(b[i]);
        i = i + 1;
        assert(a@ =~= a0 + b@.subrange(0, i as int));
    }
    assert(b@.subrange(0, i as int) =~= b@);
}

/// Whether two lists of confirmed blocks share an element.
pub open spec fn shares_item(a: Seq<(H256, u32)>, b: Seq<(H256, u32)>) -> bool {
    exists|i: int, j: int| 0 <= i < a.len() && 0 <= j < b.len() && #[trigger] a[i] == #[trigger] b[j]
}

/// Whether the pool asked for the commitment of each transaction block of
/// the list and holds all the symbols it asked for.
pub open spec fn cmts_complete(p: SymbolPool, txs: Seq<TxBlockModel>) -> bool {
    forall|k: int| 0 <= k < txs.len() ==> p.requested().contains_key(#[trigger] txs[k].header.cmt_root) && p.unreceived(
        txs[k].header.cmt_root,
    ).len() == 0
}

/// Whether a node takes a block whose stored hash is right to its
/// insertion: a proposer block always; an ordering block when its ordering
/// parent is held and confirms none of what the block confirms; an
/// availability block when it does not wait for symbols already and the
/// symbols of each of its commitments are all received.
pub open spec fn block_ready(w: WorkerState, v: VersaModel) -> bool {
    match v {
        VersaModel::Prop(_) => true,
        VersaModel::Order(o) => {
            &&& w.multichain().confirmed().contains_key(o.header.order_parent)
            &&& !shares_item(w.multichain().confirmed()[o.header.order_parent], o.confirmed_avai_set)
        },
        VersaModel::ExAvai(a) => !w.waiting().contains(a.hash) && cmts_complete(w.symbolpool(), a.avai_tx_set),
        VersaModel::InAvai(a) => !w.waiting().contains(a.hash) && cmts_complete(w.symbolpool(), a.avai_tx_set),
    }
}

/// Each block before the `j`-th of the list whose stored hash is right and
/// equals that of the `j`-th is the same block.
pub open spec fn no_twin(blocks: Seq<VersaBlock>, j: int) -> bool {
    forall|i: int| 0 <= i < j && versa_hash_valid(#[trigger] blocks[i]@) && versa_hash_of(blocks[i]@) == versa_hash_of(
        blocks[j]@,
    ) ==> blocks[i]@ == blocks[j]@
}

/// Whether the pool asks for the commitment of each transaction block of
/// the list.
pub open spec fn cmts_requested(p: SymbolPool, txs: Seq<TxBlockModel>) -> bool {
    forall|k: int| 0 <= k < txs.len() ==> p.requested().contains_key(#[trigger] txs[k].header.cmt_root)
}

/// The symbol indexes a message announces as new symbols.
pub open spec fn symbol_list(o: Option<Message>) -> Seq<SymbolIndex> {
    match o {
        Some(Message::NewSymbols(v)) => v@,
        _ => Seq::empty(),
    }
}

/// Some index of the list is held under the same key as `i` (the pool
/// keys a symbol by the hash of its commitment and position).
pub open spec fn key_listed(v: Seq<SymbolIndex>, i: SymbolIndex) -> bool {
    exists|m: int| 0 <= m < v.len() && index_key(v[m].root, v[m].index) == index_key(i.root, i.index)
}

/// The symbol indexes a message asks for.
pub open spec fn request_list(o: Option<Message>) -> Seq<SymbolIndex> {
    match o {
        Some(Message::GetSymbols(v)) => v@,
        _ => Seq::empty(),
    }
}

/// What taking transaction blocks does: the pool takes those of the list
/// that neither it nor the longest proposer chain holds (each once), keeps
/// what it held, and their hashes are announced in `out`, if any.
pub open spec fn tx_blocks_taken(a: WorkerState, b: WorkerState, blks: Seq<TxBlockModel>, out: Seq<Message>) -> bool {
    let u = intake(pooled(a.mempool().pool()), chain_tx_blocks(a.multichain()), blks);
    &&& u.len() == 0 ==> out.len() == 0
    &&& u.len() > 0 ==> out.len() == 1 && (out[0] matches Message::NewTxBlockHash(v) && v@.map_values(|k: H256| k@) == u)
    &&& pooled(b.mempool().pool()) == pooled(a.mempool().pool()) + u.to_set()
    &&& forall|k: H256| #[trigger] a.mempool().pool().contains_key(k) ==> b.mempool().pool().contains_key(k)
        && b.mempool().pool()[k] == a.mempool().pool()[k]
}

/// The tagged hashes the messages of a list announce as new blocks.
pub open spec fn announced_in(msgs: Seq<Message>) -> Seq<VersaHash>
    decreases msgs.len(),
{
    if msgs.len() == 0 {
        Seq::empty()
    } else {
        announced_in(msgs.drop_last()) + announce_list(Some(msgs.last()))
    }
}

/// The symbol indexes the messages of a list announce as new symbols.
pub open spec fn symbols_in(msgs: Seq<Message>) -> Seq<SymbolIndex>
    decreases msgs.len(),
{
    if msgs.len() == 0 {
        Seq::empty()
    } else {
        symbols_in(msgs.drop_last()) + symbol_list(Some(msgs.last()))
    }
}

/// The symbol indexes the messages of a list ask for.
pub open spec fn requests_in(msgs: Seq<Message>) -> Seq<SymbolIndex>
    decreases msgs.len(),
{
    if msgs.len() == 0 {
        Seq::empty()
    } else {
        requests_in(msgs.drop_last()) + request_list(Some(msgs.last()))
    }
}

/// The tagged hashes the messages of a list ask for as missing blocks.
pub open spec fn missing_in(msgs: Seq<Message>) -> Seq<VersaHash>
    decreases msgs.len(),
{
    if msgs.len() == 0 {
        Seq::empty()
    } else {
        missing_in(msgs.drop_last()) + missing_list(Some(msgs.last()))
    }
}

/// What taking blocks guarantees (see `handle_blocks`): each block taken to
/// insertion with a held parent is held after; what became held is
/// announced in `out`; an availability block whose symbols are not all in
/// waits, with its commitments requested and its missing symbols asked for
/// in `out`; a block whose condition is not met is not taken; the parents
/// still missing of a block taken are asked for in `reply`; a new proposer
/// block with a held parent has its commitments requested.
pub open spec fn blocks_taken(
    a: WorkerState,
    b: WorkerState,
    blocks: Seq<VersaBlock>,
    reply: Seq<Message>,
    out: Seq<Message>,
) -> bool {
    &&& announced(a.multichain(), b.multichain(), announced_in(out))
    &&& forall|j: int| 0 <= j < blocks.len() && versa_hash_valid(#[trigger] blocks[j]@) && block_ready(a, blocks[j]@)
        && some_parent_held(a.multichain(), blocks[j]@) && no_twin(blocks, j) ==> held_in(b.multichain(), tag_of(blocks[j]@))
    &&& forall|j: int| 0 <= j < blocks.len() && versa_hash_valid(#[trigger] blocks[j]@) && crate::multichain::is_avai(blocks[j]@)
        && first_of_hash(blocks, j) && !a.waiting().contains(versa_hash_of(blocks[j]@)) && !cmts_complete(
        b.symbolpool(),
        versa_tx_blocks(blocks[j]@),
    ) ==> avai_asked(b, blocks[j]@, requests_in(out))
    &&& forall|j: int| 0 <= j < blocks.len() && versa_hash_valid(#[trigger] blocks[j]@) && unique_hash(blocks, j)
        && !a.buffered().contains(versa_hash_of(blocks[j]@)) && !held_in(a.multichain(), tag_of(blocks[j]@)) && !passes(
        b,
        blocks[j]@,
    ) ==> !held_in(b.multichain(), tag_of(blocks[j]@))
    &&& forall|j: int| 0 <= j < blocks.len() && versa_hash_valid(#[trigger] blocks[j]@) && block_ready(a, blocks[j]@)
        && no_twin(blocks, j) ==> parents_reported(b.multichain(), blocks[j]@, missing_in(reply))
    &&& forall|j: int| 0 <= j < blocks.len() && versa_hash_valid(#[trigger] blocks[j]@) && blocks[j]@ is Prop && unique_hash(
        blocks,
        j,
    ) && !a.buffered().contains(versa_hash_of(blocks[j]@)) && !held_in(a.multichain(), tag_of(blocks[j]@))
        && some_parent_held(a.multichain(), blocks[j]@) ==> cmts_requested(b.symbolpool(), versa_tx_blocks(blocks[j]@))
}

/// What taking symbols guarantees (see `handle_symbols`): each fresh symbol
/// is held after and announced in `out`; what became held of the chains is
/// announced there too; and when a symbol completes its commitment, each
/// block that waited for that commitment alone, with a held parent, is held
/// after and no longer waits.
pub open spec fn symbols_taken(a: WorkerState, b: WorkerState, symbols: Seq<Symbol>, out: Seq<Message>) -> bool {
    &&& announced(a.multichain(), b.multichain(), announced_in(out))
    &&& forall|j: int| 0 <= j < symbols.len() && fresh_symbol(a.symbolpool(), #[trigger] symbols[j]@) ==> {
        &&& b.symbolpool().held(symbols[j]@.index.root, symbols[j]@.index.index)
        &&& key_listed(symbols_in(out), symbols[j]@.index)
    }
    &&& forall|j: int, v: VersaModel|
        0 <= j < symbols.len() && #[trigger] completes(a.symbolpool(), symbols, j) && #[trigger] released_by(
            a,
            symbols[j]@.index.root,
            v,
        ) ==> {
            &&& held_in(b.multichain(), tag_of(v))
            &&& !b.waiting().contains(versa_hash_of(v))
            &&& held_in(a.multichain(), tag_of(v)) || exists|k: int| 0 <= k < announced_in(out).len() && same_place(
                announced_in(out)[k],
                tag_of(v),
            )
        }
}

/// The tagged hashes a message announces as new blocks.
pub open spec fn announce_list(o: Option<Message>) -> Seq<VersaHash> {
    match o {
        Some(Message::NewBlockHash(v)) => v@,
        _ => Seq::empty(),
    }
}

/// Whether two lists of confirmed blocks share an element.
fn overlapping(a: &Vec<(H256, u32)>, b: &Vec<(H256, u32)>) -> (r: bool)
    ensures
        r == shares_item(a@, b@),
{
    let mut i: usize = 0;
    while i < b.len()
        invariant
            i <= b@.len(),
            forall|x: int, y: int| 0 <= x < a@.len() && 0 <= y < i ==> a@[x] != b@[y],
        decreases b@.len() - i,
    {
        let mut j: usize = 0;
        while j < a.len()
            invariant
                j <= a@.len(),
                i < b@.len(),
                forall|x: int, y: int| 0 <= x < a@.len() && 0 <= y < i ==> a@[x] != b@[y],
                forall|x: int| 0 <= x < j ==> a@[x] != b@[i as int],
            decreases a@.len() - j,
        {
            if a[j].0.equals(&b[i].0) && a[j].1 == b[i].1 {
                assert(a@[j as int] == b@[i as int]);
                return true;
            }
            j = j + 1;
        }
        i = i + 1;
    }
    false
}

impl WorkerState {
    pub closed spec fn multichain(&self) -> Multichain {
        self.multichain
    }

    pub closed spec fn mempool(&self) -> Mempool {
        self.mempool
    }

    pub closed spec fn symbolpool(&self) -> SymbolPool {
        self.symbolpool
    }

    pub closed spec fn config_of(&self) -> Configuration {
        self.config
    }

    /// The hashes of the availability blocks waiting for symbols.
    pub closed spec fn waiting(&self) -> Seq<H256> {
        self.unavailable_avai_block2cmts@.map_values(|e: (H256, Vec<H256>)| e.0)
    }

    /// Whether block `v` waits in the buffer for the parent `key`.
    pub closed spec fn buffer_holds(&self, key: VersaHash, v: VersaModel) -> bool {
        exists|i: int, k: int|
            0 <= i < self.blk_buff@.len() && self.blk_buff@[i].0 == key && 0 <= k < self.blk_buff@[i].1@.len()
                && #[trigger] self.blk_buff@[i].1@[k]@ == v
    }

    /// The hashes of the blocks waiting for a parent.
    pub closed spec fn buffered(&self) -> Set<H256> {
        buff_hashes(self.blk_buff@)
    }

    /// Each availability block waiting for symbols, by hash, with the
    /// commitments it waits for.
    pub closed spec fn waiting_entries(&self) -> Seq<(H256, Seq<H256>)> {
        self.unavailable_avai_block2cmts@.map_values(|e: (H256, Vec<H256>)| (e.0, e.1@))
    }

    /// Each commitment availability blocks wait for, with those blocks.
    pub closed spec fn waiter_lists(&self) -> Seq<(H256, Seq<VersaModel>)> {
        self.unavailable_cmt2avai_blocks@.map_values(
            |e: (H256, Vec<VersaBlock>)| (e.0, e.1@.map_values(|b: VersaBlock| b@)),
        )
    }

    /// The commitments availability blocks wait for.
    pub closed spec fn cmt_keys(&self) -> Seq<H256> {
        self.unavailable_cmt2avai_blocks@.map_values(|e: (H256, Vec<VersaBlock>)| e.0)
    }

    /// A node's chains are well formed.
    proof fn lemma_multichain_wf(&self)
        requires
            self.wf(),
        ensures
            self.multichain().wf(),
    {
    }

    /// The chains and the pools are well formed, share the node's
    /// configuration, and every availability chain of the node's shards
    /// exists.
    pub closed spec fn wf(&self) -> bool {
        &&& self.multichain.wf()
        &&& self.mempool.wf()
        &&& self.multichain.config_of() == self.config
        &&& self.symbolpool.config_of() == self.config
        &&& self.config.shard_num <= self.multichain.avai_chains().len()
        &&& self.config.ex_req_num <= isize::MAX / 8
        &&& self.config.in_req_num <= isize::MAX / 8
        &&& forall|i: int, j: int| 0 <= i < self.unavailable_avai_block2cmts@.len()
            && 0 <= j < self.unavailable_avai_block2cmts@[i].1@.len() ==> #[trigger] self.symbolpool.requested().contains_key(
            self.unavailable_avai_block2cmts@[i].1@[j],
        )
        &&& self.waiting().no_duplicates()
        &&& self.cmt_keys().no_duplicates()
    }

    /// A node's state with empty buffers.
    pub fn new(multichain: Multichain, mempool: Mempool, symbolpool: SymbolPool, config: &Configuration) -> (w: Self)
        requires
            multichain.wf(),
            mempool.wf(),
            multichain.config_of() == *config,
            symbolpool.config_of() == *config,
            config.shard_num <= multichain.avai_chains().len(),
            config.ex_req_num <= isize::MAX / 8,
            config.in_req_num <= isize::MAX / 8,
        ensures
            w.wf(),
            w.multichain() == multichain,
            w.mempool() == mempool,
            w.symbolpool() == symbolpool,
            w.config_of() == *config,
    {
        WorkerState {
            multichain,
            mempool,
            symbolpool,
            config: *config,
            blk_buff: Vec::new(),
            unavailable_cmt2avai_blocks: Vec::new(),
            unavailable_avai_block2cmts: Vec::new(),
        }
    }

    /// The chains.
    pub fn get_multichain(&self) -> (r: &Multichain)
        ensures
            *r == self.multichain(),
    {
        &self.multichain
    }

    /// The pool of transaction blocks.
    pub fn get_mempool(&self) -> (r: &Mempool)
        ensures
            *r == self.mempool(),
    {
        &self.mempool
    }

    /// The pool of symbols.
    pub fn get_symbolpool(&self) -> (r: &SymbolPool)
        ensures
            *r == self.symbolpool(),
    {
        &self.symbolpool
    }

    /// Whether the pool or the longest proposer chain holds the transaction
    /// block `h`.
    fn tx_known(&self, h: &H256) -> (b: bool)
        requires
            self.wf(),
        ensures
            b == (tx_lookup(self.mempool().pool(), self.multichain(), *h) is Some),
    {
        if self.mempool.check(h) {
            return true;
        }
        self.multichain.get_tx_blk_in_longest_proposer_chain(h).is_some()
    }

    /// On hashes of transaction blocks: asks for those neither the pool nor
    /// the longest proposer chain holds.
    pub fn handle_new_tx_blk_hash(&self, tx_blk_hashes: Vec<H256>) -> (r: Option<Message>)
        requires
            self.wf(),
        ensures
            new_tx_blk_hash_answer(*self, tx_blk_hashes@, opt_msgs(r)),
            r matches Some(Message::GetTxBlocks(v)) ==> forall|i: int| 0 <= i < v@.len() ==> !self.mempool().pool().contains_key(
                #[trigger] v@[i],
            ) && !chain_links(self.multichain(), v@[i]),
            forall|i: int| 0 <= i < tx_blk_hashes@.len() && !self.mempool().pool().contains_key(#[trigger] tx_blk_hashes@[i])
                && !chain_links(self.multichain(), tx_blk_hashes@[i]) ==> (r matches Some(Message::GetTxBlocks(v))
                && v@.contains(tx_blk_hashes@[i])),
    {
        let ghost s = tx_blk_hashes@;
        let mut unreceived: Vec<H256> = Vec::new();
        let mut i: usize = 0;
        while i < tx_blk_hashes.len()
            invariant
                self.wf(),
                i <= s.len(),
                s == tx_blk_hashes@,
                unreceived@ == s.subrange(0, i as int).filter(
                    |h: H256| tx_lookup(self.mempool().pool(), self.multichain(), h) is None,
                ),
            decreases s.len() - i,
        {
            proof {
                reveal(Seq::filter);
            }
            assert(s.subrange(0, i + 1).drop_last() =~= s.subrange(0, i as int));
            assert(s.subrange(0, i + 1).last() == s[i as int]);
            if !self.tx_known(&tx_blk_hashes[i]) {
                unreceived.push(tx_blk_hashes[i]);
            }
            i = i + 1;
        }
        assert(s.subrange(0, i as int) =~= s);
        let r = if unreceived.len() > 0 {
            Some(Message::GetTxBlocks(unreceived))
        } else {
            None
        };
        proof {
            law_tx_announce_answer(*self, s, opt_msgs(r));
        }
        r
    }

    /// On a request for transaction blocks: answers with those the pool or
    /// the longest proposer chain holds.
    pub fn handle_get_tx_blks(&self, tx_blk_hashes: Vec<H256>) -> (r: Option<Message>)
        requires
            self.wf(),
        ensures
            get_tx_blks_answer(*self, tx_blk_hashes@, opt_msgs(r)),
            r is None <==> forall|i: int| 0 <= i < tx_blk_hashes@.len() ==> !self.mempool().pool().contains_key(
                #[trigger] tx_blk_hashes@[i],
            ) && !chain_links(self.multichain(), tx_blk_hashes@[i]),
    {
        let ghost s = tx_blk_hashes@;
        let mut res: Vec<TransactionBlock> = Vec::new();
        let mut i: usize = 0;
        while i < tx_blk_hashes.len()
            invariant
                self.wf(),
                i <= s.len(),
                s == tx_blk_hashes@,
                tx_block_views(res@) == s.subrange(0, i as int).filter_map(
                    |h: H256| tx_lookup(self.mempool().pool(), self.multichain(), h),
                ),
            decreases s.len() - i,
        {
            assert(s.subrange(0, i + 1).drop_last() =~= s.subrange(0, i as int));
            assert(s.subrange(0, i + 1).last() == s[i as int]);
            match self.mempool.get_tx_blk(&tx_blk_hashes[i]) {
                Some(blk) => {
                    res.push(blk);
                    assert(tx_block_views(res@) =~= s.subrange(0, i + 1).filter_map(
                        |h: H256| tx_lookup(self.mempool().pool(), self.multichain(), h),
                    ));
                },
                None => {
                    match self.multichain.get_tx_blk_in_longest_proposer_chain(&tx_blk_hashes[i]) {
                        Some(blk) => {
                            res.push(blk);
                            assert(tx_block_views(res@) =~= s.subrange(0, i + 1).filter_map(
                                |h: H256| tx_lookup(self.mempool().pool(), self.multichain(), h),
                            ));
                        },
                        None => {},
                    }
                },
            }
            i = i + 1;
        }
        assert(s.subrange(0, i as int) =~= s);
        let r = if res.len() > 0 {
            Some(Message::TxBlocks(res))
        } else {
            None
        };
        proof {
            law_tx_request_answer(*self, s, opt_msgs(r));
        }
        r
    }

    /// On transaction blocks: takes into the pool those that are new, and
    /// announces their hashes.
    pub fn handle_tx_blocks(&mut self, tx_blks: Vec<TransactionBlock>) -> (r: Option<Message>)
        requires
            old(self).wf(),
        ensures
            final(self).wf(),
            final(self).multichain() == old(self).multichain(),
            final(self).symbolpool() == old(self).symbolpool(),
            tx_blocks_taken(*old(self), *final(self), tx_block_views(tx_blks@), opt_msgs(r)),
    {
        let ghost s = tx_block_views(tx_blks@);
        let ghost chain = chain_tx_blocks(self.multichain);
        let ghost p0 = self.mempool.pool();
        let ghost total = intake(pooled(p0), chain, s);
        let mut new_hashes: Vec<H256> = Vec::new();
        let mut i: usize = 0;
        assert(s.subrange(0, s.len() as int) =~= s);
        assert(pooled(p0) + Seq::<Seq<u8>>::empty().to_set() =~= pooled(p0));
        while i < tx_blks.len()
            invariant
                self.wf(),
                i <= s.len(),
                s == tx_block_views(tx_blks@),
                chain == chain_tx_blocks(self.multichain),
                self.multichain == old(self).multichain,
                self.symbolpool == old(self).symbolpool,
                p0 == old(self).mempool().pool(),
                total == intake(pooled(p0), chain, s),
                total == new_hashes@.map_values(|k: H256| k@) + intake(pooled(self.mempool.pool()), chain, s.subrange(i as int, s.len() as int)),
                pooled(self.mempool.pool()) == pooled(p0) + new_hashes@.map_values(|k: H256| k@).to_set(),
                forall|k: H256| #[trigger] p0.contains_key(k) ==> self.mempool.pool().contains_key(k)
                    && self.mempool.pool()[k] == p0[k],
            decreases s.len() - i,
        {
            let ghost rest = s.subrange(i as int, s.len() as int);
            let ghost before = self.mempool.pool();
            let ghost nh = new_hashes@;
            assert(rest[0] == tx_blks@[i as int]@);
            assert(rest.drop_first() =~= s.subrange(i + 1, s.len() as int));
            let blk = &tx_blks[i];
            let hash = blk.hash();
            proof {
                assert(pooled(before).contains(hash@) <==> before.contains_key(hash)) by {
                    if pooled(before).contains(hash@) {
                        let k = choose|k: H256| before.contains_key(k) && k@ == hash@;
                        crate::hash::lemma_h256_view_eq(k, hash);
                    }
                }
            }
            proof {
                lemma_intake_step(total, nh.map_values(|k: H256| k@), pooled(before), chain, rest);
            }
            if self.mempool.get_tx_blk(&hash).is_some() {
            } else if self.multichain.get_tx_blk_in_longest_proposer_chain(&hash).is_some() {
            } else {
                new_hashes.push(hash);
                let inserted = self.mempool.insert_tx_blk(blk.clone());
                proof {
                    let after = self.mempool.pool();
                    assert(new_hashes@.map_values(|k: H256| k@) =~= nh.map_values(|k: H256| k@).push(hash@));
                    let k = choose|k: H256| k@ == hash@ && after == before.insert(k, blk@);
                    crate::hash::lemma_h256_view_eq(k, hash);
                    lemma_pooled_insert(before, hash, blk@);
                    lemma_push_to_set(nh.map_values(|k: H256| k@), hash@);
                    assert(pooled(after) =~= pooled(p0) + new_hashes@.map_values(|k: H256| k@).to_set());
                }
            }
            i = i + 1;
        }
        proof {
            assert(s.subrange(i as int, s.len() as int) =~= Seq::<TxBlockModel>::empty());
            assert(total =~= new_hashes@.map_values(|k: H256| k@));
        }
        if new_hashes.len() > 0 {
            Some(Message::NewTxBlockHash(new_hashes))
        } else {
            None
        }
    }

    /// The first of the node's shards whose availability chain holds `h`.
    fn find_shard(&self, h: &H256) -> (r: Option<usize>)
        requires
            self.wf(),
        ensures
            r matches Some(i) ==> first_shard_with(self.multichain(), self.config_of().shard_num as int, *h) == Some(i as int)
                && i < self.config_of().shard_num && self.multichain().avai_chains()[i as int].blocks().contains_key(*h),
            r is None ==> first_shard_with(self.multichain(), self.config_of().shard_num as int, *h) is None,
    {
        let mut i: usize = 0;
        while i < self.config.shard_num
            invariant
                self.wf(),
                i <= self.config_of().shard_num,
                first_shard_with(self.multichain(), i as int, *h) is None,
            decreases self.config_of().shard_num - i,
        {
            if self.multichain.get_avai_block_by_shard(h, i).is_some() {
                proof {
                    lemma_first_shard_extend(self.multichain, i + 1, self.config.shard_num as int, *h);
                }
                return Some(i);
            }
            i = i + 1;
        }
        None
    }

    /// Whether the chains hold the block a tagged hash names.
    fn block_known(&self, vh: &VersaHash) -> (b: bool)
        requires
            self.wf(),
        ensures
            b == (block_lookup(self.multichain(), *vh) is Some),
    {
        match vh {
            VersaHash::OrderHash(h) => self.multichain.get_order_block(h).is_some(),
            VersaHash::PropHash(h) => self.multichain.get_prop_block(h).is_some(),
            VersaHash::ExHash(h) => self.find_shard(h).is_some(),
            VersaHash::InHash(h) => self.find_shard(h).is_some(),
        }
    }

    /// A copy of the block a tagged hash names.
    fn lookup_block(&self, vh: &VersaHash) -> (r: Option<VersaBlock>)
        requires
            self.wf(),
        ensures
            r is Some <==> block_lookup(self.multichain(), *vh) is Some,
            r matches Some(b) ==> block_lookup(self.multichain(), *vh) == Some(b@),
    {
        match vh {
            VersaHash::OrderHash(h) => match self.multichain.get_order_block(h) {
                Some(b) => Some(VersaBlock::OrderBlock(b)),
                None => None,
            },
            VersaHash::PropHash(h) => match self.multichain.get_prop_block(h) {
                Some(b) => Some(VersaBlock::PropBlock(b)),
                None => None,
            },
            VersaHash::ExHash(h) => match self.find_shard(h) {
                Some(i) => match self.multichain.get_avai_block_by_shard(h, i) {
                    Some(b) => Some(VersaBlock::ExAvaiBlock(b)),
                    None => None,
                },
                None => None,
            },
            VersaHash::InHash(h) => match self.find_shard(h) {
                Some(i) => match self.multichain.get_avai_block_by_shard(h, i) {
                    Some(b) => Some(VersaBlock::InAvaiBlock(b)),
                    None => None,
                },
                None => None,
            },
        }
    }

    /// On hashes of blocks: asks for those the chains do not hold.
    pub fn handle_new_block_hash(&self, block_hash_vec: Vec<VersaHash>) -> (r: Option<Message>)
        requires
            self.wf(),
        ensures
            new_block_hash_answer(*self, block_hash_vec@, opt_msgs(r)),
    {
        let ghost s = block_hash_vec@;
        let mut unreceived: Vec<VersaHash> = Vec::new();
        let mut i: usize = 0;
        while i < block_hash_vec.len()
            invariant
                self.wf(),
                i <= s.len(),
                s == block_hash_vec@,
                unreceived@ == s.subrange(0, i as int).filter(|vh: VersaHash| block_lookup(self.multichain(), vh) is None),
            decreases s.len() - i,
        {
            proof {
                reveal(Seq::filter);
            }
            assert(s.subrange(0, i + 1).drop_last() =~= s.subrange(0, i as int));
            assert(s.subrange(0, i + 1).last() == s[i as int]);
            if !self.block_known(&block_hash_vec[i]) {
                unreceived.push(block_hash_vec[i]);
            }
            i = i + 1;
        }
        assert(s.subrange(0, i as int) =~= s);
        if unreceived.len() > 0 {
            Some(Message::GetBlocks(unreceived))
        } else {
            None
        }
    }

    /// On a request for blocks: answers with those the chains hold.
    pub fn handle_get_blocks(&self, hash_vec: Vec<VersaHash>) -> (r: Option<Message>)
        requires
            self.wf(),
        ensures
            get_blocks_answer(*self, hash_vec@, opt_msgs(r)),
    {
        let ghost s = hash_vec@;
        let mut res: Vec<VersaBlock> = Vec::new();
        let mut i: usize = 0;
        while i < hash_vec.len()
            invariant
                self.wf(),
                i <= s.len(),
                s == hash_vec@,
                res@.map_values(|b: VersaBlock| b@) == s.subrange(0, i as int).filter_map(
                    |vh: VersaHash| block_lookup(self.multichain(), vh),
                ),
            decreases s.len() - i,
        {
            assert(s.subrange(0, i + 1).drop_last() =~= s.subrange(0, i as int));
            assert(s.subrange(0, i + 1).last() == s[i as int]);
            match self.lookup_block(&hash_vec[i]) {
                Some(b) => {
                    res.push(b);
                    assert(res@.map_values(|b: VersaBlock| b@) =~= s.subrange(0, i + 1).filter_map(
                        |vh: VersaHash| block_lookup(self.multichain(), vh),
                    ));
                },
                None => {},
            }
            i = i + 1;
        }
        assert(s.subrange(0, i as int) =~= s);
        if res.len() > 0 {
            Some(Message::Blocks(res))
        } else {
            None
        }
    }

    /// On indexes of symbols: asks for those the pool requested and does
    /// not hold.
    pub fn handle_new_symbols(&self, symbol_indexs: Vec<SymbolIndex>) -> (r: Option<Message>)
        requires
            self.wf(),
        ensures
            new_symbols_answer(*self, symbol_indexs@, opt_msgs(r)),
            r matches Some(Message::GetSymbols(v)) ==> forall|i: int| 0 <= i < v@.len() ==> !self.symbolpool().held(
                #[trigger] v@[i].root,
                v@[i].index,
            ),
            forall|i: int|
                0 <= i < symbol_indexs@.len() && self.symbolpool().requested().contains_key(#[trigger] symbol_indexs@[i].root)
                    && self.symbolpool().requested()[symbol_indexs@[i].root].contains(symbol_indexs@[i].index as usize)
                    && !self.symbolpool().held(symbol_indexs@[i].root, symbol_indexs@[i].index) ==> (r matches Some(
                    Message::GetSymbols(v),
                ) && v@.contains(symbol_indexs@[i])),
    {
        let ghost s = symbol_indexs@;
        let mut unreceived: Vec<SymbolIndex> = Vec::new();
        let mut i: usize = 0;
        while i < symbol_indexs.len()
            invariant
                self.wf(),
                i <= s.len(),
                s == symbol_indexs@,
                unreceived@ == s.subrange(0, i as int).filter(|i: SymbolIndex| symbol_wanted(self.symbolpool(), i)),
            decreases s.len() - i,
        {
            proof {
                reveal(Seq::filter);
            }
            assert(s.subrange(0, i + 1).drop_last() =~= s.subrange(0, i as int));
            assert(s.subrange(0, i + 1).last() == s[i as int]);
            let index = &symbol_indexs[i];
            if self.symbolpool.check_if_requested(index) {
                if self.symbolpool.get_symbol(index).is_err() {
                    unreceived.push(*index);
                }
            }
            i = i + 1;
        }
        assert(s.subrange(0, i as int) =~= s);
        let r = if unreceived.len() > 0 {
            Some(Message::GetSymbols(unreceived))
        } else {
            None
        };
        proof {
            law_new_symbols_answer(*self, s, opt_msgs(r));
        }
        r
    }

    /// On a request for symbols: answers with those the pool holds.
    pub fn handle_get_symbols(&self, symbol_indexs: Vec<SymbolIndex>) -> (r: Option<Message>)
        requires
            self.wf(),
        ensures
            get_symbols_answer(*self, symbol_indexs@, opt_msgs(r)),
    {
        let ghost s = symbol_indexs@;
        let mut res: Vec<Symbol> = Vec::new();
        let mut i: usize = 0;
        while i < symbol_indexs.len()
            invariant
                self.wf(),
                i <= s.len(),
                s == symbol_indexs@,
                res@.map_values(|x: Symbol| x@) == s.subrange(0, i as int).filter_map(
                    |i: SymbolIndex| symbol_lookup(self.symbolpool(), i),
                ),
            decreases s.len() - i,
        {
            assert(s.subrange(0, i + 1).drop_last() =~= s.subrange(0, i as int));
            assert(s.subrange(0, i + 1).last() == s[i as int]);
            let index = &symbol_indexs[i];
            match self.symbolpool.get_symbol(index) {
                Ok(sym) => {
                    proof {
                        let p = self.symbolpool;
                        let k = choose|k: H256| #[trigger] p.symbols().contains_key(k) && k@ == index_key(index.root, index.index)
                            && sym@ == p.symbols()[k];
                        let c = choose|k: H256| p.symbols().contains_key(k) && k@ == index_key(index.root, index.index);
                        crate::hash::lemma_h256_view_eq(k, c);
                    }
                    res.push(sym);
                    assert(res@.map_values(|x: Symbol| x@) =~= s.subrange(0, i + 1).filter_map(
                        |i: SymbolIndex| symbol_lookup(self.symbolpool(), i),
                    ));
                },
                Err(_) => {},
            }
            i = i + 1;
        }
        assert(s.subrange(0, i as int) =~= s);
        if res.len() > 0 {
            Some(Message::Symbols(res))
        } else {
            None
        }
    }

    /// Whether the chains accept inserting `block` under `parent` for
    /// `shard_id` (see `insert_allowed`).
    fn insert_allowed_now(&self, block: &VersaBlock, parent: &VersaHash, shard_id: usize) -> (b: bool)
        requires
            self.wf(),
        ensures
            b == crate::multichain::insert_allowed(self.multichain(), *block, *parent, shard_id),
    {
        let n = self.multichain.get_num_avai_chains();
        let own = self.config.shard_id;
        let h = block.hash_value();
        let ps = block.parents();
        proof {
            crate::multichain::law_chains_wf(&self.multichain);
        }
        match parent {
            VersaHash::PropHash(p) => {
                let takes = self.multichain.get_prop_block(&h).is_none() && contains_hash(&ps, p)
                    && self.multichain.get_prop_block(p).is_some();
                !takes || block.is_prop_block()
            },
            VersaHash::OrderHash(p) => {
                let takes = self.multichain.get_order_block(&h).is_none() && contains_hash(&ps, p)
                    && self.multichain.get_order_block(p).is_some();
                !takes || block.is_order_block()
            },
            VersaHash::ExHash(p) => match block.get_shard_id() {
                Some(i) => {
                    if i < n {
                        let takes = self.multichain.get_avai_block_by_shard(&h, i).is_none() && contains_hash(&ps, p)
                            && self.multichain.get_avai_block_by_shard(p, i).is_some();
                        !takes || ((i == own) == (shard_id == own))
                    } else {
                        false
                    }
                },
                None => false,
            },
            VersaHash::InHash(p) => {
                if shard_id < n {
                    let takes = self.multichain.get_avai_block_by_shard(&h, shard_id).is_none() && contains_hash(&ps, p)
                        && self.multichain.get_avai_block_by_shard(p, shard_id).is_some();
                    !takes || block.get_shard_id().is_some()
                } else {
                    false
                }
            },
        }
    }

    /// Keeps `block` until its parent `key` arrives, once.
    fn buffer_block(&mut self, key: &VersaHash, block: &VersaBlock)
        requires
            old(self).wf(),
        ensures
            final(self).wf(),
            final(self).multichain() == old(self).multichain(),
            final(self).mempool() == old(self).mempool(),
            final(self).symbolpool() == old(self).symbolpool(),
            final(self).config_of() == old(self).config_of(),
            final(self).waiting() == old(self).waiting(),
            forall|x: H256| #[trigger] final(self).buffered().contains(x) ==> old(self).buffered().contains(x) || x
                == versa_hash_of(block@),
            final(self).unavailable_avai_block2cmts == old(self).unavailable_avai_block2cmts,
            final(self).unavailable_cmt2avai_blocks == old(self).unavailable_cmt2avai_blocks,
            final(self).buffer_holds(*key, block@),
            forall|k2: VersaHash, v: VersaModel| #[trigger] old(self).buffer_holds(k2, v) ==> final(self).buffer_holds(k2, v),
    {
        let ghost b0 = self.blk_buff@;
        let mut i: usize = 0;
        while i < self.blk_buff.len()
            invariant
                i <= self.blk_buff@.len(),
                self.wf(),
                self.multichain == old(self).multichain,
                self.mempool == old(self).mempool,
                self.symbolpool == old(self).symbolpool,
                self.config == old(self).config,
                self.unavailable_cmt2avai_blocks == old(self).unavailable_cmt2avai_blocks,
                self.unavailable_avai_block2cmts == old(self).unavailable_avai_block2cmts,
                self.blk_buff == old(self).blk_buff,
                b0 == old(self).blk_buff@,
            decreases self.blk_buff@.len() - i,
        {
            if self.blk_buff[i].0.equals(key) {
                let mut entry = self.blk_buff.remove(i);
                let ghost e0 = entry.1@;
                let contains_before = contains_block(&entry.1, block);
                if !contains_before {
                    entry.1.push(block.clone());
                }
                let ghost e1 = entry.1@;
                self.blk_buff.insert(i, entry);
                proof {
                    let b1 = self.blk_buff@;
                    assert(b1 =~= b0.update(i as int, b1[i as int]));
                    assert(e0 == b0[i as int].1@);
                    if contains_before {
                        let k = choose|k: int| 0 <= k < e0.len() && e0[k]@ == block@;
                        assert(b1[i as int].1@[k] == e0[k]);
                    } else {
                        assert(b1[i as int].1@[e0.len() as int]@ == block@);
                    }
                    assert(b1[i as int].0 == *key);
                    assert forall|k2: VersaHash, v: VersaModel| #[trigger] old(self).buffer_holds(k2, v) implies self.buffer_holds(
                        k2,
                        v,
                    ) by {
                        let (a, k) = choose|a: int, k: int|
                            0 <= a < b0.len() && b0[a].0 == k2 && 0 <= k < b0[a].1@.len() && #[trigger] b0[a].1@[k]@ == v;
                        if a != i {
                            assert(b1[a] == b0[a]);
                        } else {
                            assert(b1[a].1@[k] == e0[k]);
                        }
                    }
                    assert forall|x: H256| #[trigger] buff_hashes(b1).contains(x) implies buff_hashes(b0).contains(x) || x
                        == versa_hash_of(block@) by {
                        let (a, k) = choose|a: int, k: int|
                            0 <= a < b1.len() && 0 <= k < b1[a].1@.len() && #[trigger] versa_hash_of(b1[a].1@[k]@) == x;
                        if a != i {
                            assert(b1[a] == b0[a]);
                            assert(versa_hash_of(b0[a].1@[k]@) == x);
                        } else if k < e0.len() {
                            assert(b1[a].1@[k] == e0[k]);
                            assert(versa_hash_of(b0[a].1@[k]@) == x);
                        } else {
                            assert(b1[a].1@[k]@ == block@);
                        }
                    }
                }
                return;
            }
            i = i + 1;
        }
        let mut v: Vec<VersaBlock> = Vec::new();
        v.push(block.clone());
        self.blk_buff.push((*key, v));
        proof {
            let b1 = self.blk_buff@;
            assert(b1[b0.len() as int].1@[0]@ == block@);
            assert forall|k2: VersaHash, v: VersaModel| #[trigger] old(self).buffer_holds(k2, v) implies self.buffer_holds(k2, v) by {
                let (a, k) = choose|a: int, k: int|
                    0 <= a < b0.len() && b0[a].0 == k2 && 0 <= k < b0[a].1@.len() && #[trigger] b0[a].1@[k]@ == v;
                assert(b1[a] == b0[a]);
            }
            assert forall|x: H256| #[trigger] buff_hashes(b1).contains(x) implies buff_hashes(b0).contains(x) || x
                == versa_hash_of(block@) by {
                let (a, k) = choose|a: int, k: int|
                    0 <= a < b1.len() && 0 <= k < b1[a].1@.len() && #[trigger] versa_hash_of(b1[a].1@[k]@) == x;
                if a < b0.len() {
                    assert(b1[a] == b0[a]);
                    assert(versa_hash_of(b0[a].1@[k]@) == x);
                } else {
                    assert(b1[a].1@[k]@ == block@);
                }
            }
        }
    }

    /// Takes out the blocks waiting for the parent `key`.
    fn take_buffered(&mut self, key: &VersaHash) -> (r: Option<Vec<VersaBlock>>)
        requires
            old(self).wf(),
        ensures
            final(self).wf(),
            final(self).multichain() == old(self).multichain(),
            final(self).mempool() == old(self).mempool(),
            final(self).symbolpool() == old(self).symbolpool(),
            final(self).config_of() == old(self).config_of(),
            r matches Some(v) ==> buff_size(final(self).blk_buff@) + v@.len() == buff_size(old(self).blk_buff@),
            r is None ==> final(self).blk_buff@ == old(self).blk_buff@,
            final(self).waiting() == old(self).waiting(),
            forall|x: H256| #[trigger] final(self).buffered().contains(x) ==> old(self).buffered().contains(x),
            forall|k2: VersaHash, v: VersaModel| k2 != *key && #[trigger] old(self).buffer_holds(k2, v)
                ==> final(self).buffer_holds(k2, v),
            r matches Some(v) ==> forall|k: int| 0 <= k < v@.len() ==> old(self).buffered().contains(
                #[trigger] versa_hash_of(v@[k]@),
            ),
            final(self).unavailable_avai_block2cmts == old(self).unavailable_avai_block2cmts,
            final(self).unavailable_cmt2avai_blocks == old(self).unavailable_cmt2avai_blocks,
    {
        let mut i: usize = 0;
        while i < self.blk_buff.len()
            invariant
                i <= self.blk_buff@.len(),
                self.wf(),
                self.multichain == old(self).multichain,
                self.mempool == old(self).mempool,
                self.symbolpool == old(self).symbolpool,
                self.config == old(self).config,
                self.unavailable_cmt2avai_blocks == old(self).unavailable_cmt2avai_blocks,
                self.unavailable_avai_block2cmts == old(self).unavailable_avai_block2cmts,
                self.blk_buff == old(self).blk_buff,
            decreases self.blk_buff@.len() - i,
        {
            if self.blk_buff[i].0.equals(key) {
                let ghost before = self.blk_buff@;
                let entry = self.blk_buff.remove(i);
                proof {
                    lemma_buff_size_remove(before, i as int);
                    let b1 = self.blk_buff@;
                    assert(b1 =~= before.remove(i as int));
                    assert forall|x: H256| #[trigger] buff_hashes(b1).contains(x) implies buff_hashes(before).contains(x) by {
                        let (a, k) = choose|a: int, k: int|
                            0 <= a < b1.len() && 0 <= k < b1[a].1@.len() && #[trigger] versa_hash_of(b1[a].1@[k]@) == x;
                        let a2 = if a < i { a } else { a + 1 };
                        assert(b1[a] == before[a2]);
                        assert(versa_hash_of(before[a2].1@[k]@) == x);
                    }
                    assert forall|k2: VersaHash, v: VersaModel| k2 != *key && #[trigger] old(self).buffer_holds(k2, v) implies self.buffer_holds(
                        k2,
                        v,
                    ) by {
                        let (a, k) = choose|a: int, k: int|
                            0 <= a < before.len() && before[a].0 == k2 && 0 <= k < before[a].1@.len() && #[trigger] before[a].1@[k]@
                                == v;
                        assert(a != i);
                        let a2 = if a < i { a } else { a - 1 };
                        assert(b1[a2] == before[a]);
                    }
                    assert forall|k: int| 0 <= k < entry.1@.len() implies buff_hashes(before).contains(
                        #[trigger] versa_hash_of(entry.1@[k]@),
                    ) by {
                        assert(entry == before[i as int]);
                        assert(versa_hash_of(before[i as int].1@[k]@) == versa_hash_of(entry.1@[k]@));
                    }
                }
                return Some(entry.1);
            }
            i = i + 1;
        }
        None
    }

    /// Whether the chains hold the parent `parent` for the given shard (an
    /// availability parent of a shard the node does not have is missing).
    fn parent_known(&self, parent: &VersaHash, shard_id: usize) -> (b: bool)
        requires
            self.wf(),
        ensures
            b == parent_held(self.multichain(), *parent, shard_id),
    {
        match parent {
            VersaHash::PropHash(h) => self.multichain.get_prop_block(h).is_some(),
            VersaHash::OrderHash(h) => self.multichain.get_order_block(h).is_some(),
            VersaHash::ExHash(h) | VersaHash::InHash(h) => {
                if shard_id < self.multichain.get_num_avai_chains() {
                    self.multichain.get_avai_block_by_shard(h, shard_id).is_some()
                } else {
                    false
                }
            },
        }
    }

    /// Inserts a block under each of its parents: under a parent the chains
    /// do not hold, the block waits in the buffer and the parent is reported
    /// missing; under one they hold, the block is inserted. After an
    /// insertion the blocks that waited for the inserted one are taken out of
    /// the buffer and retried under the same parent, which the chains refuse
    /// with a wrong-parent error unless such a block names that parent too;
    /// the retries stop at the first failure. Answers the tagged hashes
    /// inserted and the parents missing.
    pub fn insert_block(&mut self, block: VersaBlock) -> (r: (Vec<VersaHash>, Vec<VersaHash>))
        requires
            old(self).wf(),
        ensures
            final(self).wf(),
            chains_grow(old(self).multichain(), final(self).multichain()),
            final(self).mempool() == old(self).mempool(),
            final(self).symbolpool() == old(self).symbolpool(),
            final(self).config_of() == old(self).config_of(),
            forall|i: int| 0 <= i < r.0@.len() ==> #[trigger] held_in(final(self).multichain(), r.0@[i]),
            r.0@.len() > 0 ==> r.0@[0] == tag_of(block@),
            announced(old(self).multichain(), final(self).multichain(), r.0@),
            some_parent_held(old(self).multichain(), block@) ==> held_in(final(self).multichain(), tag_of(block@)),
            some_parent_held(old(self).multichain(), block@) && !held_in(old(self).multichain(), tag_of(block@))
                ==> r.0@.len() > 0,
            r.1@.no_duplicates(),
            forall|i: int| 0 <= i < r.1@.len() ==> parent_tags(block@).contains(#[trigger] r.1@[i]),
            (forall|k: int| 0 <= k < parent_slots(block@).len() ==> !parent_held(
                old(self).multichain(),
                #[trigger] parent_slots(block@)[k].0,
                parent_slots(block@)[k].1,
            )) ==> final(self).multichain() == old(self).multichain() && r.0@.len() == 0 && forall|k: int|
                0 <= k < parent_tags(block@).len() ==> r.1@.contains(#[trigger] parent_tags(block@)[k]),
            final(self).waiting() == old(self).waiting(),
            forall|k: int| 0 <= k < parent_slots(block@).len() && !parent_held(
                final(self).multichain(),
                #[trigger] parent_slots(block@)[k].0,
                parent_slots(block@)[k].1,
            ) ==> r.1@.contains(parent_slots(block@)[k].0),
            forall|x: H256| #[trigger] final(self).buffered().contains(x) ==> old(self).buffered().contains(x) || x
                == versa_hash_of(block@),
            forall|vh: VersaHash| #[trigger] held_in(final(self).multichain(), vh) && !held_in(old(self).multichain(), vh)
                ==> vh.inner() == versa_hash_of(block@) || old(self).buffered().contains(vh.inner()),
            final(self).waiting_entries() == old(self).waiting_entries(),
            forall|k: int| 0 <= k < parent_slots(block@).len() && !held_in(final(self).multichain(), #[trigger] parent_slots(block@)[k].0)
                ==> final(self).buffer_holds(parent_slots(block@)[k].0, block@),
            final(self).waiter_lists() == old(self).waiter_lists(),
    {
        let ghost m0 = self.multichain;
        let parents = parents_with_shard(&block);
        let mut new_hashs: Vec<VersaHash> = Vec::new();
        let mut missing_parents: Vec<VersaHash> = Vec::new();
        let mut p: usize = 0;
        assert(chains_grow(m0, m0));
        while p < parents.len()
            invariant
                self.wf(),
                p <= parents@.len(),
                chains_grow(m0, self.multichain),
                self.mempool == old(self).mempool,
                self.symbolpool == old(self).symbolpool,
                self.config == old(self).config,
                forall|i: int| 0 <= i < new_hashs@.len() ==> #[trigger] held_in(self.multichain, new_hashs@[i]),
                new_hashs@.len() > 0 ==> new_hashs@[0] == tag_of(block@),
                announced(m0, self.multichain, new_hashs@),
                (exists|k: int| 0 <= k < p && parent_held(m0, #[trigger] parents@[k].0, parents@[k].1)) ==> held_in(
                    self.multichain,
                    tag_of(block@),
                ) && (held_in(m0, tag_of(block@)) || new_hashs@.len() > 0),
                missing_parents@.no_duplicates(),
                forall|i: int| 0 <= i < missing_parents@.len() ==> parent_tags(block@).contains(#[trigger] missing_parents@[i]),
                parents@.map_values(|q: (VersaHash, usize)| q.0) == parent_tags(block@),
                parents@ == parent_slots(block@),
                m0 == old(self).multichain,
                self.waiting() == old(self).waiting(),
                self.unavailable_avai_block2cmts == old(self).unavailable_avai_block2cmts,
                self.unavailable_cmt2avai_blocks == old(self).unavailable_cmt2avai_blocks,
                forall|k: int| 0 <= k < p && !held_in(self.multichain, #[trigger] parents@[k].0) ==> self.buffer_holds(
                    parents@[k].0,
                    block@,
                ),
                forall|k: int| 0 <= k < p && !parent_held(self.multichain, #[trigger] parents@[k].0, parents@[k].1)
                    ==> missing_parents@.contains(parents@[k].0),
                forall|x: H256| #[trigger] self.buffered().contains(x) ==> old(self).buffered().contains(x) || x
                    == versa_hash_of(block@),
                forall|vh: VersaHash| #[trigger] held_in(self.multichain, vh) && !held_in(m0, vh) ==> vh.inner()
                    == versa_hash_of(block@) || old(self).buffered().contains(vh.inner()),
                (forall|k: int| 0 <= k < p ==> !parent_held(m0, #[trigger] parents@[k].0, parents@[k].1)) ==> self.multichain
                    == m0 && new_hashs@.len() == 0 && forall|k: int| 0 <= k < p ==> missing_parents@.contains(
                    #[trigger] parent_tags(block@)[k],
                ),
            decreases parents@.len() - p,
        {
            let parent_hash = parents[p].0;
            let inserted_shard_id = parents[p].1;
            let ghost mp0 = missing_parents@;
            let ghost ms = self.multichain;
            proof {
                assert(parents@.map_values(|q: (VersaHash, usize)| q.0)[p as int] == parent_hash);
                assert(parent_tags(block@)[p as int] == parent_hash);
            }
            if !self.parent_known(&parent_hash, inserted_shard_id) {
                let ghost ms_buf = *self;
                self.buffer_block(&parent_hash, &block);
                if !contains_versa_hash(&missing_parents, &parent_hash) {
                    missing_parents.push(parent_hash);
                    proof {
                        assert(missing_parents@[mp0.len() as int] == parent_hash);
                        assert forall|k: int| 0 <= k < mp0.len() implies missing_parents@[k] == mp0[k] by {}
                    }
                }
                proof {
                    assert forall|k: int| 0 <= k < p + 1 && !held_in(self.multichain, #[trigger] parents@[k].0) implies self.buffer_holds(
                        parents@[k].0,
                        block@,
                    ) by {
                        if k < p {
                            assert(ms_buf.buffer_holds(parents@[k].0, block@));
                        }
                    }
                    assert(missing_parents@.contains(parent_hash));
                    assert forall|k: int| 0 <= k < p + 1 && !parent_held(self.multichain, #[trigger] parents@[k].0, parents@[k].1)
                        implies missing_parents@.contains(parents@[k].0) by {
                        if k < p {
                            assert(mp0.contains(parents@[k].0));
                            let x = choose|x: int| 0 <= x < mp0.len() && mp0[x] == parents@[k].0;
                            assert(missing_parents@[x] == mp0[x]);
                        }
                    }
                    if parent_held(m0, parents@[p as int].0, parents@[p as int].1) {
                        lemma_parent_held_grows(m0, ms, parent_hash, inserted_shard_id);
                    }
                    if exists|k: int| 0 <= k < p + 1 && parent_held(m0, #[trigger] parents@[k].0, parents@[k].1) {
                        let k = choose|k: int| 0 <= k < p + 1 && parent_held(m0, #[trigger] parents@[k].0, parents@[k].1);
                        assert(k < p);
                    }
                    if forall|k: int| 0 <= k < p + 1 ==> !parent_held(m0, #[trigger] parents@[k].0, parents@[k].1) {
                        assert forall|k: int| 0 <= k < p + 1 implies missing_parents@.contains(
                            #[trigger] parent_tags(block@)[k],
                        ) by {
                            if k < p {
                                assert(!parent_held(m0, parents@[k].0, parents@[k].1));
                                assert(mp0.contains(parent_tags(block@)[k]));
                                let x = choose|x: int| 0 <= x < mp0.len() && mp0[x] == parent_tags(block@)[k];
                                assert(missing_parents@[x] == mp0[x]);
                            }
                        }
                    }
                }
            } else {
                proof {
                    if forall|k: int| 0 <= k < p + 1 ==> !parent_held(m0, #[trigger] parents@[k].0, parents@[k].1) {
                        assert(!parent_held(m0, parents@[p as int].0, parents@[p as int].1));
                        assert forall|k: int| 0 <= k < p implies !parent_held(m0, #[trigger] parents@[k].0, parents@[k].1) by {}
                    }
                }
                proof {
                    lemma_parent_held_in(self.multichain, parent_hash, inserted_shard_id);
                }
                let ghost m_in = self.multichain;
                let ghost nh_in = new_hashs@;
                let ghost mut first_done: bool = false;
                let mut queue: Vec<VersaBlock> = Vec::new();
                queue.push(block.clone());
                while queue.len() > 0
                    invariant
                        self.wf(),
                        chains_grow(m0, self.multichain),
                        chains_grow(m_in, self.multichain),
                        self.mempool == old(self).mempool,
                        self.symbolpool == old(self).symbolpool,
                        self.config == old(self).config,
                        forall|i: int| 0 <= i < new_hashs@.len() ==> #[trigger] held_in(self.multichain, new_hashs@[i]),
                        new_hashs@.len() > 0 ==> new_hashs@[0] == tag_of(block@),
                        new_hashs@.len() == 0 ==> queue@.len() <= 1 && (queue@.len() == 1 ==> queue@[0]@ == block@),
                        announced(m0, self.multichain, new_hashs@),
                        parent_held(m_in, parent_hash, inserted_shard_id),
                        parents@ == parent_slots(block@),
                        parent_hash == parents@[p as int].0,
                        inserted_shard_id == parents@[p as int].1,
                        p < parents@.len(),
                        !first_done ==> queue@.len() == 1 && queue@[0]@ == block@ && self.multichain == m_in
                            && new_hashs@ == nh_in,
                        first_done ==> held_in(self.multichain, tag_of(block@)) && (held_in(m_in, tag_of(block@))
                            || new_hashs@.len() > 0),
                        nh_in.len() > 0 ==> new_hashs@.len() > 0,
                        self.waiting() == old(self).waiting(),
                        self.unavailable_avai_block2cmts == old(self).unavailable_avai_block2cmts,
                        self.unavailable_cmt2avai_blocks == old(self).unavailable_cmt2avai_blocks,
                        forall|k: int| 0 <= k < p && !held_in(self.multichain, #[trigger] parents@[k].0) ==> self.buffer_holds(
                            parents@[k].0,
                            block@,
                        ),
                        forall|k: int| 0 <= k < queue@.len() ==> #[trigger] versa_hash_of(queue@[k]@) == versa_hash_of(block@)
                            || old(self).buffered().contains(versa_hash_of(queue@[k]@)),
                        forall|x: H256| #[trigger] self.buffered().contains(x) ==> old(self).buffered().contains(x) || x
                            == versa_hash_of(block@),
                        forall|vh: VersaHash| #[trigger] held_in(self.multichain, vh) && !held_in(m0, vh) ==> vh.inner()
                            == versa_hash_of(block@) || old(self).buffered().contains(vh.inner()),
                        chains_grow(ms, self.multichain),
                        forall|k: int| 0 <= k < p && !parent_held(self.multichain, #[trigger] parents@[k].0, parents@[k].1)
                            ==> missing_parents@.contains(parents@[k].0),
                    ensures
                        first_done,
                    decreases buff_size(self.blk_buff@), queue@.len(),
                {
                    let ghost b_start = buff_size(self.blk_buff@);
                    let ghost bhead = self.blk_buff@;
                    let ghost s_head = *self;
                    let ghost bh = self.buffered();
                    let ghost q0 = queue@;
                    let b = queue.remove(0);
                    proof {
                        assert(versa_hash_of(q0[0]@) == versa_hash_of(block@) || old(self).buffered().contains(
                            versa_hash_of(q0[0]@),
                        ));
                        assert forall|k: int| 0 <= k < queue@.len() implies #[trigger] versa_hash_of(queue@[k]@)
                            == versa_hash_of(block@) || old(self).buffered().contains(versa_hash_of(queue@[k]@)) by {
                            assert(queue@[k] == q0[k + 1]);
                        }
                    }
                    proof {
                        if !first_done {
                            lemma_slot_allowed(self.multichain, b, p as int);
                        }
                    }
                    if !self.insert_allowed_now(&b, &parent_hash, inserted_shard_id) {
                        break;
                    }
                    let t = tag(&b);
                    let ghost m1 = self.multichain;
                    let ghost bv = b;
                    let ghost nh1 = new_hashs@;
                    let res = self.multichain.insert_block_with_parent(b, &parent_hash, inserted_shard_id);
                    proof {
                        lemma_insert_grows(m1, self.multichain, bv, parent_hash, inserted_shard_id, res);
                        lemma_insert_new_held(m1, self.multichain, bv, parent_hash, inserted_shard_id, res);
                        lemma_grow_trans(m0, m1, self.multichain);
                        lemma_grow_trans(m_in, m1, self.multichain);
                        if !first_done {
                            lemma_slot_insert(m1, self.multichain, bv, p as int, res);
                        } else {
                            lemma_grow_trans(m1, m1, self.multichain);
                        }
                        first_done = true;
                        assert forall|i: int| 0 <= i < new_hashs@.len() implies #[trigger] held_in(self.multichain, new_hashs@[i]) by {
                            assert(held_in(m1, new_hashs@[i]));
                        }
                        assert forall|vh: VersaHash| #[trigger] held_in(self.multichain, vh) && !held_in(m0, vh) implies vh.inner()
                            == versa_hash_of(block@) || old(self).buffered().contains(vh.inner()) by {
                            if !held_in(m1, vh) {
                                assert(same_place(tag_of(bv@), vh));
                            }
                        }
                        lemma_grow_trans(ms, m1, self.multichain);
                        assert(self.blk_buff@ == bhead);
                        assert forall|k: int| 0 <= k < p && !held_in(self.multichain, #[trigger] parents@[k].0) implies self.buffer_holds(
                            parents@[k].0,
                            block@,
                        ) by {
                            if held_in(m1, parents@[k].0) {
                                lemma_grow_trans(m0, m1, self.multichain);
                            }
                            assert(s_head.buffer_holds(parents@[k].0, block@));
                        }
                        assert(self.buffered() == bh);
                        assert forall|x: H256| #[trigger] self.buffered().contains(x) implies old(self).buffered().contains(x)
                            || x == versa_hash_of(block@) by {
                            assert(bh.contains(x));
                        }
                        assert forall|k: int| 0 <= k < p && !parent_held(self.multichain, #[trigger] parents@[k].0, parents@[k].1)
                            implies missing_parents@.contains(parents@[k].0) by {
                            if parent_held(m1, parents@[k].0, parents@[k].1) {
                                lemma_parent_held_grows(m1, self.multichain, parents@[k].0, parents@[k].1);
                            }
                        }
                    }
                    match res {
                        Ok(_) => {
                            proof {
                                lemma_insert_holds(m1, self.multichain, bv, parent_hash, inserted_shard_id, res);
                            }
                            new_hashs.push(t);
                            proof {
                                assert forall|vh: VersaHash| #[trigger] held_in(self.multichain, vh) && !held_in(m0, vh)
                                    implies exists|k: int| 0 <= k < new_hashs@.len() && same_place(new_hashs@[k], vh) by {
                                    if held_in(m1, vh) {
                                        let k = choose|k: int| 0 <= k < nh1.len() && same_place(nh1[k], vh);
                                        assert(new_hashs@[k] == nh1[k]);
                                    } else {
                                        assert(new_hashs@[nh1.len() as int] == t);
                                    }
                                }
                            }
                            let ghost bset = self.buffered();
                            proof {
                                assert(self.blk_buff@ == bhead);
                                assert(bset == bh);
                                assert forall|x: H256| #[trigger] bset.contains(x) implies old(self).buffered().contains(x)
                                    || x == versa_hash_of(block@) by {
                                    assert(bh.contains(x));
                                }
                            }
                            let ghost s_tk = *self;
                            let taken = self.take_buffered(&t);
                            proof {
                                assert(held_in(self.multichain, t));
                                assert forall|k: int| 0 <= k < p && !held_in(self.multichain, #[trigger] parents@[k].0) implies self.buffer_holds(
                                    parents@[k].0,
                                    block@,
                                ) by {
                                    assert(s_tk.buffer_holds(parents@[k].0, block@));
                                }
                            }
                            proof {
                                assert forall|x: H256| #[trigger] self.buffered().contains(x) implies old(self).buffered().contains(x)
                                    || x == versa_hash_of(block@) by {
                                    assert(bset.contains(x));
                                }
                            }
                            match taken {
                                Some(children) => {
                                    proof {
                                        assert forall|k: int| 0 <= k < children@.len() implies #[trigger] versa_hash_of(
                                            children@[k]@,
                                        ) == versa_hash_of(block@) || old(self).buffered().contains(versa_hash_of(children@[k]@)) by {
                                            assert(bset.contains(versa_hash_of(children@[k]@)));
                                        }
                                    }
                                    let ghost ql = queue@.len();
                                    let ghost bb = self.blk_buff@;
                                    let mut j: usize = 0;
                                    while j < children.len()
                                        invariant
                                            j <= children@.len(),
                                            queue@.len() == ql + j,
                                            self.blk_buff@ == bb,
                                            forall|k: int| 0 <= k < children@.len() ==> #[trigger] versa_hash_of(children@[k]@)
                                                == versa_hash_of(block@) || old(self).buffered().contains(
                                                versa_hash_of(children@[k]@),
                                            ),
                                            forall|k: int| 0 <= k < queue@.len() ==> #[trigger] versa_hash_of(queue@[k]@)
                                                == versa_hash_of(block@) || old(self).buffered().contains(
                                                versa_hash_of(queue@[k]@),
                                            ),
                                        decreases children@.len() - j,
                                    {
                                        let ghost qb = queue@;
                                        queue.push(children[j].clone());
                                        proof {
                                            assert forall|k: int| 0 <= k < queue@.len() implies #[trigger] versa_hash_of(
                                                queue@[k]@,
                                            ) == versa_hash_of(block@) || old(self).buffered().contains(
                                                versa_hash_of(queue@[k]@),
                                            ) by {
                                                if k < qb.len() {
                                                    assert(queue@[k] == qb[k]);
                                                } else {
                                                    assert(queue@[k]@ == children@[j as int]@);
                                                }
                                            }
                                        }
                                        j = j + 1;
                                    }
                                },
                                None => {
                                    break;
                                },
                            }
                        },
                        Err(_) => {
                            proof {
                                assert forall|vh: VersaHash| #[trigger] held_in(self.multichain, vh) && !held_in(m0, vh)
                                    implies exists|k: int| 0 <= k < new_hashs@.len() && same_place(new_hashs@[k], vh) by {
                                    assert(held_in(m1, vh));
                                }
                            }
                            break;
                        },
                    }
                }
                proof {
                    assert(first_done);
                    assert(held_in(self.multichain, tag_of(block@)));
                    if forall|k: int| 0 <= k < p ==> !parent_held(m0, #[trigger] parents@[k].0, parents@[k].1) {
                        assert(m_in == m0);
                    } else {
                        let k = choose|k: int| 0 <= k < p && parent_held(m0, #[trigger] parents@[k].0, parents@[k].1);
                        assert(held_in(m_in, tag_of(block@)));
                        assert(held_in(m0, tag_of(block@)) || nh_in.len() > 0);
                    }
                    assert(held_in(m0, tag_of(block@)) || new_hashs@.len() > 0);
                }
            }
            p = p + 1;
        }
        (new_hashs, missing_parents)
    }

    /// The index of the entry for availability block `h` among those
    /// waiting for symbols.
    fn find_waiting_block(&self, h: &H256) -> (r: Option<usize>)
        ensures
            r matches Some(j) ==> j < self.unavailable_avai_block2cmts@.len() && self.waiting()[j as int] == *h,
            r is None ==> !self.waiting().contains(*h),
    {
        let mut i: usize = 0;
        while i < self.unavailable_avai_block2cmts.len()
            invariant
                i <= self.unavailable_avai_block2cmts@.len(),
                forall|j: int| 0 <= j < i ==> self.waiting()[j] != *h,
            decreases self.unavailable_avai_block2cmts@.len() - i,
        {
            if self.unavailable_avai_block2cmts[i].0.equals(h) {
                return Some(i);
            }
            i = i + 1;
        }
        None
    }

    /// Records `block` as waiting for commitment `cmt`, once.
    fn wait_for_cmt(&mut self, cmt: &H256, block: &VersaBlock)
        requires
            old(self).wf(),
        ensures
            final(self).wf(),
            final(self).multichain() == old(self).multichain(),
            final(self).mempool() == old(self).mempool(),
            final(self).symbolpool() == old(self).symbolpool(),
            final(self).config_of() == old(self).config_of(),
            final(self).blk_buff == old(self).blk_buff,
            final(self).waiting() == old(self).waiting(),
    {
        let mut i: usize = 0;
        while i < self.unavailable_cmt2avai_blocks.len()
            invariant
                i <= self.unavailable_cmt2avai_blocks@.len(),
                self.unavailable_cmt2avai_blocks == old(self).unavailable_cmt2avai_blocks,
                self.wf(),
                self.multichain == old(self).multichain,
                self.mempool == old(self).mempool,
                self.symbolpool == old(self).symbolpool,
                self.config == old(self).config,
                self.unavailable_avai_block2cmts == old(self).unavailable_avai_block2cmts,
                self.blk_buff == old(self).blk_buff,
                forall|x: int| 0 <= x < i ==> self.cmt_keys()[x] != *cmt,
            decreases self.unavailable_cmt2avai_blocks@.len() - i,
        {
            if self.unavailable_cmt2avai_blocks[i].0.equals(cmt) {
                let ghost k0 = self.cmt_keys();
                let mut entry = self.unavailable_cmt2avai_blocks.remove(i);
                if !contains_block(&entry.1, block) {
                    entry.1.push(block.clone());
                }
                self.unavailable_cmt2avai_blocks.insert(i, entry);
                assert(self.cmt_keys() =~= k0);
                return;
            }
            i = i + 1;
        }
        let ghost k0 = self.cmt_keys();
        let mut v: Vec<VersaBlock> = Vec::new();
        v.push(block.clone());
        self.unavailable_cmt2avai_blocks.push((*cmt, v));
        proof {
            assert(self.cmt_keys() =~= k0.push(*cmt));
            assert(!k0.contains(*cmt));
        }
    }

    /// Records the commitments availability block `h` waits for, in place
    /// of those recorded before.
    fn set_waiting_cmts(&mut self, h: &H256, cmts: Vec<H256>)
        requires
            old(self).wf(),
            forall|j: int| 0 <= j < cmts@.len() ==> #[trigger] old(self).symbolpool().requested().contains_key(cmts@[j]),
        ensures
            final(self).wf(),
            final(self).multichain() == old(self).multichain(),
            final(self).mempool() == old(self).mempool(),
            final(self).symbolpool() == old(self).symbolpool(),
            final(self).config_of() == old(self).config_of(),
            final(self).blk_buff == old(self).blk_buff,
            forall|x: H256| #[trigger] final(self).waiting().contains(x) ==> old(self).waiting().contains(x) || x == *h,
            final(self).waiting().contains(*h),
            forall|x: H256, c: H256| x != *h && #[trigger] waits_only_for(*old(self), x, c) ==> waits_only_for(
                *final(self),
                x,
                c,
            ),
            forall|i: int| 0 <= i < final(self).waiting_entries().len() && final(self).waiting_entries()[i].0 == *h
                ==> #[trigger] final(self).waiting_entries()[i] == (*h, cmts@),
            final(self).unavailable_cmt2avai_blocks == old(self).unavailable_cmt2avai_blocks,
            forall|x: H256| #[trigger] old(self).waiting().contains(x) ==> final(self).waiting().contains(x),
    {
        let ghost w0 = self.unavailable_avai_block2cmts@;
        match self.find_waiting_block(h) {
            Some(j) => {
                self.unavailable_avai_block2cmts.remove(j);
                proof {
                    let w = self.unavailable_avai_block2cmts@;
                    assert forall|a: int, b: int| 0 <= a < w.len() && 0 <= b < w[a].1@.len()
                        implies #[trigger] self.symbolpool.requested().contains_key(w[a].1@[b]) by {
                        let a2 = if a < j { a } else { a + 1 };
                        assert(w[a] == w0[a2]);
                    }
                    assert forall|x: H256| #[trigger] self.waiting().contains(x) implies old(self).waiting().contains(x) by {
                        let a = choose|a: int| 0 <= a < self.waiting().len() && self.waiting()[a] == x;
                        let a2 = if a < j { a } else { a + 1 };
                        assert(w[a] == w0[a2]);
                        assert(old(self).waiting()[a2] == x);
                    }
                    assert(self.waiting() =~= old(self).waiting().remove(j as int));
                    lemma_remove_no_dup(old(self).waiting(), j as int);
                    assert(self.waiting_entries() =~= old(self).waiting_entries().remove(j as int));
                    lemma_entries_remove(*old(self), *self, j as int);
                }
            },
            None => {},
        }
        let ghost mid = *self;
        assert(!self.waiting().contains(*h));
        let ghost w1 = self.unavailable_avai_block2cmts@;
        assert(forall|a: int, b: int| 0 <= a < w1.len() && 0 <= b < w1[a].1@.len()
            ==> #[trigger] self.symbolpool.requested().contains_key(w1[a].1@[b]));
        let ghost cv = cmts@;
        let ghost wt1 = self.waiting();
        assert(forall|x: H256| #[trigger] wt1.contains(x) ==> old(self).waiting().contains(x));
        assert(forall|x: H256| #[trigger] old(self).waiting().contains(x) && x != *h ==> wt1.contains(x));
        self.unavailable_avai_block2cmts.push((*h, cmts));
        proof {
            assert(self.waiting() =~= wt1.push(*h));
            assert(self.waiting_entries() =~= mid.waiting_entries().push((*h, cv)));
            lemma_entries_push(mid, *self, *h, cv);
            assert(self.waiting()[wt1.len() as int] == *h);
            assert forall|x: H256| #[trigger] old(self).waiting().contains(x) implies self.waiting().contains(x) by {
                if x != *h {
                    assert(wt1.contains(x));
                    let a = choose|a: int| 0 <= a < wt1.len() && wt1[a] == x;
                    assert(self.waiting()[a] == x);
                }
            }

            assert forall|x: H256| #[trigger] self.waiting().contains(x) implies old(self).waiting().contains(x) || x == *h by {
                let a = choose|a: int| 0 <= a < self.waiting().len() && self.waiting()[a] == x;
                assert(self.waiting()[a] == self.unavailable_avai_block2cmts@[a].0);
                if a < wt1.len() {
                    assert(self.unavailable_avai_block2cmts@[a] == w1[a]);
                    assert(wt1[a] == w1[a].0);
                    assert(wt1.contains(x));
                } else {
                    assert(self.unavailable_avai_block2cmts@[a].0 == *h);
                }
            }
            let w = self.unavailable_avai_block2cmts@;
            assert forall|a: int, b: int| 0 <= a < w.len() && 0 <= b < w[a].1@.len()
                implies #[trigger] self.symbolpool.requested().contains_key(w[a].1@[b]) by {
                if a < w1.len() {
                    assert(w[a] == w1[a]);
                    assert(self.symbolpool.requested().contains_key(w1[a].1@[b]));
                } else {
                    assert(w[a].1@ == cv);
                    assert(old(self).symbolpool().requested().contains_key(cv[b]));
                }
            }
        }
    }

    /// Forgets the commitments availability block `h` waited for.
    fn clear_waiting_block(&mut self, h: &H256)
        requires
            old(self).wf(),
        ensures
            final(self).wf(),
            final(self).multichain() == old(self).multichain(),
            final(self).mempool() == old(self).mempool(),
            final(self).symbolpool() == old(self).symbolpool(),
            final(self).config_of() == old(self).config_of(),
            final(self).blk_buff == old(self).blk_buff,
            final(self).unavailable_cmt2avai_blocks == old(self).unavailable_cmt2avai_blocks,
            forall|x: H256, c: H256| x != *h && #[trigger] waits_only_for(*old(self), x, c) ==> waits_only_for(
                *final(self),
                x,
                c,
            ),
            !final(self).waiting().contains(*h),
            forall|x: H256| #[trigger] final(self).waiting().contains(x) ==> old(self).waiting().contains(x),
    {
        let ghost w0 = self.unavailable_avai_block2cmts@;
        match self.find_waiting_block(h) {
            Some(j) => {
                self.unavailable_avai_block2cmts.remove(j);
                proof {
                    let w = self.unavailable_avai_block2cmts@;
                    assert forall|a: int, b: int| 0 <= a < w.len() && 0 <= b < w[a].1@.len()
                        implies #[trigger] self.symbolpool.requested().contains_key(w[a].1@[b]) by {
                        let a2 = if a < j { a } else { a + 1 };
                        assert(w[a] == w0[a2]);
                    }
                    assert(self.waiting() =~= old(self).waiting().remove(j as int));
                    lemma_remove_no_dup(old(self).waiting(), j as int);
                    assert(self.waiting_entries() =~= old(self).waiting_entries().remove(j as int));
                    lemma_entries_remove(*old(self), *self, j as int);
                }
            },
            None => {},
        }
    }

    /// Asks the pool for a commitment's missing symbols, requesting it first
    /// when it is new; answers whether any symbol is missing.
    fn ask_for_cmt(&mut self, cmt: &H256, ex_or_in: bool, out: &mut Vec<SymbolIndex>) -> (missing: bool)
        requires
            old(self).wf(),
            all_requested(old(self).symbolpool(), old(out)@),
        ensures
            final(self).wf(),
            final(self).multichain() == old(self).multichain(),
            final(self).mempool() == old(self).mempool(),
            final(self).config_of() == old(self).config_of(),
            final(self).blk_buff == old(self).blk_buff,
            requested_grow(old(self).symbolpool(), final(self).symbolpool()),
            all_requested(final(self).symbolpool(), final(out)@),
            final(self).symbolpool().requested().contains_key(*cmt),
            old(self).symbolpool().requested().contains_key(*cmt) ==> *final(self) == *old(self) && final(out)@ == old(out)@
                + old(self).symbolpool().unreceived(*cmt) && missing == (old(self).symbolpool().unreceived(*cmt).len() > 0),
            !old(self).symbolpool().requested().contains_key(*cmt) ==> missing && final(out)@ == old(out)@ + indexes_of(
                *cmt,
                final(self).symbolpool().requested()[*cmt],
            ),
            final(self).waiting() == old(self).waiting(),
            final(self).symbolpool().symbols() == old(self).symbolpool().symbols(),
    {
        let ghost p0 = self.symbolpool;
        let ghost o0 = out@;
        let ghost w0 = self.unavailable_avai_block2cmts@;
        match self.symbolpool.get_unreceived_symbols(cmt) {
            Ok(v) => {
                append_indexes(out, &v);
                proof {
                    assert forall|i: int| 0 <= i < out@.len() implies #[trigger] self.symbolpool.requested().contains_key(out@[i].root) by {
                        if i >= o0.len() {
                            assert(out@[i] == v@[i - o0.len()]);
                        }
                    }
                }
                v.len() > 0
            },
            Err(_) => {
                let r = self.symbolpool.request_symbols_for_new_cmt(cmt, ex_or_in);
                proof {
                    assert forall|k: H256| #[trigger] p0.requested().contains_key(k) implies self.symbolpool.requested().contains_key(k)
                        && self.symbolpool.requested()[k] == p0.requested()[k] by {}
                    assert forall|a: int, b: int| 0 <= a < w0.len() && 0 <= b < w0[a].1@.len()
                        implies #[trigger] self.symbolpool.requested().contains_key(w0[a].1@[b]) by {
                        assert(p0.requested().contains_key(w0[a].1@[b]));
                    }
                }
                match r {
                    Ok(v) => {
                        append_indexes(out, &v);
                        proof {
                            assert forall|i: int| 0 <= i < out@.len() implies #[trigger] self.symbolpool.requested().contains_key(out@[i].root) by {
                                if i >= o0.len() {
                                    assert(out@[i] == v@[i - o0.len()]);
                                } else {
                                    assert(p0.requested().contains_key(out@[i].root));
                                }
                            }
                        }
                        true
                    },
                    Err(_) => true,
                }
            },
        }
    }

    /// Handles one incoming block; see `handle_blocks`.
    #[verifier::spinoff_prover]
    #[verifier::rlimit(40)]
    fn handle_one_block(
        &mut self,
        block: &VersaBlock,
        new_hashs: &mut Vec<VersaHash>,
        missing_parents: &mut Vec<VersaHash>,
        missing_symbol_indexs: &mut Vec<SymbolIndex>,
    )
        requires
            old(self).wf(),
            forall|i: int| 0 <= i < old(new_hashs)@.len() ==> #[trigger] held_in(old(self).multichain(), old(new_hashs)@[i]),
            all_requested(old(self).symbolpool(), old(missing_symbol_indexs)@),
        ensures
            final(self).wf(),
            chains_grow(old(self).multichain(), final(self).multichain()),
            final(self).mempool() == old(self).mempool(),
            final(self).config_of() == old(self).config_of(),
            requested_grow(old(self).symbolpool(), final(self).symbolpool()),
            final(self).symbolpool().symbols() == old(self).symbolpool().symbols(),
            forall|i: int| 0 <= i < final(new_hashs)@.len() ==> #[trigger] held_in(final(self).multichain(), final(new_hashs)@[i]),
            all_requested(final(self).symbolpool(), final(missing_symbol_indexs)@),
            !versa_hash_valid(block@) ==> *final(self) == *old(self) && final(new_hashs)@ == old(new_hashs)@
                && final(missing_parents)@ == old(missing_parents)@ && final(missing_symbol_indexs)@ == old(
                missing_symbol_indexs,
            )@,
            old(new_hashs)@.len() <= final(new_hashs)@.len(),
            final(new_hashs)@.subrange(0, old(new_hashs)@.len() as int) == old(new_hashs)@,
            announced(old(self).multichain(), final(self).multichain(), final(new_hashs)@),
            forall|x: H256| #[trigger] final(self).waiting().contains(x) && !old(self).waiting().contains(x) ==> {
                &&& versa_hash_valid(block@)
                &&& crate::multichain::is_avai(block@)
                &&& x == versa_hash_of(block@)
                &&& !cmts_complete(old(self).symbolpool(), versa_tx_blocks(block@))
            },
            versa_hash_valid(block@) && block_ready(*old(self), block@) && some_parent_held(old(self).multichain(), block@)
                ==> held_in(final(self).multichain(), tag_of(block@)),
            versa_hash_valid(block@) && block@ is Prop && some_parent_held(old(self).multichain(), block@) && !held_in(
                old(self).multichain(),
                tag_of(block@),
            ) ==> cmts_requested(final(self).symbolpool(), versa_tx_blocks(block@)),
            old(missing_parents)@.len() <= final(missing_parents)@.len(),
            final(missing_parents)@.subrange(0, old(missing_parents)@.len() as int) == old(missing_parents)@,
            forall|i: int| old(missing_parents)@.len() <= i < final(missing_parents)@.len() ==> versa_hash_valid(block@)
                && parent_tags(block@).contains(#[trigger] final(missing_parents)@[i]),
            old(missing_symbol_indexs)@.len() <= final(missing_symbol_indexs)@.len(),
            final(missing_symbol_indexs)@.subrange(0, old(missing_symbol_indexs)@.len() as int) == old(missing_symbol_indexs)@,
            forall|x: H256| #[trigger] old(self).waiting().contains(x) ==> final(self).waiting().contains(x),
            forall|x: H256| #[trigger] final(self).buffered().contains(x) ==> old(self).buffered().contains(x) || (x
                == versa_hash_of(block@) && versa_hash_valid(block@) && block_ready(*old(self), block@)),
            forall|vh: VersaHash| #[trigger] held_in(final(self).multichain(), vh) && !held_in(old(self).multichain(), vh)
                ==> old(self).buffered().contains(vh.inner()) || (vh.inner() == versa_hash_of(block@) && versa_hash_valid(block@)
                && block_ready(*old(self), block@)),
            versa_hash_valid(block@) && block_ready(*old(self), block@) ==> forall|k: int| 0 <= k < parent_slots(block@).len()
                && !parent_held(final(self).multichain(), #[trigger] parent_slots(block@)[k].0, parent_slots(block@)[k].1)
                ==> final(missing_parents)@.contains(parent_slots(block@)[k].0),
            versa_hash_valid(block@) && crate::multichain::is_avai(block@) && !old(self).waiting().contains(versa_hash_of(block@))
                && !cmts_complete(final(self).symbolpool(), versa_tx_blocks(block@)) ==> {
                &&& final(self).waiting().contains(versa_hash_of(block@))
                &&& cmts_requested(final(self).symbolpool(), versa_tx_blocks(block@))
                &&& forall|k: int, x: SymbolIndex| 0 <= k < versa_tx_blocks(block@).len()
                    && #[trigger] final(self).symbolpool().unreceived(versa_tx_blocks(block@)[k].header.cmt_root).contains(x)
                    ==> final(missing_symbol_indexs)@.contains(x)
            },
    {
        let ghost m0 = self.multichain;
        let ghost p0 = self.symbolpool;
        let ghost s0 = *self;
        let ghost n_start = new_hashs@;
        let ghost ms_start = missing_symbol_indexs@;
        assert(missing_symbol_indexs@.subrange(0, ms_start.len() as int) =~= ms_start);
        assert(chains_grow(m0, m0));
        assert(new_hashs@.subrange(0, n_start.len() as int) =~= n_start);
        if !block.verify_hash() {
            return;
        }
        let block_hash = block.hash_value();
        let mut is_proposer = false;
        match block {
            VersaBlock::PropBlock(_) => {
                is_proposer = true;
            },
            VersaBlock::ExAvaiBlock(ab) | VersaBlock::InAvaiBlock(ab) => {
                let ex_or_in = ab.get_shard_id() == self.config.shard_id;
                match self.find_waiting_block(&block_hash) {
                    Some(j) => {
                        let cmts = crate::block::copy_vec(&self.unavailable_avai_block2cmts[j].1);
                        let mut k: usize = 0;
                        while k < cmts.len()
                            invariant
                                self.wf(),
                                *self == s0,
                                all_requested(self.symbolpool, missing_symbol_indexs@),
                                new_hashs@ == old(new_hashs)@,
                                ms_start == old(missing_symbol_indexs)@,
                                ms_start.len() <= missing_symbol_indexs@.len(),
                                missing_symbol_indexs@.subrange(0, ms_start.len() as int) == ms_start,
                            decreases cmts@.len() - k,
                        {
                            match self.symbolpool.get_unreceived_symbols(&cmts[k]) {
                                Ok(v) => {
                                    let ghost o0 = missing_symbol_indexs@;
                                    append_indexes(missing_symbol_indexs, &v);
                                    proof {
                                        assert forall|i: int| 0 <= i < missing_symbol_indexs@.len() implies #[trigger] self.symbolpool.requested().contains_key(
                                            missing_symbol_indexs@[i].root,
                                        ) by {
                                            if i >= o0.len() {
                                                assert(missing_symbol_indexs@[i] == v@[i - o0.len()]);
                                            }
                                        }
                                        lemma_prefix_append(o0, v@, ms_start.len() as int);
                                    }
                                },
                                Err(_) => {},
                            }
                            k = k + 1;
                        }
                        proof {
                            assert(self.waiting().contains(block_hash));
                        }
                        return;
                    },
                    None => {},
                }
                let txs = ab.get_avai_tx_set();
                let ghost tv = ab@.avai_tx_set;
                let mut unavailable_cmts: Vec<H256> = Vec::new();
                let mut k: usize = 0;
                while k < txs.len()
                    invariant
                        self.wf(),
                        k <= txs@.len(),
                        tx_block_views(txs@) == tv,
                        self.multichain == m0,
                        self.mempool == old(self).mempool,
                        self.config == old(self).config,
                        self.waiting() == old(self).waiting(),
                        requested_grow(p0, self.symbolpool),
                        self.symbolpool.symbols() == p0.symbols(),
                        all_requested(self.symbolpool, missing_symbol_indexs@),
                        new_hashs@ == old(new_hashs)@,
                        forall|j: int| 0 <= j < unavailable_cmts@.len() ==> #[trigger] self.symbolpool.requested().contains_key(
                            unavailable_cmts@[j],
                        ),
                        cmts_complete(p0, tv) ==> unavailable_cmts@.len() == 0 && self.symbolpool == p0,
                        self.blk_buff == old(self).blk_buff,
                        forall|m: int| 0 <= m < k ==> self.symbolpool.requested().contains_key(#[trigger] tv[m].header.cmt_root),
                        forall|m: int, x: SymbolIndex| 0 <= m < k && #[trigger] self.symbolpool.unreceived(tv[m].header.cmt_root).contains(x)
                            ==> missing_symbol_indexs@.contains(x),
                        unavailable_cmts@.len() == 0 ==> self.symbolpool == p0 && forall|m: int| 0 <= m < k ==> p0.requested().contains_key(
                            #[trigger] tv[m].header.cmt_root,
                        ) && p0.unreceived(tv[m].header.cmt_root).len() == 0,
                        ms_start == old(missing_symbol_indexs)@,
                        ms_start.len() <= missing_symbol_indexs@.len(),
                        missing_symbol_indexs@.subrange(0, ms_start.len() as int) == ms_start,
                        !self.waiting().contains(block_hash),
                        block_hash == versa_hash_of(block@),
                        versa_tx_blocks(block@) == tv,
                    decreases txs@.len() - k,
                {
                    let cmt_root = txs[k].get_cmt_root();
                    let ghost pk = self.symbolpool;
                    let ghost r0 = missing_symbol_indexs@;
                    proof {
                        assert(tv[k as int] == txs@[k as int]@);
                    }
                    let missing = self.ask_for_cmt(&cmt_root, ex_or_in, missing_symbol_indexs);
                    proof {
                        assert forall|j: int| 0 <= j < unavailable_cmts@.len() implies #[trigger] self.symbolpool.requested().contains_key(
                            unavailable_cmts@[j],
                        ) by {
                            assert(pk.requested().contains_key(unavailable_cmts@[j]));
                        }
                        assert forall|x: H256| #[trigger] p0.requested().contains_key(x) implies self.symbolpool.requested().contains_key(x)
                            && self.symbolpool.requested()[x] == p0.requested()[x] by {
                            assert(pk.requested().contains_key(x));
                        }
                        if cmts_complete(p0, tv) {
                            assert(p0.requested().contains_key(tv[k as int].header.cmt_root));
                            assert(!missing);
                        }
                        assert(missing_symbol_indexs@.subrange(0, ms_start.len() as int) =~= r0.subrange(0, ms_start.len() as int));
                        assert forall|m: int| 0 <= m < k + 1 implies self.symbolpool.requested().contains_key(
                            #[trigger] tv[m].header.cmt_root,
                        ) by {
                            if m < k {
                                assert(pk.requested().contains_key(tv[m].header.cmt_root));
                            }
                        }
                        assert forall|m: int, x: SymbolIndex| 0 <= m < k + 1 && #[trigger] self.symbolpool.unreceived(
                            tv[m].header.cmt_root,
                        ).contains(x) implies missing_symbol_indexs@.contains(x) by {
                            let c = tv[m].header.cmt_root;
                            if m < k {
                                lemma_unreceived_keeps(pk, self.symbolpool, c);
                                assert(r0.contains(x));
                                let q = choose|q: int| 0 <= q < r0.len() && r0[q] == x;
                                assert(missing_symbol_indexs@[q] == x);
                            } else if pk.requested().contains_key(c) {
                                let q = choose|q: int| 0 <= q < pk.unreceived(c).len() && pk.unreceived(c)[q] == x;
                                assert(missing_symbol_indexs@[r0.len() + q] == x);
                            } else {
                                lemma_unreceived_asked(self.symbolpool, c, x);
                                let v = indexes_of(c, self.symbolpool.requested()[c]);
                                let q = choose|q: int| 0 <= q < v.len() && v[q] == x;
                                assert(missing_symbol_indexs@[r0.len() + q] == x);
                            }
                        }
                    }
                    if missing {
                        unavailable_cmts.push(cmt_root);
                    }
                    k = k + 1;
                }
                if unavailable_cmts.len() > 0 {
                    let ghost ps_loop = self.symbolpool;
                    let mut k: usize = 0;
                    while k < unavailable_cmts.len()
                        invariant
                            self.wf(),
                            self.multichain == m0,
                            self.mempool == old(self).mempool,
                            self.config == old(self).config,
                            self.waiting() == old(self).waiting(),
                            requested_grow(p0, self.symbolpool),
                            self.symbolpool.symbols() == p0.symbols(),
                            all_requested(self.symbolpool, missing_symbol_indexs@),
                            new_hashs@ == old(new_hashs)@,
                            forall|j: int| 0 <= j < unavailable_cmts@.len() ==> #[trigger] self.symbolpool.requested().contains_key(
                                unavailable_cmts@[j],
                            ),
                            self.blk_buff == old(self).blk_buff,
                            self.symbolpool == ps_loop,
                        decreases unavailable_cmts@.len() - k,
                    {
                        self.wait_for_cmt(&unavailable_cmts[k], block);
                        k = k + 1;
                    }
                    self.set_waiting_cmts(&block_hash, unavailable_cmts);
                    proof {
                        assert forall|i: int| 0 <= i < new_hashs@.len() implies #[trigger] held_in(self.multichain, new_hashs@[i]) by {
                            assert(held_in(old(self).multichain(), old(new_hashs)@[i]));
                            assert(old(self).multichain() == m0);
                        }
                        assert(versa_tx_blocks(block@) == tv);
                        assert(self.symbolpool == ps_loop);
                        assert(self.buffered() == old(self).buffered());
                    }
                    return;
                }
                proof {
                    assert(self.symbolpool == p0);
                    assert(cmts_complete(p0, tv));
                    assert(block_ready(s0, block@));
                }
            },
            VersaBlock::OrderBlock(ob) => {
                let order_parent = ob.get_order_parent();
                match self.multichain.get_confirmed_avai_set_by_order_hash(&order_parent) {
                    Ok(old_set) => {
                        let new_set = ob.get_confirmed_avai_set();
                        if overlapping(&old_set, &new_set) {
                            return;
                        }
                        proof {
                            assert(block_ready(s0, block@));
                        }
                    },
                    Err(_) => {
                        return;
                    },
                }
            },
        }
        let ghost m1 = self.multichain;
        let ghost p1 = self.symbolpool;
        let ghost n0 = new_hashs@;
        proof {
            assert(m1 == m0);
            assert(block_ready(s0, block@));
            assert(self.buffered() == old(self).buffered());
            assert(self.waiting() == old(self).waiting());
            assert(p1 == p0);
            assert(missing_symbol_indexs@.subrange(0, ms_start.len() as int) == ms_start);
        }
        let (sub_new_hashes, sub_missing_parents) = self.insert_block(block.clone());
        proof {
            lemma_grow_trans(m0, m1, self.multichain);
        }
        let ghost m2 = self.multichain;
        let ghost bb2 = self.blk_buff@;
        let ghost bs2 = self.buffered();
        proof {
            assert forall|x: H256| #[trigger] bs2.contains(x) implies old(self).buffered().contains(x) || (x
                == versa_hash_of(block@) && versa_hash_valid(block@) && block_ready(*old(self), block@)) by {}
            if block@ is Prop && some_parent_held(m0, block@) && !held_in(m0, tag_of(block@)) {
                assert(sub_new_hashes@[0] == VersaHash::PropHash(block_hash));
            }
        }
        if is_proposer && contains_versa_hash(&sub_new_hashes, &VersaHash::PropHash(block_hash)) {
            let tx_block_set = block.get_tx_blocks();
            let ghost tv = versa_tx_blocks(block@);
            let mut k: usize = 0;
            while k < tx_block_set.len()
                invariant
                    k <= tx_block_set@.len(),
                    tx_block_views(tx_block_set@) == tv,
                    self.blk_buff@ == bb2,
                    ms_start == old(missing_symbol_indexs)@,
                    ms_start.len() <= missing_symbol_indexs@.len(),
                    missing_symbol_indexs@.subrange(0, ms_start.len() as int) == ms_start,
                    forall|m: int| 0 <= m < k ==> self.symbolpool.requested().contains_key(#[trigger] tv[m].header.cmt_root),
                    self.wf(),
                    self.multichain == m2,
                    chains_grow(m0, self.multichain),
                    self.mempool == old(self).mempool,
                    self.config == old(self).config,
                    self.waiting() == old(self).waiting(),
                    requested_grow(p0, self.symbolpool),
                    self.symbolpool.symbols() == p0.symbols(),
                    all_requested(self.symbolpool, missing_symbol_indexs@),
                    new_hashs@ == old(new_hashs)@,
                decreases tx_block_set@.len() - k,
            {
                let cmt = tx_block_set[k].get_cmt_root();
                let shard_id = tx_block_set[k].get_shard_id();
                let ghost pk = self.symbolpool;
                let ghost mk = self.multichain;
                let ghost o0 = missing_symbol_indexs@;
                let r = self.symbolpool.request_symbols_for_new_cmt(&cmt, shard_id == self.config.shard_id);
                proof {
                    assert(tv[k as int] == tx_block_set@[k as int]@);
                    assert forall|m: int| 0 <= m < k + 1 implies self.symbolpool.requested().contains_key(#[trigger] tv[m].header.cmt_root) by {
                        if m < k {
                            assert(pk.requested().contains_key(tv[m].header.cmt_root));
                        }
                    }
                    let w = self.unavailable_avai_block2cmts@;
                    assert forall|a: int, b: int| 0 <= a < w.len() && 0 <= b < w[a].1@.len()
                        implies #[trigger] self.symbolpool.requested().contains_key(w[a].1@[b]) by {
                        assert(pk.requested().contains_key(w[a].1@[b]));
                    }
                    assert forall|x: H256| #[trigger] p0.requested().contains_key(x) implies self.symbolpool.requested().contains_key(x)
                        && self.symbolpool.requested()[x] == p0.requested()[x] by {
                        assert(pk.requested().contains_key(x));
                    }
                }
                match r {
                    Ok(v) => {
                        append_indexes(missing_symbol_indexs, &v);
                        proof {
                            lemma_prefix_append(o0, v@, ms_start.len() as int);
                            assert forall|i: int| 0 <= i < missing_symbol_indexs@.len() implies #[trigger] self.symbolpool.requested().contains_key(
                                missing_symbol_indexs@[i].root,
                            ) by {
                                if i >= o0.len() {
                                    assert(missing_symbol_indexs@[i] == v@[i - o0.len()]);
                                } else {
                                    assert(pk.requested().contains_key(o0[i].root));
                                }
                            }
                        }
                    },
                    Err(_) => {
                        proof {
                            assert forall|i: int| 0 <= i < missing_symbol_indexs@.len() implies #[trigger] self.symbolpool.requested().contains_key(
                                missing_symbol_indexs@[i].root,
                            ) by {
                                assert(pk.requested().contains_key(o0[i].root));
                            }
                        }
                    },
                }
                k = k + 1;
            }
        }
        proof {
            assert(self.blk_buff@ == bb2);
            assert(self.buffered() == bs2);
        }
        append_versa_hashes(new_hashs, &sub_new_hashes);
        let ghost mp0 = missing_parents@;
        append_versa_hashes(missing_parents, &sub_missing_parents);
        proof {
            assert forall|k: int| 0 <= k < parent_slots(block@).len() && !parent_held(
                self.multichain,
                #[trigger] parent_slots(block@)[k].0,
                parent_slots(block@)[k].1,
            ) implies missing_parents@.contains(parent_slots(block@)[k].0) by {
                assert(self.multichain == m2);
                assert(sub_missing_parents@.contains(parent_slots(block@)[k].0));
                let q = choose|q: int| 0 <= q < sub_missing_parents@.len() && sub_missing_parents@[q] == parent_slots(block@)[k].0;
                assert(missing_parents@[mp0.len() + q] == sub_missing_parents@[q]);
            }
            assert(missing_parents@.subrange(0, mp0.len() as int) =~= mp0);
            assert(new_hashs@.subrange(0, n0.len() as int) =~= n0);
            assert forall|i: int| mp0.len() <= i < missing_parents@.len() implies versa_hash_valid(block@)
                && parent_tags(block@).contains(#[trigger] missing_parents@[i]) by {
                assert(missing_parents@[i] == sub_missing_parents@[i - mp0.len()]);
            }
            assert forall|i: int| 0 <= i < new_hashs@.len() implies #[trigger] held_in(self.multichain, new_hashs@[i]) by {
                if i < n0.len() {
                    assert(held_in(old(self).multichain(), old(new_hashs)@[i]));
                    assert(old(self).multichain() == m0);
                    assert(n0[i] == old(new_hashs)@[i]);
                    lemma_grow_trans(m0, m0, self.multichain);
                    assert(new_hashs@[i] == n0[i]);
                } else {
                    assert(new_hashs@[i] == sub_new_hashes@[i - n0.len()]);
                }
            }
            assert forall|vh: VersaHash| #[trigger] held_in(self.multichain, vh) && !held_in(m0, vh) implies exists|k: int|
                0 <= k < new_hashs@.len() && same_place(new_hashs@[k], vh) by {
                let k = choose|k: int| 0 <= k < sub_new_hashes@.len() && same_place(sub_new_hashes@[k], vh);
                assert(new_hashs@[n0.len() + k] == sub_new_hashes@[k]);
            }
        }
    }

    /// On blocks: each block whose stored hash is right is checked and
    /// inserted — an availability block only once the symbols of all its
    /// commitments are received (else the missing symbols are asked for and
    /// the block waits), an ordering block only when what it confirms is new
    /// — and a new proposer block has the symbols of its commitments asked
    /// for. Answers the tagged hashes inserted, the parents missing and the
    /// symbols to ask for.
    #[verifier::rlimit(40)]
    #[verifier::spinoff_prover]
    pub fn handle_blocks(&mut self, blocks: Vec<VersaBlock>) -> (r: (Option<Message>, Option<Message>, Option<Message>))
        requires
            old(self).wf(),
        ensures
            final(self).wf(),
            chains_grow(old(self).multichain(), final(self).multichain()),
            final(self).mempool() == old(self).mempool(),
            final(self).config_of() == old(self).config_of(),
            requested_grow(old(self).symbolpool(), final(self).symbolpool()),
            final(self).symbolpool().symbols() == old(self).symbolpool().symbols(),
            r.0 is None || (r.0 matches Some(Message::NewBlockHash(v)) && v@.len() > 0 && forall|i: int| 0 <= i < v@.len()
                ==> #[trigger] held_in(final(self).multichain(), v@[i])),
            announced(old(self).multichain(), final(self).multichain(), announce_list(r.0)),
            forall|j: int| 0 <= j < blocks@.len() && versa_hash_valid(#[trigger] blocks@[j]@) && block_ready(*old(self), blocks@[j]@)
                && some_parent_held(old(self).multichain(), blocks@[j]@) && no_twin(blocks@, j) ==> {
                &&& held_in(final(self).multichain(), tag_of(blocks@[j]@))
                &&& held_in(old(self).multichain(), tag_of(blocks@[j]@)) || exists|k: int| 0 <= k < announce_list(r.0).len()
                    && same_place(announce_list(r.0)[k], tag_of(blocks@[j]@))
            },
            forall|j: int| 0 <= j < blocks@.len() && versa_hash_valid(#[trigger] blocks@[j]@) && blocks@[j]@ is Prop
                && unique_hash(blocks@, j) && !old(self).buffered().contains(versa_hash_of(blocks@[j]@)) && !held_in(
                old(self).multichain(),
                tag_of(blocks@[j]@),
            ) && some_parent_held(old(self).multichain(), blocks@[j]@) ==> cmts_requested(
                final(self).symbolpool(),
                versa_tx_blocks(blocks@[j]@),
            ),
            forall|j: int| 0 <= j < blocks@.len() && versa_hash_valid(#[trigger] blocks@[j]@) && crate::multichain::is_avai(
                blocks@[j]@,
            ) && first_of_hash(blocks@, j) && !old(self).waiting().contains(versa_hash_of(blocks@[j]@)) && !cmts_complete(
                final(self).symbolpool(),
                versa_tx_blocks(blocks@[j]@),
            ) ==> avai_asked(*final(self), blocks@[j]@, request_list(r.2)),
            forall|j: int| 0 <= j < blocks@.len() && versa_hash_valid(#[trigger] blocks@[j]@) && unique_hash(blocks@, j)
                && !old(self).buffered().contains(versa_hash_of(blocks@[j]@)) && !held_in(
                old(self).multichain(),
                tag_of(blocks@[j]@),
            ) && !passes(*final(self), blocks@[j]@) ==> !held_in(final(self).multichain(), tag_of(blocks@[j]@)),
            forall|j: int| 0 <= j < blocks@.len() && versa_hash_valid(#[trigger] blocks@[j]@) && block_ready(*old(self), blocks@[j]@)
                && no_twin(blocks@, j) ==> parents_reported(final(self).multichain(), blocks@[j]@, missing_list(r.1)),
            r.1 is None || (r.1 matches Some(Message::GetBlocks(v)) && v@.len() > 0),
            r.2 is None || (r.2 matches Some(Message::GetSymbols(v)) && v@.len() > 0 && all_requested(
                final(self).symbolpool(),
                v@,
            )),
            (forall|j: int| 0 <= j < blocks@.len() ==> !versa_hash_valid(#[trigger] blocks@[j]@)) ==> r.0 is None
                && r.1 is None && r.2 is None && *final(self) == *old(self),
            r.1 matches Some(Message::GetBlocks(v)) ==> forall|k: int| 0 <= k < v@.len() ==> #[trigger] parent_of_valid(
                blocks@,
                blocks@.len() as int,
                v@[k],
            ),
    {
        let mut new_hashs: Vec<VersaHash> = Vec::new();
        let mut missing_parents: Vec<VersaHash> = Vec::new();
        let mut missing_symbol_indexs: Vec<SymbolIndex> = Vec::new();
        let ghost m0 = self.multichain;
        let ghost p0 = self.symbolpool;
        let ghost w0 = *self;
        assert(chains_grow(m0, m0));
        let mut i: usize = 0;
        while i < blocks.len()
            invariant
                self.wf(),
                i <= blocks@.len(),
                w0 == *old(self),
                p0 == w0.symbolpool,
                m0 == w0.multichain,
                chains_grow(m0, self.multichain),
                self.mempool == old(self).mempool,
                self.config == old(self).config,
                requested_grow(p0, self.symbolpool),
                self.symbolpool.symbols() == p0.symbols(),
                forall|j: int| 0 <= j < new_hashs@.len() ==> #[trigger] held_in(self.multichain, new_hashs@[j]),
                announced(m0, self.multichain, new_hashs@),
                all_requested(self.symbolpool, missing_symbol_indexs@),
                (forall|j: int| 0 <= j < i ==> !versa_hash_valid(#[trigger] blocks@[j]@)) ==> *self == *old(self)
                    && new_hashs@.len() == 0 && missing_parents@.len() == 0 && missing_symbol_indexs@.len() == 0,
                forall|k: int| 0 <= k < missing_parents@.len() ==> #[trigger] parent_of_valid(blocks@, i as int, missing_parents@[k]),
                forall|x: H256| #[trigger] self.waiting().contains(x) && !w0.waiting().contains(x) ==> exists|j: int|
                    0 <= j < i && versa_hash_valid(#[trigger] blocks@[j]@) && crate::multichain::is_avai(blocks@[j]@) && x
                    == versa_hash_of(blocks@[j]@) && !cmts_complete(p0, versa_tx_blocks(blocks@[j]@)),
                forall|j: int| 0 <= j < i && versa_hash_valid(#[trigger] blocks@[j]@) && block_ready(w0, blocks@[j]@)
                    && some_parent_held(m0, blocks@[j]@) && no_twin(blocks@, j) ==> held_in(self.multichain, tag_of(blocks@[j]@)),
                inv_buffered(w0, *self, blocks@, i as int),
                inv_held(w0, *self, blocks@, i as int),
                inv_waiting_req(w0, *self, blocks@, i as int, missing_symbol_indexs@),
                inv_missing(w0, *self, blocks@, i as int, missing_parents@),
                inv_prop_req(w0, *self, blocks@, i as int),
            decreases blocks@.len() - i,
        {
            let ghost m1 = self.multichain;
            let ghost p1 = self.symbolpool;
            let ghost w1 = *self;
            let ghost mp1 = missing_parents@;
            let ghost nh1 = new_hashs@;
            let ghost ms1 = missing_symbol_indexs@;
            proof {
                let b = blocks@[i as int];
                if some_parent_held(m0, b@) {
                    lemma_some_parent_grows(m0, m1, b@);
                }
                if versa_hash_valid(b@) && block_ready(w0, b@) && no_twin(blocks@, i as int) {
                    match b@ {
                        VersaModel::ExAvai(a) => {
                            lemma_complete_keeps(p0, p1, a.avai_tx_set);
                            if w1.waiting().contains(a.hash) {
                                let j = choose|j: int| 0 <= j < i && versa_hash_valid(#[trigger] blocks@[j]@)
                                    && crate::multichain::is_avai(blocks@[j]@) && a.hash == versa_hash_of(blocks@[j]@)
                                    && !cmts_complete(p0, versa_tx_blocks(blocks@[j]@));
                                assert(blocks@[j]@ == b@);
                            }
                        },
                        VersaModel::InAvai(a) => {
                            lemma_complete_keeps(p0, p1, a.avai_tx_set);
                            if w1.waiting().contains(a.hash) {
                                let j = choose|j: int| 0 <= j < i && versa_hash_valid(#[trigger] blocks@[j]@)
                                    && crate::multichain::is_avai(blocks@[j]@) && a.hash == versa_hash_of(blocks@[j]@)
                                    && !cmts_complete(p0, versa_tx_blocks(blocks@[j]@));
                                assert(blocks@[j]@ == b@);
                            }
                        },
                        _ => {},
                    }
                    assert(block_ready(w1, b@));
                }
            }
            self.handle_one_block(&blocks[i], &mut new_hashs, &mut missing_parents, &mut missing_symbol_indexs);
            proof {
                assert forall|k: int| 0 <= k < missing_parents@.len() implies #[trigger] parent_of_valid(
                    blocks@,
                    i + 1,
                    missing_parents@[k],
                ) by {
                    if k < mp1.len() {
                        assert(missing_parents@[k] == mp1[k]);
                        assert(parent_of_valid(blocks@, i as int, mp1[k]));
                        let j = choose|j: int| 0 <= j < i && versa_hash_valid(blocks@[j]@) && parent_tags(blocks@[j]@).contains(mp1[k]);
                        assert(0 <= j < i + 1 && versa_hash_valid(blocks@[j]@) && parent_tags(blocks@[j]@).contains(missing_parents@[k]));
                    } else {
                        assert(parent_tags(blocks@[i as int]@).contains(missing_parents@[k]));
                        assert(versa_hash_valid(blocks@[i as int]@));
                    }
                }
                lemma_grow_trans(m0, m1, self.multichain);
                assert forall|k: H256| #[trigger] p0.requested().contains_key(k) implies self.symbolpool.requested().contains_key(k)
                    && self.symbolpool.requested()[k] == p0.requested()[k] by {
                    assert(p1.requested().contains_key(k));
                }
                assert forall|vh: VersaHash| #[trigger] held_in(self.multichain, vh) && !held_in(m0, vh) implies exists|k: int|
                    0 <= k < new_hashs@.len() && same_place(new_hashs@[k], vh) by {
                    if held_in(m1, vh) {
                        let k = choose|k: int| 0 <= k < nh1.len() && same_place(nh1[k], vh);
                        assert(new_hashs@.subrange(0, nh1.len() as int)[k] == nh1[k]);
                    }
                }
                assert forall|x: H256| #[trigger] self.waiting().contains(x) && !w0.waiting().contains(x) implies exists|j: int|
                    0 <= j < i + 1 && versa_hash_valid(#[trigger] blocks@[j]@) && crate::multichain::is_avai(blocks@[j]@) && x
                    == versa_hash_of(blocks@[j]@) && !cmts_complete(p0, versa_tx_blocks(blocks@[j]@)) by {
                    if !w1.waiting().contains(x) {
                        let b = blocks@[i as int];
                        if cmts_complete(p0, versa_tx_blocks(b@)) {
                            lemma_complete_keeps(p0, p1, versa_tx_blocks(b@));
                        }
                    }
                }
                assert forall|j: int| 0 <= j < i + 1 && versa_hash_valid(#[trigger] blocks@[j]@) && block_ready(w0, blocks@[j]@)
                    && some_parent_held(m0, blocks@[j]@) && no_twin(blocks@, j) implies held_in(self.multichain, tag_of(blocks@[j]@)) by {
                    if j < i {
                        assert(held_in(m1, tag_of(blocks@[j]@)));
                    }
                }
                let w2 = *self;
                assert(w2.symbolpool() == self.symbolpool);
                lemma_step_buffered_held(w0, w1, w2, blocks@, i as int);
                lemma_step_waiting(w0, w1, w2, blocks@, i as int, ms1, missing_symbol_indexs@);
                lemma_step_missing(w0, w1, w2, blocks@, i as int, mp1, missing_parents@);
                lemma_step_prop(w0, w1, w2, blocks@, i as int);
            }
            i = i + 1;
        }
        let ghost nh = new_hashs@;
        let ghost mpf = missing_parents@;
        let ghost msf = missing_symbol_indexs@;
        let r0 = if new_hashs.len() > 0 { Some(Message::NewBlockHash(new_hashs)) } else { None };
        let r1 = if missing_parents.len() > 0 { Some(Message::GetBlocks(missing_parents)) } else { None };
        let r2 = if missing_symbol_indexs.len() > 0 { Some(Message::GetSymbols(missing_symbol_indexs)) } else { None };
        proof {
            assert(announce_list(r0) == nh);
            assert(missing_list(r1) =~= mpf);
            assert(request_list(r2) =~= msf);
            assert forall|j: int| 0 <= j < blocks@.len() && versa_hash_valid(#[trigger] blocks@[j]@) && unique_hash(blocks@, j)
                && !w0.buffered().contains(versa_hash_of(blocks@[j]@)) && !held_in(m0, tag_of(blocks@[j]@)) && !passes(
                *self,
                blocks@[j]@,
            ) implies !held_in(self.multichain(), tag_of(blocks@[j]@)) by {
                lemma_final_not_held(w0, *self, blocks@, j);
            }
        }
        (r0, r1, r2)
    }

    /// The index of the entry for commitment `cmt` among those availability
    /// blocks wait for.
    fn find_cmt_entry(&self, cmt: &H256) -> (r: Option<usize>)
        ensures
            r matches Some(j) ==> j < self.unavailable_cmt2avai_blocks@.len() && self.unavailable_cmt2avai_blocks@[j as int].0
                == *cmt,
            r is None ==> forall|x: int| 0 <= x < self.unavailable_cmt2avai_blocks@.len() ==> self.unavailable_cmt2avai_blocks@[x].0
                != *cmt,
    {
        let mut i: usize = 0;
        while i < self.unavailable_cmt2avai_blocks.len()
            invariant
                i <= self.unavailable_cmt2avai_blocks@.len(),
                forall|x: int| 0 <= x < i ==> self.unavailable_cmt2avai_blocks@[x].0 != *cmt,
            decreases self.unavailable_cmt2avai_blocks@.len() - i,
        {
            if self.unavailable_cmt2avai_blocks[i].0.equals(cmt) {
                return Some(i);
            }
            i = i + 1;
        }
        None
    }

    /// Once all symbols of commitment `cmt` are received: each block that
    /// waited for it and for nothing else is inserted; the others wait for
    /// the rest of their commitments.
    #[verifier::spinoff_prover]
    fn release_cmt(&mut self, cmt: &H256, new_hashes: &mut Vec<VersaHash>, missing_parents: &mut Vec<VersaHash>)
        requires
            old(self).wf(),
            forall|i: int| 0 <= i < old(new_hashes)@.len() ==> #[trigger] held_in(old(self).multichain(), old(new_hashes)@[i]),
        ensures
            final(self).wf(),
            chains_grow(old(self).multichain(), final(self).multichain()),
            final(self).mempool() == old(self).mempool(),
            final(self).symbolpool() == old(self).symbolpool(),
            final(self).config_of() == old(self).config_of(),
            forall|i: int| 0 <= i < final(new_hashes)@.len() ==> #[trigger] held_in(final(self).multichain(), final(new_hashes)@[i]),
            old(new_hashes)@.len() <= final(new_hashes)@.len(),
            final(new_hashes)@.subrange(0, old(new_hashes)@.len() as int) == old(new_hashes)@,
            announced(old(self).multichain(), final(self).multichain(), final(new_hashes)@),
            forall|v: VersaModel| #[trigger] released_by(*old(self), *cmt, v) ==> held_in(final(self).multichain(), tag_of(v))
                && !final(self).waiting().contains(versa_hash_of(v)),
            forall|h: H256, c: H256| c != *cmt && #[trigger] waits_only_for(*old(self), h, c) ==> waits_only_for(*final(self), h, c),
            forall|c: H256, v: VersaModel| c != *cmt ==> (#[trigger] waits_in_list(*final(self), c, v) <==> waits_in_list(
                *old(self),
                c,
                v,
            )),
            forall|h: H256| #[trigger] final(self).waiting().contains(h) ==> old(self).waiting().contains(h),
    {
        let ghost m0 = self.multichain;
        let ghost w0 = *self;
        let ghost n_start = new_hashes@;
        assert(chains_grow(m0, m0));
        assert(new_hashes@.subrange(0, n_start.len() as int) =~= n_start);
        let ghost mut found: bool = false;
        let ghost mut jc: int = 0;
        let blocks = match self.find_cmt_entry(cmt) {
            Some(j) => {
                let mut v: Vec<VersaBlock> = Vec::new();
                let mut k: usize = 0;
                while k < self.unavailable_cmt2avai_blocks[j].1.len()
                    invariant
                        j < self.unavailable_cmt2avai_blocks@.len(),
                        k <= self.unavailable_cmt2avai_blocks@[j as int].1@.len(),
                        v@.len() == k,
                        forall|m: int| 0 <= m < k ==> #[trigger] v@[m]@ == self.unavailable_cmt2avai_blocks@[j as int].1@[m]@,
                    decreases self.unavailable_cmt2avai_blocks@[j as int].1@.len() - k,
                {
                    v.push(self.unavailable_cmt2avai_blocks[j].1[k].clone());
                    k = k + 1;
                }
                proof {
                    found = true;
                    jc = j as int;
                }
                v
            },
            None => Vec::new(),
        };
        let ghost bl = blocks@.map_values(|b: VersaBlock| b@);
        proof {
            assert forall|i: int| 0 <= i < new_hashes@.len() implies #[trigger] held_in(self.multichain, new_hashes@[i]) by {
                assert(held_in(old(self).multichain(), old(new_hashes)@[i]));
            }
            if found {
                assert(bl =~= w0.waiter_lists()[jc].1);
                assert(w0.waiter_lists()[jc].0 == *cmt);
            }
            assert forall|u: VersaModel| #[trigger] waits_in_list(w0, *cmt, u) implies bl.contains(u) by {
                let (i, k) = choose|i: int, k: int|
                    0 <= i < w0.waiter_lists().len() && w0.waiter_lists()[i].0 == *cmt && 0 <= k < w0.waiter_lists()[i].1.len()
                        && #[trigger] w0.waiter_lists()[i].1[k] == u;
                assert(w0.cmt_keys()[i] == w0.waiter_lists()[i].0);
                if found {
                    assert(w0.cmt_keys()[jc] == w0.waiter_lists()[jc].0);
                    assert(i == jc);
                    assert(bl[k] == u);
                } else {
                    assert(w0.unavailable_cmt2avai_blocks@[i].0 == *cmt);
                }
            }
            assert forall|k: int| 0 <= k < bl.len() implies #[trigger] waits_in_list(w0, *cmt, bl[k]) by {
                assert(w0.waiter_lists()[jc].1[k] == bl[k]);
            }
        }
        if blocks.len() == 0 {
            return;
        }
        let mut b: usize = 0;
        while b < blocks.len()
            invariant
                self.wf(),
                b <= blocks@.len(),
                bl == blocks@.map_values(|x: VersaBlock| x@),
                w0 == *old(self),
                chains_grow(m0, self.multichain),
                self.mempool == old(self).mempool,
                self.symbolpool == old(self).symbolpool,
                self.config == old(self).config,
                forall|i: int| 0 <= i < new_hashes@.len() ==> #[trigger] held_in(self.multichain, new_hashes@[i]),
                n_start.len() <= new_hashes@.len(),
                new_hashes@.subrange(0, n_start.len() as int) == n_start,
                n_start == old(new_hashes)@,
                m0 == old(self).multichain,
                announced(m0, self.multichain, new_hashes@),
                self.waiter_lists() == w0.waiter_lists(),
                forall|h: H256, c: H256| c != *cmt && #[trigger] waits_only_for(w0, h, c) ==> waits_only_for(*self, h, c),
                forall|h: H256| #[trigger] self.waiting().contains(h) ==> w0.waiting().contains(h),
                forall|h: H256| #[trigger] waits_only_for(w0, h, *cmt) && (forall|k: int| 0 <= k < b ==> versa_hash_of(bl[k]) != h)
                    ==> waits_only_for(*self, h, *cmt),
                forall|k: int| 0 <= k < b && #[trigger] released_by(w0, *cmt, bl[k]) ==> held_in(self.multichain, tag_of(bl[k]))
                    && !self.waiting().contains(versa_hash_of(bl[k])),
                forall|k: int| 0 <= k < bl.len() ==> #[trigger] waits_in_list(w0, *cmt, bl[k]),
            decreases blocks@.len() - b,
        {
            let ghost s1 = *self;
            let unavai_block = &blocks[b];
            let unavai_block_hash = unavai_block.hash_value();
            let ghost v = bl[b as int];
            proof {
                assert(unavai_block@ == v);
            }
            match self.find_waiting_block(&unavai_block_hash) {
                Some(j) => {
                    let cmts = crate::block::copy_vec(&self.unavailable_avai_block2cmts[j].1);
                    let ghost w = self.unavailable_avai_block2cmts@;
                    proof {
                        assert(self.waiting_entries()[j as int] == (unavai_block_hash, cmts@));
                    }
                    let mut remaining: Vec<H256> = Vec::new();
                    let mut k: usize = 0;
                    while k < cmts.len()
                        invariant
                            k <= cmts@.len(),
                            j < w.len(),
                            cmts@ == w[j as int].1@,
                            self.wf(),
                            self.unavailable_avai_block2cmts@ == w,
                            forall|x: int| 0 <= x < remaining@.len() ==> #[trigger] self.symbolpool.requested().contains_key(
                                remaining@[x],
                            ),
                            (forall|m: int| 0 <= m < k ==> cmts@[m] == *cmt) ==> remaining@.len() == 0,
                            remaining@.len() == 0 ==> forall|m: int| 0 <= m < k ==> cmts@[m] == *cmt,
                            (forall|m: int| 0 <= m < k ==> cmts@[m] != *cmt) ==> remaining@ == cmts@.take(k as int),
                        decreases cmts@.len() - k,
                    {
                        if !cmts[k].equals(cmt) {
                            assert(self.symbolpool.requested().contains_key(w[j as int].1@[k as int]));
                            remaining.push(cmts[k]);
                        }
                        proof {
                            assert(cmts@.take(k + 1) =~= cmts@.take(k as int).push(cmts@[k as int]));
                        }
                        k = k + 1;
                    }
                    proof {
                        assert(cmts@.take(cmts@.len() as int) =~= cmts@);
                    }
                    if remaining.len() == 0 {
                        let ghost m1 = self.multichain;
                        let ghost n0 = new_hashes@;
                        let ghost s_ins = *self;
                        let (sub_new_hashes, sub_missing_parents) = self.insert_block(unavai_block.clone());
                        proof {
                            lemma_grow_trans(m0, m1, self.multichain);
                            if released_by(w0, *cmt, v) {
                                lemma_some_parent_grows(m0, m1, v);
                            }
                        }
                        append_versa_hashes(new_hashes, &sub_new_hashes);
                        append_versa_hashes(missing_parents, &sub_missing_parents);
                        proof {
                            assert(new_hashes@.subrange(0, n0.len() as int) =~= n0);
                            assert(new_hashes@.subrange(0, n_start.len() as int) =~= n0.subrange(0, n_start.len() as int));
                            assert forall|vh: VersaHash| #[trigger] held_in(self.multichain, vh) && !held_in(m0, vh) implies exists|k: int|
                                0 <= k < new_hashes@.len() && same_place(new_hashes@[k], vh) by {
                                if held_in(m1, vh) {
                                    let k = choose|k: int| 0 <= k < n0.len() && same_place(n0[k], vh);
                                    assert(new_hashes@[k] == n0[k]);
                                } else {
                                    let k = choose|k: int| 0 <= k < sub_new_hashes@.len() && same_place(sub_new_hashes@[k], vh);
                                    assert(new_hashes@[n0.len() + k] == sub_new_hashes@[k]);
                                }
                            }
                            assert forall|i: int| 0 <= i < new_hashes@.len() implies #[trigger] held_in(self.multichain, new_hashes@[i]) by {
                                if i < n0.len() {
                                    assert(held_in(m1, n0[i]));
                                    assert(new_hashes@[i] == n0[i]);
                                } else {
                                    assert(new_hashes@[i] == sub_new_hashes@[i - n0.len()]);
                                }
                            }
                            assert forall|k: int| 0 <= k < b && #[trigger] released_by(w0, *cmt, bl[k]) implies held_in(
                                self.multichain,
                                tag_of(bl[k]),
                            ) by {
                                lemma_grow_trans(m1, m1, self.multichain);
                                assert(held_in(m1, tag_of(bl[k])));
                            }
                            assert(self.waiting_entries() == s_ins.waiting_entries());
                            assert(self.waiting() == s_ins.waiting());
                        }
                        let ghost s_clr = *self;
                        self.clear_waiting_block(&unavai_block_hash);
                        proof {
                            assert forall|h: H256, c: H256| c != *cmt && #[trigger] waits_only_for(w0, h, c) implies waits_only_for(
                                *self,
                                h,
                                c,
                            ) by {
                                assert(waits_only_for(s1, h, c));
                                if h == unavai_block_hash {
                                    assert(s1.waiting_entries()[j as int].0 == h);
                                    assert(entry_only(s1.waiting_entries()[j as int], c));
                                    assert(cmts@[0] == c);
                                } else {
                                    assert(waits_only_for(s_clr, h, c));
                                }
                            }
                            assert forall|h: H256, c: H256| h != unavai_block_hash && #[trigger] waits_only_for(s1, h, c)
                                implies waits_only_for(*self, h, c) by {
                                assert(waits_only_for(s_clr, h, c));
                            }
                            if released_by(w0, *cmt, v) && waits_only_for(s1, unavai_block_hash, *cmt) {
                                assert(some_parent_held(s_ins.multichain(), v));
                                assert(held_in(s_clr.multichain(), tag_of(v)));
                            }
                            lemma_grow_trans(s1.multichain(), s_ins.multichain(), self.multichain());
                            assert(chains_grow(s1.multichain(), self.multichain()));
                            assert(forall|h: H256, c: H256| h != unavai_block_hash && #[trigger] waits_only_for(s1, h, c)
                                ==> waits_only_for(*self, h, c));
                            assert(forall|x: H256| #[trigger] self.waiting().contains(x) ==> s1.waiting().contains(x));
                            assert(released_by(w0, *cmt, v) && waits_only_for(s1, unavai_block_hash, *cmt) ==> held_in(
                                self.multichain(),
                                tag_of(v),
                            ) && !self.waiting().contains(unavai_block_hash));
                        }
                    } else {
                        proof {
                            assert forall|c: H256| c != *cmt && #[trigger] waits_only_for(*self, unavai_block_hash, c) implies entry_only(
                                (unavai_block_hash, remaining@),
                                c,
                            ) by {
                                assert(entry_only(self.waiting_entries()[j as int], c));
                            }
                        }
                        let ghost s_set = *self;
                        let ghost rem = remaining@;
                        self.set_waiting_cmts(&unavai_block_hash, remaining);
                        proof {
                            assert forall|h: H256, c: H256| c != *cmt && #[trigger] waits_only_for(w0, h, c) implies waits_only_for(
                                *self,
                                h,
                                c,
                            ) by {
                                assert(waits_only_for(s_set, h, c));
                                if h == unavai_block_hash {
                                    assert(entry_only((unavai_block_hash, rem), c));
                                    assert forall|i: int| 0 <= i < self.waiting_entries().len() && self.waiting_entries()[i].0 == h
                                        implies #[trigger] entry_only(self.waiting_entries()[i], c) by {
                                        assert(self.waiting_entries()[i] == (unavai_block_hash, rem));
                                    }
                                }
                            }
                            if waits_only_for(s1, unavai_block_hash, *cmt) {
                                assert(s1.waiting_entries()[j as int].0 == unavai_block_hash);
                                assert(entry_only(s1.waiting_entries()[j as int], *cmt));
                            }
                            assert forall|x: H256| #[trigger] self.waiting().contains(x) implies s1.waiting().contains(x) by {
                                if x == unavai_block_hash {
                                    assert(s1.waiting()[j as int] == x);
                                }
                            }
                            assert(chains_grow(s1.multichain(), self.multichain()));
                            assert(chains_grow(s1.multichain(), self.multichain()));
                            assert(forall|h: H256, c: H256| h != unavai_block_hash && #[trigger] waits_only_for(s1, h, c)
                                ==> waits_only_for(*self, h, c));
                            assert(forall|x: H256| #[trigger] self.waiting().contains(x) ==> s1.waiting().contains(x));
                            assert(released_by(w0, *cmt, v) && waits_only_for(s1, unavai_block_hash, *cmt) ==> held_in(
                                self.multichain(),
                                tag_of(v),
                            ) && !self.waiting().contains(unavai_block_hash));
                        }
                    }
                },
                None => {
                    proof {
                        assert(chains_grow(s1.multichain(), self.multichain()));
                    }
                },
            }
            proof {
                assert(chains_grow(s1.multichain(), self.multichain()));
                assert(forall|h: H256, c: H256| h != unavai_block_hash && #[trigger] waits_only_for(s1, h, c) ==> waits_only_for(
                    *self,
                    h,
                    c,
                ));
                assert(forall|x: H256| #[trigger] self.waiting().contains(x) ==> s1.waiting().contains(x));
                assert(released_by(w0, *cmt, v) && waits_only_for(s1, unavai_block_hash, *cmt) ==> held_in(
                    self.multichain(),
                    tag_of(v),
                ) && !self.waiting().contains(unavai_block_hash));
                assert forall|h: H256| #[trigger] waits_only_for(w0, h, *cmt) && (forall|k: int| 0 <= k < b + 1 ==> versa_hash_of(bl[k])
                    != h) implies waits_only_for(*self, h, *cmt) by {
                    assert(versa_hash_of(bl[b as int]) != h);
                    assert(waits_only_for(s1, h, *cmt));
                }
                assert forall|k: int| 0 <= k < b + 1 && #[trigger] released_by(w0, *cmt, bl[k]) implies held_in(
                    self.multichain,
                    tag_of(bl[k]),
                ) && !self.waiting().contains(versa_hash_of(bl[k])) by {
                    lemma_grow_trans(s1.multichain(), s1.multichain(), self.multichain());
                    if k < b {
                        assert(held_in(s1.multichain(), tag_of(bl[k])));
                    } else {
                        if exists|k2: int| 0 <= k2 < b && versa_hash_of(bl[k2]) == versa_hash_of(v) {
                            let k2 = choose|k2: int| 0 <= k2 < b && versa_hash_of(bl[k2]) == versa_hash_of(v);
                            assert(waits_in_list(w0, *cmt, bl[k2]));
                            assert(bl[k2] == v);
                            assert(held_in(s1.multichain(), tag_of(bl[k2])));
                        } else {
                            assert(waits_only_for(s1, versa_hash_of(v), *cmt));
                        }
                    }
                }
                if released_by(w0, *cmt, v) {
                    if exists|k: int| 0 <= k < b && versa_hash_of(bl[k]) == versa_hash_of(v) {
                        let k = choose|k: int| 0 <= k < b && versa_hash_of(bl[k]) == versa_hash_of(v);
                        assert(waits_in_list(w0, *cmt, bl[k]));
                        assert(bl[k] == v);
                    } else {
                        assert(waits_only_for(s1, versa_hash_of(v), *cmt));
                    }
                }
            }
            b = b + 1;
        }
        let ghost s_end = *self;
        match self.find_cmt_entry(cmt) {
            Some(j) => {
                let ghost k0 = self.cmt_keys();
                let ghost l0 = self.waiter_lists();
                self.unavailable_cmt2avai_blocks.remove(j);
                proof {
                    assert(self.cmt_keys() =~= k0.remove(j as int));
                    lemma_remove_no_dup(k0, j as int);
                    assert(self.waiter_lists() =~= l0.remove(j as int));
                    assert forall|c: H256, u: VersaModel| c != *cmt implies (#[trigger] waits_in_list(*self, c, u)
                        <==> waits_in_list(w0, c, u)) by {
                        let l1 = self.waiter_lists();
                        if waits_in_list(*self, c, u) {
                            let (i, k) = choose|i: int, k: int|
                                0 <= i < l1.len() && l1[i].0 == c && 0 <= k < l1[i].1.len() && #[trigger] l1[i].1[k] == u;
                            let i2 = if i < j { i } else { i + 1 };
                            assert(l1[i] == l0[i2]);
                            assert(l0[i2].1[k] == u);
                        }
                        if waits_in_list(w0, c, u) {
                            let (i, k) = choose|i: int, k: int|
                                0 <= i < l0.len() && l0[i].0 == c && 0 <= k < l0[i].1.len() && #[trigger] l0[i].1[k] == u;
                            assert(i != j);
                            let i2 = if i < j { i } else { i - 1 };
                            assert(l1[i2] == l0[i]);
                            assert(l1[i2].1[k] == u);
                        }
                    }
                }
            },
            None => {},
        }
        proof {
            assert(self.waiting_entries() == s_end.waiting_entries());
            assert(self.waiting() == s_end.waiting());
            assert forall|h: H256, c: H256| c != *cmt && #[trigger] waits_only_for(w0, h, c) implies waits_only_for(*self, h, c) by {
                assert(waits_only_for(s_end, h, c));
            }
            assert forall|v: VersaModel| #[trigger] released_by(w0, *cmt, v) implies held_in(self.multichain(), tag_of(v))
                && !self.waiting().contains(versa_hash_of(v)) by {
                assert(bl.contains(v));
                let k = choose|k: int| 0 <= k < bl.len() && bl[k] == v;
                assert(released_by(w0, *cmt, bl[k]));
            }
        }
    }

    /// On symbols: each requested symbol that verifies is taken into the
    /// pool; when a commitment then has all its requested symbols, the
    /// blocks that waited for it alone are inserted. Answers the new symbol
    /// indexes, the tagged hashes inserted and the parents missing.
    pub fn handle_symbols(&mut self, symbols: Vec<Symbol>) -> (r: (Option<Message>, Option<Message>, Option<Message>))
        requires
            old(self).wf(),
        ensures
            final(self).wf(),
            chains_grow(old(self).multichain(), final(self).multichain()),
            final(self).mempool() == old(self).mempool(),
            final(self).config_of() == old(self).config_of(),
            requested_grow(old(self).symbolpool(), final(self).symbolpool()),
            r.0 is None || (r.0 matches Some(Message::NewSymbols(v)) && v@.len() > 0 && forall|i: int| 0 <= i < v@.len()
                ==> #[trigger] final(self).symbolpool().held(v@[i].root, v@[i].index)),
            r.1 is None || (r.1 matches Some(Message::NewBlockHash(v)) && v@.len() > 0 && forall|i: int| 0 <= i < v@.len()
                ==> #[trigger] held_in(final(self).multichain(), v@[i])),
            r.2 is None || (r.2 matches Some(Message::GetBlocks(v)) && v@.len() > 0),
            r.0 matches Some(Message::NewSymbols(v)) ==> forall|k: int| 0 <= k < v@.len() ==> #[trigger] fresh_in(
                symbols@,
                old(self).symbolpool(),
                v@[k],
            ),
            (forall|j: int| 0 <= j < symbols@.len() ==> !fresh_symbol(old(self).symbolpool(), #[trigger] symbols@[j]@))
                ==> r.0 is None && r.1 is None && r.2 is None && *final(self) == *old(self),
            forall|j: int| 0 <= j < symbols@.len() && fresh_symbol(old(self).symbolpool(), #[trigger] symbols@[j]@) ==> {
                &&& final(self).symbolpool().held(symbols@[j]@.index.root, symbols@[j]@.index.index)
                &&& key_listed(symbol_list(r.0), symbols@[j]@.index)
            },
            announced(old(self).multichain(), final(self).multichain(), announce_list(r.1)),
            forall|j: int, v: VersaModel|
                0 <= j < symbols@.len() && #[trigger] completes(old(self).symbolpool(), symbols@, j) && #[trigger] released_by(
                    *old(self),
                    symbols@[j]@.index.root,
                    v,
                ) ==> {
                    &&& held_in(final(self).multichain(), tag_of(v))
                    &&& !final(self).waiting().contains(versa_hash_of(v))
                    &&& held_in(old(self).multichain(), tag_of(v)) || exists|k: int| 0 <= k < announce_list(r.1).len()
                        && same_place(announce_list(r.1)[k], tag_of(v))
                },
    {
        let mut new_symbols: Vec<SymbolIndex> = Vec::new();
        let mut new_hashes: Vec<VersaHash> = Vec::new();
        let mut missing_parents: Vec<VersaHash> = Vec::new();
        let ghost m0 = self.multichain;
        let ghost p0 = self.symbolpool;
        let ghost w0 = *self;
        let ghost mut rel: Seq<H256> = Seq::empty();
        assert(chains_grow(m0, m0));
        let mut i: usize = 0;
        while i < symbols.len()
            invariant
                self.wf(),
                i <= symbols@.len(),
                chains_grow(m0, self.multichain),
                self.mempool == old(self).mempool,
                self.config == old(self).config,
                requested_grow(p0, self.symbolpool),
                self.symbolpool.requested() == p0.requested(),
                forall|j: int| 0 <= j < new_symbols@.len() ==> #[trigger] self.symbolpool.held(new_symbols@[j].root, new_symbols@[j].index),
                forall|j: int| 0 <= j < new_hashes@.len() ==> #[trigger] held_in(self.multichain, new_hashes@[j]),
                forall|k: H256| #[trigger] p0.symbols().contains_key(k) ==> self.symbolpool.symbols().contains_key(k),
                forall|m: int| 0 <= m < new_symbols@.len() ==> #[trigger] fresh_in(symbols@, p0, new_symbols@[m]),
                (forall|j: int| 0 <= j < i ==> !fresh_symbol(p0, #[trigger] symbols@[j]@)) ==> *self == *old(self)
                    && new_symbols@.len() == 0 && new_hashes@.len() == 0 && missing_parents@.len() == 0,
                p0 == old(self).symbolpool,
                m0 == old(self).multichain,
                announced(m0, self.multichain, new_hashes@),
                forall|r: H256, x: u32| #[trigger] self.symbolpool.held(r, x) && !p0.held(r, x) ==> exists|m: int|
                    0 <= m < new_symbols@.len() && index_key(new_symbols@[m].root, new_symbols@[m].index) == index_key(r, x),
                forall|j: int| 0 <= j < i && fresh_symbol(p0, #[trigger] symbols@[j]@) ==> self.symbolpool.held(
                    symbols@[j]@.index.root,
                    symbols@[j]@.index.index,
                ) && key_listed(new_symbols@, symbols@[j]@.index),
                w0 == *old(self),
                forall|m: int| 0 <= m < new_symbols@.len() ==> exists|i2: int| 0 <= i2 < i && #[trigger] symbols@[i2]@.index
                    == #[trigger] new_symbols@[m],
                forall|c: H256| #[trigger] rel.contains(c) ==> self.symbolpool.requested().contains_key(c)
                    && self.symbolpool.unreceived(c).len() == 0,
                forall|c: H256, v: VersaModel| !rel.contains(c) && #[trigger] released_by(w0, c, v) ==> released_by(*self, c, v),
                forall|j: int, v: VersaModel| 0 <= j < i && #[trigger] completes(p0, symbols@, j) && #[trigger] released_by(
                    w0,
                    symbols@[j]@.index.root,
                    v,
                ) ==> held_in(self.multichain, tag_of(v)) && !self.waiting().contains(versa_hash_of(v)),
            decreases symbols@.len() - i,
        {
            let ghost s_i = *self;
            let ghost ps0 = self.symbolpool;
            let ghost ns_before = new_symbols@;
            let ghost nh_before = new_hashes@;
            let ghost mc_before = self.multichain;
            let symbol_index = symbols[i].get_index();
            if self.symbolpool.check_if_requested(&symbol_index) {
                let ghost ps = self.symbolpool;
                let ghost w = self.unavailable_avai_block2cmts@;
                let sym = symbols[i].clone();
                assert(sym@ == symbols@[i as int]@);
                let res = self.symbolpool.insert_symbol(sym);
                proof {
                    assert forall|k: H256| #[trigger] p0.symbols().contains_key(k) implies self.symbolpool.symbols().contains_key(k) by {
                        assert(ps.symbols().contains_key(k));
                    }
                    if res == Ok::<bool, crate::symbolpool::SymbolError>(true) {
                        let r0 = symbol_index.root;
                        let i0 = symbol_index.index;
                        assert(!ps.held(r0, i0));
                        if p0.held(r0, i0) {
                            let k = choose|k: H256| #[trigger] p0.symbols().contains_key(k) && k@ == index_key(r0, i0);
                            assert(ps.symbols().contains_key(k));
                        }
                        assert(fresh_symbol(p0, symbols@[i as int]@));
                    }
                }
                proof {
                    assert forall|a: int, b: int| 0 <= a < w.len() && 0 <= b < w[a].1@.len()
                        implies #[trigger] self.symbolpool.requested().contains_key(w[a].1@[b]) by {
                        assert(ps.requested().contains_key(w[a].1@[b]));
                    }
                    assert forall|j: int| 0 <= j < new_symbols@.len() implies #[trigger] self.symbolpool.held(
                        new_symbols@[j].root,
                        new_symbols@[j].index,
                    ) by {
                        let r0 = new_symbols@[j].root;
                        let i0 = new_symbols@[j].index;
                        assert(ps.held(r0, i0));
                        let k = choose|k: H256| #[trigger] ps.symbols().contains_key(k) && k@ == index_key(r0, i0);
                        assert(self.symbolpool.symbols().contains_key(k));
                    }
                }
                let ghost s_a = *self;
                proof {
                    assert(s_a.waiter_lists() == s_i.waiter_lists());
                    assert(s_a.waiting_entries() == s_i.waiting_entries());
                    assert(s_a.waiting() == s_i.waiting());
                    assert(s_a.multichain() == s_i.multichain());
                    assert forall|c: H256, v: VersaModel| #[trigger] released_by(s_i, c, v) implies released_by(s_a, c, v) by {
                        assert forall|u: VersaModel| #[trigger] waits_in_list(s_a, c, u) implies waits_in_list(s_i, c, u) by {}
                    }
                    assert forall|c: H256| #[trigger] rel.contains(c) implies self.symbolpool.requested().contains_key(c)
                        && self.symbolpool.unreceived(c).len() == 0 by {
                        lemma_unreceived_empty_keeps(ps, self.symbolpool, c);
                    }
                    if completes(p0, symbols@, i as int) {
                        let r0 = symbol_index.root;
                        let i0 = symbol_index.index;
                        if ps.held(r0, i0) {
                            let m = choose|m: int| 0 <= m < ns_before.len() && index_key(ns_before[m].root, ns_before[m].index)
                                == index_key(r0, i0);
                            let i2 = choose|i2: int| 0 <= i2 < i && #[trigger] symbols@[i2]@.index == ns_before[m];
                            assert(index_key(symbols@[i2]@.index.root, symbols@[i2]@.index.index) != index_key(r0, i0));
                        }
                        assert(res == Ok::<bool, crate::symbolpool::SymbolError>(true));
                        lemma_unreceived_has(ps, r0, i0);
                        assert(!rel.contains(r0));
                    }
                }
                match res {
                    Ok(true) => {
                        proof {
                            let r0 = symbol_index.root;
                            let i0 = symbol_index.index;
                            let k = choose|k: H256| k@ == index_key(r0, i0) && self.symbolpool.symbols() == ps.symbols().insert(k, symbols@[i as int]@);
                            assert(self.symbolpool.symbols().contains_key(k));
                        }
                        let ghost ns0 = new_symbols@;
                        new_symbols.push(symbol_index);
                        proof {
                            assert forall|m: int| 0 <= m < new_symbols@.len() implies exists|i2: int| 0 <= i2 < i + 1
                                && #[trigger] symbols@[i2]@.index == #[trigger] new_symbols@[m] by {
                                if m < ns0.len() {
                                    assert(new_symbols@[m] == ns0[m]);
                                } else {
                                    assert(symbols@[i as int]@.index == new_symbols@[m]);
                                }
                            }
                            assert forall|m: int| 0 <= m < new_symbols@.len() implies #[trigger] fresh_in(symbols@, p0, new_symbols@[m]) by {
                                if m < ns0.len() {
                                    assert(new_symbols@[m] == ns0[m]);
                                } else {
                                    assert(symbols@[i as int]@.index == new_symbols@[m]);
                                    assert(fresh_symbol(p0, symbols@[i as int]@));
                                }
                            }
                        }
                        let cmt_root = symbol_index.get_root();
                        let all_received = match self.symbolpool.get_unreceived_symbols(&cmt_root) {
                            Ok(v) => v.len() == 0,
                            Err(_) => false,
                        };
                        proof {
                            assert(all_received ==> self.symbolpool.requested().contains_key(cmt_root)
                                && self.symbolpool.unreceived(cmt_root).len() == 0);
                            if completes(p0, symbols@, i as int) {
                                let r0 = symbol_index.root;
                                let i0 = symbol_index.index;
                                assert(self.symbolpool.held(r0, i0));
                                lemma_last_symbol(p0, self.symbolpool, r0, symbol_index);
                                assert(all_received);
                            }
                        }
                        if all_received {
                            let ghost m1 = self.multichain;
                            let ghost s_r = *self;
                            self.release_cmt(&cmt_root, &mut new_hashes, &mut missing_parents);
                            proof {
                                lemma_grow_trans(m0, m1, self.multichain);
                                lemma_released_keeps(s_r, *self, cmt_root);
                                assert(s_r == s_a);
                                assert(self.symbolpool == s_r.symbolpool);
                                let rel0 = rel;
                                rel = rel.push(cmt_root);
                                assert forall|c: H256, v: VersaModel| !rel.contains(c) && #[trigger] released_by(w0, c, v) implies released_by(
                                    *self,
                                    c,
                                    v,
                                ) by {
                                    assert(!rel0.contains(c)) by {
                                        if rel0.contains(c) {
                                            let q = choose|q: int| 0 <= q < rel0.len() && rel0[q] == c;
                                            assert(rel[q] == c);
                                        }
                                    }
                                    assert(released_by(s_i, c, v));
                                    assert(released_by(s_a, c, v));
                                    assert(c != cmt_root) by {
                                        assert(rel[rel0.len() as int] == cmt_root);
                                    }
                                }
                                assert forall|c: H256| #[trigger] rel.contains(c) implies self.symbolpool.requested().contains_key(c)
                                    && self.symbolpool.unreceived(c).len() == 0 by {
                                    if c != cmt_root {
                                        let q = choose|q: int| 0 <= q < rel.len() && rel[q] == c;
                                        assert(q < rel0.len());
                                        assert(rel0[q] == c);
                                        assert(rel0.contains(c));
                                        assert(s_a.symbolpool.unreceived(c).len() == 0);
                                    }
                                }
                            }
                        }
                    },
                    _ => {},
                }
            }
            proof {
                let idx = symbols@[i as int]@.index;
                assert forall|r: H256, x: u32| #[trigger] self.symbolpool.held(r, x) && !p0.held(r, x) implies exists|m: int|
                    0 <= m < new_symbols@.len() && index_key(new_symbols@[m].root, new_symbols@[m].index) == index_key(r, x) by {
                    if ps0.held(r, x) {
                        let m = choose|m: int| 0 <= m < ns_before.len() && index_key(ns_before[m].root, ns_before[m].index) == index_key(r, x);
                        assert(new_symbols@[m] == ns_before[m]);
                    } else {
                        let k = choose|k: H256| #[trigger] self.symbolpool.symbols().contains_key(k) && k@ == index_key(r, x);
                        assert(!ps0.symbols().contains_key(k));
                        assert(new_symbols@.len() == ns_before.len() + 1);
                        assert(new_symbols@[ns_before.len() as int] == idx);
                    }
                }
                assert forall|j: int| 0 <= j < i + 1 && fresh_symbol(p0, #[trigger] symbols@[j]@) implies self.symbolpool.held(
                    symbols@[j]@.index.root,
                    symbols@[j]@.index.index,
                ) && key_listed(new_symbols@, symbols@[j]@.index) by {
                    let ij = symbols@[j]@.index;
                    if j < i {
                        let k = choose|k: H256| #[trigger] ps0.symbols().contains_key(k) && k@ == index_key(ij.root, ij.index);
                        assert(self.symbolpool.symbols().contains_key(k));
                        let m = choose|m: int| 0 <= m < ns_before.len() && index_key(ns_before[m].root, ns_before[m].index) == index_key(ij.root, ij.index);
                        assert(new_symbols@[m] == ns_before[m]);
                    } else {
                        assert(self.symbolpool.held(ij.root, ij.index));
                        assert(!p0.held(ij.root, ij.index));
                    }
                }
                assert forall|vh: VersaHash| #[trigger] held_in(self.multichain, vh) && !held_in(m0, vh) implies exists|k: int|
                    0 <= k < new_hashes@.len() && same_place(new_hashes@[k], vh) by {
                    if held_in(mc_before, vh) {
                        let k = choose|k: int| 0 <= k < nh_before.len() && same_place(nh_before[k], vh);
                        assert(new_hashes@.subrange(0, nh_before.len() as int)[k] == nh_before[k]);
                    }
                }
                assert(self.waiter_lists() == s_i.waiter_lists() || true);
            }
            i = i + 1;
        }
        let ghost nsf = new_symbols@;
        let ghost nhf = new_hashes@;
        let r0 = if new_symbols.len() > 0 { Some(Message::NewSymbols(new_symbols)) } else { None };
        proof {
            assert(symbol_list(r0) == nsf);
        }
        let r1 = if new_hashes.len() > 0 { Some(Message::NewBlockHash(new_hashes)) } else { None };
        proof {
            assert(announce_list(r1) == nhf);
        }
        let r2 = if missing_parents.len() > 0 { Some(Message::GetBlocks(missing_parents)) } else { None };
        (r0, r1, r2)
    }

    /// Asks for the symbols of what the highest proposer block commits and
    /// this node's availability chain has not committed: the missing symbols
    /// of each commitment, requesting the commitment first when it is new.
    pub fn request_unreferred_symbols(&mut self) -> (r: Option<Message>)
        requires
            old(self).wf(),
        ensures
            final(self).wf(),
            final(self).multichain() == old(self).multichain(),
            final(self).mempool() == old(self).mempool(),
            final(self).config_of() == old(self).config_of(),
            requested_grow(old(self).symbolpool(), final(self).symbolpool()),
            r is None || (r matches Some(Message::GetSymbols(v)) && v@.len() > 0 && all_requested(final(self).symbolpool(), v@)),
            final(self).symbolpool().symbols() == old(self).symbolpool().symbols(),
            cmts_requested(final(self).symbolpool(), unreferred_cmts(old(self).multichain())),
            forall|k: int, x: SymbolIndex| 0 <= k < unreferred_cmts(old(self).multichain()).len()
                && #[trigger] final(self).symbolpool().unreceived(unreferred_cmts(old(self).multichain())[k].header.cmt_root).contains(x)
                ==> request_list(r).contains(x),
            (forall|i: int| 0 <= i < unreferred_cmts(old(self).multichain()).len() ==> old(self).symbolpool().requested().contains_key(
                #[trigger] unreferred_cmts(old(self).multichain())[i].header.cmt_root,
            )) ==> *final(self) == *old(self) && ({
                let u = unreceived_all(old(self).symbolpool(), unreferred_cmts(old(self).multichain()));
                &&& u.len() == 0 ==> r is None
                &&& u.len() > 0 ==> (r matches Some(Message::GetSymbols(v)) && v@ == u)
            }),
    {
        let highest = self.multichain.get_highest_prop_block();
        proof {
            crate::multichain::law_chains_wf(&self.multichain);
            crate::blockchain::law_tip_is_highest(&self.multichain.prop_chain());
        }
        let txs = self.multichain.get_unreferred_cmt(&highest);
        let mut reqs: Vec<SymbolIndex> = Vec::new();
        let ghost p0 = self.symbolpool;
        let mut i: usize = 0;
        while i < txs.len()
            invariant
                self.wf(),
                i <= txs@.len(),
                self.multichain == old(self).multichain,
                self.mempool == old(self).mempool,
                self.config == old(self).config,
                requested_grow(p0, self.symbolpool),
                all_requested(self.symbolpool, reqs@),
                tx_block_views(txs@) == unreferred_cmts(old(self).multichain()),
                p0 == old(self).symbolpool,
                (forall|j: int| 0 <= j < txs@.len() ==> p0.requested().contains_key(#[trigger] txs@[j]@.header.cmt_root))
                    ==> *self == *old(self) && reqs@ == unreceived_all(p0, tx_block_views(txs@).subrange(0, i as int)),
                self.symbolpool.symbols() == p0.symbols(),
                forall|j: int| 0 <= j < i ==> self.symbolpool.requested().contains_key(#[trigger] txs@[j]@.header.cmt_root),
                forall|j: int, x: SymbolIndex| 0 <= j < i && #[trigger] self.symbolpool.unreceived(txs@[j]@.header.cmt_root).contains(x)
                    ==> reqs@.contains(x),
            decreases txs@.len() - i,
        {
            let shard_id = txs[i].get_shard_id();
            let cmt_root = txs[i].get_cmt_root();
            let ghost pk = self.symbolpool;
            let ghost r0 = reqs@;
            self.ask_for_cmt(&cmt_root, shard_id == self.config.shard_id, &mut reqs);
            proof {
                let tv = tx_block_views(txs@);
                assert(tv.subrange(0, i + 1).drop_last() =~= tv.subrange(0, i as int));
                assert(tv.subrange(0, i + 1).last() == txs@[i as int]@);
                if forall|j: int| 0 <= j < txs@.len() ==> p0.requested().contains_key(#[trigger] txs@[j]@.header.cmt_root) {
                    assert(p0.requested().contains_key(txs@[i as int]@.header.cmt_root));
                    assert(pk == p0);
                    assert(reqs@ == r0 + p0.unreceived(cmt_root));
                    assert(reqs@ == unreceived_all(p0, tv.subrange(0, i + 1)));
                }
            }
            proof {
                assert forall|x: H256| #[trigger] p0.requested().contains_key(x) implies self.symbolpool.requested().contains_key(x)
                    && self.symbolpool.requested()[x] == p0.requested()[x] by {
                    assert(pk.requested().contains_key(x));
                }
                assert forall|j: int| 0 <= j < i + 1 implies self.symbolpool.requested().contains_key(#[trigger] txs@[j]@.header.cmt_root) by {
                    if j < i {
                        assert(pk.requested().contains_key(txs@[j]@.header.cmt_root));
                    }
                }
                assert forall|j: int, x: SymbolIndex| 0 <= j < i + 1 && #[trigger] self.symbolpool.unreceived(txs@[j]@.header.cmt_root).contains(x)
                    implies reqs@.contains(x) by {
                    let c = txs@[j]@.header.cmt_root;
                    if j < i {
                        lemma_unreceived_keeps(pk, self.symbolpool, c);
                        assert(r0.contains(x));
                        let m = choose|m: int| 0 <= m < r0.len() && r0[m] == x;
                        assert(reqs@[m] == x);
                    } else if pk.requested().contains_key(c) {
                        let m = choose|m: int| 0 <= m < pk.unreceived(c).len() && pk.unreceived(c)[m] == x;
                        assert(reqs@[r0.len() + m] == x);
                    } else {
                        lemma_unreceived_asked(self.symbolpool, c, x);
                        let v = indexes_of(c, self.symbolpool.requested()[c]);
                        let m = choose|m: int| 0 <= m < v.len() && v[m] == x;
                        assert(reqs@[r0.len() + m] == x);
                    }
                }
            }
            i = i + 1;
        }
        proof {
            assert(tx_block_views(txs@).subrange(0, txs@.len() as int) =~= tx_block_views(txs@));
            assert forall|j: int| 0 <= j < txs@.len() implies (#[trigger] txs@[j])@ == tx_block_views(txs@)[j] by {}
        }
        let ghost rq = reqs@;
        let r = if reqs.len() > 0 {
            Some(Message::GetSymbols(reqs))
        } else {
            None
        };
        proof {
            assert(request_list(r) == rq);
            let u = unreferred_cmts(old(self).multichain());
            assert forall|k: int| 0 <= k < u.len() implies self.symbolpool.requested().contains_key(#[trigger] u[k].header.cmt_root) by {
                assert(txs@[k]@ == u[k]);
            }
            assert forall|k: int, x: SymbolIndex| 0 <= k < u.len() && #[trigger] self.symbolpool.unreceived(u[k].header.cmt_root).contains(x)
                implies request_list(r).contains(x) by {
                assert(txs@[k]@ == u[k]);
            }
        }
        r
    }

    /// Decides what to send on a message: replies to its sender, then
    /// broadcasts. A ping is answered with a pong carrying its nonce; a pong
    /// needs nothing; a query is answered by its handler; transaction
    /// blocks, blocks and symbols are taken by theirs, which announce what
    /// is new, ask the sender for missing parents, and ask every peer for
    /// missing symbols.
    pub fn handle_message(&mut self, msg: Message) -> (r: (Vec<Message>, Vec<Message>))
        requires
            old(self).wf(),
        ensures
            final(self).wf(),
            chains_grow(old(self).multichain(), final(self).multichain()),
            final(self).config_of() == old(self).config_of(),
            requested_grow(old(self).symbolpool(), final(self).symbolpool()),
            msg matches Message::Ping(n) ==> r.0@.len() == 1 && (r.0@[0] matches Message::Pong(p) && p@ == n@)
                && r.1@.len() == 0,
            msg is Pong ==> r.0@.len() == 0 && r.1@.len() == 0 && *final(self) == *old(self),
            msg matches Message::NewTxBlockHash(v) ==> *final(self) == *old(self) && r.1@.len() == 0
                && new_tx_blk_hash_answer(*old(self), v@, r.0@),
            msg matches Message::GetTxBlocks(v) ==> *final(self) == *old(self) && r.1@.len() == 0 && get_tx_blks_answer(
                *old(self),
                v@,
                r.0@,
            ),
            msg matches Message::NewBlockHash(v) ==> *final(self) == *old(self) && r.1@.len() == 0
                && new_block_hash_answer(*old(self), v@, r.0@),
            msg matches Message::GetBlocks(v) ==> *final(self) == *old(self) && r.1@.len() == 0 && get_blocks_answer(
                *old(self),
                v@,
                r.0@,
            ),
            msg matches Message::NewSymbols(v) ==> *final(self) == *old(self) && r.1@.len() == 0 && new_symbols_answer(
                *old(self),
                v@,
                r.0@,
            ),
            msg matches Message::GetSymbols(v) ==> *final(self) == *old(self) && r.1@.len() == 0 && get_symbols_answer(
                *old(self),
                v@,
                r.0@,
            ),
            msg matches Message::TxBlocks(v) ==> r.0@.len() == 0 && final(self).multichain() == old(self).multichain()
                && final(self).symbolpool() == old(self).symbolpool() && tx_blocks_taken(
                *old(self),
                *final(self),
                tx_block_views(v@),
                r.1@,
            ),
            msg matches Message::Blocks(v) ==> final(self).mempool() == old(self).mempool() && (forall|i: int|
                0 <= i < r.0@.len() ==> #[trigger] r.0@[i] is GetBlocks) && (forall|i: int| 0 <= i < r.1@.len()
                ==> #[trigger] r.1@[i] is NewBlockHash || r.1@[i] is GetSymbols) && blocks_taken(*old(self), *final(self), v@, r.0@, r.1@),
            msg matches Message::Symbols(v) ==> final(self).mempool() == old(self).mempool() && r.0@.len() == 0
                && symbols_taken(*old(self), *final(self), v@, r.1@),
            r.0@.len() <= 1,
            r.1@.len() <= 3,
    {
        let ghost m0 = self.multichain;
        let ghost p0 = self.symbolpool;
        assert(chains_grow(m0, m0));
        let mut reply: Vec<Message> = Vec::new();
        let mut broadcast: Vec<Message> = Vec::new();
        match msg {
            Message::Ping(nonce) => {
                reply.push(Message::Pong(nonce));
            },
            Message::Pong(_) => {},
            Message::NewTxBlockHash(v) => {
                if let Some(m) = self.handle_new_tx_blk_hash(v) {
                    reply.push(m);
                }
            },
            Message::GetTxBlocks(v) => {
                if let Some(m) = self.handle_get_tx_blks(v) {
                    reply.push(m);
                }
            },
            Message::TxBlocks(v) => {
                if let Some(m) = self.handle_tx_blocks(v) {
                    broadcast.push(m);
                }
            },
            Message::NewBlockHash(v) => {
                if let Some(m) = self.handle_new_block_hash(v) {
                    reply.push(m);
                }
            },
            Message::GetBlocks(v) => {
                if let Some(m) = self.handle_get_blocks(v) {
                    reply.push(m);
                }
            },
            Message::Blocks(v) => {
                let (r1, r2, r3) = self.handle_blocks(v);
                assert(announced_in(broadcast@) =~= Seq::<VersaHash>::empty());
                if let Some(m) = r1 {
                    proof {
                        lemma_msgs_push(broadcast@, m);
                    }
                    broadcast.push(m);
                }
                assert(missing_in(reply@) =~= Seq::<VersaHash>::empty());
                assert(requests_in(broadcast@) =~= Seq::<SymbolIndex>::empty());
                if let Some(m) = r2 {
                    proof {
                        lemma_msgs_push(reply@, m);
                    }
                    reply.push(m);
                }
                proof {
                    assert(missing_in(reply@) =~= missing_list(r2));
                }
                let ghost b1 = broadcast@;
                proof {
                    assert(requests_in(b1) =~= Seq::<SymbolIndex>::empty());
                }
                if let Some(m) = r3 {
                    proof {
                        lemma_msgs_push(broadcast@, m);
                    }
                    broadcast.push(m);
                }
                proof {
                    assert(announced_in(b1) =~= announce_list(r1));
                    assert(announced_in(broadcast@) =~= announce_list(r1));
                    assert(requests_in(broadcast@) =~= request_list(r3));
                }
            },
            Message::NewSymbols(v) => {
                if let Some(m) = self.handle_new_symbols(v) {
                    reply.push(m);
                }
            },
            Message::GetSymbols(v) => {
                if let Some(m) = self.handle_get_symbols(v) {
                    reply.push(m);
                }
            },
            Message::Symbols(v) => {
                let (r1, r2, r3) = self.handle_symbols(v);
                assert(announced_in(broadcast@) =~= Seq::<VersaHash>::empty());
                assert(symbols_in(broadcast@) =~= Seq::<SymbolIndex>::empty());
                if let Some(m) = r1 {
                    proof {
                        lemma_msgs_push(broadcast@, m);
                    }
                    broadcast.push(m);
                }
                let ghost b1 = broadcast@;
                proof {
                    assert(announced_in(b1) =~= Seq::<VersaHash>::empty());
                    assert(symbols_in(b1) =~= symbol_list(r1));
                }
                if let Some(m) = r2 {
                    proof {
                        lemma_msgs_push(broadcast@, m);
                    }
                    broadcast.push(m);
                }
                let ghost b2 = broadcast@;
                proof {
                    assert(announced_in(b2) =~= announce_list(r2));
                    assert(symbols_in(b2) =~= symbol_list(r1));
                }
                if let Some(m) = r3 {
                    proof {
                        lemma_msgs_push(broadcast@, m);
                    }
                    broadcast.push(m);
                }
                proof {
                    assert(announced_in(broadcast@) =~= announce_list(r2));
                    assert(symbols_in(broadcast@) =~= symbol_list(r1));
                }
            },
        }
        (reply, broadcast)
    }
}

} // verus!
