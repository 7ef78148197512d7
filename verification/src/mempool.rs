//! Transaction blocks waiting to be committed, by hash and in arrival order.

use vstd::prelude::*;
use crate::hash::H256;
use crate::hash::Hashable;
use crate::store::Store;
use crate::block::transaction_block::{TransactionBlock, TxBlockModel, tx_block_views};

verus! {

/// The pool of transaction blocks.
pub struct Mempool {
    tx_blk_map: Store<TransactionBlock>,
    tx_blk_queue: Vec<H256>,
}

impl Mempool {
    /// The blocks by hash.
    pub closed spec fn pool(&self) -> Map<H256, TxBlockModel> {
        self.tx_blk_map.view().map_values(|t: TransactionBlock| t@)
    }

    /// The hashes in arrival order.
    pub closed spec fn queue(&self) -> Seq<H256> {
        self.tx_blk_queue@
    }

    /// The hashes in the order the pool lists its blocks.
    pub closed spec fn listed(&self) -> Seq<H256> {
        self.tx_blk_map.key_seq()
    }

    /// The queue holds each pooled hash once, and each block is held under
    /// its hash.
    pub closed spec fn wf(&self) -> bool {
        &&& forall|k: H256| #[trigger] self.tx_blk_map.view().contains_key(k) <==> self.tx_blk_queue@.contains(k)
        &&& self.tx_blk_queue@.no_duplicates()
        &&& forall|k: H256| #[trigger] self.tx_blk_map.view().contains_key(k) ==> TransactionBlock::hash_of(
            self.tx_blk_map.view()[k]@,
        ) == k@
        &&& self.tx_blk_queue@.len() == self.tx_blk_map.size()
    }

    /// An empty pool.
    pub fn new() -> (m: Self)
        ensures
            m.wf(),
            m.pool() == Map::<H256, TxBlockModel>::empty(),
            m.queue() == Seq::<H256>::empty(),
    {
        let m = Mempool { tx_blk_map: Store::new(), tx_blk_queue: Vec::new() };
        assert(m.pool() =~= Map::<H256, TxBlockModel>::empty());
        m
    }

    /// The number of blocks.
    pub fn get_size(&self) -> (n: usize)
        requires
            self.wf(),
        ensures
            n == self.pool().dom().len(),
    {
        assert(self.pool().dom() =~= self.tx_blk_map.view().dom());
        self.tx_blk_map.len()
    }

    /// The number of hashes waiting in the queue.
    pub fn get_queue_size(&self) -> (n: usize)
        ensures
            n == self.queue().len(),
    {
        self.tx_blk_queue.len()
    }

    /// Taking a number of blocks out is not offered: the answer is always an
    /// empty list, as an error.
    pub fn get_tx_blocks(&self, num: usize) -> (r: Result<Vec<TransactionBlock>, Vec<TransactionBlock>>)
        ensures
            r matches Err(v) && v@.len() == 0,
    {
        Err(Vec::new())
    }

    /// Adds a block that the pool does not hold yet; `false` when it does.
    pub fn insert_tx_blk(&mut self, tx_blk: TransactionBlock) -> (b: bool)
        requires
            old(self).wf(),
        ensures
            final(self).wf(),
            ({
                let h = TransactionBlock::hash_of(tx_blk@);
                let held = exists|k: H256| #[trigger] old(self).pool().contains_key(k) && k@ == h;
                &&& b == !held
                &&& !b ==> *final(self) == *old(self)
                &&& b ==> exists|k: H256| k@ == h && final(self).pool() == old(self).pool().insert(k, tx_blk@)
                    && final(self).queue() == old(self).queue().push(k)
            }),
    {
        let hash = tx_blk.hash();
        proof {
            assert forall|k: H256| #[trigger] self.pool().contains_key(k) && k@ == hash@ implies k == hash by {
                crate::hash::lemma_h256_view_eq(k, hash);
            }
        }
        if self.tx_blk_map.contains(&hash) {
            assert(self.pool().contains_key(hash));
            false
        } else {
            let ghost old_self = *self;
            self.tx_blk_map.insert(hash, tx_blk);
            self.tx_blk_queue.push(hash);
            proof {
                assert(self.pool() =~= old_self.pool().insert(hash, tx_blk@));
                assert forall|k: H256| #[trigger] self.tx_blk_map.view().contains_key(k)
                    <==> self.tx_blk_queue@.contains(k) by {
                    assert(old_self.tx_blk_map.view().contains_key(k) <==> old_self.tx_blk_queue@.contains(k));
                    if k == hash {
                        assert(self.tx_blk_queue@[self.tx_blk_queue@.len() - 1] == k);
                    }
                    if self.tx_blk_queue@.contains(k) && k != hash {
                        let j = choose|j: int| 0 <= j < self.tx_blk_queue@.len() && self.tx_blk_queue@[j] == k;
                        assert(old_self.tx_blk_queue@[j] == k);
                    }
                    if old_self.tx_blk_queue@.contains(k) {
                        let j = choose|j: int| 0 <= j < old_self.tx_blk_queue@.len() && old_self.tx_blk_queue@[j] == k;
                        assert(self.tx_blk_queue@[j] == k);
                    }
                }
                assert(!old_self.tx_blk_queue@.contains(hash));
                assert forall|a: int, b: int| 0 <= a < b < self.tx_blk_queue@.len() implies self.tx_blk_queue@[a]
                    != self.tx_blk_queue@[b] by {
                    if b == self.tx_blk_queue@.len() - 1 {
                        assert(old_self.tx_blk_queue@[a] == self.tx_blk_queue@[a]);
                    }
                }
                assert forall|k: H256| #[trigger] self.tx_blk_map.view().contains_key(k) implies TransactionBlock::hash_of(
                    self.tx_blk_map.view()[k]@,
                ) == k@ by {
                    if k != hash {
                        assert(old_self.tx_blk_map.view().contains_key(k));
                    }
                }
            }
            true
        }
    }

    /// Whether the pool holds a block with this hash.
    pub fn check(&self, hash: &H256) -> (b: bool)
        ensures
            b == self.pool().contains_key(*hash),
    {
        self.tx_blk_map.contains(hash)
    }

    /// A copy of the block with this hash.
    pub fn get_tx_blk(&self, hash: &H256) -> (r: Option<TransactionBlock>)
        ensures
            r is Some <==> self.pool().contains_key(*hash),
            r matches Some(t) ==> t@ == self.pool()[*hash],
    {
        match self.tx_blk_map.get(hash) {
            Some(t) => Some(t.clone()),
            None => None,
        }
    }

    /// Copies of all blocks, in the order the pool lists them.
    pub fn get_all_tx_blks(&self) -> (r: Vec<TransactionBlock>)
        ensures
            tx_block_views(r@) == self.listed().map_values(|k: H256| self.pool()[k]),
    {
        let keys = self.tx_blk_map.keys();
        let mut r: Vec<TransactionBlock> = Vec::new();
        let mut i: usize = 0;
        while i < keys.len()
            invariant
                i <= keys@.len(),
                keys@ == self.listed(),
                forall|k: H256| #[trigger] self.tx_blk_map.view().contains_key(k) <==> keys@.contains(k),
                r@.len() == i,
                forall|j: int| 0 <= j < i ==> #[trigger] r@[j]@ == self.pool()[keys@[j]],
            decreases keys@.len() - i,
        {
            assert(keys@.contains(keys@[i as int]));
            match self.tx_blk_map.get(&keys[i]) {
                Some(t) => r.push(t.clone()),
                None => r.push(TransactionBlock::default()),
            }
            i = i + 1;
        }
        assert(tx_block_views(r@) =~= self.listed().map_values(|k: H256| self.pool()[k]));
        r
    }

    /// Removes the blocks with the given hashes from the pool and the queue.
    pub fn delete_txs(&mut self, tx_blk_hashs: Vec<H256>) -> (b: bool)
        requires
            old(self).wf(),
        ensures
            final(self).wf(),
            b,
            final(self).pool() == old(self).pool().remove_keys(tx_blk_hashs@.to_set()),
            final(self).queue() == old(self).queue().filter(|x: H256| !tx_blk_hashs@.contains(x)),
    {
        let mut i: usize = 0;
        let ghost p0 = self.pool();
        let ghost q0 = self.queue();
        assert(p0.remove_keys(tx_blk_hashs@.subrange(0, 0).to_set()) =~= p0);
        proof {
            reveal(Seq::filter);
            lemma_filter_all(q0, tx_blk_hashs@.subrange(0, 0));
        }
        while i < tx_blk_hashs.len()
            invariant
                self.wf(),
                i <= tx_blk_hashs@.len(),
                self.pool() == p0.remove_keys(tx_blk_hashs@.subrange(0, i as int).to_set()),
                self.queue() == q0.filter(|x: H256| !tx_blk_hashs@.subrange(0, i as int).contains(x)),
            decreases tx_blk_hashs@.len() - i,
        {
            let h = tx_blk_hashs[i];
            let ghost before = *self;
            self.remove_one(&h);
            proof {
                let done = tx_blk_hashs@.subrange(0, i as int);
                let next = tx_blk_hashs@.subrange(0, i + 1);
                assert(next =~= done.push(h));
                assert forall|x: H256| #[trigger] next.to_set().contains(x) <==> done.to_set().insert(h).contains(x) by {
                    if next.contains(x) && x != h {
                        let j = choose|j: int| 0 <= j < next.len() && next[j] == x;
                        assert(done[j] == x);
                    }
                    if done.contains(x) {
                        let j = choose|j: int| 0 <= j < done.len() && done[j] == x;
                        assert(next[j] == x);
                    }
                    if x == h {
                        assert(next[i as int] == x);
                    }
                }
                assert(next.to_set() =~= done.to_set().insert(h));
                assert(self.pool() =~= p0.remove_keys(next.to_set()));
                lemma_filter_twice(q0, done, h);
            }
            i = i + 1;
        }
        assert(tx_blk_hashs@.subrange(0, i as int) =~= tx_blk_hashs@);
        true
    }

    /// Removes the block with hash `h`.
    fn remove_one(&mut self, h: &H256)
        requires
            old(self).wf(),
        ensures
            final(self).wf(),
            final(self).pool() == old(self).pool().remove(*h),
            final(self).queue() == without_hash(old(self).queue(), *h),
    {
        let ghost old_self = *self;
        self.tx_blk_map.remove(h);
        let mut q: Vec<H256> = Vec::new();
        let mut j: usize = 0;
        let ghost q0 = self.tx_blk_queue@;
        while j < self.tx_blk_queue.len()
            invariant
                j <= q0.len(),
                q0 == self.tx_blk_queue@,
                q@ == without_hash(q0.subrange(0, j as int), *h),
            decreases q0.len() - j,
        {
            proof {
                reveal(Seq::filter);
            }
            assert(q0.subrange(0, j + 1).drop_last() =~= q0.subrange(0, j as int));
            assert(q0.subrange(0, j + 1).last() == q0[j as int]);
            if !self.tx_blk_queue[j].equals(h) {
                q.push(self.tx_blk_queue[j]);
            }
            j = j + 1;
        }
        assert(q0.subrange(0, j as int) =~= q0);
        self.tx_blk_queue = q;
        proof {
            assert(self.pool() =~= old_self.pool().remove(*h));
            lemma_filter_props(q0, *h);
            assert(self.tx_blk_queue@ == without_hash(q0, *h));
            assert forall|k: H256| #[trigger] self.tx_blk_map.view().contains_key(k) implies TransactionBlock::hash_of(
                self.tx_blk_map.view()[k]@,
            ) == k@ by {
                assert(old_self.tx_blk_map.view().contains_key(k));
            }
            assert forall|k: H256| #[trigger] self.tx_blk_map.view().contains_key(k)
                <==> self.tx_blk_queue@.contains(k) by {
                assert(old_self.tx_blk_map.view().contains_key(k) <==> old_self.tx_blk_queue@.contains(k));
            }
        }
    }

    /// Takes the oldest block out of the queue and the pool.
    pub fn pop_one_tx_blk(&mut self) -> (r: Option<TransactionBlock>)
        requires
            old(self).wf(),
        ensures
            final(self).wf(),
            old(self).queue().len() == 0 ==> r is None && *final(self) == *old(self),
            old(self).queue().len() > 0 ==> {
                let h = old(self).queue()[0];
                &&& r matches Some(t) && t@ == old(self).pool()[h]
                &&& final(self).pool() == old(self).pool().remove(h)
                &&& final(self).queue() == old(self).queue().drop_first()
            },
    {
        if self.tx_blk_queue.len() == 0 {
            return None;
        }
        let h = self.tx_blk_queue[0];
        assert(self.tx_blk_queue@.contains(h));
        let t = match self.tx_blk_map.get(&h) {
            Some(t) => t.clone(),
            None => TransactionBlock::default(),
        };
        let ghost q0 = self.tx_blk_queue@;
        self.remove_one(&h);
        proof {
            lemma_filter_first(q0, h);
        }
        Some(t)
    }

    /// The hashes of all blocks, in the order the pool lists them.
    pub fn get_all_tx_blk_hash(&self) -> (r: Vec<H256>)
        ensures
            r@ == self.listed(),
            forall|k: H256| #[trigger] self.pool().contains_key(k) <==> r@.contains(k),
    {
        self.tx_blk_map.keys()
    }
}

/// The queue holds each pooled hash exactly once, and every pooled block is
/// held under its hash.
pub proof fn law_queue_matches_pool(m: &Mempool)
    requires
        m.wf(),
    ensures
        forall|k: H256| #[trigger] m.pool().contains_key(k) <==> m.queue().contains(k),
        m.queue().no_duplicates(),
        forall|k: H256| #[trigger] m.pool().contains_key(k) ==> TransactionBlock::hash_of(m.pool()[k]) == k@,
{
    assert forall|k: H256| #[trigger] m.pool().contains_key(k) <==> m.queue().contains(k) by {
        assert(m.pool().contains_key(k) <==> m.tx_blk_map.view().contains_key(k));
    }
}

/// Removing what lies in an empty list keeps every element.
proof fn lemma_filter_all(q: Seq<H256>, done: Seq<H256>)
    requires
        done.len() == 0,
    ensures
        q.filter(|x: H256| !done.contains(x)) == q,
    decreases q.len(),
{
    reveal(Seq::filter);
    if q.len() > 0 {
        lemma_filter_all(q.drop_last(), done);
        assert(q.drop_last().push(q.last()) =~= q);
    }
}

/// Filtering out the elements of a list and then one more element is
/// filtering out the longer list.
proof fn lemma_filter_twice(q: Seq<H256>, done: Seq<H256>, h: H256)
    ensures
        without_hash(q.filter(|x: H256| !done.contains(x)), h) == q.filter(|x: H256| !done.push(h).contains(x)),
    decreases q.len(),
{
    reveal(Seq::filter);
    if q.len() > 0 {
        let p = q.drop_last();
        lemma_filter_twice(p, done, h);
        let y = q.last();
        assert(done.push(h).contains(y) <==> (done.contains(y) || y == h)) by {
            if done.push(h).contains(y) && y != h {
                let j = choose|j: int| 0 <= j < done.push(h).len() && done.push(h)[j] == y;
                assert(done[j] == y);
            }
            if y == h {
                assert(done.push(h)[done.len() as int] == h);
            }
            if done.contains(y) {
                let j = choose|j: int| 0 <= j < done.len() && done[j] == y;
                assert(done.push(h)[j] == y);
            }
        }
        let a = q.filter(|x: H256| !done.contains(x));
        let ap = p.filter(|x: H256| !done.contains(x));
        if !done.contains(y) {
            assert(a == ap.push(y));
            assert(a.drop_last() =~= ap);
            assert(a.last() == y);
            assert(a.filter(|x: H256| x != h) == ap.filter(|x: H256| x != h) + (if y != h { seq![y] } else { Seq::empty() })) by {
                if y != h {
                    assert(a.filter(|x: H256| x != h) =~= ap.filter(|x: H256| x != h).push(y));
                } else {
                    assert(a.filter(|x: H256| x != h) =~= ap.filter(|x: H256| x != h));
                }
            }
            if y != h {
                assert(q.filter(|x: H256| !done.push(h).contains(x)) =~= p.filter(|x: H256| !done.push(h).contains(x)).push(y));
            } else {
                assert(q.filter(|x: H256| !done.push(h).contains(x)) =~= p.filter(|x: H256| !done.push(h).contains(x)));
            }
        } else {
            assert(a == ap);
            assert(q.filter(|x: H256| !done.push(h).contains(x)) =~= p.filter(|x: H256| !done.push(h).contains(x)));
        }
    }
}

/// The list without the element `h`.
pub open spec fn without_hash(q: Seq<H256>, h: H256) -> Seq<H256> {
    q.filter(|x: H256| x != h)
}

/// Filtering one element out of a list without repeats: the rest keeps no
/// repeats and holds exactly the other elements.
proof fn lemma_filter_props(q: Seq<H256>, h: H256)
    requires
        q.no_duplicates(),
    ensures
        without_hash(q, h).no_duplicates(),
        forall|k: H256| #[trigger] without_hash(q, h).contains(k) <==> (q.contains(k) && k != h),
        q.contains(h) ==> without_hash(q, h).len() == q.len() - 1,
        !q.contains(h) ==> without_hash(q, h).len() == q.len(),
    decreases q.len(),
{
    reveal(Seq::filter);
    if q.len() > 0 {
        let p = q.drop_last();
        assert(p.no_duplicates());
        lemma_filter_props(p, h);
        let y = q.last();
        assert(!p.contains(y)) by {
            if p.contains(y) {
                let j = choose|j: int| 0 <= j < p.len() && p[j] == y;
                assert(q[j] == q[q.len() - 1]);
            }
        }
        assert forall|k: H256| #[trigger] q.contains(k) <==> (p.contains(k) || k == y) by {
            if q.contains(k) && k != y {
                let j = choose|j: int| 0 <= j < q.len() && q[j] == k;
                assert(p[j] == k);
            }
            if p.contains(k) {
                let j = choose|j: int| 0 <= j < p.len() && p[j] == k;
                assert(q[j] == k);
            }
            if k == y {
                assert(q[q.len() - 1] == k);
            }
        }
        let f = without_hash(p, h);
        if y != h {
            assert forall|k: H256| #[trigger] f.push(y).contains(k) <==> (f.contains(k) || k == y) by {
                if f.push(y).contains(k) && k != y {
                    let j = choose|j: int| 0 <= j < f.push(y).len() && f.push(y)[j] == k;
                    assert(f[j] == k);
                }
                if f.contains(k) {
                    let j = choose|j: int| 0 <= j < f.len() && f[j] == k;
                    assert(f.push(y)[j] == k);
                }
                if k == y {
                    assert(f.push(y)[f.len() as int] == k);
                }
            }
            assert forall|a: int, b: int| 0 <= a < b < f.push(y).len() implies f.push(y)[a] != f.push(y)[b] by {
                if b == f.len() {
                    assert(f.contains(f[a]));
                }
            }
        }
    }
}

/// Filtering out the first element of a list without repeats drops it.
proof fn lemma_filter_first(q: Seq<H256>, h: H256)
    requires
        q.no_duplicates(),
        q.len() > 0,
        q[0] == h,
    ensures
        without_hash(q, h) == q.drop_first(),
    decreases q.len(),
{
    reveal(Seq::filter);
    let p = q.drop_last();
    if q.len() == 1 {
        assert(p =~= Seq::<H256>::empty());
        assert(without_hash(p, h) =~= Seq::<H256>::empty());
        assert(without_hash(q, h) == without_hash(p, h));
        assert(q.drop_first() =~= Seq::<H256>::empty());
    } else {
        assert(p.no_duplicates());
        lemma_filter_first(p, h);
        assert(q.last() != h) by {
            assert(q[q.len() - 1] != q[0]);
        }
        assert(without_hash(q, h) == without_hash(p, h).push(q.last()));
        assert(p.drop_first().push(q.last()) =~= q.drop_first());
    }
}

} // verus!
