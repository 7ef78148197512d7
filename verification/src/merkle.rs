//! Merkle trees over hashable values, with inclusion proofs.
//!
//! The leaves are the hashes of the data. Each level pairs neighbours and
//! hashes them side by side; a level of odd length pairs its last node with
//! itself. A single leaf is its own root; an empty tree has the zero hash.

use vstd::prelude::*;
use crate::hash::{H256, Hashable, Duplicate, spec_pair_hash, hash_views};

verus! {

/// The all-zero hash, as bytes.
pub open spec fn zero_hash() -> Seq<u8> {
    Seq::new(32, |i: int| 0u8)
}

/// Right neighbour of node `2k` on a level (the node itself at an odd end).
pub open spec fn right_of(s: Seq<Seq<u8>>, k: int) -> Seq<u8> {
    if 2 * k + 1 < s.len() {
        s[2 * k + 1]
    } else {
        s[2 * k]
    }
}

/// The level above `s`.
pub open spec fn level_up(s: Seq<Seq<u8>>) -> Seq<Seq<u8>> {
    Seq::new(((s.len() + 1) / 2) as nat, |k: int| spec_pair_hash(s[2 * k], right_of(s, k)))
}

/// Root of the tree whose bottom level is `s`.
pub open spec fn merkle_root(s: Seq<Seq<u8>>) -> Seq<u8>
    decreases s.len(),
{
    if s.len() == 0 {
        zero_hash()
    } else if s.len() == 1 {
        s[0]
    } else {
        merkle_root(level_up(s))
    }
}

/// The node paired with node `i` of level `s`.
pub open spec fn sibling(s: Seq<Seq<u8>>, i: int) -> Seq<u8> {
    if i % 2 == 0 {
        right_of(s, i / 2)
    } else {
        s[i - 1]
    }
}

/// Inclusion proof of leaf `i`: the sibling on each level, bottom up.
pub open spec fn merkle_proof(s: Seq<Seq<u8>>, i: int) -> Seq<Seq<u8>>
    decreases s.len(),
{
    if s.len() <= 1 {
        Seq::empty()
    } else {
        seq![sibling(s, i)] + merkle_proof(level_up(s), i / 2)
    }
}

/// Hash of a node with its sibling, the node standing at index `i`.
pub open spec fn combine(h: Seq<u8>, p: Seq<u8>, i: int) -> Seq<u8> {
    if i % 2 == 0 {
        spec_pair_hash(h, p)
    } else {
        spec_pair_hash(p, h)
    }
}

/// Root that a proof leads to from a leaf hash at index `i`.
pub open spec fn fold_proof(h: Seq<u8>, steps: Seq<Seq<u8>>, i: int) -> Seq<u8>
    decreases steps.len(),
{
    if steps.len() == 0 {
        h
    } else {
        fold_proof(combine(h, steps[0], i), steps.drop_first(), i / 2)
    }
}

/// Whether the sibling hashes `steps` show that `datum` stands at `index`
/// among `leaf_size` leaves under `root`.
pub open spec fn spec_verify(
    root: Seq<u8>,
    datum: Seq<u8>,
    steps: Seq<Seq<u8>>,
    index: int,
    leaf_size: int,
) -> bool {
    0 <= index < leaf_size && fold_proof(datum, steps, index) == root
}

/// Leaf hashes of a list of data views.
pub open spec fn leaf_hashes<T: Hashable>(data: Seq<T::V>) -> Seq<Seq<u8>> {
    data.map_values(|v: T::V| T::hash_of(v))
}

/// Every leaf's proof leads to the root.
pub proof fn lemma_proof_leads_to_root(s: Seq<Seq<u8>>, i: int)
    requires
        0 <= i < s.len(),
    ensures
        fold_proof(s[i], merkle_proof(s, i), i) == merkle_root(s),
    decreases s.len(),
{
    if s.len() > 1 {
        let up = level_up(s);
        let k = i / 2;
        assert(combine(s[i], sibling(s, i), i) == up[k]);
        lemma_proof_leads_to_root(up, k);
        let p = merkle_proof(s, i);
        assert(p.drop_first() =~= merkle_proof(up, k));
    }
}

/// Every leaf, with its proof, verifies at its index against the root.
pub proof fn law_proof_verifies(s: Seq<Seq<u8>>, i: int)
    requires
        0 <= i < s.len(),
    ensures
        spec_verify(merkle_root(s), s[i], merkle_proof(s, i), i, s.len() as int),
{
    lemma_proof_leads_to_root(s, i);
}

/// A Merkle tree over a list of values.
#[derive(Debug)]
pub struct MerkleTree<T: Hashable> {
    data: Vec<T>,
    leaves: Vec<H256>,
    root: H256,
}

impl<T: Hashable> View for MerkleTree<T> {
    type V = Seq<T::V>;

    closed spec fn view(&self) -> Seq<T::V> {
        self.data@.map_values(|t: T| t@)
    }
}

impl<T: Hashable> MerkleTree<T> {
    #[verifier::type_invariant]
    spec fn inv(self) -> bool {
        &&& self.leaves@.len() == self.data@.len()
        &&& forall|i: int|
            0 <= i < self.data@.len() ==> #[trigger] self.leaves@[i]@ == T::hash_of(self.data@[i]@)
        &&& self.root@ == merkle_root(hash_views(self.leaves@))
    }

    /// Root of the tree: the Merkle root over the hashes of its data.
    pub open spec fn spec_root(&self) -> Seq<u8> {
        merkle_root(leaf_hashes::<T>(self@))
    }

    /// Number of data items.
    pub fn len(&self) -> (n: usize)
        ensures
            n == self@.len(),
    {
        self.data.len()
    }

    /// The data items, in order.
    pub fn data(&self) -> (r: &Vec<T>)
        ensures
            r@.map_values(|t: T| t@) == self@,
    {
        &self.data
    }

    /// The root hash.
    pub fn root(&self) -> (r: H256)
        ensures
            r@ == self.spec_root(),
    {
        proof {
            use_type_invariant(self);
            assert(hash_views(self.leaves@) =~= leaf_hashes::<T>(self@));
        }
        self.root
    }

    /// Builds the tree over `data`.
    pub fn new(data: &[T]) -> (t: Self)
        where T: Duplicate,
        ensures
            t@ == data@.map_values(|d: T| d@),
    {
        let mut items: Vec<T> = Vec::new();
        let mut leaves: Vec<H256> = Vec::new();
        let mut i: usize = 0;
        while i < data.len()
            invariant
                i <= data@.len(),
                items@.len() == i,
                leaves@.len() == i,
                forall|k: int| 0 <= k < i ==> #[trigger] items@[k]@ == data@[k]@,
                forall|k: int| 0 <= k < i ==> #[trigger] leaves@[k]@ == T::hash_of(items@[k]@),
            decreases data@.len() - i,
        {
            let d = data[i].duplicate();
            let h = d.hash();
            items.push(d);
            leaves.push(h);
            i = i + 1;
        }
        let root = Self::root_of(&leaves);
        let t = MerkleTree { data: items, leaves, root };
        assert(t@ =~= data@.map_values(|d: T| d@));
        t
    }

    fn level_above(level: &Vec<H256>) -> (up: Vec<H256>)
        ensures
            hash_views(up@) == level_up(hash_views(level@)),
    {
        let ghost s = hash_views(level@);
        let n = level.len();
        let mut up: Vec<H256> = Vec::new();
        let mut k: usize = 0;
        while k < n - k
            invariant
                n == level@.len(),
                s == hash_views(level@),
                k <= n,
                2 * k <= n + 1,
                up@.len() == k,
                forall|j: int| 0 <= j < k ==> #[trigger] up@[j]@ == spec_pair_hash(s[2 * j], right_of(s, j)),
            decreases n + 1 - 2 * k,
        {
            let left = level[2 * k];
            let right = if 2 * k + 1 < n { level[2 * k + 1] } else { level[2 * k] };
            up.push(H256::pair_hash(&left, &right));
            k = k + 1;
        }
        assert(hash_views(up@) =~= level_up(s));
        up
    }

    /// Root over a bottom level of hashes.
    fn root_of(leaves: &Vec<H256>) -> (r: H256)
        ensures
            r@ == merkle_root(hash_views(leaves@)),
    {
        if leaves.len() == 0 {
            return H256::zero();
        }
        let mut level: Vec<H256> = Self::copy_hashes(leaves);
        while level.len() > 1
            invariant
                level@.len() >= 1,
                merkle_root(hash_views(level@)) == merkle_root(hash_views(leaves@)),
            decreases level@.len(),
        {
            let ghost s = hash_views(level@);
            level = Self::level_above(&level);
            assert(merkle_root(s) == merkle_root(level_up(s)));
        }
        level[0]
    }

    fn copy_hashes(v: &Vec<H256>) -> (r: Vec<H256>)
        ensures
            r@ == v@,
    {
        let mut r: Vec<H256> = Vec::new();
        let mut i: usize = 0;
        while i < v.len()
            invariant
                i <= v@.len(),
                r@ == v@.subrange(0, i as int),
            decreases v@.len() - i,
        {
            r.push(v[i]);
            i = i + 1;
            assert(r@ =~= v@.subrange(0, i as int));
        }
        assert(r@ =~= v@);
        r
    }

    /// Inclusion proof of the item at `index`.
    pub fn inclusion_proof(&self, index: usize) -> (p: Vec<H256>)
        requires
            index < self@.len(),
        ensures
            hash_views(p@) == merkle_proof(leaf_hashes::<T>(self@), index as int),
    {
        proof {
            use_type_invariant(self);
            assert(hash_views(self.leaves@) =~= leaf_hashes::<T>(self@));
        }
        let ghost full = hash_views(self.leaves@);
        let mut level: Vec<H256> = Self::copy_hashes(&self.leaves);
        let mut i: usize = index;
        let mut p: Vec<H256> = Vec::new();
        while level.len() > 1
            invariant
                i < level@.len(),
                hash_views(p@) + merkle_proof(hash_views(level@), i as int) == merkle_proof(full, index as int),
            decreases level@.len(),
        {
            let ghost s = hash_views(level@);
            let sib = if i % 2 == 0 {
                if i + 1 < level.len() { level[i + 1] } else { level[i] }
            } else {
                level[i - 1]
            };
            assert(sib@ == sibling(s, i as int));
            let ghost old_p = hash_views(p@);
            p.push(sib);
            level = Self::level_above(&level);
            assert(hash_views(p@) =~= old_p + seq![sib@]);
            assert(merkle_proof(s, i as int) == seq![sibling(s, i as int)] + merkle_proof(level_up(s), i as int / 2));
            assert(old_p + merkle_proof(s, i as int) =~= hash_views(p@) + merkle_proof(hash_views(level@), i as int / 2));
            i = i / 2;
        }
        assert(merkle_proof(hash_views(level@), i as int) =~= Seq::<Seq<u8>>::empty());
        assert(hash_views(p@) =~= hash_views(p@) + Seq::<Seq<u8>>::empty());
        p
    }

    /// Whether the sibling hashes `path` show that `datum` stands at `index` under this tree's root.
    pub fn merkle_prove(&self, datum: &H256, path: &Vec<H256>, index: usize) -> (b: bool)
        ensures
            b == spec_verify(self.spec_root(), datum@, hash_views(path@), index as int, self@.len() as int),
    {
        proof {
            use_type_invariant(self);
            assert(hash_views(self.leaves@) =~= leaf_hashes::<T>(self@));
        }
        merkle_verify(&self.root, datum, path, index, self.data.len())
    }
}

impl<T: Hashable + Duplicate> Duplicate for MerkleTree<T> {
    fn duplicate(&self) -> (r: Self) {
        proof {
            use_type_invariant(self);
        }
        let mut items: Vec<T> = Vec::new();
        let mut i: usize = 0;
        while i < self.data.len()
            invariant
                i <= self.data@.len(),
                items@.len() == i,
                forall|k: int| 0 <= k < i ==> #[trigger] items@[k]@ == self.data@[k]@,
            decreases self.data@.len() - i,
        {
            items.push(self.data[i].duplicate());
            i = i + 1;
        }
        let leaves = Self::copy_hashes(&self.leaves);
        let r = MerkleTree { data: items, leaves, root: self.root };
        assert(r@ =~= self@);
        r
    }
}

/// Whether the sibling hashes `path` show that `datum` stands at `index` among `leaf_size`
/// leaves under `root`.
pub fn merkle_verify(root: &H256, datum: &H256, path: &Vec<H256>, index: usize, leaf_size: usize) -> (b: bool)
    ensures
        b == spec_verify(root@, datum@, hash_views(path@), index as int, leaf_size as int),
{
    if index >= leaf_size {
        return false;
    }
    let ghost ps = hash_views(path@);
    let mut h: H256 = *datum;
    let mut i: usize = index;
    let mut k: usize = 0;
    assert(ps.subrange(0, ps.len() as int) =~= ps);
    while k < path.len()
        invariant
            k <= path@.len(),
            ps == hash_views(path@),
            fold_proof(h@, ps.subrange(k as int, ps.len() as int), i as int) == fold_proof(datum@, ps, index as int),
        decreases path@.len() - k,
    {
        let ghost rest = ps.subrange(k as int, ps.len() as int);
        let p = path[k];
        if i % 2 == 0 {
            h = H256::pair_hash(&h, &p);
        } else {
            h = H256::pair_hash(&p, &h);
        }
        assert(rest.drop_first() =~= ps.subrange(k + 1, ps.len() as int));
        i = i / 2;
        k = k + 1;
    }
    assert(ps =~= ps.subrange(0, ps.len() as int));
    proof {
        crate::hash::lemma_h256_view_eq(h, *root);
    }
    h.equals(root)
}

} // verus!
