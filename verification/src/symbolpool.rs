//! Coded symbols of transaction blocks: which ones a node asked for, which
//! ones it holds, and the check of a symbol against its commitment.

use vstd::prelude::*;
use crate::hash::{H256, Hashable, hash_views, spec_pow_hash, spec_multi_hash, spec_sha256, hash_count_fits};
use crate::merkle::{merkle_verify, spec_verify};
use crate::transaction::Transaction;
use crate::configuration::Configuration;
use crate::store::Store;
use rand::seq::IteratorRandom;

verus! {

/// The position of a symbol among those of a commitment.
#[derive(Debug, Clone, Copy)]
pub struct SymbolIndex {
    pub index: u32,
    pub root: H256,
}

/// A symbol: some transactions, their place under a commitment and the
/// sibling hashes that show it.
#[derive(Debug)]
pub struct Symbol {
    index: SymbolIndex,
    data: Vec<Transaction>,
    merkle_proof: Vec<H256>,
    num_symbol_per_block: u32,
}

/// What a symbol holds.
pub struct SymbolModel {
    pub index: SymbolIndex,
    pub data: Seq<Seq<u8>>,
    pub merkle_proof: Seq<H256>,
    pub num_symbol_per_block: u32,
}

/// Why a symbol request or insertion failed.
#[derive(Debug, Clone, Copy, PartialEq, Eq, Structural)]
pub enum SymbolError {
    /// The commitment was requested before.
    AlreadyRequested,
    /// The commitment has not been requested.
    NotRequested,
    /// No symbol is held at this index.
    SymbolMissing,
    /// The symbol's commitment has not been requested.
    InvalidRoot,
    /// The symbol does not verify against its commitment.
    IncorrectSymbol,
    /// The symbol's index was not requested.
    IndexNotRequested,
}

/// The hash that a symbol of commitment `root` at `index` is held under.
pub open spec fn index_key(root: H256, index: u32) -> Seq<u8> {
    spec_pow_hash(root@, index)
}

/// The leaf a symbol's data stands for: the hash of the hash of its
/// transactions' hashes.
pub open spec fn symbol_leaf(data: Seq<Seq<u8>>) -> Seq<u8> {
    spec_sha256(spec_multi_hash(data.map_values(|t: Seq<u8>| spec_sha256(t))))
}

/// Whether a symbol's proof shows its data at its index under its
/// commitment.
pub open spec fn symbol_valid(s: SymbolModel) -> bool {
    spec_verify(
        s.index.root@,
        symbol_leaf(s.data),
        hash_views(s.merkle_proof),
        s.index.index as int,
        s.num_symbol_per_block as int,
    )
}

impl SymbolIndex {
    pub open spec fn spec_index(&self) -> u32 {
        self.index
    }

    pub open spec fn spec_root(&self) -> H256 {
        self.root
    }

    /// The index `index` (cut to 32 bits) of commitment `root`.
    pub fn new(root: H256, index: usize) -> (s: Self)
        ensures
            s.spec_index() == index as u32,
            s.spec_root() == root,
    {
        SymbolIndex { index: index as u32, root }
    }

    pub fn get_index(&self) -> (r: usize)
        ensures
            r == self.spec_index(),
    {
        self.index as usize
    }

    pub fn get_root(&self) -> (r: H256)
        ensures
            r == self.spec_root(),
    {
        self.root
    }
}

impl View for SymbolIndex {
    type V = (Seq<u8>, u32);

    open spec fn view(&self) -> (Seq<u8>, u32) {
        (self.root@, self.index)
    }
}

impl Hashable for SymbolIndex {
    open spec fn hash_of(v: (Seq<u8>, u32)) -> Seq<u8> {
        spec_pow_hash(v.0, v.1)
    }

    fn hash(&self) -> (h: H256) {
        H256::pow_hash(&self.root, self.index)
    }
}

impl View for Symbol {
    type V = SymbolModel;

    closed spec fn view(&self) -> SymbolModel {
        SymbolModel {
            index: self.index,
            data: self.data@.map_values(|t: Transaction| t@),
            merkle_proof: self.merkle_proof@,
            num_symbol_per_block: self.num_symbol_per_block,
        }
    }
}

impl Symbol {
    #[verifier::type_invariant]
    spec fn inv(self) -> bool {
        hash_count_fits(self.data@.len())
    }

    /// A symbol of the configuration's symbols per block (cut to 32 bits).
    pub fn new(index: SymbolIndex, data: Vec<Transaction>, merkle_proof: Vec<H256>, config: &Configuration) -> (s: Self)
        requires
            hash_count_fits(data@.len()),
        ensures
            s@ == (SymbolModel {
                index,
                data: data@.map_values(|t: Transaction| t@),
                merkle_proof: merkle_proof@,
                num_symbol_per_block: config.num_symbol_per_block as u32,
            }),
    {
        Symbol { index, data, merkle_proof, num_symbol_per_block: config.num_symbol_per_block as u32 }
    }

    /// A symbol as received, with the symbols per block it carries.
    pub fn from_parts(index: SymbolIndex, data: Vec<Transaction>, merkle_proof: Vec<H256>, num_symbol_per_block: u32) -> (s: Self)
        requires
            hash_count_fits(data@.len()),
        ensures
            s@ == (SymbolModel {
                index,
                data: data@.map_values(|t: Transaction| t@),
                merkle_proof: merkle_proof@,
                num_symbol_per_block,
            }),
    {
        Symbol { index, data, merkle_proof, num_symbol_per_block }
    }

    /// The symbol's transactions.
    pub fn data(&self) -> (r: &Vec<Transaction>)
        ensures
            r@.map_values(|t: Transaction| t@) == self@.data,
    {
        &self.data
    }

    /// The sibling hashes of the symbol's proof.
    pub fn merkle_proof(&self) -> (r: &Vec<H256>)
        ensures
            r@ == self@.merkle_proof,
    {
        &self.merkle_proof
    }

    /// The number of symbols per block the symbol was made for.
    pub fn num_symbol_per_block(&self) -> (n: u32)
        ensures
            n == self@.num_symbol_per_block,
    {
        self.num_symbol_per_block
    }

    pub fn get_index(&self) -> (r: SymbolIndex)
        ensures
            r == self@.index,
    {
        self.index
    }

    /// Whether the sibling hashes show the symbol's data at its index under
    /// its commitment.
    pub fn verify(&self) -> (b: bool)
        ensures
            b == symbol_valid(self@),
    {
        proof {
            use_type_invariant(self);
        }
        let mut hashs: Vec<H256> = Vec::new();
        let mut i: usize = 0;
        while i < self.data.len()
            invariant
                i <= self.data@.len(),
                hashs@.len() == i,
                forall|j: int| 0 <= j < i ==> #[trigger] hashs@[j]@ == spec_sha256(self.data@[j]@),
            decreases self.data@.len() - i,
        {
            hashs.push(self.data[i].hash());
            i = i + 1;
        }
        assert(hash_views(hashs@) =~= self@.data.map_values(|t: Seq<u8>| spec_sha256(t)));
        let hash = H256::multi_hash(&hashs);
        let hash_hash = hash.hash();
        merkle_verify(
            &self.index.root,
            &hash_hash,
            &self.merkle_proof,
            self.index.index as usize,
            self.num_symbol_per_block as usize,
        )
    }

    /// A copy of the symbol.
    pub fn duplicate(&self) -> (r: Self)
        ensures
            r@ == self@,
    {
        proof {
            use_type_invariant(self);
        }
        let data = crate::transaction::copy_transactions(&self.data);
        let s = Symbol {
            index: self.index,
            data,
            merkle_proof: crate::block::copy_vec(&self.merkle_proof),
            num_symbol_per_block: self.num_symbol_per_block,
        };
        assert(s@.data =~= self@.data);
        s
    }
}

impl Clone for Symbol {
    fn clone(&self) -> (r: Self)
        ensures
            r@ == self@,
    {
        self.duplicate()
    }
}

impl Hashable for Symbol {
    open spec fn hash_of(v: SymbolModel) -> Seq<u8> {
        index_key(v.index.root, v.index.index)
    }

    fn hash(&self) -> (h: H256) {
        self.index.hash()
    }
}

/// A symbol whose data is leaf `index` of a Merkle tree, carrying that
/// leaf's proof and the tree's root and leaf count, verifies.
pub proof fn law_symbol_from_tree_verifies(s: SymbolModel, leaves: Seq<Seq<u8>>)
    requires
        s.index.index < leaves.len(),
        leaves.len() == s.num_symbol_per_block,
        leaves[s.index.index as int] == symbol_leaf(s.data),
        s.index.root@ == crate::merkle::merkle_root(leaves),
        hash_views(s.merkle_proof) == crate::merkle::merkle_proof(leaves, s.index.index as int),
    ensures
        symbol_valid(s),
{
    crate::merkle::law_proof_verifies(leaves, s.index.index as int);
}

/// Every index the pool lists as unreceived for a commitment is of that
/// commitment and has no symbol held.
pub proof fn law_unreceived_not_held(p: SymbolPool, root: H256, j: int)
    requires
        p.requested().contains_key(root),
        0 <= j < p.unreceived(root).len(),
    ensures
        p.unreceived(root)[j].root == root,
        !p.held(root, p.unreceived(root)[j].index),
{
    p.requested()[root].lemma_filter_pred(|i: usize| !p.held(root, i as u32), j);
}

/// `rand`'s `IteratorRandom::choose_multiple` on the range `0..n`, drawn
/// with the thread's generator: every outcome holds `min(n, amount)`
/// distinct numbers below `n`; which ones, and in what order, is left to
/// chance and not stated.
#[verifier::external_body]
fn choose_indexes(n: usize, amount: usize) -> (r: Vec<usize>)
    requires
        amount <= isize::MAX / 8,
    ensures
        r@.len() == if n < amount { n } else { amount },
        r@.no_duplicates(),
        forall|i: int| 0 <= i < r@.len() ==> #[trigger] r@[i] < n,
{
    let mut rng = rand::thread_rng();
    (0..n).choose_multiple(&mut rng, amount)
}

/// The pool of requested and received symbols.
pub struct SymbolPool {
    hash2symbol: Store<Symbol>,
    root2index: Store<Vec<usize>>,
    config: Configuration,
}

/// The symbol indexes of commitment `root` at the given positions.
pub open spec fn indexes_of(root: H256, idx: Seq<usize>) -> Seq<SymbolIndex> {
    idx.map_values(|i: usize| SymbolIndex { index: i as u32, root })
}

impl SymbolPool {
    /// The received symbols by the hash of their index.
    pub closed spec fn symbols(&self) -> Map<H256, SymbolModel> {
        self.hash2symbol.view().map_values(|s: Symbol| s@)
    }

    /// The requested positions by commitment.
    pub closed spec fn requested(&self) -> Map<H256, Seq<usize>> {
        self.root2index.view().map_values(|v: Vec<usize>| v@)
    }

    pub closed spec fn config_of(&self) -> Configuration {
        self.config
    }

    /// Whether a symbol is held at position `i` of commitment `root`.
    pub open spec fn held(&self, root: H256, i: u32) -> bool {
        exists|k: H256| #[trigger] self.symbols().contains_key(k) && k@ == index_key(root, i)
    }

    /// The requested positions of `root` whose symbol is not held yet.
    pub open spec fn unreceived(&self, root: H256) -> Seq<SymbolIndex> {
        indexes_of(root, self.requested()[root].filter(|i: usize| !self.held(root, i as u32)))
    }

    /// An empty pool.
    pub fn new(config: &Configuration) -> (p: Self)
        ensures
            p.symbols() == Map::<H256, SymbolModel>::empty(),
            p.requested() == Map::<H256, Seq<usize>>::empty(),
            p.config_of() == *config,
    {
        let p = SymbolPool { hash2symbol: Store::new(), root2index: Store::new(), config: *config };
        assert(p.symbols() =~= Map::<H256, SymbolModel>::empty());
        assert(p.requested() =~= Map::<H256, Seq<usize>>::empty());
        p
    }

    /// Finds the key a symbol index is held under.
    fn key_of(&self, symbol_index: &SymbolIndex) -> (k: H256)
        ensures
            k@ == index_key(symbol_index.root, symbol_index.index),
            self.held(symbol_index.root, symbol_index.index) == self.symbols().contains_key(k),
    {
        let k = symbol_index.hash();
        proof {
            assert forall|x: H256| #[trigger] self.symbols().contains_key(x) && x@ == index_key(
                symbol_index.root,
                symbol_index.index,
            ) implies x == k by {
                crate::hash::lemma_h256_view_eq(x, k);
            }
        }
        k
    }

    /// Whether position `symbol_index` of its commitment was requested.
    pub fn check_if_requested(&self, symbol_index: &SymbolIndex) -> (b: bool)
        ensures
            b == (self.requested().contains_key(symbol_index.root) && self.requested()[symbol_index.root].contains(
                symbol_index.index as usize,
            )),
    {
        match self.root2index.get(&symbol_index.root) {
            Some(value) => contains_usize(value, symbol_index.index as usize),
            None => false,
        }
    }

    /// A copy of the symbol held at `symbol_index`.
    pub fn get_symbol(&self, symbol_index: &SymbolIndex) -> (r: Result<Symbol, SymbolError>)
        ensures
            r is Ok <==> self.held(symbol_index.root, symbol_index.index),
            r matches Ok(s) ==> exists|k: H256| #[trigger] self.symbols().contains_key(k) && k@ == index_key(
                symbol_index.root,
                symbol_index.index,
            ) && s@ == self.symbols()[k],
            r matches Err(e) ==> e == SymbolError::SymbolMissing,
    {
        let k = self.key_of(symbol_index);
        match self.hash2symbol.get(&k) {
            Some(s) => Ok(s.clone()),
            None => Err(SymbolError::SymbolMissing),
        }
    }

    /// Records positions of a new commitment drawn for it, and answers
    /// their symbol indexes; a commitment requested before is refused.
    pub fn request_chosen_symbols(&mut self, hash: &H256, indexes: Vec<usize>) -> (r: Result<Vec<SymbolIndex>, SymbolError>)
        ensures
            old(self).requested().contains_key(*hash) ==> r == Err::<Vec<SymbolIndex>, SymbolError>(
                SymbolError::AlreadyRequested,
            ) && *final(self) == *old(self),
            !old(self).requested().contains_key(*hash) ==> {
                &&& r matches Ok(v) && v@ == indexes_of(*hash, indexes@)
                &&& final(self).requested() == old(self).requested().insert(*hash, indexes@)
                &&& final(self).symbols() == old(self).symbols()
                &&& final(self).config_of() == old(self).config_of()
            },
    {
        if self.root2index.contains(hash) {
            return Err(SymbolError::AlreadyRequested);
        }
        let mut v: Vec<SymbolIndex> = Vec::new();
        let mut i: usize = 0;
        while i < indexes.len()
            invariant
                i <= indexes@.len(),
                v@ == indexes_of(*hash, indexes@.subrange(0, i as int)),
            decreases indexes@.len() - i,
        {
            v.push(SymbolIndex::new(*hash, indexes[i]));
            i = i + 1;
            assert(v@ =~= indexes_of(*hash, indexes@.subrange(0, i as int)));
        }
        assert(indexes@.subrange(0, i as int) =~= indexes@);
        let ghost old_self = *self;
        let ghost iv = indexes@;
        self.root2index.insert(*hash, indexes);
        assert(self.requested() =~= old_self.requested().insert(*hash, iv));
        Ok(v)
    }

    /// Draws the positions to ask for a new commitment: as many as the
    /// configuration says for an exclusive (`ex_or_in`) or an inclusive
    /// transaction block, among the symbols per block.
    pub fn request_symbols_for_new_cmt(&mut self, hash: &H256, ex_or_in: bool) -> (r: Result<Vec<SymbolIndex>, SymbolError>)
        requires
            old(self).config_of().ex_req_num <= isize::MAX / 8,
            old(self).config_of().in_req_num <= isize::MAX / 8,
        ensures
            old(self).requested().contains_key(*hash) ==> r == Err::<Vec<SymbolIndex>, SymbolError>(
                SymbolError::AlreadyRequested,
            ) && *final(self) == *old(self),
            !old(self).requested().contains_key(*hash) ==> {
                let n = old(self).config_of().num_symbol_per_block;
                let req = if ex_or_in { old(self).config_of().ex_req_num } else { old(self).config_of().in_req_num };
                &&& r matches Ok(v) && exists|idx: Seq<usize>| {
                    &&& v@ == indexes_of(*hash, idx)
                    &&& final(self).requested() == old(self).requested().insert(*hash, idx)
                    &&& idx.len() == if n < req { n } else { req }
                    &&& idx.no_duplicates()
                    &&& forall|i: int| 0 <= i < idx.len() ==> #[trigger] idx[i] < n
                }
                &&& final(self).symbols() == old(self).symbols()
                &&& final(self).config_of() == old(self).config_of()
            },
    {
        if self.root2index.contains(hash) {
            return Err(SymbolError::AlreadyRequested);
        }
        let req_num = if ex_or_in { self.config.ex_req_num } else { self.config.in_req_num };
        let indexes = choose_indexes(self.config.num_symbol_per_block, req_num);
        let ghost idx = indexes@;
        let r = self.request_chosen_symbols(hash, indexes);
        assert(r matches Ok(v) && v@ == indexes_of(*hash, idx));
        r
    }

    /// The requested positions of commitment `hash` whose symbol is not held.
    pub fn get_unreceived_symbols(&self, hash: &H256) -> (r: Result<Vec<SymbolIndex>, SymbolError>)
        ensures
            r is Ok <==> self.requested().contains_key(*hash),
            r matches Ok(v) ==> v@ == self.unreceived(*hash),
            r matches Err(e) ==> e == SymbolError::NotRequested,
    {
        match self.root2index.get(hash) {
            Some(indexs) => {
                let ghost s = indexs@;
                let mut kept: Vec<usize> = Vec::new();
                let mut i: usize = 0;
                while i < indexs.len()
                    invariant
                        i <= s.len(),
                        s == indexs@,
                        kept@ == s.subrange(0, i as int).filter(|j: usize| !self.held(*hash, j as u32)),
                    decreases s.len() - i,
                {
                    proof {
                        reveal(Seq::filter);
                    }
                    assert(s.subrange(0, i + 1).drop_last() =~= s.subrange(0, i as int));
                    assert(s.subrange(0, i + 1).last() == s[i as int]);
                    let symbol_index = SymbolIndex::new(*hash, indexs[i]);
                    let k = self.key_of(&symbol_index);
                    if !self.hash2symbol.contains(&k) {
                        kept.push(indexs[i]);
                    }
                    i = i + 1;
                }
                assert(s.subrange(0, i as int) =~= s);
                let mut v: Vec<SymbolIndex> = Vec::new();
                let mut j: usize = 0;
                while j < kept.len()
                    invariant
                        j <= kept@.len(),
                        v@ == indexes_of(*hash, kept@.subrange(0, j as int)),
                    decreases kept@.len() - j,
                {
                    v.push(SymbolIndex::new(*hash, kept[j]));
                    j = j + 1;
                    assert(v@ =~= indexes_of(*hash, kept@.subrange(0, j as int)));
                }
                assert(kept@.subrange(0, j as int) =~= kept@);
                Ok(v)
            },
            None => Err(SymbolError::NotRequested),
        }
    }

    /// Records the positions to ask for a commitment not requested before.
    pub fn request_symbols(&mut self, root: &H256, indexs: Vec<usize>) -> (r: Result<bool, SymbolError>)
        ensures
            old(self).requested().contains_key(*root) ==> r == Err::<bool, SymbolError>(SymbolError::AlreadyRequested)
                && *final(self) == *old(self),
            !old(self).requested().contains_key(*root) ==> r == Ok::<bool, SymbolError>(true)
                && final(self).requested() == old(self).requested().insert(*root, indexs@)
                && final(self).symbols() == old(self).symbols() && final(self).config_of() == old(self).config_of(),
    {
        if self.root2index.contains(root) {
            return Err(SymbolError::AlreadyRequested);
        }
        let ghost old_self = *self;
        let ghost iv = indexs@;
        self.root2index.insert(*root, indexs);
        assert(self.requested() =~= old_self.requested().insert(*root, iv));
        Ok(true)
    }

    /// Takes a symbol of a requested commitment at a requested position that
    /// verifies: `Ok(true)` when it is new, `Ok(false)` when one is held
    /// there already.
    pub fn insert_symbol(&mut self, sym: Symbol) -> (r: Result<bool, SymbolError>)
        ensures
            ({
                let root = sym@.index.root;
                let i = sym@.index.index;
                let req = old(self).requested();
                &&& !req.contains_key(root) ==> r == Err::<bool, SymbolError>(SymbolError::InvalidRoot)
                &&& (req.contains_key(root) && !symbol_valid(sym@)) ==> r == Err::<bool, SymbolError>(
                    SymbolError::IncorrectSymbol,
                )
                &&& (req.contains_key(root) && symbol_valid(sym@) && !req[root].contains(i as usize)) ==> r == Err::<
                    bool,
                    SymbolError,
                >(SymbolError::IndexNotRequested)
                &&& (req.contains_key(root) && symbol_valid(sym@) && req[root].contains(i as usize)) ==> {
                    &&& r == Ok::<bool, SymbolError>(!old(self).held(root, i))
                    &&& old(self).held(root, i) ==> *final(self) == *old(self)
                    &&& !old(self).held(root, i) ==> exists|k: H256| k@ == index_key(root, i)
                        && final(self).symbols() == old(self).symbols().insert(k, sym@)
                }
                &&& r is Err ==> *final(self) == *old(self)
                &&& final(self).requested() == old(self).requested()
                &&& final(self).config_of() == old(self).config_of()
            }),
    {
        let idx = sym.get_index();
        let cmt_root = idx.get_root();
        match self.root2index.get(&cmt_root) {
            Some(indexs) => {
                if !sym.verify() {
                    return Err(SymbolError::IncorrectSymbol);
                }
                if !contains_usize(indexs, idx.get_index()) {
                    return Err(SymbolError::IndexNotRequested);
                }
                let k = self.key_of(&idx);
                if self.hash2symbol.contains(&k) {
                    Ok(false)
                } else {
                    let ghost old_self = *self;
                    let ghost sv = sym@;
                    self.hash2symbol.insert(k, sym);
                    assert(self.symbols() =~= old_self.symbols().insert(k, sv));
                    Ok(true)
                }
            },
            None => Err(SymbolError::InvalidRoot),
        }
    }
}

/// Whether a list of positions holds `x`.
fn contains_usize(v: &Vec<usize>, x: usize) -> (b: bool)
    ensures
        b == v@.contains(x),
{
    let mut i: usize = 0;
    while i < v.len()
        invariant
            i <= v@.len(),
            forall|j: int| 0 <= j < i ==> v@[j] != x,
        decreases v@.len() - i,
    {
        if v[i] == x {
            assert(v@[i as int] == x);
            return true;
        }
        i = i + 1;
    }
    false
}

} // verus!
