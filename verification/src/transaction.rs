//! Transactions as the payload bytes that symbols carry.

use vstd::prelude::*;
use crate::hash::{H256, Hashable, Duplicate, spec_sha256, hash_input_fits};

verus! {

/// A transaction, held as its encoded bytes.
#[derive(Debug)]
pub struct Transaction {
    data: Vec<u8>,
}

impl View for Transaction {
    type V = Seq<u8>;

    closed spec fn view(&self) -> Seq<u8> {
        self.data@
    }
}

impl Transaction {
    #[verifier::type_invariant]
    spec fn inv(self) -> bool {
        hash_input_fits(self.data@.len())
    }

    /// Every transaction can be hashed.
    pub fn lemma_fits(&self)
        ensures
            hash_input_fits(self@.len()),
    {
        proof {
            use_type_invariant(self);
        }
    }

    /// A transaction with the given bytes.
    pub fn new(data: Vec<u8>) -> (t: Transaction)
        requires
            hash_input_fits(data@.len()),
        ensures
            t@ == data@,
    {
        Transaction { data }
    }

    /// The transaction's bytes.
    pub fn data(&self) -> (r: &Vec<u8>)
        ensures
            r@ == self@,
    {
        &self.data
    }
}

impl Hashable for Transaction {
    open spec fn hash_of(v: Seq<u8>) -> Seq<u8> {
        spec_sha256(v)
    }

    fn hash(&self) -> (h: H256) {
        proof {
            use_type_invariant(self);
        }
        H256::digest_bytes(self.data.as_slice())
    }
}

impl Duplicate for Transaction {
    fn duplicate(&self) -> (r: Self) {
        proof {
            use_type_invariant(self);
        }
        Transaction { data: crate::block::copy_vec(&self.data) }
    }
}

impl Clone for Transaction {
    fn clone(&self) -> (r: Self)
        ensures
            r@ == self@,
    {
        self.duplicate()
    }
}

/// Copies a list of transactions.
pub fn copy_transactions(v: &Vec<Transaction>) -> (r: Vec<Transaction>)
    ensures
        r@.map_values(|t: Transaction| t@) == v@.map_values(|t: Transaction| t@),
        r@.len() == v@.len(),
{
    let mut r: Vec<Transaction> = Vec::new();
    let mut i: usize = 0;
    while i < v.len()
        invariant
            i <= v@.len(),
            r@.len() == i,
            forall|k: int| 0 <= k < i ==> #[trigger] r@[k]@ == v@[k]@,
        decreases v@.len() - i,
    {
        r.push(v[i].duplicate());
        i = i + 1;
    }
    assert(r@.map_values(|t: Transaction| t@) =~= v@.map_values(|t: Transaction| t@));
    r
}

} // verus!
