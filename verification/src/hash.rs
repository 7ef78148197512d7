//! 256-bit hashes and the hashing primitives built on SHA-256.

use vstd::prelude::*;

verus! {

/// Longest input, in bytes, that SHA-256 accepts: the bit length must fit in 64 bits.
pub open spec fn hash_input_fits(len: nat) -> bool {
    len < 0x2000_0000_0000_0000
}

/// Longest list of hashes whose concatenation can still be hashed.
pub open spec fn hash_count_fits(n: nat) -> bool {
    n < 0x0100_0000_0000_0000
}

/// The SHA-256 digest (32 bytes) of a byte string.
pub uninterp spec fn spec_sha256(data: Seq<u8>) -> Seq<u8>;

/// A 256-bit hash value.
#[derive(Clone, Copy, Eq, Debug, Hash)]
pub struct H256(pub [u8; 32]);

impl PartialEq for H256 {
    fn eq(&self, other: &H256) -> (b: bool) {
        let mut i: usize = 0;
        while i < 32
            invariant
                i <= 32,
                forall|k: int| 0 <= k < i ==> self.0[k] == other.0[k],
            decreases 32 - i,
        {
            if self.0[i] != other.0[i] {
                return false;
            }
            i = i + 1;
        }
        assert(self.0@ =~= other.0@);
        true
    }
}

impl vstd::std_specs::cmp::PartialEqSpecImpl for H256 {
    open spec fn obeys_eq_spec() -> bool {
        true
    }

    open spec fn eq_spec(&self, other: &H256) -> bool {
        self@ == other@
    }
}

/// Equal byte views make equal hashes.
pub proof fn lemma_h256_view_eq(a: H256, b: H256)
    ensures
        (a@ == b@) == (a == b),
{
    if a@ == b@ {
        assert(a.0 =~= b.0);
    }
}

impl View for H256 {
    type V = Seq<u8>;

    open spec fn view(&self) -> Seq<u8> {
        self.0@
    }
}

/// `ring::digest::digest` with `SHA256`: the digest of `data`, which is a
/// function of the bytes alone. `ring` panics when the bit length of the
/// input overflows 64 bits, hence the bound on the length.
#[verifier::external_body]
fn sha256_digest(data: &[u8]) -> (h: H256)
    requires
        hash_input_fits(data@.len()),
    ensures
        h@ == spec_sha256(data@),
{
    let digest = ring::digest::digest(&ring::digest::SHA256, data);
    let mut out = [0u8; 32];
    out.copy_from_slice(digest.as_ref());
    H256(out)
}

/// Views of a list of hashes.
pub open spec fn hash_views(s: Seq<H256>) -> Seq<Seq<u8>> {
    s.map_values(|h: H256| h@)
}

/// Byte strings one after another.
pub open spec fn concat_bytes(s: Seq<Seq<u8>>) -> Seq<u8>
    decreases s.len(),
{
    if s.len() == 0 {
        Seq::empty()
    } else {
        concat_bytes(s.drop_last()) + s.last()
    }
}

/// Big-endian bytes of a `u32`.
pub open spec fn u32_be_bytes(n: u32) -> Seq<u8> {
    seq![
        (n / 0x100_0000) as u8,
        ((n / 0x1_0000) % 0x100) as u8,
        ((n / 0x100) % 0x100) as u8,
        (n % 0x100) as u8,
    ]
}

/// The hash that `H256::multi_hash` gives for a list of hashes (as bytes).
pub open spec fn spec_multi_hash(s: Seq<Seq<u8>>) -> Seq<u8> {
    spec_sha256(concat_bytes(s))
}

/// The hash that `H256::pow_hash` gives for a hash and a nonce.
pub open spec fn spec_pow_hash(h: Seq<u8>, nonce: u32) -> Seq<u8> {
    spec_sha256(h + u32_be_bytes(nonce))
}

/// Hash of two hashes side by side, as inner nodes of a Merkle tree use it.
pub open spec fn spec_pair_hash(a: Seq<u8>, b: Seq<u8>) -> Seq<u8> {
    spec_sha256(a + b)
}

proof fn lemma_concat_hashes_len(s: Seq<H256>)
    ensures
        concat_bytes(hash_views(s)).len() == 32 * s.len(),
    decreases s.len(),
{
    if s.len() > 0 {
        lemma_concat_hashes_len(s.drop_last());
        assert(hash_views(s).drop_last() =~= hash_views(s.drop_last()));
    }
}

/// Values that have a 256-bit hash, which depends on their view alone.
pub trait Hashable: View + Sized {
    /// The hash, as bytes, of a value with view `v`.
    spec fn hash_of(v: Self::V) -> Seq<u8>;

    fn hash(&self) -> (h: H256)
        ensures
            h@ == Self::hash_of(self@),
    ;
}

/// Values that can be copied into a value with the same view.
pub trait Duplicate: View + Sized {
    fn duplicate(&self) -> (r: Self)
        ensures
            r@ == self@,
    ;
}

impl Duplicate for (H256, u32) {
    fn duplicate(&self) -> (r: Self) {
        *self
    }
}

impl Duplicate for H256 {
    fn duplicate(&self) -> (r: Self) {
        *self
    }
}

impl Hashable for H256 {
    open spec fn hash_of(v: Seq<u8>) -> Seq<u8> {
        spec_sha256(v)
    }

    fn hash(&self) -> (h: H256) {
        sha256_digest(self.0.as_slice())
    }
}

impl Hashable for (H256, u32) {
    open spec fn hash_of(v: (Seq<u8>, u32)) -> Seq<u8> {
        spec_pow_hash(v.0, v.1)
    }

    fn hash(&self) -> (h: H256) {
        H256::pow_hash(&self.0, self.1)
    }
}

impl From<[u8; 32]> for H256 {
    fn from(bytes: [u8; 32]) -> (h: H256) {
        H256(bytes)
    }
}

impl vstd::std_specs::convert::FromSpecImpl<[u8; 32]> for H256 {
    open spec fn obeys_from_spec() -> bool {
        true
    }

    open spec fn from_spec(v: [u8; 32]) -> H256 {
        H256(v)
    }
}

impl H256 {
    /// The all-zero hash.
    pub fn zero() -> (h: H256)
        ensures
            h@ == Seq::new(32, |i: int| 0u8),
    {
        let h = H256([0u8; 32]);
        assert(h@ =~= Seq::new(32, |i: int| 0u8));
        h
    }

    /// Number of bytes a hash occupies.
    pub fn get_mem_size() -> (n: usize)
        ensures
            n == 32,
    {
        32
    }

    /// Whether two hashes are equal.
    pub fn equals(&self, other: &H256) -> (b: bool)
        ensures
            b == (*self == *other),
            b == (self@ == other@),
    {
        proof {
            lemma_h256_view_eq(*self, *other);
        }
        *self == *other
    }

    /// The hash of the concatenation of a list of hashes.
    pub fn multi_hash(hashes: &Vec<H256>) -> (h: H256)
        requires
            hash_count_fits(hashes@.len()),
        ensures
            h@ == spec_multi_hash(hash_views(hashes@)),
    {
        let mut bytes: Vec<u8> = Vec::new();
        let mut i: usize = 0;
        while i < hashes.len()
            invariant
                i <= hashes@.len(),
                bytes@ == concat_bytes(hash_views(hashes@.subrange(0, i as int))),
            decreases hashes@.len() - i,
        {
            let h = hashes[i];
            let mut j: usize = 0;
            let ghost before = bytes@;
            while j < 32
                invariant
                    j <= 32,
                    bytes@ == before + h@.subrange(0, j as int),
                decreases 32 - j,
            {
                bytes.push(h.0[j]);
                j = j + 1;
                assert(bytes@ =~= before + h@.subrange(0, j as int));
            }
            assert(hash_views(hashes@.subrange(0, i + 1)).drop_last() =~= hash_views(hashes@.subrange(0, i as int)));
            assert(h@.subrange(0, 32) =~= h@);
            i = i + 1;
        }
        assert(hashes@.subrange(0, hashes@.len() as int) =~= hashes@);
        proof {
            lemma_concat_hashes_len(hashes@);
        }
        sha256_digest(bytes.as_slice())
    }

    /// The hash of a hash followed by the big-endian bytes of a nonce.
    pub fn pow_hash(hash: &H256, nonce: u32) -> (h: H256)
        ensures
            h@ == spec_pow_hash(hash@, nonce),
    {
        let mut bytes: Vec<u8> = Vec::new();
        let mut j: usize = 0;
        while j < 32
            invariant
                j <= 32,
                bytes@ == hash@.subrange(0, j as int),
            decreases 32 - j,
        {
            bytes.push(hash.0[j]);
            j = j + 1;
            assert(bytes@ =~= hash@.subrange(0, j as int));
        }
        bytes.push((nonce / 0x100_0000) as u8);
        bytes.push(((nonce / 0x1_0000) % 0x100) as u8);
        bytes.push(((nonce / 0x100) % 0x100) as u8);
        bytes.push((nonce % 0x100) as u8);
        assert(bytes@ =~= hash@ + u32_be_bytes(nonce));
        sha256_digest(bytes.as_slice())
    }

    /// The hash of two hashes side by side.
    pub fn pair_hash(left: &H256, right: &H256) -> (h: H256)
        ensures
            h@ == spec_pair_hash(left@, right@),
    {
        let mut bytes: Vec<u8> = Vec::new();
        let mut j: usize = 0;
        while j < 32
            invariant
                j <= 32,
                bytes@ == left@.subrange(0, j as int),
            decreases 32 - j,
        {
            bytes.push(left.0[j]);
            j = j + 1;
            assert(bytes@ =~= left@.subrange(0, j as int));
        }
        let mut k: usize = 0;
        while k < 32
            invariant
                k <= 32,
                bytes@ == left@ + right@.subrange(0, k as int),
            decreases 32 - k,
        {
            bytes.push(right.0[k]);
            k = k + 1;
            assert(bytes@ =~= left@ + right@.subrange(0, k as int));
        }
        assert(right@.subrange(0, 32) =~= right@);
        sha256_digest(bytes.as_slice())
    }

    /// The hash of an arbitrary byte string.
    pub fn digest_bytes(data: &[u8]) -> (h: H256)
        requires
            hash_input_fits(data@.len()),
        ensures
            h@ == spec_sha256(data@),
    {
        sha256_digest(data)
    }
}

impl Default for H256 {
    fn default() -> (h: H256)
        ensures
            h@ == Seq::new(32, |i: int| 0u8),
    {
        H256::zero()
    }
}

/// Whether a list of hashes holds `h`.
pub fn contains_hash(v: &Vec<H256>, h: &H256) -> (b: bool)
    ensures
        b == v@.contains(*h),
{
    let mut i: usize = 0;
    while i < v.len()
        invariant
            i <= v@.len(),
            forall|j: int| 0 <= j < i ==> v@[j] != *h,
        decreases v@.len() - i,
    {
        if v[i].equals(h) {
            assert(v@[i as int] == *h);
            return true;
        }
        i = i + 1;
    }
    false
}

} // verus!
