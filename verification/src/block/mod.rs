//! Blocks: the header shared by every block kind, the content of a hybrid
//! block, and the transactions that symbols carry.

pub mod transaction_block;
pub mod proposer_block;
pub mod availability_block;
pub mod ordering_block;
pub mod versa_block;
pub mod content;

use vstd::prelude::*;
use crate::hash::{
    H256, Hashable, Duplicate, hash_views, spec_sha256, spec_multi_hash, spec_pow_hash,
    u32_be_bytes, hash_input_fits, hash_count_fits,
};

verus! {

/// A point in time as seconds and nanoseconds since the Unix epoch.
#[derive(Clone, Copy, Debug, PartialEq, Eq, Structural, Hash)]
pub struct Timestamp {
    pub secs: u64,
    pub nanos: u32,
}

/// Big-endian bytes of a `u64`.
pub open spec fn u64_be_bytes(n: u64) -> Seq<u8> {
    Seq::new(8, |i: int| ((n as int / pow256(7 - i)) % 256) as u8)
}

/// 256 to the power `k`.
pub open spec fn pow256(k: int) -> int
    decreases k,
{
    if k <= 0 {
        1
    } else {
        256 * pow256(k - 1)
    }
}

proof fn lemma_pow256_pos(k: int)
    ensures
        pow256(k) >= 1,
    decreases k,
{
    if k > 0 {
        lemma_pow256_pos(k - 1);
    }
}

/// The bytes a timestamp is hashed as: seconds then nanoseconds, big-endian.
pub open spec fn timestamp_bytes(t: Timestamp) -> Seq<u8> {
    u64_be_bytes(t.secs) + u32_be_bytes(t.nanos)
}

/// A point of the system clock.
#[verifier::external_type_specification]
#[verifier::external_body]
pub struct ExSystemTime(std::time::SystemTime);

/// std's `SystemTime::now`: the system clock's current time. It depends on
/// the clock, so nothing is stated of it.
#[verifier::external_body]
fn system_now() -> (t: std::time::SystemTime) {
    std::time::SystemTime::now()
}

/// std's `SystemTime::duration_since(UNIX_EPOCH)`, as whole seconds and the
/// nanoseconds beyond them: `None` when the time lies before the epoch. Only
/// the range of the nanoseconds (`Duration::subsec_nanos`, below one second)
/// is stated; the values depend on the time given.
#[verifier::external_body]
fn since_unix_epoch(t: &std::time::SystemTime) -> (r: Option<(u64, u32)>)
    ensures
        r matches Some(p) ==> p.1 < 1_000_000_000,
{
    match t.duration_since(std::time::UNIX_EPOCH) {
        Ok(d) => Some((d.as_secs(), d.subsec_nanos())),
        Err(_) => None,
    }
}

impl Timestamp {
    /// The current time; the epoch when the clock stands before it.
    pub fn now() -> (t: Timestamp)
        ensures
            t.nanos < 1_000_000_000,
    {
        let t = system_now();
        match since_unix_epoch(&t) {
            Some((secs, nanos)) => Timestamp { secs, nanos },
            None => Timestamp::epoch(),
        }
    }

    /// The Unix epoch.
    pub fn epoch() -> (t: Timestamp)
        ensures
            t.secs == 0 && t.nanos == 0,
    {
        Timestamp { secs: 0, nanos: 0 }
    }

    /// The bytes this timestamp is hashed as.
    pub fn to_bytes(&self) -> (b: Vec<u8>)
        ensures
            b@ == timestamp_bytes(*self),
    {
        let mut b: Vec<u8> = Vec::new();
        let mut i: usize = 0;
        let mut div: u64 = 0x0100_0000_0000_0000;
        assert(div == pow256(7)) by {
            reveal_with_fuel(pow256, 8);
        }
        while i < 8
            invariant
                i <= 8,
                b@.len() == i,
                div == pow256(7 - i),
                div >= 1,
                forall|k: int| 0 <= k < i ==> b@[k] == ((self.secs as int / pow256(7 - k)) % 256) as u8,
            decreases 8 - i,
        {
            b.push(((self.secs / div) % 256) as u8);
            proof {
                if i < 7 {
                    assert(pow256(7 - i) == 256 * pow256(7 - i - 1));
                    lemma_pow256_pos(7 - i - 1);
                }
            }
            if i < 7 {
                div = div / 256;
            }
            i = i + 1;
        }
        assert(b@ =~= u64_be_bytes(self.secs));
        let n = self.nanos;
        b.push((n / 0x100_0000) as u8);
        b.push(((n / 0x1_0000) % 0x100) as u8);
        b.push(((n / 0x100) % 0x100) as u8);
        b.push((n % 0x100) as u8);
        assert(b@ =~= timestamp_bytes(*self));
        b
    }
}

/// What a block header holds.
pub struct HeaderModel {
    pub shard_id: u32,
    pub prop_parent: H256,
    pub inter_parent: H256,
    pub global_parents: Seq<(H256, u32)>,
    pub order_parent: H256,
    pub prop_root: H256,
    pub avai_root: H256,
    pub order_root: H256,
    pub cmt_root: H256,
    pub timestamp: Timestamp,
}

/// The two hashes that describe a header's time and shard.
pub open spec fn spec_info_hashes(h: HeaderModel) -> Seq<Seq<u8>> {
    seq![spec_sha256(timestamp_bytes(h.timestamp)), spec_sha256(u32_be_bytes(h.shard_id))]
}

/// Hashes of the first components of a list of pairs.
pub open spec fn first_views(s: Seq<(H256, u32)>) -> Seq<Seq<u8>> {
    s.map_values(|p: (H256, u32)| p.0@)
}

/// The hash of a header. The ordering parent and the ordering root are not part of it.
pub open spec fn spec_header_hash(h: HeaderModel) -> Seq<u8> {
    spec_multi_hash(
        seq![
            spec_multi_hash(spec_info_hashes(h)),
            h.prop_parent@,
            h.inter_parent@,
            spec_multi_hash(first_views(h.global_parents)),
            h.prop_root@,
            h.avai_root@,
            h.cmt_root@,
        ],
    )
}

/// A number drawn by `rand::random` from the thread's generator; any
/// value may come out, so nothing is stated of it.
#[verifier::external_body]
fn random_u32() -> (r: u32) {
    rand::random::<u32>()
}

/// A hash of 32 bytes drawn by `rand::random` from the thread's generator;
/// any bytes may come out, so nothing is stated of them.
#[verifier::external_body]
fn random_hash() -> (r: H256) {
    H256(rand::random::<[u8; 32]>())
}

/// The header every block kind carries.
#[derive(Debug)]
pub struct BlockHeader {
    shard_id: u32,
    prop_parent: H256,
    inter_parent: H256,
    global_parents: Vec<(H256, u32)>,
    order_parent: H256,
    prop_root: H256,
    avai_root: H256,
    order_root: H256,
    cmt_root: H256,
    timestamp: Timestamp,
}

impl View for BlockHeader {
    type V = HeaderModel;

    closed spec fn view(&self) -> HeaderModel {
        HeaderModel {
            shard_id: self.shard_id,
            prop_parent: self.prop_parent,
            inter_parent: self.inter_parent,
            global_parents: self.global_parents@,
            order_parent: self.order_parent,
            prop_root: self.prop_root,
            avai_root: self.avai_root,
            order_root: self.order_root,
            cmt_root: self.cmt_root,
            timestamp: self.timestamp,
        }
    }
}

/// A header whose global parents can be hashed.
pub open spec fn header_fits(h: HeaderModel) -> bool {
    hash_count_fits(h.global_parents.len())
}

/// Copies a list of plain values.
pub fn copy_vec<T: Copy>(v: &Vec<T>) -> (r: Vec<T>)
    ensures
        r@ == v@,
{
    let mut r: Vec<T> = Vec::new();
    let mut i: usize = 0;
    while i < v.len()
        invariant
            i <= v@.len(),
            r@ == v@.subrange(0, i as int),
        decreases v@.len() - i,
    {
        r.push(v[i]);
        i = i + 1;
        assert(r@ =~= v@.subrange(0, i as int));
    }
    assert(r@ =~= v@);
    r
}

/// Whether a hash is all zeros.
pub open spec fn is_zero_hash(h: H256) -> bool {
    h@ == Seq::new(32, |i: int| 0u8)
}

/// The default header: all hashes zero, shard 0, no global parents, at the epoch.
pub open spec fn is_default_header(h: HeaderModel) -> bool {
    &&& h.shard_id == 0
    &&& is_zero_hash(h.prop_parent)
    &&& is_zero_hash(h.inter_parent)
    &&& h.global_parents.len() == 0
    &&& is_zero_hash(h.order_parent)
    &&& is_zero_hash(h.prop_root)
    &&& is_zero_hash(h.avai_root)
    &&& is_zero_hash(h.order_root)
    &&& is_zero_hash(h.cmt_root)
    &&& h.timestamp == Timestamp { secs: 0, nanos: 0 }
}

impl BlockHeader {
    #[verifier::type_invariant]
    spec fn inv(self) -> bool {
        hash_count_fits(self.global_parents@.len())
    }

    /// Every header's global parents can be hashed.
    pub fn lemma_fits(&self)
        ensures
            header_fits(self@),
    {
        proof {
            use_type_invariant(self);
        }
    }

    /// Builds a header. The shard ids of the global parents are cut to 32 bits.
    pub fn create(
        shard_id: usize,
        prop_parent: H256,
        inter_parent: H256,
        global_parents: Vec<(H256, usize)>,
        order_parent: H256,
        prop_root: H256,
        avai_root: H256,
        order_root: H256,
        cmt_root: H256,
        timestamp: Timestamp,
    ) -> (h: Self)
        requires
            shard_id <= u32::MAX,
            hash_count_fits(global_parents@.len()),
        ensures
            h@.shard_id == shard_id,
            h@.prop_parent == prop_parent,
            h@.inter_parent == inter_parent,
            h@.global_parents.len() == global_parents@.len(),
            forall|i: int|
                0 <= i < global_parents@.len() ==> #[trigger] h@.global_parents[i] == (
                global_parents@[i].0,
                global_parents@[i].1 as u32,
            ),
            h@.order_parent == order_parent,
            h@.prop_root == prop_root,
            h@.avai_root == avai_root,
            h@.order_root == order_root,
            h@.cmt_root == cmt_root,
            h@.timestamp == timestamp,
    {
        let mut gp: Vec<(H256, u32)> = Vec::new();
        let mut i: usize = 0;
        while i < global_parents.len()
            invariant
                i <= global_parents@.len(),
                gp@.len() == i,
                forall|k: int|
                    0 <= k < i ==> #[trigger] gp@[k] == (
                        global_parents@[k].0,
                        global_parents@[k].1 as u32,
                    ),
            decreases global_parents@.len() - i,
        {
            let (hash, sid) = global_parents[i];
            gp.push((hash, sid as u32));
            i = i + 1;
        }
        BlockHeader {
            shard_id: shard_id as u32,
            prop_parent,
            inter_parent,
            global_parents: gp,
            order_parent,
            prop_root,
            avai_root,
            order_root,
            cmt_root,
            timestamp,
        }
    }

    /// A header with exactly the given values.
    pub fn from_fields(
        shard_id: u32,
        prop_parent: H256,
        inter_parent: H256,
        global_parents: Vec<(H256, u32)>,
        order_parent: H256,
        prop_root: H256,
        avai_root: H256,
        order_root: H256,
        cmt_root: H256,
        timestamp: Timestamp,
    ) -> (h: Self)
        requires
            hash_count_fits(global_parents@.len()),
        ensures
            h@ == (HeaderModel {
                shard_id,
                prop_parent,
                inter_parent,
                global_parents: global_parents@,
                order_parent,
                prop_root,
                avai_root,
                order_root,
                cmt_root,
                timestamp,
            }),
    {
        BlockHeader {
            shard_id,
            prop_parent,
            inter_parent,
            global_parents,
            order_parent,
            prop_root,
            avai_root,
            order_root,
            cmt_root,
            timestamp,
        }
    }

    /// Number of bytes the header's values take: seven hashes' worth plus
    /// the global parents, a `u32` and a timestamp.
    /// A header of random parents, roots and shard, stamped now; its one
    /// global parent is its proposer parent in its shard.
    pub fn random() -> (h: Self)
        ensures
            h@.global_parents == seq![(h@.prop_parent, h@.shard_id)],
    {
        let shard_id = random_u32();
        let prop_parent = random_hash();
        let inter_parent = random_hash();
        let mut global_parents: Vec<(H256, u32)> = Vec::new();
        global_parents.push((prop_parent, shard_id));
        let order_parent = random_hash();
        let prop_root = random_hash();
        let avai_root = random_hash();
        let order_root = random_hash();
        let cmt_root = random_hash();
        let h = BlockHeader::from_fields(
            shard_id,
            prop_parent,
            inter_parent,
            global_parents,
            order_parent,
            prop_root,
            avai_root,
            order_root,
            cmt_root,
            Timestamp::now(),
        );
        assert(h@.global_parents =~= seq![(h@.prop_parent, h@.shard_id)]);
        h
    }

    pub fn get_mem_size(&self) -> (n: usize)
        requires
            32 * (5 + self@.global_parents.len()) + 20 <= usize::MAX,
        ensures
            n == 32 * (5 + self@.global_parents.len()) + 4 + 16,
    {
        proof {
            use_type_invariant(self);
        }
        H256::get_mem_size() * (5 + self.global_parents.len()) + 4 + 16
    }

    /// Whether two headers hold the same values.
    pub fn same(&self, other: &BlockHeader) -> (b: bool)
        ensures
            b == (self@ == other@),
    {
        if self.shard_id != other.shard_id || !self.prop_parent.equals(&other.prop_parent)
            || !self.inter_parent.equals(&other.inter_parent) || !self.order_parent.equals(
            &other.order_parent,
        ) || !self.prop_root.equals(&other.prop_root) || !self.avai_root.equals(&other.avai_root)
            || !self.order_root.equals(&other.order_root) || !self.cmt_root.equals(&other.cmt_root)
            || self.timestamp.secs != other.timestamp.secs || self.timestamp.nanos
            != other.timestamp.nanos || self.global_parents.len() != other.global_parents.len() {
            proof {
                if self@ == other@ {
                    assert(self@.global_parents.len() == other@.global_parents.len());
                }
            }
            return false;
        }
        let mut i: usize = 0;
        while i < self.global_parents.len()
            invariant
                i <= self.global_parents@.len(),
                self.global_parents@.len() == other.global_parents@.len(),
                forall|k: int| 0 <= k < i ==> self.global_parents@[k] == other.global_parents@[k],
            decreases self.global_parents@.len() - i,
        {
            let (a, x) = self.global_parents[i];
            let (b, y) = other.global_parents[i];
            if x != y || !a.equals(&b) {
                proof {
                    if self@ == other@ {
                        assert(self@.global_parents[i as int] == other@.global_parents[i as int]);
                    }
                }
                return false;
            }
            i = i + 1;
        }
        assert(self@.global_parents =~= other@.global_parents);
        true
    }

    /// Sets the shard id, cut to 32 bits.
    pub fn set_shard_id(&mut self, shard_id: usize)
        ensures
            final(self)@ == (HeaderModel { shard_id: shard_id as u32, ..old(self)@ }),
    {
        proof {
            use_type_invariant(&*self);
        }
        self.shard_id = shard_id as u32;
    }
}

impl Duplicate for BlockHeader {
    fn duplicate(&self) -> (r: Self) {
        proof {
            use_type_invariant(self);
        }
        BlockHeader {
            shard_id: self.shard_id,
            prop_parent: self.prop_parent,
            inter_parent: self.inter_parent,
            global_parents: copy_vec(&self.global_parents),
            order_parent: self.order_parent,
            prop_root: self.prop_root,
            avai_root: self.avai_root,
            order_root: self.order_root,
            cmt_root: self.cmt_root,
            timestamp: self.timestamp,
        }
    }
}

impl Clone for BlockHeader {
    fn clone(&self) -> (r: Self)
        ensures
            r@ == self@,
    {
        self.duplicate()
    }
}

impl Default for BlockHeader {
    fn default() -> (h: Self)
        ensures
            is_default_header(h@),
    {
        let h = BlockHeader {
            shard_id: 0,
            prop_parent: H256::zero(),
            inter_parent: H256::zero(),
            global_parents: Vec::new(),
            order_parent: H256::zero(),
            prop_root: H256::zero(),
            avai_root: H256::zero(),
            order_root: H256::zero(),
            cmt_root: H256::zero(),
            timestamp: Timestamp::epoch(),
        };
        h
    }
}

impl Hashable for BlockHeader {
    open spec fn hash_of(v: HeaderModel) -> Seq<u8> {
        spec_header_hash(v)
    }

    fn hash(&self) -> (h: H256) {
        let r = self.compute_hash();
        assert(spec_header_hash(self@) == Self::hash_of(self@));
        r
    }
}

impl BlockHeader {
    fn compute_hash(&self) -> (r: H256)
        ensures
            r@ == spec_header_hash(self@),
    {
        proof {
            use_type_invariant(self);
        }
        let info_vec = self.get_info_hash();
        let info_hash = H256::multi_hash(&info_vec);
        let mut gp_hashes: Vec<H256> = Vec::new();
        let mut i: usize = 0;
        while i < self.global_parents.len()
            invariant
                i <= self.global_parents@.len(),
                gp_hashes@.len() == i,
                forall|k: int| 0 <= k < i ==> #[trigger] gp_hashes@[k] == self.global_parents@[k].0,
            decreases self.global_parents@.len() - i,
        {
            gp_hashes.push(self.global_parents[i].0);
            i = i + 1;
        }
        assert(hash_views(gp_hashes@) =~= first_views(self.global_parents@));
        let global_hash = H256::multi_hash(&gp_hashes);
        let mut all: Vec<H256> = Vec::new();
        all.push(info_hash);
        all.push(self.prop_parent);
        all.push(self.inter_parent);
        all.push(global_hash);
        all.push(self.prop_root);
        all.push(self.avai_root);
        all.push(self.cmt_root);
        let r = H256::multi_hash(&all);
        assert(hash_views(gp_hashes@) == first_views(self@.global_parents));
        assert(info_hash@ == spec_multi_hash(spec_info_hashes(self@)));
        assert(hash_views(all@) =~= seq![
            spec_multi_hash(spec_info_hashes(self@)),
            self@.prop_parent@,
            self@.inter_parent@,
            spec_multi_hash(first_views(self@.global_parents)),
            self@.prop_root@,
            self@.avai_root@,
            self@.cmt_root@,
        ]);
        assert(r@ == spec_header_hash(self@));
        r
    }
}

/// Read access to a block's header fields.
pub trait Info {
    /// The header this value carries.
    spec fn info_header(&self) -> HeaderModel;

    fn get_shard_id(&self) -> (r: usize)
        ensures
            r == self.info_header().shard_id,
    ;

    fn get_prop_parent(&self) -> (r: H256)
        ensures
            r == self.info_header().prop_parent,
    ;

    fn get_inter_parent(&self) -> (r: H256)
        ensures
            r == self.info_header().inter_parent,
    ;

    fn get_global_parents(&self) -> (r: Vec<(H256, usize)>)
        ensures
            r@.len() == self.info_header().global_parents.len(),
            forall|i: int|
                0 <= i < r@.len() ==> #[trigger] r@[i] == (
                    self.info_header().global_parents[i].0,
                    self.info_header().global_parents[i].1 as usize,
                ),
    ;

    fn get_order_parent(&self) -> (r: H256)
        ensures
            r == self.info_header().order_parent,
    ;

    fn get_prop_root(&self) -> (r: H256)
        ensures
            r == self.info_header().prop_root,
    ;

    fn get_avai_root(&self) -> (r: H256)
        ensures
            r == self.info_header().avai_root,
    ;

    fn get_order_root(&self) -> (r: H256)
        ensures
            r == self.info_header().order_root,
    ;

    fn get_cmt_root(&self) -> (r: H256)
        ensures
            r == self.info_header().cmt_root,
    ;

    fn get_timestamp(&self) -> (r: Timestamp)
        ensures
            r == self.info_header().timestamp,
    ;

    /// Hashes of the header's time and of its shard id.
    fn get_info_hash(&self) -> (r: Vec<H256>)
        ensures
            hash_views(r@) == spec_info_hashes(self.info_header()),
    ;
}

impl Info for BlockHeader {
    open spec fn info_header(&self) -> HeaderModel {
        self@
    }

    fn get_shard_id(&self) -> (r: usize) {
        self.shard_id as usize
    }

    fn get_prop_parent(&self) -> (r: H256) {
        self.prop_parent
    }

    fn get_inter_parent(&self) -> (r: H256) {
        self.inter_parent
    }

    fn get_global_parents(&self) -> (r: Vec<(H256, usize)>) {
        let mut r: Vec<(H256, usize)> = Vec::new();
        let mut i: usize = 0;
        while i < self.global_parents.len()
            invariant
                i <= self.global_parents@.len(),
                r@.len() == i,
                forall|k: int|
                    0 <= k < i ==> #[trigger] r@[k] == (
                        self.global_parents@[k].0,
                        self.global_parents@[k].1 as usize,
                    ),
            decreases self.global_parents@.len() - i,
        {
            let (h, s) = self.global_parents[i];
            r.push((h, s as usize));
            i = i + 1;
        }
        r
    }

    fn get_order_parent(&self) -> (r: H256) {
        self.order_parent
    }

    fn get_prop_root(&self) -> (r: H256) {
        self.prop_root
    }

    fn get_avai_root(&self) -> (r: H256) {
        self.avai_root
    }

    fn get_order_root(&self) -> (r: H256) {
        self.order_root
    }

    fn get_cmt_root(&self) -> (r: H256) {
        self.cmt_root
    }

    fn get_timestamp(&self) -> (r: Timestamp) {
        self.timestamp
    }

    fn get_info_hash(&self) -> (r: Vec<H256>) {
        let time_bytes = self.timestamp.to_bytes();
        let time_hash = H256::digest_bytes(time_bytes.as_slice());
        let s = self.shard_id;
        let mut sb: Vec<u8> = Vec::new();
        sb.push((s / 0x100_0000) as u8);
        sb.push(((s / 0x1_0000) % 0x100) as u8);
        sb.push(((s / 0x100) % 0x100) as u8);
        sb.push((s % 0x100) as u8);
        assert(sb@ =~= u32_be_bytes(s));
        let shard_id_hash = H256::digest_bytes(sb.as_slice());
        let mut r: Vec<H256> = Vec::new();
        r.push(time_hash);
        r.push(shard_id_hash);
        assert(hash_views(r@) =~= spec_info_hashes(self@));
        assert(hash_views(r@) == spec_info_hashes(self.info_header()));
        r
    }
}

} // verus!
