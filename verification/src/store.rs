//! A map from block hashes to values, kept as a list of entries with
//! distinct keys.

use vstd::prelude::*;
use crate::hash::H256;

verus! {

/// The map that a list of entries stands for, later entries winning.
pub open spec fn map_of<V>(s: Seq<(H256, V)>) -> Map<H256, V>
    decreases s.len(),
{
    if s.len() == 0 {
        Map::empty()
    } else {
        map_of(s.drop_last()).insert(s.last().0, s.last().1)
    }
}

/// No key occurs in two entries.
pub open spec fn keys_distinct<V>(s: Seq<(H256, V)>) -> bool {
    forall|i: int, j: int| 0 <= i < j < s.len() ==> #[trigger] s[i].0 != #[trigger] s[j].0
}

/// The map of a list of entries holds exactly their keys, each with the
/// value of its entry, and (keys being distinct) as many keys as entries.
pub proof fn lemma_map_of<V>(s: Seq<(H256, V)>)
    requires
        keys_distinct(s),
    ensures
        map_of(s).dom().finite(),
        map_of(s).dom().len() == s.len(),
        forall|k: H256| #[trigger] map_of(s).contains_key(k) <==> exists|i: int| 0 <= i < s.len() && s[i].0 == k,
        forall|i: int| 0 <= i < s.len() ==> #[trigger] map_of(s)[s[i].0] == s[i].1,
    decreases s.len(),
{
    if s.len() > 0 {
        let p = s.drop_last();
        assert(keys_distinct(p));
        lemma_map_of(p);
        assert(!map_of(p).contains_key(s.last().0)) by {
            if map_of(p).contains_key(s.last().0) {
                let i = choose|i: int| 0 <= i < p.len() && p[i].0 == s.last().0;
                assert(s[i].0 == s[s.len() - 1].0);
            }
        }
        assert forall|k: H256| #[trigger] map_of(s).contains_key(k) <==> exists|i: int| 0 <= i < s.len() && s[i].0 == k by {
            if map_of(s).contains_key(k) && k != s.last().0 {
                let i = choose|i: int| 0 <= i < p.len() && p[i].0 == k;
                assert(s[i].0 == k);
            }
            if exists|i: int| 0 <= i < s.len() && s[i].0 == k {
                let i = choose|i: int| 0 <= i < s.len() && s[i].0 == k;
                if i < s.len() - 1 {
                    assert(p[i].0 == k);
                }
            }
        }
        assert forall|i: int| 0 <= i < s.len() implies #[trigger] map_of(s)[s[i].0] == s[i].1 by {
            if i < s.len() - 1 {
                assert(p[i] == s[i]);
            }
        }
    }
}

/// Filtering out a key that occurs once, at `i`, drops that entry alone.
proof fn lemma_filter_skip(ks: Seq<H256>, k: H256, i: int)
    requires
        0 <= i < ks.len(),
        ks[i] == k,
        forall|j: int| 0 <= j < ks.len() && j != i ==> ks[j] != k,
    ensures
        ks.filter(|x: H256| x != k) == ks.subrange(0, i) + ks.subrange(i + 1, ks.len() as int),
    decreases ks.len(),
{
    reveal(Seq::filter);
    if ks.len() - 1 == i {
        lemma_filter_none(ks.drop_last(), k);
        assert(ks.drop_last() =~= ks.subrange(0, i) + ks.subrange(i + 1, ks.len() as int));
    } else {
        lemma_filter_skip(ks.drop_last(), k, i);
        assert(ks.drop_last().subrange(0, i) =~= ks.subrange(0, i));
        assert(ks.drop_last().subrange(i + 1, ks.len() - 1) + seq![ks.last()] =~= ks.subrange(i + 1, ks.len() as int));
        assert((ks.subrange(0, i) + ks.drop_last().subrange(i + 1, ks.len() - 1)).push(ks.last())
            =~= ks.subrange(0, i) + ks.subrange(i + 1, ks.len() as int));
    }
}

/// Filtering out a key that does not occur keeps the list.
proof fn lemma_filter_none(ks: Seq<H256>, k: H256)
    requires
        forall|j: int| 0 <= j < ks.len() ==> ks[j] != k,
    ensures
        ks.filter(|x: H256| x != k) == ks,
    decreases ks.len(),
{
    reveal(Seq::filter);
    if ks.len() > 0 {
        lemma_filter_none(ks.drop_last(), k);
        assert(ks.drop_last().push(ks.last()) =~= ks);
    }
}

/// A map from hashes to values.
pub struct Store<V> {
    entries: Vec<(H256, V)>,
}

impl<V> Store<V> {
    #[verifier::type_invariant]
    spec fn distinct(&self) -> bool {
        keys_distinct(self.entries@)
    }

    /// The map the store holds.
    pub closed spec fn view(&self) -> Map<H256, V> {
        map_of(self.entries@)
    }

    /// The number of entries, which is that of keys.
    pub closed spec fn size(&self) -> nat {
        self.entries@.len()
    }

    /// An empty store.
    pub fn new() -> (s: Self)
        ensures
            s.view() == Map::<H256, V>::empty(),
            s.size() == 0,
    {
        Store { entries: Vec::new() }
    }

    fn position(&self, k: &H256) -> (r: Option<usize>)
        ensures
            r matches Some(i) ==> i < self.entries@.len() && self.entries@[i as int].0 == *k,
            r is None ==> !self.view().contains_key(*k),
    {
        proof {
            use_type_invariant(self);
            lemma_map_of(self.entries@);
        }
        let mut i: usize = 0;
        while i < self.entries.len()
            invariant
                i <= self.entries@.len(),
                forall|j: int| 0 <= j < i ==> self.entries@[j].0 != *k,
            decreases self.entries@.len() - i,
        {
            if self.entries[i].0.equals(k) {
                return Some(i);
            }
            i = i + 1;
        }
        None
    }

    /// The value held under `k`.
    pub fn get(&self, k: &H256) -> (r: Option<&V>)
        ensures
            r matches Some(v) ==> self.view().contains_key(*k) && *v == self.view()[*k],
            r is None ==> !self.view().contains_key(*k),
    {
        proof {
            use_type_invariant(self);
            lemma_map_of(self.entries@);
        }
        match self.position(k) {
            Some(i) => Some(&self.entries[i].1),
            None => None,
        }
    }

    /// Whether a value is held under `k`.
    pub fn contains(&self, k: &H256) -> (b: bool)
        ensures
            b == self.view().contains_key(*k),
    {
        proof {
            use_type_invariant(self);
            lemma_map_of(self.entries@);
        }
        self.position(k).is_some()
    }

    /// The number of keys.
    pub fn len(&self) -> (n: usize)
        ensures
            n == self.size(),
            n == self.view().dom().len(),
    {
        proof {
            use_type_invariant(self);
            lemma_map_of(self.entries@);
        }
        self.entries.len()
    }

    /// Holds `v` under `k`, in place of what was held there.
    pub fn insert(&mut self, k: H256, v: V)
        ensures
            final(self).view() == old(self).view().insert(k, v),
            final(self).size() == if old(self).view().contains_key(k) { old(self).size() } else { old(self).size() + 1 },
            final(self).key_seq() == if old(self).view().contains_key(k) {
                old(self).key_seq()
            } else {
                old(self).key_seq().push(k)
            },
    {
        proof {
            use_type_invariant(&*self);
            lemma_map_of(self.entries@);
        }
        let ghost before = self.entries@;
        match self.position(&k) {
            Some(i) => {
                let mut entries: Vec<(H256, V)> = Vec::new();
                std::mem::swap(&mut entries, &mut self.entries);
                let _old_entry = entries.remove(i);
                entries.insert(i, (k, v));
                proof {
                    let s = entries@;
                    assert(s =~= before.update(i as int, (k, v)));
                    assert(s.map_values(|e: (H256, V)| e.0) =~= before.map_values(|e: (H256, V)| e.0));
                    assert(keys_distinct(s)) by {
                        assert forall|a: int, b: int| 0 <= a < b < s.len() implies #[trigger] s[a].0 != #[trigger] s[b].0 by {
                            assert(before[i as int].0 == k);
                        }
                    }
                    lemma_map_of(s);
                    assert(map_of(s) =~= map_of(before).insert(k, v)) by {
                        assert forall|x: H256| #[trigger] map_of(s).contains_key(x) implies map_of(before).insert(k, v).contains_key(x)
                            && map_of(s)[x] == map_of(before).insert(k, v)[x] by {
                            let j = choose|j: int| 0 <= j < s.len() && s[j].0 == x;
                            assert(map_of(s)[s[j].0] == s[j].1);
                            if j != i {
                                assert(map_of(before)[before[j].0] == before[j].1);
                            }
                        }
                        assert forall|x: H256| #[trigger] map_of(before).insert(k, v).contains_key(x) implies map_of(s).contains_key(x) by {
                            if x != k {
                                let j = choose|j: int| 0 <= j < before.len() && before[j].0 == x;
                                assert(s[j].0 == x);
                            } else {
                                assert(s[i as int].0 == k);
                            }
                        }
                    }
                }
                self.entries = entries;
            }
            None => {
                let mut entries: Vec<(H256, V)> = Vec::new();
                std::mem::swap(&mut entries, &mut self.entries);
                entries.push((k, v));
                proof {
                    let s = entries@;
                    assert(s.drop_last() =~= before);
                    assert(s.map_values(|e: (H256, V)| e.0) =~= before.map_values(|e: (H256, V)| e.0).push(k));
                    assert(keys_distinct(s)) by {
                        assert forall|a: int, b: int| 0 <= a < b < s.len() implies #[trigger] s[a].0 != #[trigger] s[b].0 by {
                            if b == s.len() - 1 {
                                assert(before[a].0 == s[a].0);
                                assert(map_of(before).contains_key(before[a].0));
                            }
                        }
                    }
                }
                self.entries = entries;
            }
        }
    }

    /// The keys in the order of their entries.
    pub closed spec fn key_seq(&self) -> Seq<H256> {
        self.entries@.map_values(|e: (H256, V)| e.0)
    }

    /// The keys, each once, in the order they were first inserted.
    pub fn keys(&self) -> (r: Vec<H256>)
        ensures
            r@ == self.key_seq(),
            r@.len() == self.size(),
            r@.no_duplicates(),
            forall|k: H256| #[trigger] self.view().contains_key(k) <==> r@.contains(k),
    {
        proof {
            use_type_invariant(self);
            lemma_map_of(self.entries@);
        }
        let mut r: Vec<H256> = Vec::new();
        let mut i: usize = 0;
        while i < self.entries.len()
            invariant
                i <= self.entries@.len(),
                r@ == self.entries@.subrange(0, i as int).map_values(|e: (H256, V)| e.0),
            decreases self.entries@.len() - i,
        {
            r.push(self.entries[i].0);
            i = i + 1;
            assert(r@ =~= self.entries@.subrange(0, i as int).map_values(|e: (H256, V)| e.0));
        }
        assert(self.entries@.subrange(0, i as int) =~= self.entries@);
        assert forall|k: H256| #[trigger] self.view().contains_key(k) <==> r@.contains(k) by {
            if self.view().contains_key(k) {
                let j = choose|j: int| 0 <= j < self.entries@.len() && self.entries@[j].0 == k;
                assert(r@[j] == k);
            }
            if r@.contains(k) {
                let j = choose|j: int| 0 <= j < r@.len() && r@[j] == k;
                assert(self.entries@[j].0 == k);
            }
        }
        r
    }

    /// Removes what is held under `k`.
    pub fn remove(&mut self, k: &H256)
        ensures
            final(self).view() == old(self).view().remove(*k),
            final(self).size() == if old(self).view().contains_key(*k) { old(self).size() - 1 } else { old(self).size() as int },
            final(self).key_seq() == old(self).key_seq().filter(|x: H256| x != *k),
    {
        proof {
            use_type_invariant(&*self);
            lemma_map_of(self.entries@);
        }
        let ghost before = self.entries@;
        match self.position(k) {
            Some(i) => {
                let mut entries: Vec<(H256, V)> = Vec::new();
                std::mem::swap(&mut entries, &mut self.entries);
                let _old_entry = entries.remove(i);
                proof {
                    let s = entries@;
                    assert(s =~= before.subrange(0, i as int) + before.subrange(i + 1, before.len() as int));
                    assert(keys_distinct(s)) by {
                        assert forall|a: int, b: int| 0 <= a < b < s.len() implies #[trigger] s[a].0 != #[trigger] s[b].0 by {
                            let a2 = if a < i { a } else { a + 1 };
                            let b2 = if b < i { b } else { b + 1 };
                            assert(s[a] == before[a2]);
                            assert(s[b] == before[b2]);
                        }
                    }
                    lemma_map_of(s);
                    assert(map_of(s) =~= map_of(before).remove(*k)) by {
                        assert forall|x: H256| #[trigger] map_of(s).contains_key(x) implies map_of(before).remove(*k).contains_key(x)
                            && map_of(s)[x] == map_of(before).remove(*k)[x] by {
                            let j = choose|j: int| 0 <= j < s.len() && s[j].0 == x;
                            let j2 = if j < i { j } else { j + 1 };
                            assert(s[j] == before[j2]);
                            assert(map_of(s)[s[j].0] == s[j].1);
                            assert(map_of(before)[before[j2].0] == before[j2].1);
                        }
                        assert forall|x: H256| #[trigger] map_of(before).remove(*k).contains_key(x) implies map_of(s).contains_key(x) by {
                            let j = choose|j: int| 0 <= j < before.len() && before[j].0 == x;
                            if j < i {
                                assert(s[j].0 == x);
                            } else {
                                assert(s[j - 1].0 == x);
                            }
                        }
                    }
                    let ks = before.map_values(|e: (H256, V)| e.0);
                    reveal(Seq::filter);
                    lemma_filter_skip(ks, *k, i as int);
                    assert(s.map_values(|e: (H256, V)| e.0) =~= ks.subrange(0, i as int) + ks.subrange(i + 1, ks.len() as int));
                }
                self.entries = entries;
            }
            None => {
                proof {
                    let ks = before.map_values(|e: (H256, V)| e.0);
                    assert forall|j: int| 0 <= j < ks.len() implies ks[j] != *k by {
                        assert(map_of(before).contains_key(before[j].0));
                    }
                    lemma_filter_none(ks, *k);
                }
            }
        }
    }
}

} // verus!
