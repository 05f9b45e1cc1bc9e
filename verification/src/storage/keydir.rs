//! The in-memory index of the log: for each live key, where its latest value
//! lies.  Keys are kept in ascending order, so ranges and pages come out
//! sorted.
use vstd::prelude::*;
use crate::keyorder::{bytes_le, bytes_lt, compare_bytes, lemma_lt_strict_total, lemma_lt_trans};
use crate::storage::codec::ValueLoc;

verus! {

/// The keys of the entries, in order.
pub open spec fn keys_of(es: Seq<(Seq<u8>, ValueLoc)>) -> Seq<Seq<u8>> {
    es.map_values(|e: (Seq<u8>, ValueLoc)| e.0)
}

/// Strictly ascending keys.
pub open spec fn sorted_keys(ks: Seq<Seq<u8>>) -> bool {
    forall|i: int, j: int| 0 <= i < j < ks.len() ==> bytes_lt(#[trigger] ks[i], #[trigger] ks[j])
}

/// The map that a list of (key, location) pairs describes.
pub open spec fn map_of(es: Seq<(Seq<u8>, ValueLoc)>) -> Map<Seq<u8>, ValueLoc>
    decreases es.len(),
{
    if es.len() == 0 {
        Map::empty()
    } else {
        map_of(es.drop_last()).insert(es.last().0, es.last().1)
    }
}

/// Sorted keys are distinct.
pub proof fn lemma_sorted_distinct(ks: Seq<Seq<u8>>, i: int, j: int)
    requires
        sorted_keys(ks),
        0 <= i < ks.len(),
        0 <= j < ks.len(),
        i != j,
    ensures
        ks[i] != ks[j],
{
    lemma_lt_strict_total(ks[i], ks[j]);
}

/// What the map of a sorted list holds.
pub proof fn lemma_map_of(es: Seq<(Seq<u8>, ValueLoc)>)
    requires
        sorted_keys(keys_of(es)),
    ensures
        map_of(es).dom().finite(),
        map_of(es).dom().len() == es.len(),
        forall|k: Seq<u8>|
            map_of(es).contains_key(k) <==> exists|i: int| 0 <= i < es.len() && #[trigger] es[i].0 == k,
        forall|i: int| 0 <= i < es.len() ==> map_of(es)[#[trigger] es[i].0] == es[i].1,
    decreases es.len(),
{
    if es.len() > 0 {
        let pre = es.drop_last();
        assert(keys_of(pre) =~= keys_of(es).drop_last());
        lemma_map_of(pre);
        let last = es.last();
        assert(!map_of(pre).contains_key(last.0)) by {
            if map_of(pre).contains_key(last.0) {
                let i = choose|i: int| 0 <= i < pre.len() && #[trigger] pre[i].0 == last.0;
                assert(keys_of(es)[i] == last.0);
                assert(keys_of(es)[es.len() - 1] == last.0);
                lemma_sorted_distinct(keys_of(es), i, es.len() - 1);
            }
        }
        assert forall|k: Seq<u8>|
            map_of(es).contains_key(k) <==> exists|i: int| 0 <= i < es.len() && #[trigger] es[i].0
                == k by {
            if map_of(es).contains_key(k) && k != last.0 {
                let i = choose|i: int| 0 <= i < pre.len() && #[trigger] pre[i].0 == k;
                assert(es[i].0 == k);
            }
            if exists|i: int| 0 <= i < es.len() && #[trigger] es[i].0 == k {
                let i = choose|i: int| 0 <= i < es.len() && #[trigger] es[i].0 == k;
                if i < es.len() - 1 {
                    assert(pre[i].0 == k);
                }
            }
        }
        assert forall|i: int| 0 <= i < es.len() implies map_of(es)[#[trigger] es[i].0]
            == es[i].1 by {
            if i < es.len() - 1 {
                assert(pre[i] == es[i]);
                assert(keys_of(es)[i] == es[i].0);
                assert(keys_of(es)[es.len() - 1] == last.0);
                lemma_sorted_distinct(keys_of(es), i, es.len() - 1);
            }
        }
    }
}

/// The index: entries with ascending keys.
pub struct KeyDir {
    entries: Vec<(Vec<u8>, ValueLoc)>,
}

impl KeyDir {
    /// The entries as plain values, in key order.
    pub closed spec fn entries(&self) -> Seq<(Seq<u8>, ValueLoc)> {
        self.entries@.map_values(|e: (Vec<u8>, ValueLoc)| (e.0@, e.1))
    }

    /// The keys, in ascending order.
    pub open spec fn keys(&self) -> Seq<Seq<u8>> {
        keys_of(self.entries())
    }

    pub open spec fn wf(&self) -> bool {
        sorted_keys(self.keys())
    }

    /// Facts about the view that follow from the keys being sorted.
    pub proof fn lemma_view(&self)
        requires
            self.wf(),
        ensures
            self@.dom().finite(),
            self@.dom().len() == self.entries().len(),
            forall|k: Seq<u8>|
                self@.contains_key(k) <==> exists|i: int|
                    0 <= i < self.entries().len() && #[trigger] self.entries()[i].0 == k,
            forall|i: int|
                0 <= i < self.entries().len() ==> self@[#[trigger] self.entries()[i].0]
                    == self.entries()[i].1,
    {
        lemma_map_of(self.entries());
    }

    /// An empty index.
    pub fn new() -> (r: KeyDir)
        ensures
            r.wf(),
            r.entries() == Seq::<(Seq<u8>, ValueLoc)>::empty(),
            r@ == Map::<Seq<u8>, ValueLoc>::empty(),
    {
        let r = KeyDir { entries: Vec::new() };
        assert(r.entries() =~= Seq::<(Seq<u8>, ValueLoc)>::empty());
        r
    }

    /// Number of live keys.
    pub fn len(&self) -> (n: usize)
        ensures
            n == self.entries().len(),
    {
        self.entries.len()
    }

    /// The key of the `i`-th entry.
    pub fn key_at(&self, i: usize) -> (k: &Vec<u8>)
        requires
            i < self.entries().len(),
        ensures
            k@ == self.entries()[i as int].0,
    {
        &self.entries[i].0
    }

    /// The location of the `i`-th entry.
    pub fn loc_at(&self, i: usize) -> (l: ValueLoc)
        requires
            i < self.entries().len(),
        ensures
            l == self.entries()[i as int].1,
    {
        self.entries[i].1
    }

    /// The first position whose key is not below `key`.
    pub fn lower_bound(&self, key: &[u8]) -> (i: usize)
        requires
            self.wf(),
        ensures
            i <= self.entries().len(),
            forall|j: int| 0 <= j < i ==> bytes_lt(#[trigger] self.keys()[j], key@),
            forall|j: int| i <= j < self.entries().len() ==> !bytes_lt(#[trigger] self.keys()[j], key@),
    {
        let n = self.entries.len();
        let mut lo: usize = 0;
        let mut hi: usize = n;
        while lo < hi
            invariant
                self.wf(),
                n == self.entries().len(),
                lo <= hi <= n,
                forall|j: int| 0 <= j < lo ==> bytes_lt(#[trigger] self.keys()[j], key@),
                forall|j: int| hi <= j < n ==> !bytes_lt(#[trigger] self.keys()[j], key@),
            decreases hi - lo,
        {
            let mid = lo + (hi - lo) / 2;
            let c = compare_bytes(self.entries[mid].0.as_slice(), key);
            assert(self.keys()[mid as int] == self.entries@[mid as int].0@);
            if c == -1 {
                assert forall|j: int| 0 <= j <= mid implies bytes_lt(#[trigger] self.keys()[j], key@) by {
                    if j < mid {
                        lemma_lt_trans(self.keys()[j], self.keys()[mid as int], key@);
                    }
                }
                lo = mid + 1;
            } else {
                assert forall|j: int| mid <= j < n implies !bytes_lt(#[trigger] self.keys()[j], key@) by {
                    if j > mid {
                        lemma_lt_strict_total(self.keys()[mid as int], key@);
                        lemma_lt_strict_total(self.keys()[j], key@);
                        if self.keys()[mid as int] != key@ {
                            lemma_lt_trans(key@, self.keys()[mid as int], self.keys()[j]);
                        }
                    }
                }
                hi = mid;
            }
        }
        lo
    }

    /// The first position whose key is above `key`.
    pub fn upper_bound(&self, key: &[u8]) -> (i: usize)
        requires
            self.wf(),
        ensures
            i <= self.entries().len(),
            forall|j: int| 0 <= j < i ==> bytes_le(#[trigger] self.keys()[j], key@),
            forall|j: int| i <= j < self.entries().len() ==> bytes_lt(key@, #[trigger] self.keys()[j]),
    {
        let n = self.entries.len();
        let mut lo: usize = 0;
        let mut hi: usize = n;
        while lo < hi
            invariant
                self.wf(),
                n == self.entries().len(),
                lo <= hi <= n,
                forall|j: int| 0 <= j < lo ==> bytes_le(#[trigger] self.keys()[j], key@),
                forall|j: int| hi <= j < n ==> bytes_lt(key@, #[trigger] self.keys()[j]),
            decreases hi - lo,
        {
            let mid = lo + (hi - lo) / 2;
            let c = compare_bytes(self.entries[mid].0.as_slice(), key);
            assert(self.keys()[mid as int] == self.entries@[mid as int].0@);
            if c == 1 {
                assert forall|j: int| mid <= j < n implies bytes_lt(key@, #[trigger] self.keys()[j]) by {
                    if j > mid {
                        lemma_lt_trans(key@, self.keys()[mid as int], self.keys()[j]);
                    }
                }
                hi = mid;
            } else {
                assert forall|j: int| 0 <= j <= mid implies bytes_le(#[trigger] self.keys()[j], key@) by {
                    if j < mid {
                        if self.keys()[mid as int] == key@ {
                        } else {
                            lemma_lt_trans(self.keys()[j], self.keys()[mid as int], key@);
                        }
                    }
                }
                lo = mid + 1;
            }
        }
        lo
    }

    /// Where `key`'s value lies, if the key is live.
    pub fn get(&self, key: &[u8]) -> (r: Option<ValueLoc>)
        requires
            self.wf(),
        ensures
            r == (if self@.contains_key(key@) {
                Some(self@[key@])
            } else {
                None
            }),
    {
        proof {
            self.lemma_view();
        }
        let i = self.lower_bound(key);
        if i < self.entries.len() && compare_bytes(self.entries[i].0.as_slice(), key) == 0 {
            assert(self.entries()[i as int].0 == key@);
            Some(self.entries[i].1)
        } else {
            proof {
                if self@.contains_key(key@) {
                    let j = choose|j: int|
                        0 <= j < self.entries().len() && #[trigger] self.entries()[j].0 == key@;
                    lemma_lt_strict_total(key@, key@);
                    if j < i {
                        assert(bytes_lt(self.keys()[j], key@));
                    } else if j > i {
                        assert(!bytes_lt(self.keys()[i as int], key@));
                        lemma_lt_strict_total(self.keys()[i as int], key@);
                        lemma_lt_trans(key@, self.keys()[i as int], self.keys()[j]);
                        assert(bytes_lt(self.keys()[i as int], self.keys()[j]));
                    }
                }
            }
            None
        }
    }

    /// Points `key` at `loc`, adding the key if it is new.
    pub fn insert(&mut self, key: Vec<u8>, loc: ValueLoc)
        requires
            old(self).wf(),
        ensures
            final(self).wf(),
            final(self)@ == old(self)@.insert(key@, loc),
    {
        let i = self.lower_bound(key.as_slice());
        let ghost old_es = self.entries();
        let ghost k = key@;
        if i < self.entries.len() && compare_bytes(self.entries[i].0.as_slice(), key.as_slice())
            == 0 {
            self.entries.set(i, (key, loc));
            proof {
                let new_es = old_es.update(i as int, (k, loc));
                assert(self.entries() =~= new_es);
                assert(self.keys() =~= keys_of(old_es));
                lemma_map_of(old_es);
                lemma_map_of(new_es);
                assert(self@ =~= map_of(old_es).insert(k, loc)) by {
                    assert forall|kk: Seq<u8>| #[trigger] self@.contains_key(kk) <==> map_of(old_es).insert(k, loc).contains_key(kk) by {
                        if self@.contains_key(kk) {
                            let j = choose|j: int| 0 <= j < new_es.len() && #[trigger] new_es[j].0 == kk;
                            if j != i {
                                assert(old_es[j].0 == kk);
                            }
                        }
                        if map_of(old_es).contains_key(kk) {
                            let j = choose|j: int| 0 <= j < old_es.len() && #[trigger] old_es[j].0 == kk;
                            assert(new_es[j].0 == kk);
                        }
                        if kk == k {
                            assert(new_es[i as int].0 == kk);
                        }
                    }
                    assert forall|kk: Seq<u8>| #[trigger] self@.contains_key(kk) implies self@[kk] == map_of(old_es).insert(k, loc)[kk] by {
                        let j = choose|j: int| 0 <= j < new_es.len() && #[trigger] new_es[j].0 == kk;
                        if j != i {
                            assert(old_es[j] == new_es[j]);
                            assert(keys_of(old_es)[i as int] == k);
                            assert(keys_of(old_es)[j] == kk);
                            lemma_sorted_distinct(keys_of(old_es), j, i as int);
                        }
                    }
                }
            }
        } else {
            self.entries.insert(i, (key, loc));
            proof {
                let new_es = old_es.insert(i as int, (k, loc));
                assert(self.entries() =~= new_es);
                assert forall|t: int| i <= t < old_es.len() implies bytes_lt(k, #[trigger] keys_of(old_es)[t]) by {
                    lemma_lt_strict_total(keys_of(old_es)[i as int], k);
                    if t > i {
                        lemma_lt_trans(k, keys_of(old_es)[i as int], keys_of(old_es)[t]);
                    }
                }
                assert forall|a: int, b: int| 0 <= a < b < new_es.len() implies bytes_lt(
                    #[trigger] keys_of(new_es)[a],
                    #[trigger] keys_of(new_es)[b],
                ) by {
                    if a < i && b < i {
                        assert(keys_of(new_es)[a] == keys_of(old_es)[a]);
                        assert(keys_of(new_es)[b] == keys_of(old_es)[b]);
                    } else if a < i && b == i {
                        assert(keys_of(new_es)[a] == keys_of(old_es)[a]);
                        assert(keys_of(new_es)[b] == k);
                    } else if a < i && b > i {
                        assert(keys_of(new_es)[a] == keys_of(old_es)[a]);
                        assert(keys_of(new_es)[b] == keys_of(old_es)[b - 1]);
                        assert(bytes_lt(k, keys_of(old_es)[b - 1]));
                        lemma_lt_trans(keys_of(old_es)[a], k, keys_of(old_es)[b - 1]);
                    } else if a == i && b > i {
                        assert(keys_of(new_es)[a] == k);
                        assert(keys_of(new_es)[b] == keys_of(old_es)[b - 1]);
                    } else if a > i {
                        assert(keys_of(new_es)[a] == keys_of(old_es)[a - 1]);
                        assert(keys_of(new_es)[b] == keys_of(old_es)[b - 1]);
                    }
                }
                lemma_map_of(old_es);
                lemma_map_of(new_es);
                assert(self@ =~= map_of(old_es).insert(k, loc)) by {
                    assert forall|kk: Seq<u8>| #[trigger] self@.contains_key(kk) <==> map_of(old_es).insert(k, loc).contains_key(kk) by {
                        if self@.contains_key(kk) {
                            let j = choose|j: int| 0 <= j < new_es.len() && #[trigger] new_es[j].0 == kk;
                            if j < i {
                                assert(old_es[j].0 == kk);
                            } else if j > i {
                                assert(old_es[j - 1].0 == kk);
                            }
                        }
                        if map_of(old_es).contains_key(kk) {
                            let j = choose|j: int| 0 <= j < old_es.len() && #[trigger] old_es[j].0 == kk;
                            if j < i {
                                assert(new_es[j].0 == kk);
                            } else {
                                assert(new_es[j + 1].0 == kk);
                            }
                        }
                        if kk == k {
                            assert(new_es[i as int].0 == kk);
                        }
                    }
                    assert forall|kk: Seq<u8>| #[trigger] self@.contains_key(kk) implies self@[kk] == map_of(old_es).insert(k, loc)[kk] by {
                        let j = choose|j: int| 0 <= j < new_es.len() && #[trigger] new_es[j].0 == kk;
                        if j < i {
                            assert(old_es[j] == new_es[j]);
                            assert(keys_of(new_es)[j] == kk);
                            assert(keys_of(new_es)[i as int] == k);
                            lemma_sorted_distinct(keys_of(new_es), j, i as int);
                        } else if j > i {
                            assert(old_es[j - 1] == new_es[j]);
                            assert(keys_of(new_es)[j] == kk);
                            assert(keys_of(new_es)[i as int] == k);
                            lemma_sorted_distinct(keys_of(new_es), j, i as int);
                        }
                    }
                }
            }
        }
    }

    /// Drops `key` from the index.
    pub fn remove(&mut self, key: &[u8])
        requires
            old(self).wf(),
        ensures
            final(self).wf(),
            final(self)@ == old(self)@.remove(key@),
    {
        let i = self.lower_bound(key);
        let ghost old_es = self.entries();
        let ghost k = key@;
        proof {
            lemma_map_of(old_es);
        }
        if i < self.entries.len() && compare_bytes(self.entries[i].0.as_slice(), key) == 0 {
            self.entries.remove(i);
            proof {
                let new_es = old_es.remove(i as int);
                assert(self.entries() =~= new_es);
                assert forall|a: int, b: int| 0 <= a < b < new_es.len() implies bytes_lt(
                    #[trigger] keys_of(new_es)[a],
                    #[trigger] keys_of(new_es)[b],
                ) by {
                    let a2 = if a < i { a } else { a + 1 };
                    let b2 = if b < i { b } else { b + 1 };
                    assert(keys_of(new_es)[a] == keys_of(old_es)[a2]);
                    assert(keys_of(new_es)[b] == keys_of(old_es)[b2]);
                }
                lemma_map_of(new_es);
                assert(self@ =~= map_of(old_es).remove(k)) by {
                    assert forall|kk: Seq<u8>| #[trigger] self@.contains_key(kk) <==> map_of(old_es).remove(k).contains_key(kk) by {
                        if self@.contains_key(kk) {
                            let j = choose|j: int| 0 <= j < new_es.len() && #[trigger] new_es[j].0 == kk;
                            let j2 = if j < i { j } else { j + 1 };
                            assert(old_es[j2].0 == kk);
                            assert(keys_of(old_es)[j2] == kk);
                            assert(keys_of(old_es)[i as int] == k);
                            lemma_sorted_distinct(keys_of(old_es), j2, i as int);
                        }
                        if map_of(old_es).remove(k).contains_key(kk) {
                            let j = choose|j: int| 0 <= j < old_es.len() && #[trigger] old_es[j].0 == kk;
                            if j < i {
                                assert(new_es[j].0 == kk);
                            } else {
                                assert(j != i);
                                assert(new_es[j - 1].0 == kk);
                            }
                        }
                    }
                    assert forall|kk: Seq<u8>| #[trigger] self@.contains_key(kk) implies self@[kk] == map_of(old_es).remove(k)[kk] by {
                        let j = choose|j: int| 0 <= j < new_es.len() && #[trigger] new_es[j].0 == kk;
                        let j2 = if j < i { j } else { j + 1 };
                        assert(old_es[j2] == new_es[j]);
                    }
                }
            }
        } else {
            proof {
                assert(!self@.contains_key(k)) by {
                    if self@.contains_key(k) {
                        let j = choose|j: int|
                            0 <= j < old_es.len() && #[trigger] old_es[j].0 == k;
                        lemma_lt_strict_total(k, k);
                        if j < i {
                            assert(bytes_lt(self.keys()[j], k));
                        } else if j > i {
                            lemma_lt_strict_total(self.keys()[i as int], k);
                            lemma_lt_trans(k, self.keys()[i as int], self.keys()[j]);
                            assert(bytes_lt(self.keys()[i as int], self.keys()[j]));
                        }
                    }
                }
                assert(self@ =~= self@.remove(k));
            }
        }
    }

    /// Appends an entry whose key is above every key held.
    pub fn push_last(&mut self, key: Vec<u8>, loc: ValueLoc)
        requires
            old(self).wf(),
            forall|j: int| 0 <= j < old(self).entries().len() ==> bytes_lt(#[trigger] old(self).keys()[j], key@),
        ensures
            final(self).wf(),
            final(self).entries() == old(self).entries().push((key@, loc)),
            final(self)@ == old(self)@.insert(key@, loc),
    {
        let ghost old_es = self.entries();
        self.entries.push((key, loc));
        proof {
            let new_es = self.entries();
            assert(new_es =~= old_es.push((key@, loc)));
            assert(new_es.drop_last() =~= old_es);
            assert forall|a: int, b: int| 0 <= a < b < new_es.len() implies bytes_lt(
                #[trigger] keys_of(new_es)[a],
                #[trigger] keys_of(new_es)[b],
            ) by {
                assert(keys_of(new_es)[a] == keys_of(old_es)[a]);
                if b < old_es.len() {
                    assert(keys_of(new_es)[b] == keys_of(old_es)[b]);
                }
            }
        }
    }
}

impl View for KeyDir {
    type V = Map<Seq<u8>, ValueLoc>;

    open spec fn view(&self) -> Map<Seq<u8>, ValueLoc> {
        map_of(self.entries())
    }
}

} // verus!
