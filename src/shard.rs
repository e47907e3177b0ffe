use vstd::prelude::*;

use crate::dataframe::{frame_expired, DataFrame, FrameModel};
use crate::keys::{compare_keys, key_lt, lemma_key_lt_irreflexive, lemma_key_lt_total, lemma_key_lt_transitive};

verus! {

/// The entries of a shard as mathematical pairs, in stored order.
pub type EntrySeq = Seq<(Seq<u8>, FrameModel)>;

/// Keys strictly ascending from first to last.
pub open spec fn ascending(s: EntrySeq) -> bool {
    forall|i: int, j: int| 0 <= i < j < s.len() ==> key_lt(#[trigger] s[i].0, #[trigger] s[j].0)
}

pub open spec fn holds_key(s: EntrySeq, k: Seq<u8>) -> bool {
    exists|i: int| 0 <= i < s.len() && #[trigger] s[i].0 == k
}

/// The map from keys to entries that a sequence of pairs describes.
pub open spec fn entries_map(s: EntrySeq) -> Map<Seq<u8>, FrameModel> {
    Map::new(
        |k: Seq<u8>| holds_key(s, k),
        |k: Seq<u8>| s[choose|i: int| 0 <= i < s.len() && #[trigger] s[i].0 == k].1,
    )
}

/// What `get` finds under `k` in a store whose contents are `m`.
pub open spec fn lookup(m: Map<Seq<u8>, FrameModel>, k: Seq<u8>) -> Option<FrameModel> {
    if m.contains_key(k) {
        Some(m[k])
    } else {
        None
    }
}

/// The contents after removing `k` if its entry is expired at `now`.
pub open spec fn remove_if_expired_spec(m: Map<Seq<u8>, FrameModel>, k: Seq<u8>, now: nat) -> Map<
    Seq<u8>,
    FrameModel,
> {
    if m.contains_key(k) && frame_expired(m[k], now) {
        m.remove(k)
    } else {
        m
    }
}

proof fn lemma_entries_map_at(s: EntrySeq, i: int)
    requires
        ascending(s),
        0 <= i < s.len(),
    ensures
        entries_map(s).contains_key(s[i].0),
        entries_map(s)[s[i].0] == s[i].1,
{
    let k = s[i].0;
    assert(holds_key(s, k));
    let j = choose|j: int| 0 <= j < s.len() && #[trigger] s[j].0 == k;
    lemma_key_lt_irreflexive(k);
    if j < i {
        assert(key_lt(s[j].0, s[i].0));
    } else if j > i {
        assert(key_lt(s[i].0, s[j].0));
    }
    assert(j == i);
    assert(entries_map(s)[k] == s[j].1);
}

/// An ordered partition of the key space: pairs kept in ascending key order.
pub struct Shard {
    entries: Vec<(Vec<u8>, DataFrame)>,
}

/// The mathematical pairs of a sequence of stored entries.
pub open spec fn pairs_of(v: Seq<(Vec<u8>, DataFrame)>) -> EntrySeq {
    v.map_values(|p: (Vec<u8>, DataFrame)| (p.0@, p.1@))
}

impl Shard {
    pub closed spec fn pairs(&self) -> EntrySeq {
        pairs_of(self.entries@)
    }

    /// Keys are strictly ascending, hence unique.
    pub closed spec fn wf(&self) -> bool {
        ascending(self.pairs())
    }

    pub closed spec fn view(&self) -> Map<Seq<u8>, FrameModel> {
        entries_map(self.pairs())
    }

    /// An empty shard.
    pub fn new() -> (r: Self)
        ensures
            r.wf(),
            r@ == Map::<Seq<u8>, FrameModel>::empty(),
    {
        let r = Shard { entries: Vec::new() };
        assert(r.pairs() =~= Seq::<(Seq<u8>, FrameModel)>::empty());
        assert(r@ =~= Map::<Seq<u8>, FrameModel>::empty());
        r
    }

    /// The number of entries.
    pub fn len(&self) -> (r: usize)
        requires
            self.wf(),
        ensures
            r == self@.len(),
    {
        proof {
            self.lemma_dom_len();
        }
        self.entries.len()
    }

    proof fn lemma_dom_len(&self)
        requires
            self.wf(),
        ensures
            self@.dom().finite(),
            self@.len() == self.pairs().len(),
    {
        let s = self.pairs();
        let keys = s.map_values(|p: (Seq<u8>, FrameModel)| p.0);
        assert forall|i: int, j: int| 0 <= i < keys.len() && 0 <= j < keys.len() && i != j implies keys[i] != keys[j] by {
            if i < j {
                assert(key_lt(s[i].0, s[j].0));
            } else {
                assert(key_lt(s[j].0, s[i].0));
            }
            lemma_key_lt_irreflexive(s[i].0);
        }
        assert(keys.no_duplicates());
        assert(self@.dom() =~= keys.to_set()) by {
            assert forall|k: Seq<u8>| self@.dom().contains(k) implies keys.to_set().contains(k) by {
                let i = choose|i: int| 0 <= i < s.len() && #[trigger] s[i].0 == k;
                assert(keys[i] == k);
            }
            assert forall|k: Seq<u8>| keys.to_set().contains(k) implies self@.dom().contains(k) by {
                let i = choose|i: int| 0 <= i < keys.len() && keys[i] == k;
                assert(s[i].0 == k);
            }
        }
        keys.unique_seq_to_set();
    }

    /// Walks the ordered entries to the first key not below `key`.
    /// Returns whether that key equals `key`, and its position.
    fn seek(&self, key: &[u8]) -> (r: (bool, usize))
        requires
            self.wf(),
        ensures
            r.1 <= self.pairs().len(),
            forall|j: int| 0 <= j < r.1 ==> key_lt(#[trigger] self.pairs()[j].0, key@),
            r.0 ==> r.1 < self.pairs().len() && self.pairs()[r.1 as int].0 == key@,
            !r.0 ==> r.1 == self.pairs().len() || key_lt(key@, self.pairs()[r.1 as int].0),
            r.0 == self@.contains_key(key@),
    {
        let mut i: usize = 0;
        while i < self.entries.len()
            invariant
                self.wf(),
                i <= self.entries.len(),
                forall|j: int| 0 <= j < i ==> key_lt(#[trigger] self.pairs()[j].0, key@),
            decreases self.entries.len() - i,
        {
            match compare_keys(self.entries[i].0.as_slice(), key) {
                core::cmp::Ordering::Less => {
                    i = i + 1;
                },
                core::cmp::Ordering::Equal => {
                    proof {
                        assert(self.pairs()[i as int].0 == key@);
                        assert(holds_key(self.pairs(), key@));
                    }
                    return (true, i);
                },
                core::cmp::Ordering::Greater => {
                    proof {
                        self.lemma_absent_at(key@, i as int);
                    }
                    return (false, i);
                },
            }
        }
        proof {
            self.lemma_absent_at(key@, i as int);
        }
        (false, i)
    }

    proof fn lemma_absent_at(&self, k: Seq<u8>, p: int)
        requires
            self.wf(),
            0 <= p <= self.pairs().len(),
            forall|j: int| 0 <= j < p ==> key_lt(#[trigger] self.pairs()[j].0, k),
            p == self.pairs().len() || key_lt(k, self.pairs()[p].0),
        ensures
            !self@.contains_key(k),
    {
        let s = self.pairs();
        if holds_key(s, k) {
            let j = choose|j: int| 0 <= j < s.len() && #[trigger] s[j].0 == k;
            lemma_key_lt_irreflexive(k);
            if j >= p {
                if j > p {
                    assert(key_lt(s[p].0, s[j].0));
                    lemma_key_lt_transitive(k, s[p].0, k);
                }
            }
        }
    }

    /// The entry stored under `key`, if any.
    pub fn get(&self, key: &[u8]) -> (r: Option<&DataFrame>)
        requires
            self.wf(),
        ensures
            match r {
                Some(f) => lookup(self@, key@) == Some(f@),
                None => lookup(self@, key@) == None::<FrameModel>,
            },
    {
        let (found, i) = self.seek(key);
        if found {
            proof {
                lemma_entries_map_at(self.pairs(), i as int);
            }
            Some(&self.entries[i].1)
        } else {
            None
        }
    }

    /// Stores `val` under `key`, replacing the entry already there.
    pub fn set(&mut self, key: Vec<u8>, val: DataFrame)
        requires
            old(self).wf(),
        ensures
            final(self).wf(),
            final(self)@ == old(self)@.insert(key@, val@),
    {
        let ghost s = self.pairs();
        let ghost k = key@;
        let ghost v = val@;
        let (found, i) = self.seek(key.as_slice());
        if found {
            self.entries.set(i, (key, val));
            proof {
                let t = self.pairs();
                assert(t =~= s.update(i as int, (k, v)));
                assert(ascending(t)) by {
                    assert forall|a: int, b: int| 0 <= a < b < t.len() implies key_lt(#[trigger] t[a].0, #[trigger] t[b].0) by {
                        assert(key_lt(s[a].0, s[b].0));
                    }
                }
                self.lemma_view_after_update(s, i as int, k, v);
            }
        } else {
            self.entries.insert(i, (key, val));
            proof {
                let t = self.pairs();
                assert(t =~= s.insert(i as int, (k, v)));
                assert(ascending(t)) by {
                    assert forall|a: int, b: int| 0 <= a < b < t.len() implies key_lt(#[trigger] t[a].0, #[trigger] t[b].0) by {
                        if b < i {
                            assert(key_lt(s[a].0, s[b].0));
                        } else if b == i {
                            assert(key_lt(s[a].0, k));
                        } else if a == i {
                            if b > i + 1 {
                                assert(key_lt(s[i as int].0, s[b - 1].0));
                                lemma_key_lt_transitive(k, s[i as int].0, s[b - 1].0);
                            }
                        } else if a < i {
                            assert(key_lt(s[a].0, s[b - 1].0));
                        } else {
                            assert(key_lt(s[a - 1].0, s[b - 1].0));
                        }
                    }
                }
                self.lemma_view_after_insert(s, i as int, k, v);
            }
        }
    }

    proof fn lemma_view_after_update(&self, s: EntrySeq, i: int, k: Seq<u8>, v: FrameModel)
        requires
            ascending(s),
            self.wf(),
            0 <= i < s.len(),
            s[i].0 == k,
            self.pairs() == s.update(i, (k, v)),
        ensures
            self@ == entries_map(s).insert(k, v),
    {
        let t = self.pairs();
        assert forall|q: Seq<u8>| #[trigger] self@.contains_key(q) == entries_map(s).insert(k, v).contains_key(q) by {
            if holds_key(t, q) {
                let j = choose|j: int| 0 <= j < t.len() && #[trigger] t[j].0 == q;
                assert(s[j].0 == q);
            }
            if holds_key(s, q) {
                let j = choose|j: int| 0 <= j < s.len() && #[trigger] s[j].0 == q;
                assert(t[j].0 == q);
            }
            lemma_entries_map_at(t, i);
        }
        assert forall|q: Seq<u8>| #[trigger] self@.contains_key(q) implies self@[q] == entries_map(s).insert(k, v)[q] by {
            let j = choose|j: int| 0 <= j < t.len() && #[trigger] t[j].0 == q;
            lemma_entries_map_at(t, j);
            if j != i {
                assert(s[j].0 == q);
                lemma_key_lt_irreflexive(k);
                if j < i {
                    assert(key_lt(s[j].0, s[i].0));
                } else {
                    assert(key_lt(s[i].0, s[j].0));
                }
                lemma_entries_map_at(s, j);
            }
        }
        assert(self@ =~= entries_map(s).insert(k, v));
    }

    proof fn lemma_view_after_insert(&self, s: EntrySeq, i: int, k: Seq<u8>, v: FrameModel)
        requires
            ascending(s),
            self.wf(),
            0 <= i <= s.len(),
            !holds_key(s, k),
            self.pairs() == s.insert(i, (k, v)),
        ensures
            self@ == entries_map(s).insert(k, v),
    {
        let t = self.pairs();
        assert forall|q: Seq<u8>| #[trigger] self@.contains_key(q) == entries_map(s).insert(k, v).contains_key(q) by {
            if holds_key(t, q) {
                let j = choose|j: int| 0 <= j < t.len() && #[trigger] t[j].0 == q;
                if j < i {
                    assert(s[j].0 == q);
                } else if j > i {
                    assert(s[j - 1].0 == q);
                }
            }
            if holds_key(s, q) {
                let j = choose|j: int| 0 <= j < s.len() && #[trigger] s[j].0 == q;
                if j < i {
                    assert(t[j].0 == q);
                } else {
                    assert(t[j + 1].0 == q);
                }
            }
            assert(t[i].0 == k);
        }
        assert forall|q: Seq<u8>| #[trigger] self@.contains_key(q) implies self@[q] == entries_map(s).insert(k, v)[q] by {
            let j = choose|j: int| 0 <= j < t.len() && #[trigger] t[j].0 == q;
            lemma_entries_map_at(t, j);
            if j < i {
                assert(s[j].0 == q);
                lemma_entries_map_at(s, j);
            } else if j > i {
                assert(s[j - 1].0 == q);
                lemma_entries_map_at(s, j - 1);
            }
        }
        assert(self@ =~= entries_map(s).insert(k, v));
    }

    proof fn lemma_view_after_remove(&self, s: EntrySeq, i: int)
        requires
            ascending(s),
            self.wf(),
            0 <= i < s.len(),
            self.pairs() == s.remove(i),
        ensures
            self@ == entries_map(s).remove(s[i].0),
    {
        let t = self.pairs();
        let k = s[i].0;
        assert forall|q: Seq<u8>| #[trigger] self@.contains_key(q) == entries_map(s).remove(k).contains_key(q) by {
            if holds_key(t, q) {
                let j = choose|j: int| 0 <= j < t.len() && #[trigger] t[j].0 == q;
                lemma_key_lt_irreflexive(k);
                if j < i {
                    assert(s[j].0 == q);
                    assert(key_lt(s[j].0, k));
                } else {
                    assert(s[j + 1].0 == q);
                    assert(key_lt(k, s[j + 1].0));
                }
            }
            if holds_key(s, q) && q != k {
                let j = choose|j: int| 0 <= j < s.len() && #[trigger] s[j].0 == q;
                if j < i {
                    assert(t[j].0 == q);
                } else {
                    assert(j != i);
                    assert(t[j - 1].0 == q);
                }
            }
        }
        assert forall|q: Seq<u8>| #[trigger] self@.contains_key(q) implies self@[q] == entries_map(s).remove(k)[q] by {
            let j = choose|j: int| 0 <= j < t.len() && #[trigger] t[j].0 == q;
            lemma_entries_map_at(t, j);
            if j < i {
                lemma_entries_map_at(s, j);
            } else {
                lemma_entries_map_at(s, j + 1);
            }
        }
        assert(self@ =~= entries_map(s).remove(k));
    }

    /// Removes the entry at position `i`.
    fn remove_at(&mut self, i: usize)
        requires
            old(self).wf(),
            i < old(self).pairs().len(),
        ensures
            final(self).wf(),
            final(self)@ == old(self)@.remove(old(self).pairs()[i as int].0),
    {
        let ghost s = self.pairs();
        self.entries.remove(i);
        proof {
            let t = self.pairs();
            assert(t =~= s.remove(i as int));
            assert(ascending(t)) by {
                assert forall|a: int, b: int| 0 <= a < b < t.len() implies key_lt(#[trigger] t[a].0, #[trigger] t[b].0) by {
                    if b < i {
                        assert(key_lt(s[a].0, s[b].0));
                    } else if a < i {
                        assert(key_lt(s[a].0, s[b + 1].0));
                    } else {
                        assert(key_lt(s[a + 1].0, s[b + 1].0));
                    }
                }
            }
            self.lemma_view_after_remove(s, i as int);
        }
    }

    /// Removes the entry under `key`; returns whether there was one.
    pub fn remove(&mut self, key: &[u8]) -> (r: bool)
        requires
            old(self).wf(),
        ensures
            final(self).wf(),
            r == old(self)@.contains_key(key@),
            final(self)@ == old(self)@.remove(key@),
    {
        let (found, i) = self.seek(key);
        if found {
            self.remove_at(i);
            true
        } else {
            assert(self@ =~= self@.remove(key@));
            false
        }
    }

    /// Removes the entry under `key` only if it is expired at clock reading `now`;
    /// returns whether it was removed.
    pub fn remove_if_expired(&mut self, key: &[u8], now: u64) -> (r: bool)
        requires
            old(self).wf(),
        ensures
            final(self).wf(),
            r == (old(self)@.contains_key(key@) && frame_expired(old(self)@[key@], now as nat)),
            final(self)@ == remove_if_expired_spec(old(self)@, key@, now as nat),
    {
        let (found, i) = self.seek(key);
        if found {
            proof {
                lemma_entries_map_at(self.pairs(), i as int);
            }
            if self.entries[i].1.has_expired(now) {
                self.remove_at(i);
                return true;
            }
        }
        false
    }

    /// Removes the entry under `key` only if `cond` holds of it; returns
    /// whether it was removed. `cond` is asked once, and only when `key` is
    /// present.
    pub fn remove_if<F: Fn(&DataFrame) -> bool>(&mut self, key: &[u8], cond: F) -> (r: bool)
        requires
            old(self).wf(),
            forall|f: &DataFrame| #[trigger] cond.requires((f,)),
        ensures
            final(self).wf(),
            r ==> old(self)@.contains_key(key@) && final(self)@ == old(self)@.remove(key@)
                && exists|f: DataFrame| f@ == old(self)@[key@] && #[trigger] cond.ensures((&f,), true),
            !r ==> final(self)@ == old(self)@,
            !r && old(self)@.contains_key(key@) ==> exists|f: DataFrame| f@ == old(self)@[key@] && #[trigger] cond.ensures((&f,), false),
    {
        let (found, i) = self.seek(key);
        if found {
            proof {
                lemma_entries_map_at(self.pairs(), i as int);
            }
            let ghost f = self.entries@[i as int].1;
            if cond(&self.entries[i].1) {
                self.remove_at(i);
                assert(cond.ensures((&f,), true));
                return true;
            }
            assert(cond.ensures((&f,), false));
        }
        false
    }

    /// Every entry, in ascending key order.
    pub fn for_each(&self) -> (r: Vec<(Vec<u8>, DataFrame)>)
        requires
            self.wf(),
        ensures
            ascending(pairs_of(r@)),
            entries_map(pairs_of(r@)) == self@,
    {
        let mut out: Vec<(Vec<u8>, DataFrame)> = Vec::new();
        let mut i: usize = 0;
        while i < self.entries.len()
            invariant
                i <= self.entries.len(),
                out@.len() == i,
                forall|j: int| 0 <= j < i ==> (#[trigger] out@[j]).0@ == self.entries@[j].0@ && out@[j].1@ == self.entries@[j].1@,
            decreases self.entries.len() - i,
        {
            let k = self.entries[i].0.clone();
            let f = self.entries[i].1.duplicate();
            out.push((k, f));
            i = i + 1;
        }
        assert(pairs_of(out@) =~= self.pairs());
        out
    }
}

impl Default for Shard {
    fn default() -> (r: Self)
        ensures
            r.wf(),
            r@ == Map::<Seq<u8>, FrameModel>::empty(),
    {
        Shard::new()
    }
}

} // verus!
