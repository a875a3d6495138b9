//! A keyed collection with value semantics, used both as the authoritative
//! state of an observable map and as the snapshot attached to delivered
//! events.
//!
//! The representation is a vector of entries with pairwise distinct keys;
//! the mathematical view is a `Map` from keys to values.

use crate::keys::{DiffKey, DupValue};
use vstd::prelude::*;

verus! {

/// The map described by an entry sequence, later entries winning.
pub open spec fn kv_map<K, V>(s: Seq<(K, V)>) -> Map<K, V>
    decreases s.len(),
{
    if s.len() == 0 {
        Map::empty()
    } else {
        kv_map(s.drop_last()).insert(s.last().0, s.last().1)
    }
}

/// Whether an entry sequence has pairwise distinct keys.
pub open spec fn kv_unique<K, V>(s: Seq<(K, V)>) -> bool {
    forall|i: int, j: int| 0 <= i < j < s.len() ==> (#[trigger] s[i]).0 != (#[trigger] s[j]).0
}

/// The domain of the described map is exactly the set of keys present.
pub proof fn lemma_kv_map_contains<K, V>(s: Seq<(K, V)>, k: K)
    ensures
        kv_map(s).contains_key(k) <==> exists|i: int| 0 <= i < s.len() && (#[trigger] s[i]).0 == k,
    decreases s.len(),
{
    if s.len() > 0 {
        lemma_kv_map_contains(s.drop_last(), k);
        if s.last().0 == k {
            assert(s[s.len() - 1].0 == k);
        } else if kv_map(s).contains_key(k) {
            let i = choose|i: int| 0 <= i < s.drop_last().len() && (#[trigger] s.drop_last()[i]).0 == k;
            assert(s[i].0 == k);
        } else {
            assert forall|i: int| 0 <= i < s.len() && (#[trigger] s[i]).0 == k implies false by {
                if i < s.len() - 1 {
                    assert(s.drop_last()[i].0 == k);
                }
            }
        }
    }
}

/// With distinct keys, the value stored at a key's position is the value
/// the described map gives that key.
pub proof fn lemma_kv_map_at<K, V>(s: Seq<(K, V)>, p: int)
    requires
        kv_unique(s),
        0 <= p < s.len(),
    ensures
        kv_map(s).contains_key(s[p].0),
        kv_map(s)[s[p].0] == s[p].1,
    decreases s.len(),
{
    if p == s.len() - 1 {
    } else {
        lemma_kv_map_at(s.drop_last(), p);
        assert(s.drop_last()[p] == s[p]);
        assert(s.last().0 != s[p].0);
    }
}

/// A map with value semantics, keyed by `K`.
///
/// Keys must be comparable ([`DiffKey`]) and values duplicable
/// ([`DupValue`]); both abilities carry contracts, so every operation on
/// the map is specified exactly over its `Map` view.
pub struct KeyMap<K: DiffKey, V: DupValue> {
    entries: Vec<(K, V)>,
}

impl<K: DiffKey, V: DupValue> View for KeyMap<K, V> {
    type V = Map<K, V>;

    closed spec fn view(&self) -> Map<K, V> {
        kv_map(self.entries@)
    }
}

impl<K: DiffKey, V: DupValue> KeyMap<K, V> {
    /// The entry sequence backing this map; its order is the iteration
    /// order of [`KeyMap::to_entries`].
    pub closed spec fn entry_seq(&self) -> Seq<(K, V)> {
        self.entries@
    }

    /// Well-formedness: keys are pairwise distinct, so each key has one
    /// value and the view determines the length.
    pub closed spec fn wf(&self) -> bool {
        kv_unique(self.entries@)
    }

    /// The view is the map described by the entry sequence.
    pub proof fn lemma_view_is_entry_map(&self)
        ensures
            self@ == kv_map(self.entry_seq()),
    {
    }

    /// An empty map.
    pub fn new() -> (r: KeyMap<K, V>)
        ensures
            r.wf(),
            r@ == Map::<K, V>::empty(),
            r.entry_seq() == Seq::<(K, V)>::empty(),
    {
        KeyMap { entries: Vec::new() }
    }

    /// Number of entries.
    pub fn len(&self) -> (r: usize)
        requires
            self.wf(),
        ensures
            r == self.entry_seq().len(),
            r == self@.dom().len(),
    {
        proof {
            lemma_kv_dom_len(self.entries@);
        }
        self.entries.len()
    }

    /// Whether the map has no entries.
    pub fn is_empty(&self) -> (r: bool)
        requires
            self.wf(),
        ensures
            r == (self@ =~= Map::<K, V>::empty()),
    {
        proof {
            if self.entries@.len() > 0 {
                lemma_kv_map_at(self.entries@, 0);
            } else {
                assert(self@ =~= Map::<K, V>::empty());
            }
        }
        self.entries.len() == 0
    }

    /// Position of the entry for `key`, if present.
    fn find(&self, key: &K) -> (r: Option<usize>)
        requires
            self.wf(),
        ensures
            match r {
                Some(p) => {
                    &&& p < self.entry_seq().len()
                    &&& self.entry_seq()[p as int].0 == *key
                    &&& self@.contains_key(*key)
                    &&& self@[*key] == self.entry_seq()[p as int].1
                },
                None => !self@.contains_key(*key),
            },
    {
        let ghost s = self.entries@;
        let mut i: usize = 0;
        while i < self.entries.len()
            invariant
                0 <= i <= s.len(),
                self.entries@ == s,
                kv_unique(s),
                forall|j: int| 0 <= j < i ==> (#[trigger] s[j]).0 != *key,
            decreases s.len() - i,
        {
            if self.entries[i].0.same(key) {
                proof {
                    lemma_kv_map_at(s, i as int);
                }
                return Some(i);
            }
            i += 1;
        }
        proof {
            lemma_kv_map_contains(s, *key);
        }
        None
    }

    /// The value at `key`, if present.
    pub fn get(&self, key: &K) -> (r: Option<&V>)
        requires
            self.wf(),
        ensures
            match r {
                Some(v) => self@.contains_key(*key) && *v == self@[*key],
                None => !self@.contains_key(*key),
            },
    {
        match self.find(key) {
            Some(p) => Some(&self.entries[p].1),
            None => None,
        }
    }

    /// Whether the map holds a value for `key`.
    pub fn contains_key(&self, key: &K) -> (r: bool)
        requires
            self.wf(),
        ensures
            r == self@.contains_key(*key),
    {
        self.find(key).is_some()
    }

    /// Store `v` under `k`, returning the value previously there, if any.
    pub fn insert(&mut self, k: K, v: V) -> (r: Option<V>)
        requires
            old(self).wf(),
        ensures
            final(self).wf(),
            final(self)@ == old(self)@.insert(k, v),
            match r {
                Some(prev) => old(self)@.contains_key(k) && prev == old(self)@[k],
                None => !old(self)@.contains_key(k),
            },
    {
        let ghost s0 = self.entries@;
        match self.find(&k) {
            Some(p) => {
                let prev = self.entries[p].1.dup();
                self.entries.set(p, (k, v));
                proof {
                    lemma_kv_update(s0, p as int, k, v);
                }
                Some(prev)
            },
            None => {
                self.entries.push((k, v));
                proof {
                    lemma_kv_map_contains(s0, k);
                    assert(self.entries@.drop_last() =~= s0);
                    assert(self.entries@.last() == ((k, v)));
                    assert(forall|i: int| 0 <= i < s0.len() ==> (#[trigger] s0[i]).0 != k);
                }
                None
            },
        }
    }

    /// Remove and return the value at `key`, if present.
    pub fn remove(&mut self, key: &K) -> (r: Option<V>)
        requires
            old(self).wf(),
        ensures
            final(self).wf(),
            final(self)@ == old(self)@.remove(*key),
            match r {
                Some(prev) => old(self)@.contains_key(*key) && prev == old(self)@[*key],
                None => !old(self)@.contains_key(*key),
            },
    {
        let ghost s0 = self.entries@;
        match self.find(key) {
            Some(p) => {
                let (_, v) = self.entries.remove(p);
                proof {
                    lemma_kv_remove(s0, p as int);
                    assert(final(self)@ =~= old(self)@.remove(*key));
                }
                Some(v)
            },
            None => {
                proof {
                    assert(final(self)@ =~= old(self)@.remove(*key));
                }
                None
            },
        }
    }

    /// Remove every entry.
    pub fn clear(&mut self)
        ensures
            final(self).wf(),
            final(self)@ =~= Map::<K, V>::empty(),
            final(self).entry_seq() == Seq::<(K, V)>::empty(),
    {
        self.entries.clear();
    }

    /// An independent copy of this map; later changes to either copy do
    /// not affect the other.
    pub fn dup(&self) -> (r: KeyMap<K, V>)
        ensures
            r.wf() == self.wf(),
            r@ == self@,
            r.entry_seq() == self.entry_seq(),
    {
        let mut out: Vec<(K, V)> = Vec::new();
        let mut i: usize = 0;
        while i < self.entries.len()
            invariant
                0 <= i <= self.entries@.len(),
                out@ == self.entries@.take(i as int),
            decreases self.entries@.len() - i,
        {
            let k = self.entries[i].0.dup();
            let v = self.entries[i].1.dup();
            out.push((k, v));
            proof {
                assert(out@ =~= self.entries@.take(i + 1));
            }
            i += 1;
        }
        proof {
            assert(self.entries@.take(self.entries@.len() as int) =~= self.entries@);
        }
        KeyMap { entries: out }
    }

    /// The entries as a vector, in the map's iteration order.
    pub fn to_entries(&self) -> (r: Vec<(K, V)>)
        requires
            self.wf(),
        ensures
            r@ == self.entry_seq(),
            kv_map(r@) == self@,
            kv_unique(r@),
    {
        let copy = self.dup();
        copy.entries
    }
}

/// With distinct keys the described map has exactly one entry per key, so
/// its domain is as large as the sequence.
proof fn lemma_kv_dom_len<K, V>(s: Seq<(K, V)>)
    requires
        kv_unique(s),
    ensures
        kv_map(s).dom().finite(),
        kv_map(s).dom().len() == s.len(),
    decreases s.len(),
{
    if s.len() > 0 {
        lemma_kv_dom_len(s.drop_last());
        lemma_kv_map_contains(s.drop_last(), s.last().0);
        assert(!kv_map(s.drop_last()).contains_key(s.last().0)) by {
            if kv_map(s.drop_last()).contains_key(s.last().0) {
                let i = choose|i: int|
                    0 <= i < s.drop_last().len() && (#[trigger] s.drop_last()[i]).0 == s.last().0;
                assert(s[i].0 == s.last().0);
            }
        }
        assert(kv_map(s).dom() =~= kv_map(s.drop_last()).dom().insert(s.last().0));
    }
}

/// Updating the entry that holds `k` updates the described map at `k`.
proof fn lemma_kv_update<K, V>(s: Seq<(K, V)>, p: int, k: K, v: V)
    requires
        kv_unique(s),
        0 <= p < s.len(),
        s[p].0 == k,
    ensures
        kv_unique(s.update(p, (k, v))),
        kv_map(s.update(p, (k, v))) =~= kv_map(s).insert(k, v),
    decreases s.len(),
{
    let s2 = s.update(p, (k, v));
    if p == s.len() - 1 {
        assert(s2.drop_last() =~= s.drop_last());
    } else {
        lemma_kv_update(s.drop_last(), p, k, v);
        assert(s2.drop_last() =~= s.drop_last().update(p, (k, v)));
        assert(s2.last() == s.last());
        assert(s.last().0 != k);
        assert(kv_map(s2) =~= kv_map(s).insert(k, v)) by {
            assert(kv_map(s2) == kv_map(s2.drop_last()).insert(s.last().0, s.last().1));
            assert(kv_map(s2.drop_last()) =~= kv_map(s.drop_last()).insert(k, v));
        }
    }
}

/// Removing the entry that holds a key removes that key from the
/// described map.
proof fn lemma_kv_remove<K, V>(s: Seq<(K, V)>, p: int)
    requires
        kv_unique(s),
        0 <= p < s.len(),
    ensures
        kv_unique(s.remove(p)),
        kv_map(s.remove(p)) =~= kv_map(s).remove(s[p].0),
    decreases s.len(),
{
    let k = s[p].0;
    let s2 = s.remove(p);
    assert(forall|i: int| 0 <= i < p ==> (#[trigger] s2[i]) == s[i]);
    assert(forall|i: int| p <= i < s2.len() ==> (#[trigger] s2[i]) == s[i + 1]);
    if p == s.len() - 1 {
        assert(s2 =~= s.drop_last());
        lemma_kv_map_contains(s.drop_last(), k);
        assert(!kv_map(s.drop_last()).contains_key(k)) by {
            if kv_map(s.drop_last()).contains_key(k) {
                let i = choose|i: int|
                    0 <= i < s.drop_last().len() && (#[trigger] s.drop_last()[i]).0 == k;
                assert(s[i].0 == k);
            }
        }
        assert(kv_map(s2) =~= kv_map(s).remove(k));
    } else {
        lemma_kv_remove(s.drop_last(), p);
        assert(s2.drop_last() =~= s.drop_last().remove(p));
        assert(s2.last() == s.last());
        assert(s.last().0 != k);
        assert(kv_map(s2) =~= kv_map(s).remove(k)) by {
            assert(kv_map(s2) == kv_map(s2.drop_last()).insert(s.last().0, s.last().1));
            assert(kv_map(s2.drop_last()) =~= kv_map(s.drop_last()).remove(k));
        }
    }
}

} // verus!
