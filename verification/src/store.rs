//! A typed key-to-value counting store.
//!
//! The store is the persistence backbone of the model: a mapping from
//! composite suffix keys to observation counts. It is kept as a vector of
//! entries with pairwise-distinct keys; its mathematical content is the
//! `Map` from key views to values. Durable storage is layered on top by
//! the snapshot codec, so `get`/`put` semantics do not depend on the
//! chosen persistence backend.

use vstd::prelude::*;

verus! {

/// Keys of a store compare by their mathematical view.
pub trait StoreKey: View + Sized {
    /// Decides equality of the views of two keys.
    fn key_eq(&self, other: &Self) -> (r: bool)
        ensures
            r == (self@ == other@),
    ;
}

impl StoreKey for String {
    fn key_eq(&self, other: &Self) -> (r: bool) {
        self.eq(other)
    }
}

/// The map described by a sequence of key-view/value entries: later entries
/// override earlier ones, though a well-formed store never duplicates a key.
pub open spec fn entries_to_map<KV, VV>(s: Seq<(KV, VV)>) -> Map<KV, VV>
    decreases s.len(),
{
    if s.len() == 0 {
        Map::empty()
    } else {
        entries_to_map(s.drop_last()).insert(s.last().0, s.last().1)
    }
}

/// No two entries share a key.
pub open spec fn unique_keys<KV, VV>(s: Seq<(KV, VV)>) -> bool {
    forall|i: int, j: int| 0 <= i < j < s.len() ==> s[i].0 != s[j].0
}

/// A key is in the map exactly when some entry holds it.
pub proof fn lemma_entries_domain<KV, VV>(s: Seq<(KV, VV)>, k: KV)
    ensures
        entries_to_map(s).contains_key(k) <==> (exists|i: int| 0 <= i < s.len() && s[i].0 == k),
    decreases s.len(),
{
    if s.len() == 0 {
    } else {
        lemma_entries_domain(s.drop_last(), k);
        if s.last().0 == k {
            assert(s[s.len() - 1].0 == k);
        } else {
            if exists|i: int| 0 <= i < s.len() && s[i].0 == k {
                let i = choose|i: int| 0 <= i < s.len() && s[i].0 == k;
                assert(s.drop_last()[i].0 == k);
            }
        }
    }
}

/// With distinct keys, every entry is reflected verbatim in the map.
pub proof fn lemma_entries_index<KV, VV>(s: Seq<(KV, VV)>, i: int)
    requires
        unique_keys(s),
        0 <= i < s.len(),
    ensures
        entries_to_map(s).contains_key(s[i].0),
        entries_to_map(s)[s[i].0] == s[i].1,
    decreases s.len(),
{
    if i == s.len() - 1 {
    } else {
        assert(unique_keys(s.drop_last()));
        lemma_entries_index(s.drop_last(), i);
        assert(s.last().0 != s[i].0);
    }
}

/// Overwriting the entry that holds a key updates the map at that key.
pub proof fn lemma_entries_update<KV, VV>(s: Seq<(KV, VV)>, i: int, v: VV)
    requires
        unique_keys(s),
        0 <= i < s.len(),
    ensures
        entries_to_map(s.update(i, (s[i].0, v))) == entries_to_map(s).insert(s[i].0, v),
    decreases s.len(),
{
    let k = s[i].0;
    let t = s.update(i, (k, v));
    if i == s.len() - 1 {
        assert(t.drop_last() =~= s.drop_last());
        assert(entries_to_map(s.drop_last()).insert(k, s[i].1).insert(k, v) =~= entries_to_map(
            s.drop_last(),
        ).insert(k, v));
    } else {
        assert(unique_keys(s.drop_last()));
        lemma_entries_update(s.drop_last(), i, v);
        assert(t.drop_last() =~= s.drop_last().update(i, (k, v)));
        assert(t.last() == s.last());
        assert(k != s.last().0);
        assert(entries_to_map(s.drop_last()).insert(k, v).insert(s.last().0, s.last().1)
            =~= entries_to_map(s.drop_last()).insert(s.last().0, s.last().1).insert(k, v));
    }
}

/// Appending an entry with a fresh key inserts it into the map.
pub proof fn lemma_entries_push<KV, VV>(s: Seq<(KV, VV)>, k: KV, v: VV)
    ensures
        entries_to_map(s.push((k, v))) == entries_to_map(s).insert(k, v),
{
    assert(s.push((k, v)).drop_last() =~= s);
}

/// The key-to-count store interface: a mapping from key views to values,
/// read by `get` and written by `put`. Backends must agree on these
/// semantics whatever their persistence model is.
pub trait Store<K: StoreKey, V: Copy>: Sized {
    /// The well-formedness every store operation preserves.
    spec fn inv(&self) -> bool;

    /// The mapping this store currently holds.
    spec fn contents(&self) -> Map<K::V, V>;

    /// Looks a key up.
    fn get(&self, k: &K) -> (r: Option<V>)
        requires
            self.inv(),
        ensures
            self.contents().contains_key(k@) ==> r == Some(self.contents()[k@]),
            !self.contents().contains_key(k@) ==> r is None,
    ;

    /// Inserts or overwrites one key.
    fn put(&mut self, k: K, v: V)
        requires
            old(self).inv(),
        ensures
            final(self).inv(),
            final(self).contents() == old(self).contents().insert(k@, v),
    ;
}

/// The in-memory backend: a vector of entries with pairwise-distinct keys.
pub struct StoreImpl<K: StoreKey, V: Copy> {
    entries: Vec<(K, V)>,
}

/// The entry sequence of a store, with keys abstracted to their views.
pub open spec fn store_entries<K: View, V>(entries: Seq<(K, V)>) -> Seq<(K::V, V)> {
    entries.map_values(|p: (K, V)| (p.0@, p.1))
}

impl<K: StoreKey, V: Copy> StoreImpl<K, V> {
    /// An empty store.
    pub fn new() -> (r: Self)
        ensures
            r.inv(),
            r.contents() == Map::<K::V, V>::empty(),
    {
        let r = StoreImpl { entries: Vec::new() };
        proof {
            assert(store_entries(r.entries@) =~= Seq::<(K::V, V)>::empty());
        }
        r
    }

    /// How many keys the store holds.
    pub fn len(&self) -> (r: usize)
        requires
            self.inv(),
        ensures
            r == self.contents().dom().len(),
    {
        proof {
            lemma_entries_map_len(store_entries(self.entries@));
        }
        self.entries.len()
    }

    /// The entries as a vector, for whole-store traversals such as snapshots.
    pub fn entries(&self) -> (r: &Vec<(K, V)>)
        requires
            self.inv(),
        ensures
            store_entries(r@) == self.entry_views(),
            unique_keys(self.entry_views()),
            entries_to_map(self.entry_views()) == self.contents(),
    {
        &self.entries
    }

    /// The entry sequence behind `contents`.
    pub closed spec fn entry_views(&self) -> Seq<(K::V, V)> {
        store_entries(self.entries@)
    }

    fn find(&self, k: &K) -> (r: Option<usize>)
        ensures
            match r {
                Some(i) => i < self.entries@.len() && store_entries(self.entries@)[i as int].0
                    == k@,
                None => forall|j: int|
                    0 <= j < self.entries@.len() ==> store_entries(self.entries@)[j].0 != k@,
            },
    {
        let n = self.entries.len();
        let mut i: usize = 0;
        while i < n
            invariant
                n == self.entries@.len(),
                i <= n,
                forall|j: int| 0 <= j < i ==> store_entries(self.entries@)[j].0 != k@,
            decreases n - i,
        {
            if self.entries[i].0.key_eq(k) {
                assert(store_entries(self.entries@)[i as int].0 == k@);
                return Some(i);
            }
            assert(store_entries(self.entries@)[i as int].0 != k@);
            i = i + 1;
        }
        None
    }
}

impl<K: StoreKey, V: Copy> Store<K, V> for StoreImpl<K, V> {
    closed spec fn inv(&self) -> bool {
        unique_keys(store_entries(self.entries@))
    }

    closed spec fn contents(&self) -> Map<K::V, V> {
        entries_to_map(store_entries(self.entries@))
    }

    fn get(&self, k: &K) -> (r: Option<V>) {
        let ghost s = store_entries(self.entries@);
        match self.find(k) {
            Some(i) => {
                proof {
                    lemma_entries_index(s, i as int);
                }
                Some(self.entries[i].1)
            },
            None => {
                proof {
                    lemma_entries_domain(s, k@);
                }
                None
            },
        }
    }

    fn put(&mut self, k: K, v: V) {
        let ghost s = store_entries(self.entries@);
        match self.find(&k) {
            Some(i) => {
                proof {
                    lemma_entries_update(s, i as int, v);
                }
                self.entries.set(i, (k, v));
                proof {
                    assert(store_entries(self.entries@) =~= s.update(i as int, (s[i as int].0, v)));
                }
            },
            None => {
                proof {
                    lemma_entries_push(s, k@, v);
                }
                self.entries.push((k, v));
                proof {
                    assert(store_entries(self.entries@) =~= s.push((k@, v)));
                }
            },
        }
    }
}

/// With distinct keys, the map has exactly one key per entry.
pub proof fn lemma_entries_map_len<KV, VV>(s: Seq<(KV, VV)>)
    requires
        unique_keys(s),
    ensures
        entries_to_map(s).dom().len() == s.len(),
        entries_to_map(s).dom().finite(),
    decreases s.len(),
{
    if s.len() == 0 {
        assert(entries_to_map(s).dom() =~= Set::<KV>::empty());
    } else {
        assert(unique_keys(s.drop_last()));
        lemma_entries_map_len(s.drop_last());
        lemma_entries_domain(s.drop_last(), s.last().0);
        assert(forall|i: int|
            0 <= i < s.drop_last().len() ==> s.drop_last()[i].0 == s[i].0 && s[i].0
                != s.last().0);
        assert(!entries_to_map(s.drop_last()).contains_key(s.last().0));
    }
}

} // verus!
