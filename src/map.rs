//! The map: a hash trie whose keys are strings, hashed to 64 bits.
use crate::bucket::{pair_key, Pair};
use crate::keys::{hash_bytes, key_bytes, key_hash};
use crate::table::{lemma_slot_range, table_get, table_wf, Table};
use vstd::prelude::*;

verus! {

/// A map from string keys to values, kept as a multi-level hash trie with
/// ordered buckets.
pub struct TrieMap<V> {
    table: Table<V>,
}

/// A pair taken out of a map, by removal or by displacement. It gives read
/// access to its key and value, and can be put back with `reinsert`.
/// Equality and order go by the key, then the value.
#[derive(Debug, PartialEq, Eq, PartialOrd, Ord, Hash)]
pub struct Removed<V> {
    key: String,
    val: V,
}

impl<V> View for TrieMap<V> {
    type V = Map<Seq<u8>, V>;

    /// The map from the bytes of each stored key to its value.
    closed spec fn view(&self) -> Map<Seq<u8>, V> {
        Map::new(
            |k: Seq<u8>| table_get(self.table, 0, key_hash(k), k) is Some,
            |k: Seq<u8>| table_get(self.table, 0, key_hash(k), k)->Some_0,
        )
    }
}

impl<V> View for Removed<V> {
    type V = (Seq<char>, V);

    closed spec fn view(&self) -> (Seq<char>, V) {
        (self.key@, self.val)
    }
}

impl<V> Removed<V> {
    /// The key of this removed entry.
    pub fn key(&self) -> (r: &String)
        ensures
            r@ == self@.0,
    {
        &self.key
    }

    /// The value of this removed entry.
    pub fn val(&self) -> (r: &V)
        ensures
            *r == self@.1,
    {
        &self.val
    }
}

impl<V> TrieMap<V> {
    /// The trie is well formed: every table has all its slots, each leaf
    /// stands where its hash leads, and each bucket holds its pairs in
    /// strictly increasing key order.
    pub closed spec fn wf(&self) -> bool {
        table_wf(self.table, 0) && self.table.path@ == 0
    }

    /// An empty map.
    pub fn new() -> (r: Self)
        ensures
            r.wf(),
            r@ == Map::<Seq<u8>, V>::empty(),
    {
        let table = Table::new(Ghost(0u64));
        let r = TrieMap { table };
        proof {
            lemma_slot_range();
            assert(r@ =~= Map::<Seq<u8>, V>::empty());
        }
        r
    }

    /// Stores `val` under `key`. A pair already stored under an equal key is
    /// displaced and returned.
    pub fn insert(&mut self, key: String, val: V) -> (r: Option<Removed<V>>)
        requires
            old(self).wf(),
        ensures
            final(self).wf(),
            final(self)@ == old(self)@.insert(key_bytes(key@), val),
            match r {
                Some(d) => old(self)@.contains_key(key_bytes(key@)) && key_bytes(d@.0) == key_bytes(key@)
                    && d@.1 == old(self)@[key_bytes(key@)],
                None => !old(self)@.contains_key(key_bytes(key@)),
            },
    {
        let hash = hash_bytes(key.as_str().as_bytes());
        self.insert_pair(hash, Pair { key, val })
    }

    /// Puts a removed pair back, without building it anew. A pair already
    /// stored under an equal key is displaced and returned.
    pub fn reinsert(&mut self, removed: Removed<V>) -> (r: Option<Removed<V>>)
        requires
            old(self).wf(),
        ensures
            final(self).wf(),
            final(self)@ == old(self)@.insert(key_bytes(removed@.0), removed@.1),
            match r {
                Some(d) => old(self)@.contains_key(key_bytes(removed@.0)) && key_bytes(d@.0) == key_bytes(removed@.0)
                    && d@.1 == old(self)@[key_bytes(removed@.0)],
                None => !old(self)@.contains_key(key_bytes(removed@.0)),
            },
    {
        let hash = hash_bytes(removed.key.as_str().as_bytes());
        self.insert_pair(hash, Pair { key: removed.key, val: removed.val })
    }

    fn insert_pair(&mut self, hash: u64, pair: Pair<V>) -> (r: Option<Removed<V>>)
        requires
            old(self).wf(),
            hash == key_hash(pair_key(pair)),
        ensures
            final(self).wf(),
            final(self)@ == old(self)@.insert(pair_key(pair), pair.val),
            match r {
                Some(d) => old(self)@.contains_key(pair_key(pair)) && key_bytes(d@.0) == pair_key(pair)
                    && d@.1 == old(self)@[pair_key(pair)],
                None => !old(self)@.contains_key(pair_key(pair)),
            },
    {
        let ghost o = self.table;
        let ghost k = pair_key(pair);
        let ghost v = pair.val;
        let r = self.table.insert(0, hash, pair);
        proof {
            assert(self@ =~= old(self)@.insert(k, v)) by {
                assert forall|kk: Seq<u8>| #[trigger] self@.contains_key(kk) == old(self)@.insert(k, v).contains_key(kk) by {
                    assert(table_get(self.table, 0, key_hash(kk), kk) == if key_hash(kk) == hash && kk == k {
                        Some(v)
                    } else {
                        table_get(o, 0, key_hash(kk), kk)
                    });
                }
            }
        }
        match r {
            Some(p) => Some(Removed { key: p.key, val: p.val }),
            None => None,
        }
    }

    /// Calls `reader` on the value stored under `key`, if there is one, and
    /// hands back what it returns.
    pub fn get<F, T>(&self, key: &str, reader: F) -> (r: Option<T>)
        where
            F: FnOnce(&V) -> T,
        requires
            self.wf(),
            forall|v: &V| #[trigger] reader.requires((v,)),
        ensures
            r is Some == self@.contains_key(key_bytes(key@)),
            r matches Some(t) ==> reader.ensures((&self@[key_bytes(key@)],), t),
    {
        let bytes = key.as_bytes();
        let hash = hash_bytes(bytes);
        match self.table.get(0, hash, bytes) {
            Some(p) => Some(reader(&p.val)),
            None => None,
        }
    }

    /// Calls `reader` on the key and the value stored under `key`, if there
    /// is such a pair, and hands back what it returns.
    pub fn get_pair<F, T>(&self, key: &str, reader: F) -> (r: Option<T>)
        where
            F: FnOnce(&String, &V) -> T,
        requires
            self.wf(),
            forall|k: &String, v: &V| #[trigger] reader.requires((k, v)),
        ensures
            r is Some == self@.contains_key(key_bytes(key@)),
            r matches Some(t) ==> exists|k: &String, v: &V|
                key_bytes(k@) == key_bytes(key@) && *v == self@[key_bytes(key@)] && #[trigger] reader.ensures((k, v), t),
    {
        let bytes = key.as_bytes();
        let hash = hash_bytes(bytes);
        match self.table.get(0, hash, bytes) {
            Some(p) => {
                let t = reader(&p.key, &p.val);
                let r = Some(t);
                proof {
                    assert(self@[key_bytes(key@)] == p.val);
                    assert(key_bytes(p.key@) == key_bytes(key@));
                    let ghost tt = r->Some_0;
                    assert(reader.ensures((&p.key, &p.val), tt));
                }
                r
            },
            None => None,
        }
    }

    /// Takes out the pair stored under `key`, if any.
    pub fn remove(&mut self, key: &str) -> (r: Option<Removed<V>>)
        requires
            old(self).wf(),
        ensures
            final(self).wf(),
            final(self)@ == old(self)@.remove(key_bytes(key@)),
            match r {
                Some(d) => old(self)@.contains_key(key_bytes(key@)) && key_bytes(d@.0) == key_bytes(key@)
                    && d@.1 == old(self)@[key_bytes(key@)],
                None => !old(self)@.contains_key(key_bytes(key@)),
            },
    {
        let ghost o = self.table;
        let bytes = key.as_bytes();
        let hash = hash_bytes(bytes);
        let r = self.table.remove(0, hash, bytes);
        proof {
            let kb = key_bytes(key@);
            assert(self@ =~= old(self)@.remove(kb)) by {
                assert forall|kk: Seq<u8>| #[trigger] self@.contains_key(kk) == old(self)@.remove(kb).contains_key(kk) by {
                    assert(table_get(self.table, 0, key_hash(kk), kk) == if key_hash(kk) == hash && kk == kb {
                        None
                    } else {
                        table_get(o, 0, key_hash(kk), kk)
                    });
                }
            }
        }
        match r {
            Some(p) => Some(Removed { key: p.key, val: p.val }),
            None => None,
        }
    }
}

impl<V> Default for TrieMap<V> {
    fn default() -> (r: Self)
        ensures
            r.wf(),
            r@ == Map::<Seq<u8>, V>::empty(),
    {
        TrieMap::new()
    }
}

/// A key is held by one pair at most: after storing it twice, a single
/// removal leaves it absent, with no older pair left behind.
pub proof fn lemma_no_second_pair<V>(
    m0: Map<Seq<u8>, V>,
    m1: Map<Seq<u8>, V>,
    m2: Map<Seq<u8>, V>,
    m3: Map<Seq<u8>, V>,
    k: Seq<u8>,
    v1: V,
    v2: V,
)
    requires
        m1 == m0.insert(k, v1),
        m2 == m1.insert(k, v2),
        m3 == m2.remove(k),
    ensures
        !m3.contains_key(k),
        m3 == m0.remove(k),
{
    assert(m3 =~= m0.remove(k));
}

/// Reinsertion undoes removal: after `insert(k, v)`, a removal that hands
/// back `v`, and the reinsertion of what it handed back, `k` maps to `v`.
pub proof fn lemma_reinsert_round_trip<V>(
    m0: Map<Seq<u8>, V>,
    m1: Map<Seq<u8>, V>,
    m2: Map<Seq<u8>, V>,
    m3: Map<Seq<u8>, V>,
    k: Seq<u8>,
    v: V,
    removed: V,
)
    requires
        m1 == m0.insert(k, v),
        m1.contains_key(k) && removed == m1[k],
        m2 == m1.remove(k),
        m3 == m2.insert(k, removed),
    ensures
        m3.contains_key(k),
        m3[k] == v,
        m3 == m1,
{
    assert(m3 =~= m1);
}

/// Displacement: storing `v2` under a key that holds `v1` hands back `v1`
/// and leaves `v2` in its place.
pub proof fn lemma_displacement<V>(
    m0: Map<Seq<u8>, V>,
    m1: Map<Seq<u8>, V>,
    m2: Map<Seq<u8>, V>,
    k: Seq<u8>,
    v1: V,
    v2: V,
)
    requires
        !m0.contains_key(k),
        m1 == m0.insert(k, v1),
        m2 == m1.insert(k, v2),
    ensures
        m1.contains_key(k) && m1[k] == v1,
        m2.contains_key(k) && m2[k] == v2,
{
}

} // verus!
