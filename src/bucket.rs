//! A bucket: the pairs that share one full hash, kept in strictly
//! increasing order of their keys.
use crate::keys::{compare_keys, key_bytes, key_lt, lemma_key_lt_irreflexive, lemma_key_lt_transitive};
use vstd::prelude::*;

verus! {

/// One key and its value.
pub struct Pair<V> {
    pub key: String,
    pub val: V,
}

/// The bytes of a pair's key.
pub open spec fn pair_key<V>(p: Pair<V>) -> Seq<u8> {
    key_bytes(p.key@)
}

/// Keys strictly increase along the list.
pub open spec fn sorted<V>(s: Seq<Pair<V>>) -> bool {
    forall|i: int, j: int| 0 <= i < j < s.len() ==> key_lt(pair_key(s[i]), pair_key(s[j]))
}

/// The value stored under key `k` in a list, if any.
pub open spec fn list_get<V>(s: Seq<Pair<V>>, k: Seq<u8>) -> Option<V> {
    if exists|i: int| 0 <= i < s.len() && pair_key(#[trigger] s[i]) == k {
        Some(s[choose|i: int| 0 <= i < s.len() && pair_key(#[trigger] s[i]) == k].val)
    } else {
        None
    }
}

/// In a sorted list, at most one pair carries a given key.
pub proof fn lemma_sorted_keys_unique<V>(s: Seq<Pair<V>>, i: int, j: int)
    requires
        sorted(s),
        0 <= i < s.len(),
        0 <= j < s.len(),
        pair_key(s[i]) == pair_key(s[j]),
    ensures
        i == j,
{
    lemma_key_lt_irreflexive(pair_key(s[i]));
}

/// The value found under a stored pair's key is that pair's value.
pub proof fn lemma_list_get_at<V>(s: Seq<Pair<V>>, i: int)
    requires
        sorted(s),
        0 <= i < s.len(),
    ensures
        list_get(s, pair_key(s[i])) == Some(s[i].val),
{
    let k = pair_key(s[i]);
    assert(0 <= i < s.len() && pair_key(s[i]) == k);
    let j = choose|j: int| 0 <= j < s.len() && pair_key(#[trigger] s[j]) == k;
    lemma_sorted_keys_unique(s, i, j);
}

/// A key that sorts after everything before `idx` and before what stands at
/// `idx` is nowhere in the list.
proof fn lemma_absent_between<V>(s: Seq<Pair<V>>, idx: int, k: Seq<u8>)
    requires
        sorted(s),
        0 <= idx <= s.len(),
        forall|j: int| 0 <= j < idx ==> key_lt(pair_key(#[trigger] s[j]), k),
        idx < s.len() ==> key_lt(k, pair_key(s[idx])),
    ensures
        forall|j: int| 0 <= j < s.len() ==> pair_key(#[trigger] s[j]) != k,
        list_get(s, k) is None,
{
    lemma_key_lt_irreflexive(k);
    assert forall|j: int| 0 <= j < s.len() implies pair_key(#[trigger] s[j]) != k by {
        if j < idx {
            assert(key_lt(pair_key(s[j]), k));
        } else if j == idx {
            assert(key_lt(k, pair_key(s[idx])));
        } else {
            assert(key_lt(pair_key(s[idx]), pair_key(s[j])));
            lemma_key_lt_transitive(k, pair_key(s[idx]), pair_key(s[j]));
        }
    }
}

/// Walks the list to the place of `key`: every pair before the returned
/// index has a smaller key; the flag says whether the pair at the index has
/// `key` itself.
fn find<V>(list: &Vec<Pair<V>>, key: &[u8]) -> (r: (bool, usize))
    requires
        sorted(list@),
    ensures
        r.1 <= list@.len(),
        forall|j: int| 0 <= j < r.1 ==> key_lt(pair_key(#[trigger] list@[j]), key@),
        r.0 == (r.1 < list@.len() && pair_key(list@[r.1 as int]) == key@),
        !r.0 && r.1 < list@.len() ==> key_lt(key@, pair_key(list@[r.1 as int])),
{
    let mut i: usize = 0;
    while i < list.len()
        invariant
            i <= list@.len(),
            forall|j: int| 0 <= j < i ==> key_lt(pair_key(#[trigger] list@[j]), key@),
        decreases list@.len() - i,
    {
        let c = compare_keys(list[i].key.as_str().as_bytes(), key);
        match c {
            std::cmp::Ordering::Less => {
                i = i + 1;
            },
            std::cmp::Ordering::Equal => {
                return (true, i);
            },
            std::cmp::Ordering::Greater => {
                return (false, i);
            },
        }
    }
    (false, i)
}

/// All the pairs whose keys share one full 64-bit hash.
pub struct Bucket<V> {
    pub hash: u64,
    pub list: Vec<Pair<V>>,
}

/// A bucket in a table holds at least one pair, in key order.
pub open spec fn bucket_wf<V>(b: Bucket<V>) -> bool {
    b.list@.len() > 0 && sorted(b.list@)
}

impl<V> Bucket<V> {
    /// A bucket that holds one pair.
    pub fn single(hash: u64, pair: Pair<V>) -> (r: Self)
        ensures
            r.hash == hash,
            r.list@ == seq![pair],
            bucket_wf(r),
            forall|k: Seq<u8>| #[trigger] list_get(r.list@, k) == if k == pair_key(pair) {
                Some(pair.val)
            } else {
                None
            },
    {
        let ghost p = pair;
        let mut list: Vec<Pair<V>> = Vec::new();
        list.push(pair);
        proof {
            assert(list@[0] == p);
            assert(list@ =~= seq![p]);
            lemma_list_get_at(list@, 0);
        }
        Bucket { hash, list }
    }

    /// The pair stored under `key`, if any.
    pub fn get(&self, key: &[u8]) -> (r: Option<&Pair<V>>)
        requires
            sorted(self.list@),
        ensures
            match r {
                Some(p) => pair_key(*p) == key@ && list_get(self.list@, key@) == Some(p.val),
                None => list_get(self.list@, key@) is None,
            },
    {
        let (found, idx) = find(&self.list, key);
        if found {
            proof {
                lemma_list_get_at(self.list@, idx as int);
            }
            Some(&self.list[idx])
        } else {
            proof {
                lemma_absent_between(self.list@, idx as int, key@);
            }
            None
        }
    }

    /// Puts `pair` in its place; a pair with an equal key is displaced and
    /// returned.
    pub fn insert(&mut self, pair: Pair<V>) -> (r: Option<Pair<V>>)
        requires
            sorted(old(self).list@),
        ensures
            bucket_wf(*final(self)),
            final(self).hash == old(self).hash,
            forall|k: Seq<u8>| #[trigger] list_get(final(self).list@, k) == if k == pair_key(pair) {
                Some(pair.val)
            } else {
                list_get(old(self).list@, k)
            },
            match r {
                Some(p) => pair_key(p) == pair_key(pair) && list_get(old(self).list@, pair_key(pair)) == Some(p.val),
                None => list_get(old(self).list@, pair_key(pair)) is None,
            },
    {
        let ghost s = self.list@;
        let ghost k = pair_key(pair);
        let ghost pv = pair;
        let (found, idx) = find(&self.list, pair.key.as_str().as_bytes());
        if found {
            let mut p = pair;
            std::mem::swap(&mut self.list[idx], &mut p);
            proof {
                let t = self.list@;
                assert(t == s.update(idx as int, pv));
                assert(sorted(t)) by {
                    assert forall|i: int, j: int| 0 <= i < j < t.len() implies key_lt(
                        pair_key(t[i]),
                        pair_key(t[j]),
                    ) by {
                        assert(pair_key(t[i]) == pair_key(s[i]));
                        assert(pair_key(t[j]) == pair_key(s[j]));
                    }
                }
                lemma_list_get_at(s, idx as int);
                lemma_list_get_at(t, idx as int);
                assert forall|kk: Seq<u8>| #[trigger] list_get(t, kk) == if kk == k {
                    Some(pv.val)
                } else {
                    list_get(s, kk)
                } by {
                    if kk != k {
                        if exists|i: int| 0 <= i < s.len() && pair_key(#[trigger] s[i]) == kk {
                            let i = choose|i: int| 0 <= i < s.len() && pair_key(#[trigger] s[i]) == kk;
                            lemma_list_get_at(s, i);
                            lemma_list_get_at(t, i);
                        } else {
                            assert forall|i: int| 0 <= i < t.len() implies pair_key(#[trigger] t[i]) != kk by {
                                if i != idx {
                                    assert(t[i] == s[i]);
                                }
                            }
                        }
                    }
                }
            }
            Some(p)
        } else {
            self.list.insert(idx, pair);
            proof {
                let t = self.list@;
                assert(t == s.insert(idx as int, pv));
                lemma_absent_between(s, idx as int, k);
                assert(sorted(t)) by {
                    assert forall|i: int, j: int| 0 <= i < j < t.len() implies key_lt(
                        pair_key(t[i]),
                        pair_key(t[j]),
                    ) by {
                        if j < idx {
                        } else if j == idx {
                        } else if i < idx {
                            lemma_key_lt_transitive(pair_key(s[i]), k, pair_key(s[idx as int]));
                            if j - 1 > idx {
                                lemma_key_lt_transitive(pair_key(s[i]), pair_key(s[idx as int]), pair_key(s[j - 1]));
                            }
                        } else if i == idx {
                            if j - 1 > idx {
                                lemma_key_lt_transitive(k, pair_key(s[idx as int]), pair_key(s[j - 1]));
                            }
                        } else {
                            assert(t[i] == s[i - 1]);
                            assert(t[j] == s[j - 1]);
                        }
                    }
                }
                lemma_list_get_at(t, idx as int);
                assert forall|kk: Seq<u8>| #[trigger] list_get(t, kk) == if kk == k {
                    Some(pv.val)
                } else {
                    list_get(s, kk)
                } by {
                    if kk != k {
                        if exists|i: int| 0 <= i < s.len() && pair_key(#[trigger] s[i]) == kk {
                            let i = choose|i: int| 0 <= i < s.len() && pair_key(#[trigger] s[i]) == kk;
                            lemma_list_get_at(s, i);
                            if i < idx {
                                assert(t[i] == s[i]);
                                lemma_list_get_at(t, i);
                            } else {
                                assert(t[i + 1] == s[i]);
                                lemma_list_get_at(t, i + 1);
                            }
                        } else {
                            assert forall|i: int| 0 <= i < t.len() implies pair_key(#[trigger] t[i]) != kk by {
                                if i < idx {
                                    assert(t[i] == s[i]);
                                } else if i > idx {
                                    assert(t[i] == s[i - 1]);
                                }
                            }
                        }
                    }
                }
            }
            None
        }
    }

    /// Takes out the pair stored under `key`, if any.
    pub fn remove(&mut self, key: &[u8]) -> (r: Option<Pair<V>>)
        requires
            sorted(old(self).list@),
        ensures
            sorted(final(self).list@),
            final(self).hash == old(self).hash,
            r is Some ==> final(self).list@.len() + 1 == old(self).list@.len(),
            forall|k: Seq<u8>| #[trigger] list_get(final(self).list@, k) == if k == key@ {
                None
            } else {
                list_get(old(self).list@, k)
            },
            match r {
                Some(p) => pair_key(p) == key@ && list_get(old(self).list@, key@) == Some(p.val),
                None => list_get(old(self).list@, key@) is None,
            },
    {
        let ghost s = self.list@;
        let (found, idx) = find(&self.list, key);
        if found {
            let p = self.list.remove(idx);
            proof {
                let t = self.list@;
                assert(t == s.remove(idx as int));
                assert(sorted(t)) by {
                    assert forall|i: int, j: int| 0 <= i < j < t.len() implies key_lt(
                        pair_key(t[i]),
                        pair_key(t[j]),
                    ) by {
                        if i < idx && j >= idx {
                            assert(t[j] == s[j + 1]);
                        } else if i >= idx {
                            assert(t[i] == s[i + 1]);
                            assert(t[j] == s[j + 1]);
                        }
                    }
                }
                lemma_list_get_at(s, idx as int);
                assert forall|kk: Seq<u8>| #[trigger] list_get(t, kk) == if kk == key@ {
                    None
                } else {
                    list_get(s, kk)
                } by {
                    if kk == key@ {
                        assert forall|i: int| 0 <= i < t.len() implies pair_key(#[trigger] t[i]) != kk by {
                            if i < idx {
                                assert(t[i] == s[i]);
                                if pair_key(s[i]) == kk {
                                    lemma_sorted_keys_unique(s, i, idx as int);
                                }
                            } else {
                                assert(t[i] == s[i + 1]);
                                if pair_key(s[i + 1]) == kk {
                                    lemma_sorted_keys_unique(s, i + 1, idx as int);
                                }
                            }
                        }
                    } else if exists|i: int| 0 <= i < s.len() && pair_key(#[trigger] s[i]) == kk {
                        let i = choose|i: int| 0 <= i < s.len() && pair_key(#[trigger] s[i]) == kk;
                        lemma_list_get_at(s, i);
                        if i < idx {
                            assert(t[i] == s[i]);
                            lemma_list_get_at(t, i);
                        } else {
                            assert(t[i - 1] == s[i]);
                            lemma_list_get_at(t, i - 1);
                        }
                    } else {
                        assert forall|i: int| 0 <= i < t.len() implies pair_key(#[trigger] t[i]) != kk by {
                            if i < idx {
                                assert(t[i] == s[i]);
                            } else {
                                assert(t[i] == s[i + 1]);
                            }
                        }
                    }
                }
            }
            Some(p)
        } else {
            proof {
                lemma_absent_between(s, idx as int, key@);
            }
            None
        }
    }
}

} // verus!
