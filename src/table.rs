//! The hash trie: tables of `1 << BITS` slots, each empty, a leaf bucket or
//! a branch to a deeper table. A table at depth `d` is indexed by bits
//! `[d * BITS, (d + 1) * BITS)` of the hash.
use crate::bucket::{bucket_wf, lemma_list_get_at, list_get, pair_key, Bucket, Pair};
use vstd::prelude::*;

verus! {

/// Width in bits of the slice of the hash that indexes one table.
pub const BITS: u64 = 8;

/// Number of slots in a table.
pub const SLOTS: usize = 256;

/// Number of levels after which the whole 64-bit hash has been used.
pub const MAX_DEPTH: u64 = 8;

/// The slot of hash `h` in a table at depth `d`.
pub open spec fn slot(h: u64, d: u64) -> int {
    ((h >> ((8 * d) as u64)) & 255u64) as int
}

/// `a` and `b` pick the same slot at every depth below `d`.
pub open spec fn agree(a: u64, b: u64, d: u64) -> bool {
    forall|j: u64| j < d ==> #[trigger] slot(a, j) == slot(b, j)
}

proof fn lemma_bytes_determine(a: u64, b: u64)
    requires
        (a & 255u64) == (b & 255u64),
        ((a >> 8u64) & 255u64) == ((b >> 8u64) & 255u64),
        ((a >> 16u64) & 255u64) == ((b >> 16u64) & 255u64),
        ((a >> 24u64) & 255u64) == ((b >> 24u64) & 255u64),
        ((a >> 32u64) & 255u64) == ((b >> 32u64) & 255u64),
        ((a >> 40u64) & 255u64) == ((b >> 40u64) & 255u64),
        ((a >> 48u64) & 255u64) == ((b >> 48u64) & 255u64),
        ((a >> 56u64) & 255u64) == ((b >> 56u64) & 255u64),
    ensures
        a == b,
{
    assert(a == b) by (bit_vector)
        requires
            (a & 255u64) == (b & 255u64),
            ((a >> 8u64) & 255u64) == ((b >> 8u64) & 255u64),
            ((a >> 16u64) & 255u64) == ((b >> 16u64) & 255u64),
            ((a >> 24u64) & 255u64) == ((b >> 24u64) & 255u64),
            ((a >> 32u64) & 255u64) == ((b >> 32u64) & 255u64),
            ((a >> 40u64) & 255u64) == ((b >> 40u64) & 255u64),
            ((a >> 48u64) & 255u64) == ((b >> 48u64) & 255u64),
            ((a >> 56u64) & 255u64) == ((b >> 56u64) & 255u64),
    ;
}

/// Two hashes that pick the same slot at every depth are equal.
pub proof fn lemma_slots_determine_hash(a: u64, b: u64)
    requires
        agree(a, b, MAX_DEPTH),
    ensures
        a == b,
{
    assert(slot(a, 0) == slot(b, 0));
    assert(slot(a, 1) == slot(b, 1));
    assert(slot(a, 2) == slot(b, 2));
    assert(slot(a, 3) == slot(b, 3));
    assert(slot(a, 4) == slot(b, 4));
    assert(slot(a, 5) == slot(b, 5));
    assert(slot(a, 6) == slot(b, 6));
    assert(slot(a, 7) == slot(b, 7));
    assert((a >> 0u64) == a) by (bit_vector);
    assert((b >> 0u64) == b) by (bit_vector);
    lemma_bytes_determine(a, b);
}

/// Every slot is in range.
pub proof fn lemma_slot_range()
    ensures
        forall|h: u64, d: u64| 0 <= #[trigger] slot(h, d) < SLOTS,
{
    assert forall|h: u64, d: u64| 0 <= #[trigger] slot(h, d) < SLOTS by {
        let x = h >> ((8 * d) as u64);
        assert(x & 255u64 <= 255u64) by (bit_vector);
    }
}

/// The slot of `hash` at depth `depth`, computed.
fn slot_of(hash: u64, depth: u64) -> (r: usize)
    requires
        depth < MAX_DEPTH,
    ensures
        r as int == slot(hash, depth),
        r < SLOTS,
{
    let x = (hash >> (8 * depth)) & 255;
    assert(x <= 255) by (bit_vector)
        requires
            x == (hash >> (8 * depth)) & 255,
    ;
    x as usize
}

/// A slot's content.
pub enum Node<V> {
    Leaf(Bucket<V>),
    Branch(Box<Table<V>>),
}

/// One level of the trie. `path` is a hash whose slots above this table
/// lead to it.
pub struct Table<V> {
    pub nodes: Vec<Option<Node<V>>>,
    pub path: Ghost<u64>,
}

/// A table at depth `d` has all its slots; each leaf's hash leads to the
/// leaf's slot; each branch leads to a well-formed table one level down.
pub open spec fn table_wf<V>(t: Table<V>, d: u64) -> bool
    decreases MAX_DEPTH - d,
{
    if d >= MAX_DEPTH {
        false
    } else {
        &&& t.nodes@.len() == SLOTS
        &&& forall|i: int|
            0 <= i < SLOTS ==> match #[trigger] t.nodes@[i] {
                None => true,
                Some(Node::Leaf(b)) => bucket_wf(b) && agree(b.hash, t.path@, d) && slot(b.hash, d) == i,
                Some(Node::Branch(sub)) => {
                    &&& d + 1 < MAX_DEPTH
                    &&& agree(sub.path@, t.path@, d)
                    &&& slot(sub.path@, d) == i
                    &&& table_wf(*sub, (d + 1) as u64)
                },
            }
    }
}

/// What the trie under `t` (at depth `d`) stores for hash `h` and key `k`:
/// the walk that a lookup makes.
pub open spec fn table_get<V>(t: Table<V>, d: u64, h: u64, k: Seq<u8>) -> Option<V>
    decreases MAX_DEPTH - d,
{
    if d >= MAX_DEPTH {
        None
    } else {
        match t.nodes@[slot(h, d)] {
            None => None,
            Some(Node::Leaf(b)) => if b.hash == h {
                list_get(b.list@, k)
            } else {
                None
            },
            Some(Node::Branch(sub)) => table_get(*sub, (d + 1) as u64, h, k),
        }
    }
}

/// The slot holds a leaf of hash `hash` whose bucket is `pair` alone.
pub open spec fn single_leaf<V>(n: Option<Node<V>>, hash: u64, pair: Pair<V>) -> bool {
    match n {
        Some(Node::Leaf(c)) => c.hash == hash && c.list@ == seq![pair],
        _ => false,
    }
}

/// The slot holds a leaf of another hash than `hash`, and the two hashes
/// part at the next depth.
pub open spec fn other_leaf_parting_next<V>(n: Option<Node<V>>, hash: u64, d: u64) -> bool {
    match n {
        Some(Node::Leaf(b)) => b.hash != hash && slot(b.hash, (d + 1) as u64) != slot(hash, (d + 1) as u64),
        _ => false,
    }
}

/// `n` is a branch to a table one level down that holds exactly two
/// leaves: the leaf `o` that stood in the slot before, and one that holds
/// `pair` alone under `hash`.
pub open spec fn split_into_two_leaves<V>(o: Option<Node<V>>, n: Option<Node<V>>, hash: u64, d: u64, pair: Pair<V>) -> bool {
    match (o, n) {
        (Some(Node::Leaf(b)), Some(Node::Branch(s))) => {
            let e = (d + 1) as u64;
            &&& s.nodes@.len() == SLOTS
            &&& s.nodes@[slot(b.hash, e)] == o
            &&& single_leaf(s.nodes@[slot(hash, e)], hash, pair)
            &&& forall|x: int|
                0 <= x < SLOTS && x != slot(b.hash, e) && x != slot(hash, e) ==> (#[trigger] s.nodes@[x]) is None
        },
        _ => false,
    }
}

/// The slot holds a leaf of hash `hash` whose only pair has key `k`.
pub open spec fn sole_pair_leaf<V>(n: Option<Node<V>>, hash: u64, k: Seq<u8>) -> bool {
    match n {
        Some(Node::Leaf(b)) => b.hash == hash && b.list@.len() == 1 && pair_key(b.list@[0]) == k,
        _ => false,
    }
}

/// Along the walk for `h` from `o` to `n`, branches stay branches, and a
/// leaf whose only pair had key `k` has left its slot empty.
pub open spec fn leaf_collapsed<V>(o: Table<V>, n: Table<V>, d: u64, h: u64, k: Seq<u8>) -> bool
    decreases MAX_DEPTH - d,
{
    if d >= MAX_DEPTH {
        true
    } else if sole_pair_leaf(o.nodes@[slot(h, d)], h, k) {
        n.nodes@[slot(h, d)] is None
    } else {
        match o.nodes@[slot(h, d)] {
            Some(Node::Branch(s)) => match n.nodes@[slot(h, d)] {
                Some(Node::Branch(s2)) => leaf_collapsed(*s, *s2, (d + 1) as u64, h, k),
                _ => false,
            },
            _ => true,
        }
    }
}

impl<V> Table<V> {
    /// A table with every slot empty.
    pub fn new(path: Ghost<u64>) -> (r: Self)
        ensures
            r.path == path,
            r.nodes@.len() == SLOTS,
            forall|i: int| 0 <= i < SLOTS ==> (#[trigger] r.nodes@[i]) is None,
    {
        let mut nodes: Vec<Option<Node<V>>> = Vec::with_capacity(SLOTS);
        let mut i: usize = 0;
        while i < SLOTS
            invariant
                i <= SLOTS,
                nodes@.len() == i,
                forall|j: int| 0 <= j < i ==> (#[trigger] nodes@[j]) is None,
            decreases SLOTS - i,
        {
            nodes.push(None);
            i = i + 1;
        }
        Table { nodes, path }
    }

    /// An empty root table.
    pub fn empty() -> (r: Self)
        ensures
            table_wf(r, 0),
            r.path@ == 0,
            forall|h: u64, k: Seq<u8>| #[trigger] table_get(r, 0, h, k) is None,
    {
        proof {
            lemma_slot_range();
        }
        Table::new(Ghost(0u64))
    }

    /// The pair stored under `hash` and `key`, if any.
    pub fn get(&self, depth: u64, hash: u64, key: &[u8]) -> (r: Option<&Pair<V>>)
        requires
            table_wf(*self, depth),
        ensures
            match r {
                Some(p) => pair_key(*p) == key@ && table_get(*self, depth, hash, key@) == Some(p.val),
                None => table_get(*self, depth, hash, key@) is None,
            },
        decreases MAX_DEPTH - depth,
    {
        let i = slot_of(hash, depth);
        match &self.nodes[i] {
            None => None,
            Some(Node::Leaf(b)) => {
                if b.hash == hash {
                    b.get(key)
                } else {
                    None
                }
            },
            Some(Node::Branch(sub)) => sub.get(depth + 1, hash, key),
        }
    }

    /// Stores `pair` under `hash`. A leaf of another hash in the way is moved
    /// one level down into a new table, and the walk goes on there. A pair
    /// with an equal key is displaced and returned.
    pub fn insert(&mut self, depth: u64, hash: u64, pair: Pair<V>) -> (r: Option<Pair<V>>)
        requires
            table_wf(*old(self), depth),
            agree(hash, old(self).path@, depth),
        ensures
            table_wf(*final(self), depth),
            final(self).path == old(self).path,
            forall|x: int|
                0 <= x < SLOTS && x != slot(hash, depth) ==> #[trigger] final(self).nodes@[x] == old(self).nodes@[x],
            old(self).nodes@[slot(hash, depth)] is None ==> single_leaf(final(self).nodes@[slot(hash, depth)], hash, pair),
            other_leaf_parting_next(old(self).nodes@[slot(hash, depth)], hash, depth) ==> split_into_two_leaves(
                old(self).nodes@[slot(hash, depth)],
                final(self).nodes@[slot(hash, depth)],
                hash,
                depth,
                pair,
            ),
            forall|h: u64, k: Seq<u8>| #[trigger] table_get(*final(self), depth, h, k) == if h == hash && k == pair_key(pair) {
                Some(pair.val)
            } else {
                table_get(*old(self), depth, h, k)
            },
            match r {
                Some(p) => pair_key(p) == pair_key(pair) && table_get(*old(self), depth, hash, pair_key(pair)) == Some(p.val),
                None => table_get(*old(self), depth, hash, pair_key(pair)) is None,
            },
        decreases MAX_DEPTH - depth,
    {
        let ghost o = *self;
        let ghost pv = pair;
        proof {
            lemma_slot_range();
        }
        let i = slot_of(hash, depth);
        let mut node: Option<Node<V>> = None;
        std::mem::swap(&mut self.nodes[i], &mut node);
        assert(node == o.nodes@[i as int]);
        match node {
            None => {
                let b = Bucket::single(hash, pair);
                self.nodes[i] = Some(Node::Leaf(b));
                proof {
                    assert(self.nodes@ == o.nodes@.update(i as int, Some(Node::Leaf(b))));
                    assert(forall|h: u64, k: Seq<u8>| slot(h, depth) != i ==> #[trigger] table_get(*self, depth, h, k) == table_get(o, depth, h, k));
                }
                None
            },
            Some(Node::Leaf(mut b)) => {
                if b.hash == hash {
                    let r = b.insert(pair);
                    self.nodes[i] = Some(Node::Leaf(b));
                    proof {
                        assert(self.nodes@ == o.nodes@.update(i as int, Some(Node::Leaf(b))));
                    }
                    r
                } else {
                    let ghost bh = b.hash;
                    let next = depth + 1;
                    proof {
                        assert(agree(bh, hash, next)) by {
                            assert forall|j: u64| j < next implies #[trigger] slot(bh, j) == slot(hash, j) by {
                                if j < depth {
                                    assert(slot(bh, j) == slot(o.path@, j));
                                    assert(slot(hash, j) == slot(o.path@, j));
                                }
                            }
                        }
                        if next >= MAX_DEPTH {
                            assert(agree(bh, hash, MAX_DEPTH));
                            lemma_slots_determine_hash(bh, hash);
                        }
                    }
                    let mut sub = Table::new(Ghost(hash));
                    let j = slot_of(b.hash, next);
                    let ghost bv = b;
                    sub.nodes[j] = Some(Node::Leaf(b));
                    proof {
                        assert(table_wf(sub, next)) by {
                            assert forall|x: int| 0 <= x < SLOTS implies match #[trigger] sub.nodes@[x] {
                                None => true,
                                Some(Node::Leaf(b)) => bucket_wf(b) && agree(b.hash, sub.path@, next) && slot(b.hash, next) == x,
                                Some(Node::Branch(s)) => {
                                    &&& next + 1 < MAX_DEPTH
                                    &&& agree(s.path@, sub.path@, next)
                                    &&& slot(s.path@, next) == x
                                    &&& table_wf(*s, (next + 1) as u64)
                                },
                            } by {
                                if x == j {
                                    assert(sub.nodes@[x] == Some(Node::Leaf(bv)));
                                }
                            }
                        }
                        assert forall|h: u64, k: Seq<u8>| #[trigger] table_get(sub, next, h, k) == if bh == h {
                            list_get(bv.list@, k)
                        } else {
                            None
                        } by {
                            if slot(h, next) != j {
                                assert(sub.nodes@[slot(h, next)] is None);
                            }
                        }
                    }
                    assert(table_get(sub, next, hash, pair_key(pv)) is None);
                    let r = sub.insert(next, hash, pair);
                    let ghost sv = sub;
                    self.nodes[i] = Some(Node::Branch(Box::new(sub)));
                    proof {
                        assert(self.nodes@ == o.nodes@.update(i as int, Some(Node::Branch(Box::new(sv)))));
                        assert forall|h: u64, k: Seq<u8>| #[trigger] table_get(*self, depth, h, k) == if h == hash && k == pair_key(pv) {
                            Some(pv.val)
                        } else {
                            table_get(o, depth, h, k)
                        } by {
                            if slot(h, depth) == i {
                                assert(table_get(*self, depth, h, k) == table_get(sv, next, h, k));
                            }
                        }
                    }
                    r
                }
            },
            Some(Node::Branch(sub)) => {
                let mut t = *sub;
                let next = depth + 1;
                proof {
                    assert forall|j: u64| j < next implies #[trigger] slot(hash, j) == slot(t.path@, j) by {
                        if j < depth {
                            assert(slot(hash, j) == slot(o.path@, j));
                            assert(slot(t.path@, j) == slot(o.path@, j));
                        }
                    }
                }
                let ghost tv = t;
                let r = t.insert(next, hash, pair);
                let ghost tn = t;
                self.nodes[i] = Some(Node::Branch(Box::new(t)));
                proof {
                    assert(self.nodes@ == o.nodes@.update(i as int, Some(Node::Branch(Box::new(tn)))));
                    assert forall|h: u64, k: Seq<u8>| #[trigger] table_get(*self, depth, h, k) == if h == hash && k == pair_key(pv) {
                        Some(pv.val)
                    } else {
                        table_get(o, depth, h, k)
                    } by {
                        if slot(h, depth) == i {
                            assert(table_get(*self, depth, h, k) == table_get(tn, next, h, k));
                            assert(table_get(o, depth, h, k) == table_get(tv, next, h, k));
                        }
                    }
                }
                r
            },
        }
    }

    /// Takes out the pair stored under `hash` and `key`, if any. A leaf
    /// left without pairs is unlinked from its slot.
    pub fn remove(&mut self, depth: u64, hash: u64, key: &[u8]) -> (r: Option<Pair<V>>)
        requires
            table_wf(*old(self), depth),
        ensures
            table_wf(*final(self), depth),
            final(self).path == old(self).path,
            forall|x: int|
                0 <= x < SLOTS && x != slot(hash, depth) ==> #[trigger] final(self).nodes@[x] == old(self).nodes@[x],
            leaf_collapsed(*old(self), *final(self), depth, hash, key@),
            forall|h: u64, k: Seq<u8>| #[trigger] table_get(*final(self), depth, h, k) == if h == hash && k == key@ {
                None
            } else {
                table_get(*old(self), depth, h, k)
            },
            match r {
                Some(p) => pair_key(p) == key@ && table_get(*old(self), depth, hash, key@) == Some(p.val),
                None => table_get(*old(self), depth, hash, key@) is None,
            },
        decreases MAX_DEPTH - depth,
    {
        let ghost o = *self;
        proof {
            lemma_slot_range();
        }
        let i = slot_of(hash, depth);
        let mut node: Option<Node<V>> = None;
        std::mem::swap(&mut self.nodes[i], &mut node);
        assert(node == o.nodes@[i as int]);
        match node {
            None => {
                proof {
                    assert(self.nodes@ =~= o.nodes@);
                }
                None
            },
            Some(Node::Leaf(mut b)) => {
                if b.hash == hash {
                    let r = b.remove(key);
                    if b.list.len() == 0 {
                        proof {
                            assert(self.nodes@ == o.nodes@.update(i as int, None));
                            assert forall|h: u64, k: Seq<u8>| #[trigger] table_get(*self, depth, h, k) == if h == hash && k == key@ {
                                None
                            } else {
                                table_get(o, depth, h, k)
                            } by {
                                if slot(h, depth) == i && h == hash {
                                    assert(list_get(b.list@, k) is None);
                                }
                            }
                        }
                    } else {
                        self.nodes[i] = Some(Node::Leaf(b));
                        proof {
                            assert(self.nodes@ == o.nodes@.update(i as int, Some(Node::Leaf(b))));
                        }
                    }
                    r
                } else {
                    self.nodes[i] = Some(Node::Leaf(b));
                    proof {
                        assert(self.nodes@ =~= o.nodes@);
                    }
                    None
                }
            },
            Some(Node::Branch(sub)) => {
                let mut t = *sub;
                let ghost tv = t;
                let r = t.remove(depth + 1, hash, key);
                let ghost tn = t;
                self.nodes[i] = Some(Node::Branch(Box::new(t)));
                proof {
                    assert(self.nodes@ == o.nodes@.update(i as int, Some(Node::Branch(Box::new(tn)))));
                    assert forall|h: u64, k: Seq<u8>| #[trigger] table_get(*self, depth, h, k) == if h == hash && k == key@ {
                        None
                    } else {
                        table_get(o, depth, h, k)
                    } by {
                        if slot(h, depth) == i {
                            assert(table_get(*self, depth, h, k) == table_get(tn, (depth + 1) as u64, h, k));
                            assert(table_get(o, depth, h, k) == table_get(tv, (depth + 1) as u64, h, k));
                        }
                    }
                }
                r
            },
        }
    }
}

/// Hashes that share their low slice but differ elsewhere do not shadow
/// each other: after both are stored, each is found under its own hash.
pub proof fn lemma_mismatched_hashes_isolated<V>(
    t0: Table<V>,
    t1: Table<V>,
    t2: Table<V>,
    h1: u64,
    k1: Seq<u8>,
    v1: V,
    h2: u64,
    k2: Seq<u8>,
    v2: V,
)
    requires
        h1 != h2,
        slot(h1, 0) == slot(h2, 0),
        forall|h: u64, k: Seq<u8>| #[trigger] table_get(t1, 0, h, k) == if h == h1 && k == k1 {
            Some(v1)
        } else {
            table_get(t0, 0, h, k)
        },
        forall|h: u64, k: Seq<u8>| #[trigger] table_get(t2, 0, h, k) == if h == h2 && k == k2 {
            Some(v2)
        } else {
            table_get(t1, 0, h, k)
        },
    ensures
        table_get(t2, 0, h1, k1) == Some(v1),
        table_get(t2, 0, h2, k2) == Some(v2),
{
    assert(table_get(t1, 0, h1, k1) == Some(v1));
}

/// Within a table, two leaves of one hash stand in one slot: a hash has a
/// single bucket at each level, and in that bucket a key has a single place.
pub proof fn lemma_one_leaf_per_hash<V>(t: Table<V>, d: u64, i: int, j: int)
    requires
        table_wf(t, d),
        0 <= i < SLOTS,
        0 <= j < SLOTS,
        t.nodes@[i] matches Some(Node::Leaf(a)) && t.nodes@[j] matches Some(Node::Leaf(b)) && a.hash == b.hash,
    ensures
        i == j,
{
}

} // verus!
