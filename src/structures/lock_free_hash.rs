//! A hash map with a fixed array of buckets. Each bucket is a short chain of
//! nodes guarded by its own MCS lock; every operation on a key locks the
//! key's bucket, works on the chain, and unlocks. Inserting a present key
//! replaces its value in place, so a chain never holds a key twice.
use vstd::prelude::*;
use vstd::string::StrSliceExecFns;
use crate::structures::mcs_lock::{MCSLock, MCSNode, OperationSource};
use std::collections::hash_map::RandomState;
use std::hash::BuildHasher;

verus! {

/// Number of buckets; the map never resizes.
pub const NUM_BUCKETS: usize = 256;

/// The bucket of a key whose digest is `digest`, in a map whose hashing is
/// seeded with `seed`: the seeded digest, with its high bits folded into its
/// low ones, modulo the number of buckets.
pub open spec fn bucket_of(seed: u64, digest: u64) -> int {
    let x = digest ^ seed;
    let x = x ^ (x >> 32u64);
    let x = x ^ (x >> 16u64);
    let x = x ^ (x >> 8u64);
    (x % (NUM_BUCKETS as u64)) as int
}

/// A key of the map. Keys are told apart, and hashed, by their view.
pub trait MapKey: View + Sized {
    /// The digest of a key, from its view alone.
    spec fn digest(k: Self::V) -> u64;

    fn key_digest(&self) -> (r: u64)
        ensures
            r == Self::digest(self@),
    ;

    fn same_key(&self, other: &Self) -> (r: bool)
        ensures
            r == (self@ == other@),
    ;
}

impl MapKey for u64 {
    /// An integer is its own digest.
    open spec fn digest(k: u64) -> u64 {
        k
    }

    fn key_digest(&self) -> (r: u64) {
        *self
    }

    fn same_key(&self, other: &Self) -> (r: bool) {
        *self == *other
    }
}

/// The digest of a string: each character, in order, is mixed into a
/// rotating accumulator.
pub open spec fn chars_digest(s: Seq<char>) -> u64
    decreases s.len(),
{
    if s.len() == 0 {
        0
    } else {
        let h = chars_digest(s.drop_last());
        (h << 5u64) ^ (h >> 59u64) ^ (s.last() as u32 as u64)
    }
}

impl MapKey for String {
    open spec fn digest(k: Seq<char>) -> u64 {
        chars_digest(k)
    }

    fn key_digest(&self) -> (r: u64) {
        let s = self.as_str();
        let n = s.unicode_len();
        let mut h: u64 = 0;
        let mut i: usize = 0;
        while i < n
            invariant
                n == s@.len(),
                s@ == self@,
                i <= n,
                h == chars_digest(s@.take(i as int)),
            decreases n - i,
        {
            let c = s.get_char(i);
            proof {
                assert(s@.take(i as int + 1).drop_last() =~= s@.take(i as int));
            }
            h = (h << 5u64) ^ (h >> 59u64) ^ (c as u32 as u64);
            i = i + 1;
        }
        proof {
            assert(s@.take(n as int) =~= s@);
        }
        h
    }

    fn same_key(&self, other: &Self) -> (r: bool) {
        *self == *other
    }
}

struct HashNode<K, V> {
    key: K,
    value: V,
    next: Option<Box<HashNode<K, V>>>,
}

impl<K, V> HashNode<K, V> {
    fn new(key: K, value: V, next: Option<Box<HashNode<K, V>>>) -> (r: Box<Self>)
        ensures
            r.key == key,
            r.value == value,
            r.next == next,
    {
        Box::new(HashNode { key, value, next })
    }
}

/// The value of the first node of the chain whose key is `key`.
spec fn lookup<K: View, V>(link: Option<Box<HashNode<K, V>>>, key: K::V) -> Option<V>
    decreases link,
{
    match link {
        None => None,
        Some(n) => if n.key@ == key {
            Some(n.value)
        } else {
            lookup(n.next, key)
        },
    }
}

/// No key stands twice in the chain.
spec fn unique<K: View, V>(link: Option<Box<HashNode<K, V>>>) -> bool
    decreases link,
{
    match link {
        None => true,
        Some(n) => lookup(n.next, n.key@) is None && unique(n.next),
    }
}

/// Every key of the chain belongs in bucket `b`.
spec fn in_bucket<K: MapKey, V>(link: Option<Box<HashNode<K, V>>>, seed: u64, b: int) -> bool
    decreases link,
{
    match link {
        None => true,
        Some(n) => bucket_of(seed, K::digest(n.key@)) == b && in_bucket(n.next, seed, b),
    }
}

proof fn lemma_unfold<K: MapKey, V>(n: Box<HashNode<K, V>>)
    ensures
        forall|k: K::V|
            #[trigger] lookup(Some(n), k) == if n.key@ == k {
                Some(n.value)
            } else {
                lookup(n.next, k)
            },
        forall|seed: u64, b: int|
            #[trigger] in_bucket(Some(n), seed, b) == (bucket_of(seed, K::digest(n.key@)) == b && in_bucket(
                n.next,
                seed,
                b,
            )),
{
}

/// Replaces the value of `key` in the chain and returns `None`; when the key
/// is absent, leaves the chain as it is and hands `value` back.
fn replace_in<K: MapKey, V>(link: &mut Option<Box<HashNode<K, V>>>, key: &K, value: V) -> (r: Option<V>)
    ensures
        lookup(*old(link), key@) is None ==> r == Some(value) && *final(link) == *old(link),
        lookup(*old(link), key@) is Some ==> r is None,
        forall|k: K::V|
            #[trigger] lookup(*final(link), k) == if k == key@ && lookup(*old(link), key@) is Some {
                Some(value)
            } else {
                lookup(*old(link), k)
            },
        unique(*old(link)) ==> unique(*final(link)),
        forall|seed: u64, b: int|
            in_bucket(*old(link), seed, b) ==> #[trigger] in_bucket(*final(link), seed, b),
    decreases *old(link),
{
    match link {
        None => Some(value),
        Some(node) => {
            if node.key.same_key(key) {
                node.value = value;
                None
            } else {
                let ghost before = *node;
                let r = replace_in(&mut node.next, key, value);
                proof {
                    lemma_unfold(before);
                    lemma_unfold(*node);
                }
                r
            }
        },
    }
}

/// Unlinks the node of `key` from the chain and returns its value.
fn remove_in<K: MapKey, V>(link: &mut Option<Box<HashNode<K, V>>>, key: &K) -> (r: Option<V>)
    requires
        unique(*old(link)),
    ensures
        r == lookup(*old(link), key@),
        forall|k: K::V|
            #[trigger] lookup(*final(link), k) == if k == key@ {
                None
            } else {
                lookup(*old(link), k)
            },
        unique(*final(link)),
        forall|seed: u64, b: int|
            in_bucket(*old(link), seed, b) ==> #[trigger] in_bucket(*final(link), seed, b),
    decreases *old(link),
{
    match link {
        None => None,
        Some(node) => {
            if node.key.same_key(key) {
                let taken = link.take();
                match taken {
                    Some(b) => {
                        let n = *b;
                        *link = n.next;
                        Some(n.value)
                    },
                    None => None,
                }
            } else {
                let ghost before = *node;
                let r = remove_in(&mut node.next, key);
                proof {
                    lemma_unfold(before);
                    lemma_unfold(*node);
                }
                r
            }
        },
    }
}

/// The value of `key` in the chain, by reference.
fn find_in<'a, K: MapKey, V>(link: &'a Option<Box<HashNode<K, V>>>, key: &K) -> (r: Option<&'a V>)
    ensures
        lookup(*link, key@) is None ==> r is None,
        lookup(*link, key@) matches Some(v) ==> r is Some && *r->0 == v,
    decreases *link,
{
    match link {
        None => None,
        Some(node) => {
            if node.key.same_key(key) {
                Some(&node.value)
            } else {
                find_in(&node.next, key)
            }
        },
    }
}

/// Relies on std's `RandomState::new`: a hasher builder whose keys are drawn
/// at random.
#[verifier::external_body]
fn fresh_random_state() -> RandomState {
    RandomState::new()
}

/// Relies on std's `BuildHasher::hash_one` for `RandomState`: the hash of
/// zero under the builder's random keys. Nothing is promised of the value.
#[verifier::external_body]
fn hash_zero(state: &RandomState) -> u64 {
    state.hash_one(0u64)
}

pub struct LockFreeHashMap<K, V> {
    buckets: Vec<(MCSLock, Option<Box<HashNode<K, V>>>)>,
    seed: u64,
}

impl<K: MapKey, V> View for LockFreeHashMap<K, V> {
    type V = Map<K::V, V>;

    /// Each key maps to the value found for it in its bucket's chain.
    closed spec fn view(&self) -> Map<K::V, V> {
        Map::new(
            |k: K::V| lookup(self.buckets@[bucket_of(self.seed, K::digest(k))].1, k) is Some,
            |k: K::V| lookup(self.buckets@[bucket_of(self.seed, K::digest(k))].1, k)->0,
        )
    }
}

impl<K: MapKey, V> LockFreeHashMap<K, V> {
    /// Every bucket has a free, consistent lock and a chain of distinct keys
    /// that all hash to that bucket.
    pub closed spec fn wf(&self) -> bool {
        &&& self.buckets@.len() == NUM_BUCKETS
        &&& forall|b: int|
            0 <= b < NUM_BUCKETS ==> {
                &&& (#[trigger] self.buckets@[b]).0.wf()
                &&& self.buckets@[b].0@.len() == 0
                &&& unique(self.buckets@[b].1)
                &&& in_bucket(self.buckets@[b].1, self.seed, b)
            }
    }

    /// The seed that hashing in this map is keyed with.
    pub closed spec fn spec_seed(&self) -> u64 {
        self.seed
    }

    /// An empty map whose hashing is keyed with a fresh random seed.
    pub fn new() -> (r: Self)
        ensures
            r.wf(),
            r@ == Map::<K::V, V>::empty(),
    {
        let state = fresh_random_state();
        Self::with_hasher(hash_zero(&state))
    }

    /// An empty map whose hashing is keyed with `seed`.
    pub fn with_hasher(seed: u64) -> (r: Self)
        ensures
            r.wf(),
            r.spec_seed() == seed,
            r@ == Map::<K::V, V>::empty(),
    {
        let mut buckets: Vec<(MCSLock, Option<Box<HashNode<K, V>>>)> = Vec::with_capacity(NUM_BUCKETS);
        let mut i: usize = 0;
        while i < NUM_BUCKETS
            invariant
                i <= NUM_BUCKETS,
                buckets@.len() == i,
                forall|b: int|
                    0 <= b < i ==> {
                        &&& (#[trigger] buckets@[b]).0.wf()
                        &&& buckets@[b].0@.len() == 0
                        &&& buckets@[b].1 is None
                    },
            decreases NUM_BUCKETS - i,
        {
            buckets.push((MCSLock::new(), None));
            i = i + 1;
        }
        let r = LockFreeHashMap { buckets, seed };
        proof {
            assert(r@ =~= Map::<K::V, V>::empty());
        }
        r
    }

    /// The bucket that `key` hashes to.
    pub fn bucket_index(&self, key: &K) -> (r: usize)
        ensures
            r == bucket_of(self.spec_seed(), K::digest(key@)),
            r < NUM_BUCKETS,
    {
        let x: u64 = key.key_digest() ^ self.seed;
        let x: u64 = x ^ (x >> 32u64);
        let x: u64 = x ^ (x >> 16u64);
        let x: u64 = x ^ (x >> 8u64);
        (x % (NUM_BUCKETS as u64)) as usize
    }

    /// Binds `key` to `value`, replacing the value it had.
    pub fn insert(&mut self, key: K, value: V)
        requires
            old(self).wf(),
        ensures
            final(self).wf(),
            final(self).spec_seed() == old(self).spec_seed(),
            final(self)@ == old(self)@.insert(key@, value),
    {
        let ghost before = self@;
        let index = self.bucket_index(&key);
        let mut mcs_node = MCSNode::new(0);
        self.buckets[index].0.lock(&mut mcs_node, OperationSource::HashMap);
        let ghost old_chain = self.buckets@[index as int].1;
        let back = replace_in(&mut self.buckets[index].1, &key, value);
        match back {
            Some(v) => {
                let head = self.buckets[index].1.take();
                self.buckets[index].1 = Some(HashNode::new(key, v, head));
            },
            None => {},
        }
        self.buckets[index].0.unlock(&mut mcs_node, OperationSource::HashMap);
        proof {
            assert(self@ =~= before.insert(key@, value));
        }
    }

    /// A clone of the value bound to `key`, if any.
    pub fn get(&mut self, key: &K) -> (r: Option<V>)
        where
            V: Clone,
        requires
            old(self).wf(),
        ensures
            final(self).wf(),
            final(self).spec_seed() == old(self).spec_seed(),
            final(self)@ == old(self)@,
            r is Some <==> old(self)@.contains_key(key@),
            r matches Some(v) ==> cloned(old(self)@[key@], v),
    {
        let index = self.bucket_index(key);
        let mut mcs_node = MCSNode::new(0);
        self.buckets[index].0.lock(&mut mcs_node, OperationSource::HashMap);
        let result = match find_in(&self.buckets[index].1, key) {
            Some(v) => Some(v.clone()),
            None => None,
        };
        self.buckets[index].0.unlock(&mut mcs_node, OperationSource::HashMap);
        result
    }

    /// Unlinks `key` and returns the value it was bound to, if any.
    pub fn remove(&mut self, key: &K) -> (r: Option<V>)
        requires
            old(self).wf(),
        ensures
            final(self).wf(),
            final(self).spec_seed() == old(self).spec_seed(),
            r == old(self)@.get(key@),
            final(self)@ == old(self)@.remove(key@),
    {
        let ghost before = self@;
        let index = self.bucket_index(key);
        let mut mcs_node = MCSNode::new(0);
        self.buckets[index].0.lock(&mut mcs_node, OperationSource::HashMap);
        let r = remove_in(&mut self.buckets[index].1, key);
        self.buckets[index].0.unlock(&mut mcs_node, OperationSource::HashMap);
        proof {
            assert(self@ =~= before.remove(key@));
        }
        r
    }
}

/// One update of a map.
pub enum MapOp<K, V> {
    Insert(K, V),
    Remove(K),
}

/// The map after `op`, as `insert` and `remove` leave it.
pub open spec fn map_step<K, V>(m: Map<K, V>, op: MapOp<K, V>) -> Map<K, V> {
    match op {
        MapOp::Insert(k, v) => m.insert(k, v),
        MapOp::Remove(k) => m.remove(k),
    }
}

/// The map after running `ops` in order from `m`.
pub open spec fn map_after<K, V>(m: Map<K, V>, ops: Seq<MapOp<K, V>>) -> Map<K, V>
    decreases ops.len(),
{
    if ops.len() == 0 {
        m
    } else {
        map_step(map_after(m, ops.drop_last()), ops.last())
    }
}

/// The effect of the last update of `k` in `ops`: `Some(Some(v))` for an
/// insert of `v`, `Some(None)` for a remove, `None` when `k` is not updated.
pub open spec fn last_write<K, V>(ops: Seq<MapOp<K, V>>, k: K) -> Option<Option<V>>
    decreases ops.len(),
{
    if ops.len() == 0 {
        None
    } else {
        match ops.last() {
            MapOp::Insert(x, v) => if x == k {
                Some(Some(v))
            } else {
                last_write(ops.drop_last(), k)
            },
            MapOp::Remove(x) => if x == k {
                Some(None)
            } else {
                last_write(ops.drop_last(), k)
            },
        }
    }
}

/// After any run of updates, a key is bound to the value of its last insert
/// unless a remove followed it, and is absent after a remove; a key that no
/// update touched keeps what it had.
pub proof fn lemma_get_returns_last_write<K, V>(m: Map<K, V>, ops: Seq<MapOp<K, V>>, k: K)
    ensures
        map_after(m, ops).get(k) == match last_write(ops, k) {
            Some(r) => r,
            None => m.get(k),
        },
    decreases ops.len(),
{
    if ops.len() > 0 {
        lemma_get_returns_last_write(m, ops.drop_last(), k);
        let before = map_after(m, ops.drop_last());
        match ops.last() {
            MapOp::Insert(x, v) => {
                assert(before.insert(x, v).get(k) == if x == k {
                    Some(v)
                } else {
                    before.get(k)
                });
            },
            MapOp::Remove(x) => {
                assert(before.remove(x).get(k) == if x == k {
                    None
                } else {
                    before.get(k)
                });
            },
        }
    }
}

} // verus!
