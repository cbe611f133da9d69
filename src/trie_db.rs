use vstd::prelude::*;

use dashmap::DashMap;
use rand::rngs::SmallRng;

use crate::storage::{put_all, StoreError, TrieStore};
use crate::types::copy_bytes;

verus! {

/// Seed of the generator that picks the entries to evict; the largest prime
/// below 50000.
pub const RAND_SEED: u64 = 49999;

#[verifier::external_type_specification]
#[verifier::external_body]
#[verifier::reject_recursive_types(K)]
#[verifier::reject_recursive_types(V)]
#[verifier::reject_recursive_types(S)]
pub struct ExDashMap<K, V, S>(DashMap<K, V, S>);

#[verifier::external_type_specification]
#[verifier::external_body]
pub struct ExSmallRng(SmallRng);

/// The map that caches trie nodes by key.
pub type CacheMap = DashMap<Vec<u8>, Vec<u8>>;

/// What a cache map holds.
pub uninterp spec fn cache_contents(m: CacheMap) -> Map<Seq<u8>, Seq<u8>>;

/// Relies on `DashMap::with_capacity`: a new map is empty. Its shard
/// arithmetic rounds the capacity up, which must not overflow.
#[verifier::external_body]
fn cache_with_capacity(capacity: usize) -> (r: CacheMap)
    requires
        capacity <= usize::MAX / 16,
    ensures
        cache_contents(r).dom() == Set::<Seq<u8>>::empty(),
{
    DashMap::with_capacity(capacity)
}

/// Relies on `DashMap::get`: the value under `key`, if any (copied out of the guard).
#[verifier::external_body]
fn cache_lookup(m: &CacheMap, key: &Vec<u8>) -> (r: Option<Vec<u8>>)
    ensures
        match r {
            Some(v) => cache_contents(*m).contains_key(key@) && cache_contents(*m)[key@] == v@,
            None => !cache_contents(*m).contains_key(key@),
        },
{
    m.get(key.as_slice()).map(|v| v.value().clone())
}

/// Relies on `DashMap::contains_key`.
#[verifier::external_body]
fn cache_has(m: &CacheMap, key: &Vec<u8>) -> (r: bool)
    ensures
        r == cache_contents(*m).contains_key(key@),
{
    m.contains_key(key.as_slice())
}

/// Relies on `DashMap::insert`: the key maps to the value afterwards.
#[verifier::external_body]
fn cache_put(m: &mut CacheMap, key: Vec<u8>, value: Vec<u8>)
    ensures
        cache_contents(*final(m)) == cache_contents(*old(m)).insert(key@, value@),
{
    m.insert(key, value);
}

/// Relies on `DashMap::remove`: the key is gone afterwards.
#[verifier::external_body]
fn cache_drop(m: &mut CacheMap, key: &Vec<u8>)
    ensures
        cache_contents(*final(m)) == cache_contents(*old(m)).remove(key@),
{
    m.remove(key.as_slice());
}

/// Relies on `DashMap::len`: the number of keys, summed over the shards.
#[verifier::external_body]
fn cache_count(m: &CacheMap) -> (r: usize)
    ensures
        r == cache_contents(*m).len(),
{
    m.len()
}

/// Relies on `DashMap::iter`: every key once, in an order that depends on
/// the hasher.
#[verifier::external_body]
fn cache_keys(m: &CacheMap) -> (r: Vec<Vec<u8>>)
    ensures
        forall|i: int, j: int| 0 <= i < j < r@.len() ==> r@[i]@ != r@[j]@,
        forall|i: int| 0 <= i < r@.len() ==> cache_contents(*m).contains_key(#[trigger] r@[i]@),
        forall|k: Seq<u8>| cache_contents(*m).contains_key(k) ==> exists|i: int| 0 <= i < r@.len() && r@[i]@ == k,
{
    m.iter().map(|kv| kv.key().clone()).collect()
}

/// Relies on `SeedableRng::seed_from_u64` for `SmallRng`.
#[verifier::external_body]
fn seeded_rng(seed: u64) -> (r: SmallRng) {
    <SmallRng as rand::SeedableRng>::seed_from_u64(seed)
}

/// Relies on `Rng::gen_range` over `0..bound`, which panics on an empty range.
#[verifier::external_body]
fn gen_index(rng: &mut SmallRng, bound: usize) -> (r: usize)
    requires
        bound > 0,
    ensures
        r < bound,
{
    rand::Rng::gen_range(rng, 0..bound)
}

/// `num` distinct positions below `len`, drawn by a generator with a fixed seed.
pub fn rand_remove_indices(len: usize, num: usize) -> (r: Vec<usize>)
    requires
        num <= len,
    ensures
        r@.len() == num,
        forall|i: int| 0 <= i < r@.len() ==> r@[i] < len,
        forall|i: int, j: int| 0 <= i < j < r@.len() ==> r@[i] != r@[j],
{
    let mut idx_list: Vec<usize> = Vec::with_capacity(len);
    let mut k: usize = 0;
    while k < len
        invariant
            k <= len,
            idx_list@.len() == k,
            forall|a: int| 0 <= a < k ==> idx_list@[a] == a,
        decreases len - k,
    {
        idx_list.push(k);
        k = k + 1;
    }
    let mut rng = seeded_rng(RAND_SEED);
    let mut ret: Vec<usize> = Vec::with_capacity(num);
    while ret.len() < num
        invariant
            num <= len,
            ret@.len() <= num,
            idx_list@.len() + ret@.len() == len,
            forall|a: int| 0 <= a < idx_list@.len() ==> #[trigger] idx_list@[a] < len,
            forall|a: int| 0 <= a < ret@.len() ==> #[trigger] ret@[a] < len,
            forall|a: int, b: int| 0 <= a < b < idx_list@.len() ==> idx_list@[a] != idx_list@[b],
            forall|a: int, b: int| 0 <= a < b < ret@.len() ==> ret@[a] != ret@[b],
            forall|a: int, b: int| 0 <= a < idx_list@.len() && 0 <= b < ret@.len() ==> idx_list@[a] != ret@[b],
        decreases num - ret@.len(),
    {
        let ghost l = idx_list@;
        let ghost q = ret@;
        let tmp = gen_index(&mut rng, idx_list.len());
        let idx = idx_list.remove(tmp);
        ret.push(idx);
        proof {
            assert(idx == l[tmp as int]);
            assert forall|a: int| 0 <= a < idx_list@.len() implies idx_list@[a] == l[if a < tmp {
                a
            } else {
                a + 1
            }] by {}
            assert forall|a: int, b: int| 0 <= a < b < idx_list@.len() implies idx_list@[a] != idx_list@[b] by {
                let a2 = if a < tmp { a } else { a + 1 };
                let b2 = if b < tmp { b } else { b + 1 };
                assert(l[a2] != l[b2]);
            }
            assert forall|a: int, b: int| 0 <= a < b < ret@.len() implies ret@[a] != ret@[b] by {
                if b < q.len() {
                    assert(ret@[a] == q[a] && ret@[b] == q[b]);
                } else {
                    assert(ret@[a] == q[a]);
                    assert(l[tmp as int] != q[a]);
                }
            }
            assert forall|a: int, b: int|
                0 <= a < idx_list@.len() && 0 <= b < ret@.len() implies idx_list@[a] != ret@[b] by {
                let a2 = if a < tmp { a } else { a + 1 };
                if b < q.len() {
                    assert(ret@[b] == q[b]);
                    assert(l[a2] != q[b]);
                } else {
                    assert(l[a2] != l[tmp as int]);
                }
            }
            assert forall|a: int| 0 <= a < ret@.len() implies #[trigger] ret@[a] < len by {
                if a < q.len() {
                    assert(ret@[a] == q[a]);
                }
            }
        }
    }
    ret
}

/// `num` of the `keys`, at distinct positions that a generator with a fixed
/// seed picks.
pub fn rand_remove_list<T: Clone>(keys: Vec<T>, num: usize) -> (r: Vec<T>)
    requires
        num <= keys@.len(),
    ensures
        r@.len() == num,
        exists|idx: Seq<usize>|
            idx.len() == num && (forall|i: int, j: int| 0 <= i < j < num ==> idx[i] != idx[j]) && (forall|
                i: int,
            |
                0 <= i < num ==> idx[i] < keys@.len() && cloned::<T>(keys@[idx[i] as int], #[trigger] r@[i])),
{
    let idx = rand_remove_indices(keys.len(), num);
    let mut ret: Vec<T> = Vec::with_capacity(num);
    let mut i: usize = 0;
    while i < idx.len()
        invariant
            idx@.len() == num,
            forall|a: int| 0 <= a < idx@.len() ==> idx@[a] < keys@.len(),
            i <= num,
            ret@.len() == i,
            forall|a: int| 0 <= a < i ==> cloned::<T>(keys@[idx@[a] as int], #[trigger] ret@[a]),
        decreases num - i,
    {
        ret.push(keys[idx[i]].clone());
        i = i + 1;
    }
    ret
}

/// After a batch of puts, each key of the batch is present.
pub proof fn lemma_put_all_has_keys(m: Map<Seq<u8>, Seq<u8>>, keys: Seq<Vec<u8>>, vals: Seq<Vec<u8>>)
    requires
        keys.len() == vals.len(),
    ensures
        forall|i: int| 0 <= i < keys.len() ==> put_all(m, keys, vals).contains_key(#[trigger] keys[i]@),
    decreases keys.len(),
{
    if keys.len() > 0 {
        lemma_put_all_has_keys(m, keys.drop_last(), vals.drop_last());
        assert forall|i: int| 0 <= i < keys.len() implies put_all(m, keys, vals).contains_key(#[trigger] keys[i]@) by {
            if i < keys.len() - 1 {
                assert(keys.drop_last()[i] == keys[i]);
            }
        }
    }
}

/// Errors of the trie's key/value layer.
#[derive(Debug, PartialEq, Eq, Structural)]
pub enum RocksTrieDBError {
    Store,
    InsertParameter,
    BatchLengthMismatch,
    CreateDB,
}

/// The store error that a trie operation reports.
pub fn to_store_err(e: StoreError) -> (r: RocksTrieDBError)
    ensures
        r == RocksTrieDBError::Store,
{
    RocksTrieDBError::Store
}

/// The key/value layer under the state trie: a write-through cache of at
/// most about `cache_size` entries in front of a durable store.
pub struct RocksTrieDB<S> {
    db: S,
    cache: CacheMap,
    cache_size: usize,
}

impl<S: TrieStore> RocksTrieDB<S> {
    /// What the durable store holds.
    pub closed spec fn store(&self) -> Map<Seq<u8>, Seq<u8>> {
        self.db.stored()
    }

    /// What the cache holds.
    pub closed spec fn cached(&self) -> Map<Seq<u8>, Seq<u8>> {
        cache_contents(self.cache)
    }

    /// The number of entries that `flush` trims the cache to.
    pub closed spec fn target_size(&self) -> nat {
        self.cache_size as nat
    }

    /// The cache never lies: each cached key holds the stored value.
    pub open spec fn wf(&self) -> bool {
        &&& self.cached().dom().finite()
        &&& forall|k: Seq<u8>|
            #[trigger] self.cached().contains_key(k) ==> self.store().contains_key(k)
                && self.store()[k] == self.cached()[k]
    }

    pub fn new(db: S, cache_size: usize) -> (r: Self)
        requires
            cache_size <= usize::MAX / 32,
        ensures
            r.wf(),
            r.store() == db.stored(),
            r.cached().dom() == Set::<Seq<u8>>::empty(),
            r.target_size() == cache_size,
    {
        // Room for twice the target, so that the cache need not grow before a flush.
        let cache = cache_with_capacity(cache_size + cache_size);
        let r = RocksTrieDB { db, cache, cache_size };
        proof {
            assert(r.cached().dom() =~= Set::<Seq<u8>>::empty());
        }
        r
    }

    /// The stored value under `key`, from the cache or else from the store,
    /// which then fills the cache.
    fn inner_get(&mut self, key: &Vec<u8>) -> (r: Result<Option<Vec<u8>>, RocksTrieDBError>)
        requires
            old(self).wf(),
        ensures
            final(self).wf(),
            final(self).store() == old(self).store(),
            final(self).target_size() == old(self).target_size(),
            r is Err ==> r == Err::<Option<Vec<u8>>, RocksTrieDBError>(RocksTrieDBError::Store),
            r matches Ok(Some(v)) ==> old(self).store().contains_key(key@) && old(self).store()[key@] == v@,
            r matches Ok(None) ==> !old(self).store().contains_key(key@),
            r matches Ok(Some(v)) ==> final(self).cached() == old(self).cached().insert(key@, v@),
            !(r matches Ok(Some(_))) ==> final(self).cached() == old(self).cached(),
            old(self).cached().contains_key(key@) ==> r is Ok,
    {
        match cache_lookup(&self.cache, key) {
            Some(v) => {
                assert(self.cached().insert(key@, v@) =~= self.cached());
                Ok(Some(v))
            },
            None => {
                let ret = match self.db.get(key) {
                    Ok(x) => x,
                    Err(e) => {
                        return Err(to_store_err(e));
                    },
                };
                match ret {
                    Some(val) => {
                        let ghost before = self.cached();
                        cache_put(&mut self.cache, copy_bytes(key), copy_bytes(&val));
                        proof {
                            assert(self.cached() == before.insert(key@, val@));
                            assert forall|k: Seq<u8>| #[trigger] self.cached().contains_key(k) implies self.store().contains_key(k)
                                && self.store()[k] == self.cached()[k] by {
                                if k != key@ {
                                    assert(before.contains_key(k));
                                }
                            }
                        }
                        Ok(Some(val))
                    },
                    None => Ok(None),
                }
            },
        }
    }

    /// The stored value under `key`, if any.
    pub fn get(&mut self, key: &Vec<u8>) -> (r: Result<Option<Vec<u8>>, RocksTrieDBError>)
        requires
            old(self).wf(),
        ensures
            final(self).wf(),
            final(self).store() == old(self).store(),
            final(self).target_size() == old(self).target_size(),
            r is Err ==> r == Err::<Option<Vec<u8>>, RocksTrieDBError>(RocksTrieDBError::Store),
            r matches Ok(Some(v)) ==> old(self).store().contains_key(key@) && old(self).store()[key@] == v@,
            r matches Ok(None) ==> !old(self).store().contains_key(key@),
            r matches Ok(Some(v)) ==> final(self).cached() == old(self).cached().insert(key@, v@),
            !(r matches Ok(Some(_))) ==> final(self).cached() == old(self).cached(),
            old(self).cached().contains_key(key@) ==> r is Ok,
    {
        self.inner_get(key)
    }

    /// Whether the store holds `key`; a hit fills the cache.
    pub fn contains(&mut self, key: &Vec<u8>) -> (r: Result<bool, RocksTrieDBError>)
        requires
            old(self).wf(),
        ensures
            final(self).wf(),
            final(self).store() == old(self).store(),
            final(self).target_size() == old(self).target_size(),
            r is Err ==> r == Err::<bool, RocksTrieDBError>(RocksTrieDBError::Store),
            r matches Ok(b) ==> b == old(self).store().contains_key(key@),
            old(self).cached().contains_key(key@) ==> r == Ok::<bool, RocksTrieDBError>(true),
            r == Ok::<bool, RocksTrieDBError>(true) ==> final(self).cached() == old(self).cached().insert(
                key@,
                old(self).store()[key@],
            ),
            r != Ok::<bool, RocksTrieDBError>(true) ==> final(self).cached() == old(self).cached(),
    {
        if cache_has(&self.cache, key) {
            assert(self.cached().insert(key@, self.store()[key@]) =~= self.cached());
            return Ok(true);
        }
        match self.inner_get(key) {
            Ok(v) => Ok(v.is_some()),
            Err(e) => Err(e),
        }
    }

    /// Writes `value` under `key` to the store, then to the cache.
    pub fn insert(&mut self, key: Vec<u8>, value: Vec<u8>) -> (r: Result<(), RocksTrieDBError>)
        requires
            old(self).wf(),
        ensures
            final(self).wf(),
            final(self).target_size() == old(self).target_size(),
            r is Ok ==> final(self).store() == old(self).store().insert(key@, value@),
            r is Ok ==> final(self).cached() == old(self).cached().insert(key@, value@),
            r is Err ==> r == Err::<(), RocksTrieDBError>(RocksTrieDBError::Store),
            r is Err ==> final(self).store() == old(self).store(),
            r is Err ==> final(self).cached() == old(self).cached(),
    {
        let cached_key = copy_bytes(&key);
        let cached_value = copy_bytes(&value);
        match self.db.put(key, value) {
            Ok(()) => {},
            Err(e) => {
                return Err(to_store_err(e));
            },
        }
        let ghost before = self.cached();
        cache_put(&mut self.cache, cached_key, cached_value);
        proof {
            assert forall|k: Seq<u8>| #[trigger] self.cached().contains_key(k) implies self.store().contains_key(k)
                && self.store()[k] == self.cached()[k] by {
                if k != cached_key@ {
                    assert(before.contains_key(k));
                }
            }
        }
        Ok(())
    }

    /// Writes a batch of pairs to the store in one write, then to the cache.
    pub fn insert_batch(&mut self, keys: Vec<Vec<u8>>, values: Vec<Vec<u8>>) -> (r: Result<
        (),
        RocksTrieDBError,
    >)
        requires
            old(self).wf(),
        ensures
            final(self).wf(),
            final(self).target_size() == old(self).target_size(),
            keys@.len() != values@.len() ==> r == Err::<(), RocksTrieDBError>(
                RocksTrieDBError::BatchLengthMismatch,
            ) && final(self).store() == old(self).store(),
            r is Ok ==> final(self).store() == put_all(old(self).store(), keys@, values@),
            r is Err ==> final(self).store() == old(self).store(),
            keys@.len() == values@.len() && r is Err ==> r == Err::<(), RocksTrieDBError>(
                RocksTrieDBError::Store,
            ),
            r is Err ==> final(self).cached() == old(self).cached(),
            r is Ok ==> final(self).cached() == put_all(old(self).cached(), keys@, values@),
            r is Ok ==> forall|i: int|
                0 <= i < keys@.len() ==> final(self).cached().contains_key(#[trigger] keys@[i]@),
    {
        if keys.len() != values.len() {
            return Err(RocksTrieDBError::BatchLengthMismatch);
        }
        let ghost st = self.store();
        match self.db.write_batch(&keys, &values) {
            Ok(()) => {},
            Err(e) => {
                return Err(to_store_err(e));
            },
        }
        let ghost start = self.cached();
        let mut i: usize = 0;
        while i < keys.len()
            invariant
                keys@.len() == values@.len(),
                i <= keys@.len(),
                self.store() == put_all(st, keys@, values@),
                self.target_size() == old(self).target_size(),
                self.cached().dom().finite(),
                start == old(self).cached(),
                self.cached() == put_all(start, keys@.take(i as int), values@.take(i as int)),
                forall|k: Seq<u8>|
                    #[trigger] self.cached().contains_key(k) ==> put_all(st, keys@.take(i as int), values@.take(i as int)).contains_key(k)
                        && put_all(st, keys@.take(i as int), values@.take(i as int))[k] == self.cached()[k],
            decreases keys@.len() - i,
        {
            let ghost before = self.cached();
            let ghost m0 = put_all(st, keys@.take(i as int), values@.take(i as int));
            assert(keys@.take(i + 1).drop_last() =~= keys@.take(i as int));
            assert(values@.take(i + 1).drop_last() =~= values@.take(i as int));
            assert(keys@.take(i + 1).last() == keys@[i as int]);
            assert(values@.take(i + 1).last() == values@[i as int]);
            cache_put(&mut self.cache, copy_bytes(&keys[i]), copy_bytes(&values[i]));
            proof {
                let m1 = put_all(st, keys@.take(i + 1), values@.take(i + 1));
                assert(m1 == m0.insert(keys@[i as int]@, values@[i as int]@));
                assert forall|k: Seq<u8>| #[trigger] self.cached().contains_key(k) implies m1.contains_key(k)
                    && m1[k] == self.cached()[k] by {
                    if k != keys@[i as int]@ {
                        assert(before.contains_key(k));
                    }
                }
            }
            i = i + 1;
        }
        assert(keys@.take(i as int) =~= keys@);
        assert(values@.take(i as int) =~= values@);
        proof {
            lemma_put_all_has_keys(start, keys@, values@);
        }
        Ok(())
    }

    /// Nothing: trie nodes are never deleted at this layer; dead ones are
    /// reclaimed by compaction elsewhere.
    pub fn remove(&mut self, key: &Vec<u8>) -> (r: Result<(), RocksTrieDBError>)
        ensures
            r is Ok,
            *final(self) == *old(self),
    {
        Ok(())
    }

    /// Nothing, as `remove`.
    pub fn remove_batch(&mut self, keys: &Vec<Vec<u8>>) -> (r: Result<(), RocksTrieDBError>)
        ensures
            r is Ok,
            *final(self) == *old(self),
    {
        Ok(())
    }

    /// Trims the cache to `cache_size` entries where it holds more, evicting
    /// entries picked by a generator with a fixed seed. The store is untouched.
    pub fn flush(&mut self) -> (r: Result<(), RocksTrieDBError>)
        requires
            old(self).wf(),
        ensures
            r is Ok,
            final(self).wf(),
            final(self).store() == old(self).store(),
            final(self).target_size() == old(self).target_size(),
            forall|k: Seq<u8>|
                #[trigger] final(self).cached().contains_key(k) ==> old(self).cached().contains_key(k)
                    && final(self).cached()[k] == old(self).cached()[k],
            old(self).cached().len() <= old(self).target_size() ==> final(self).cached() == old(self).cached(),
            old(self).cached().len() > old(self).target_size() ==> final(self).cached().len()
                == old(self).target_size(),
    {
        let len = cache_count(&self.cache);
        if len <= self.cache_size {
            return Ok(());
        }
        let keys = cache_keys(&self.cache);
        let ghost start = self.cached();
        let ghost views = keys@.map_values(|k: Vec<u8>| k@);
        proof {
            assert(views.no_duplicates());
            views.unique_seq_to_set();
            assert forall|k: Seq<u8>| views.to_set().contains(k) <==> start.dom().contains(k) by {
                if start.dom().contains(k) {
                    let i = choose|i: int| 0 <= i < keys@.len() && keys@[i]@ == k;
                    assert(views[i] == k);
                }
                if views.to_set().contains(k) {
                    let i = choose|i: int| 0 <= i < views.len() && views[i] == k;
                    assert(keys@[i]@ == k);
                }
            }
            assert(views.to_set() =~= start.dom());
        }
        let remove_list = rand_remove_indices(keys.len(), len - self.cache_size);
        let mut t: usize = 0;
        while t < remove_list.len()
            invariant
                self.wf(),
                self.store() == old(self).store(),
                self.target_size() == old(self).target_size(),
                start == old(self).cached(),
                start.dom().finite(),
                start.len() == len,
                t <= remove_list@.len(),
                self.cached().len() == len - t,
                forall|a: int| 0 <= a < remove_list@.len() ==> remove_list@[a] < keys@.len(),
                forall|a: int, b: int| 0 <= a < b < remove_list@.len() ==> remove_list@[a] != remove_list@[b],
                forall|i: int| 0 <= i < keys@.len() ==> start.contains_key(#[trigger] keys@[i]@),
                forall|i: int, j: int| 0 <= i < j < keys@.len() ==> keys@[i]@ != keys@[j]@,
                forall|a: int| t <= a < remove_list@.len() ==> self.cached().contains_key(
                    #[trigger] keys@[remove_list@[a] as int]@,
                ),
                forall|k: Seq<u8>|
                    #[trigger] self.cached().contains_key(k) ==> start.contains_key(k) && self.cached()[k]
                        == start[k],
            decreases remove_list@.len() - t,
        {
            let ghost before = self.cached();
            let target = &keys[remove_list[t]];
            cache_drop(&mut self.cache, target);
            proof {
                assert(before.contains_key(target@));
                assert(self.cached().dom() == before.dom().remove(target@));
                assert forall|a: int| t + 1 <= a < remove_list@.len() implies self.cached().contains_key(
                    #[trigger] keys@[remove_list@[a] as int]@,
                ) by {
                    assert(remove_list@[a] != remove_list@[t as int]);
                    assert(before.contains_key(keys@[remove_list@[a] as int]@));
                }
            }
            t = t + 1;
        }
        Ok(())
    }

    /// The cached value under `key`, if any; the store is not consulted.
    pub fn cache_get(&self, key: &Vec<u8>) -> (r: Option<Vec<u8>>)
        ensures
            match r {
                Some(v) => self.cached().contains_key(key@) && self.cached()[key@] == v@,
                None => !self.cached().contains_key(key@),
            },
    {
        cache_lookup(&self.cache, key)
    }

    /// How many entries the cache holds.
    pub fn cache_len(&self) -> (r: usize)
        ensures
            r == self.cached().len(),
    {
        cache_count(&self.cache)
    }
}

/// The cache never lies, and eviction touches only the cache: a key cached
/// before a flush still reads its cached value from the store after it.
/// `after` is the trie as the flush left `before`.
pub proof fn lemma_eviction_keeps_values<S: TrieStore>(before: RocksTrieDB<S>, after: RocksTrieDB<S>, k: Seq<u8>)
    requires
        before.wf(),
        after.store() == before.store(),
        before.cached().contains_key(k),
    ensures
        after.store().contains_key(k),
        after.store()[k] == before.cached()[k],
{
}

/// Reading a key that a flush evicted reloads it from the store: the cache
/// gains that one entry, with the stored value, and keeps the others.
/// `after` is the trie as a successful `get` of `k` left `before`.
pub proof fn lemma_reload_after_eviction<S: TrieStore>(before: RocksTrieDB<S>, after: RocksTrieDB<S>, k: Seq<u8>)
    requires
        before.wf(),
        !before.cached().contains_key(k),
        before.store().contains_key(k),
        after.cached() == before.cached().insert(k, before.store()[k]),
    ensures
        after.cached().len() == before.cached().len() + 1,
        after.cached()[k] == before.store()[k],
        forall|q: Seq<u8>| q != k && before.cached().contains_key(q) ==> after.cached()[q] == before.cached()[q],
{
    assert(after.cached().dom() =~= before.cached().dom().insert(k));
}

} // verus!
