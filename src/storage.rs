use vstd::prelude::*;

use crate::types::copy_bytes;

verus! {

/// What a list of key/value pairs maps `k` to: the value of its last pair with key `k`.
pub open spec fn lookup(s: Seq<(Vec<u8>, Vec<u8>)>, k: Seq<u8>) -> Option<Seq<u8>>
    decreases s.len(),
{
    if s.len() == 0 {
        None
    } else if s.last().0@ == k {
        Some(s.last().1@)
    } else {
        lookup(s.drop_last(), k)
    }
}

/// The map that a list of key/value pairs stands for.
pub open spec fn map_of(s: Seq<(Vec<u8>, Vec<u8>)>) -> Map<Seq<u8>, Seq<u8>> {
    Map::new(|k: Seq<u8>| lookup(s, k) is Some, |k: Seq<u8>| lookup(s, k)->Some_0)
}

proof fn lemma_lookup_update(s: Seq<(Vec<u8>, Vec<u8>)>, i: int, e: (Vec<u8>, Vec<u8>), k: Seq<u8>)
    requires
        0 <= i < s.len(),
        s[i].0@ == e.0@,
        forall|j: int| i < j < s.len() ==> s[j].0@ != e.0@,
    ensures
        lookup(s.update(i, e), k) == if k == e.0@ {
            Some(e.1@)
        } else {
            lookup(s, k)
        },
    decreases s.len(),
{
    let t = s.update(i, e);
    if i == s.len() - 1 {
        assert(t.drop_last() =~= s.drop_last());
    } else {
        assert(t.drop_last() =~= s.drop_last().update(i, e));
        lemma_lookup_update(s.drop_last(), i, e, k);
    }
}

proof fn lemma_lookup_absent(s: Seq<(Vec<u8>, Vec<u8>)>, k: Seq<u8>)
    requires
        forall|j: int| 0 <= j < s.len() ==> s[j].0@ != k,
    ensures
        lookup(s, k) is None,
    decreases s.len(),
{
    if s.len() > 0 {
        lemma_lookup_absent(s.drop_last(), k);
    }
}

/// A map from byte strings to byte strings, kept as a list of pairs.
pub struct ByteMap {
    entries: Vec<(Vec<u8>, Vec<u8>)>,
}

impl View for ByteMap {
    type V = Map<Seq<u8>, Seq<u8>>;

    closed spec fn view(&self) -> Map<Seq<u8>, Seq<u8>> {
        map_of(self.entries@)
    }
}

impl ByteMap {
    pub fn new() -> (r: ByteMap)
        ensures
            r@ == Map::<Seq<u8>, Seq<u8>>::empty(),
    {
        let r = ByteMap { entries: Vec::new() };
        assert(r@ =~= Map::<Seq<u8>, Seq<u8>>::empty());
        r
    }

    /// The index of the last pair with key `key`.
    fn find(&self, key: &Vec<u8>) -> (r: Option<usize>)
        ensures
            match r {
                Some(i) => i < self.entries@.len() && self.entries@[i as int].0@ == key@ && forall|j: int|
                    i < j < self.entries@.len() ==> self.entries@[j].0@ != key@,
                None => forall|j: int| 0 <= j < self.entries@.len() ==> self.entries@[j].0@ != key@,
            },
    {
        let mut i: usize = self.entries.len();
        while i > 0
            invariant
                i <= self.entries@.len(),
                forall|j: int| i <= j < self.entries@.len() ==> self.entries@[j].0@ != key@,
            decreases i,
        {
            if crate::consensus::bytes_eq(&self.entries[i - 1].0, key) {
                return Some(i - 1);
            }
            i = i - 1;
        }
        None
    }

    proof fn lemma_lookup_found(s: Seq<(Vec<u8>, Vec<u8>)>, i: int)
        requires
            0 <= i < s.len(),
            forall|j: int| i < j < s.len() ==> s[j].0@ != s[i].0@,
        ensures
            lookup(s, s[i].0@) == Some(s[i].1@),
        decreases s.len(),
    {
        if i < s.len() - 1 {
            Self::lemma_lookup_found(s.drop_last(), i);
        }
    }

    pub fn get(&self, key: &Vec<u8>) -> (r: Option<Vec<u8>>)
        ensures
            match r {
                Some(v) => self@.contains_key(key@) && self@[key@] == v@,
                None => !self@.contains_key(key@),
            },
    {
        match self.find(key) {
            Some(i) => {
                proof {
                    Self::lemma_lookup_found(self.entries@, i as int);
                }
                Some(copy_bytes(&self.entries[i].1))
            },
            None => {
                proof {
                    lemma_lookup_absent(self.entries@, key@);
                }
                None
            },
        }
    }

    pub fn contains(&self, key: &Vec<u8>) -> (r: bool)
        ensures
            r == self@.contains_key(key@),
    {
        self.get(key).is_some()
    }

    pub fn insert(&mut self, key: Vec<u8>, value: Vec<u8>)
        ensures
            final(self)@ == old(self)@.insert(key@, value@),
    {
        let ghost k = key@;
        let ghost v = value@;
        match self.find(&key) {
            Some(i) => {
                let ghost s = self.entries@;
                let ghost e = (key, value);
                self.entries[i] = (key, value);
                proof {
                    assert(self.entries@ == s.update(i as int, e));
                    assert forall|q: Seq<u8>| #[trigger] lookup(self.entries@, q) == (if q == k {
                        Some(v)
                    } else {
                        lookup(s, q)
                    }) by {
                        lemma_lookup_update(s, i as int, e, q);
                    }
                    assert(self@ =~= map_of(s).insert(k, v));
                }
            },
            None => {
                let ghost s = self.entries@;
                self.entries.push((key, value));
                proof {
                    assert(self.entries@.drop_last() =~= s);
                    assert(self@ =~= map_of(s).insert(k, v));
                }
            },
        }
    }

    pub fn remove(&mut self, key: &Vec<u8>)
        ensures
            final(self)@ == old(self)@.remove(key@),
    {
        let ghost s = self.entries@;
        let mut kept: Vec<(Vec<u8>, Vec<u8>)> = Vec::new();
        let mut i: usize = 0;
        while i < self.entries.len()
            invariant
                self.entries@ == s,
                i <= s.len(),
                forall|q: Seq<u8>|
                    #[trigger] lookup(kept@, q) == if q == key@ {
                        None
                    } else {
                        lookup(s.take(i as int), q)
                    },
            decreases s.len() - i,
        {
            let ghost before = kept@;
            assert(s.take(i + 1).drop_last() =~= s.take(i as int));
            assert(s.take(i + 1).last() == s[i as int]);
            let ghost cur = s.take(i + 1);
            if !crate::consensus::bytes_eq(&self.entries[i].0, key) {
                let e = (copy_bytes(&self.entries[i].0), copy_bytes(&self.entries[i].1));
                kept.push(e);
                assert(kept@.drop_last() =~= before);
                assert forall|q: Seq<u8>|
                    #[trigger] lookup(kept@, q) == if q == key@ {
                        None
                    } else {
                        lookup(cur, q)
                    } by {
                    assert(lookup(kept@, q) == if e.0@ == q {
                        Some(e.1@)
                    } else {
                        lookup(before, q)
                    });
                    assert(lookup(cur, q) == if s[i as int].0@ == q {
                        Some(s[i as int].1@)
                    } else {
                        lookup(s.take(i as int), q)
                    });
                }
            } else {
                assert forall|q: Seq<u8>|
                    #[trigger] lookup(kept@, q) == if q == key@ {
                        None
                    } else {
                        lookup(cur, q)
                    } by {
                    assert(lookup(cur, q) == if s[i as int].0@ == q {
                        Some(s[i as int].1@)
                    } else {
                        lookup(s.take(i as int), q)
                    });
                }
            }
            i = i + 1;
        }
        assert(s.take(i as int) =~= s);
        self.entries = kept;
        assert(self@ =~= map_of(s).remove(key@));
    }
}

/// Errors of the in-memory storage adapter.
#[derive(Debug, PartialEq, Eq, Structural)]
pub enum MemoryAdapterError {
    BatchLengthMismatch,
}

impl ByteMap {
    /// A copy of the pairs, each key once.
    pub fn pairs(&self) -> (r: Vec<(Vec<u8>, Vec<u8>)>)
        ensures
            map_of(r@) == self@,
    {
        let mut r: Vec<(Vec<u8>, Vec<u8>)> = Vec::new();
        let mut i: usize = 0;
        while i < self.entries.len()
            invariant
                i <= self.entries@.len(),
                forall|q: Seq<u8>| #[trigger] lookup(r@, q) == lookup(self.entries@.take(i as int), q),
            decreases self.entries@.len() - i,
        {
            let ghost before = r@;
            let ghost s = self.entries@;
            assert(s.take(i + 1).drop_last() =~= s.take(i as int));
            assert(s.take(i + 1).last() == s[i as int]);
            let e = (copy_bytes(&self.entries[i].0), copy_bytes(&self.entries[i].1));
            r.push(e);
            assert(r@.drop_last() =~= before);
            assert forall|q: Seq<u8>| #[trigger] lookup(r@, q) == lookup(s.take(i + 1), q) by {
                assert(lookup(r@, q) == if e.0@ == q {
                    Some(e.1@)
                } else {
                    lookup(before, q)
                });
                assert(lookup(s.take(i + 1), q) == if s[i as int].0@ == q {
                    Some(s[i as int].1@)
                } else {
                    lookup(s.take(i as int), q)
                });
            }
            i = i + 1;
        }
        assert(self.entries@.take(i as int) =~= self.entries@);
        assert(map_of(r@) =~= self@);
        r
    }
}

/// The contents of category `c` of a list of named categories: those of its
/// last entry named `c`, or nothing.
pub open spec fn category_of(s: Seq<(Vec<u8>, ByteMap)>, c: Seq<u8>) -> Map<Seq<u8>, Seq<u8>>
    decreases s.len(),
{
    if s.len() == 0 {
        Map::empty()
    } else if s.last().0@ == c {
        s.last().1@
    } else {
        category_of(s.drop_last(), c)
    }
}

proof fn lemma_category_update(s: Seq<(Vec<u8>, ByteMap)>, i: int, e: (Vec<u8>, ByteMap), c: Seq<u8>)
    requires
        0 <= i < s.len(),
        s[i].0@ == e.0@,
        forall|j: int| i < j < s.len() ==> s[j].0@ != e.0@,
    ensures
        category_of(s.update(i, e), c) == if c == e.0@ {
            e.1@
        } else {
            category_of(s, c)
        },
    decreases s.len(),
{
    let t = s.update(i, e);
    if i == s.len() - 1 {
        assert(t.drop_last() =~= s.drop_last());
    } else {
        assert(t.drop_last() =~= s.drop_last().update(i, e));
        lemma_category_update(s.drop_last(), i, e, c);
    }
}

proof fn lemma_category_found(s: Seq<(Vec<u8>, ByteMap)>, i: int)
    requires
        0 <= i < s.len(),
        forall|j: int| i < j < s.len() ==> s[j].0@ != s[i].0@,
    ensures
        category_of(s, s[i].0@) == s[i].1@,
    decreases s.len(),
{
    if i < s.len() - 1 {
        lemma_category_found(s.drop_last(), i);
    }
}

proof fn lemma_category_absent(s: Seq<(Vec<u8>, ByteMap)>, c: Seq<u8>)
    requires
        forall|j: int| 0 <= j < s.len() ==> s[j].0@ != c,
    ensures
        category_of(s, c) == Map::<Seq<u8>, Seq<u8>>::empty(),
    decreases s.len(),
{
    if s.len() > 0 {
        lemma_category_absent(s.drop_last(), c);
    }
}

/// A map after a batch of writes: `Some(v)` puts `v` under its key, `None`
/// deletes the key, in order.
pub open spec fn apply_batch(m: Map<Seq<u8>, Seq<u8>>, keys: Seq<Vec<u8>>, vals: Seq<Option<Vec<u8>>>) -> Map<
    Seq<u8>,
    Seq<u8>,
>
    decreases keys.len(),
{
    if keys.len() == 0 || vals.len() == 0 {
        m
    } else {
        let before = apply_batch(m, keys.drop_last(), vals.drop_last());
        match vals.last() {
            Some(v) => before.insert(keys.last()@, v@),
            None => before.remove(keys.last()@),
        }
    }
}

/// A storage adapter that keeps named categories of key/value pairs in memory.
pub struct MemoryAdapter {
    db: Vec<(Vec<u8>, ByteMap)>,
}

impl Default for MemoryAdapter {
    fn default() -> (r: MemoryAdapter)
        ensures
            forall|c: Seq<u8>| #[trigger] r.category(c) == Map::<Seq<u8>, Seq<u8>>::empty(),
    {
        MemoryAdapter::new()
    }
}

/// A snapshot of the pairs of one category.
pub struct MemoryIntoIterator {
    items: Vec<(Vec<u8>, Vec<u8>)>,
}

impl MemoryIntoIterator {
    pub closed spec fn items(&self) -> Seq<(Vec<u8>, Vec<u8>)> {
        self.items@
    }

    /// A walk over the snapshot from its start.
    pub fn ref_to_iter(&self) -> (r: MemoryIterator)
        ensures
            r.wf(),
            r.remaining() == r.all_items(),
            r.all_items().len() == self.items().len(),
            forall|i: int|
                0 <= i < self.items().len() ==> (#[trigger] r.all_items()[i]).0@ == self.items()[i].0@
                    && r.all_items()[i].1@ == self.items()[i].1@,
    {
        let mut items: Vec<(Vec<u8>, Vec<u8>)> = Vec::with_capacity(self.items.len());
        let mut i: usize = 0;
        while i < self.items.len()
            invariant
                i <= self.items@.len(),
                items@.len() == i,
                forall|k: int|
                    0 <= k < i ==> (#[trigger] items@[k]).0@ == self.items@[k].0@ && items@[k].1@
                        == self.items@[k].1@,
            decreases self.items@.len() - i,
        {
            items.push((copy_bytes(&self.items[i].0), copy_bytes(&self.items[i].1)));
            i = i + 1;
        }
        let r = MemoryIterator { items, pos: 0 };
        assert(r.items@.skip(0) =~= r.items@);
        r
    }
}

/// The pairs of one category, handed out one by one.
pub struct MemoryIterator {
    items: Vec<(Vec<u8>, Vec<u8>)>,
    pos: usize,
}

impl MemoryIterator {
    /// What is left to hand out.
    pub closed spec fn remaining(&self) -> Seq<(Vec<u8>, Vec<u8>)> {
        self.items@.skip(self.pos as int)
    }

    pub closed spec fn all_items(&self) -> Seq<(Vec<u8>, Vec<u8>)> {
        self.items@
    }

    pub closed spec fn wf(&self) -> bool {
        self.pos <= self.items@.len()
    }

    pub fn next(&mut self) -> (r: Option<(Vec<u8>, Vec<u8>)>)
        requires
            old(self).wf(),
        ensures
            final(self).wf(),
            final(self).all_items() == old(self).all_items(),
            old(self).remaining().len() == 0 ==> r is None && final(self).remaining() == old(self).remaining(),
            old(self).remaining().len() > 0 ==> (r matches Some(p) && p.0@ == old(self).remaining()[0].0@
                && p.1@ == old(self).remaining()[0].1@) && final(self).remaining() == old(self).remaining().drop_first(),
    {
        if self.pos >= self.items.len() {
            return None;
        }
        let p = (copy_bytes(&self.items[self.pos].0), copy_bytes(&self.items[self.pos].1));
        let ghost rest = self.items@.skip(self.pos as int);
        self.pos = self.pos + 1;
        assert(self.items@.skip(self.pos as int) =~= rest.drop_first());
        Some(p)
    }
}

impl MemoryAdapter {
    /// What category `c` holds.
    pub closed spec fn category(&self, c: Seq<u8>) -> Map<Seq<u8>, Seq<u8>> {
        category_of(self.db@, c)
    }

    pub fn new() -> (r: MemoryAdapter)
        ensures
            forall|c: Seq<u8>| #[trigger] r.category(c) == Map::<Seq<u8>, Seq<u8>>::empty(),
    {
        MemoryAdapter { db: Vec::new() }
    }

    /// The index of the last category named `name`.
    fn find(&self, name: &Vec<u8>) -> (r: Option<usize>)
        ensures
            match r {
                Some(i) => i < self.db@.len() && self.db@[i as int].0@ == name@ && forall|j: int|
                    i < j < self.db@.len() ==> self.db@[j].0@ != name@,
                None => forall|j: int| 0 <= j < self.db@.len() ==> self.db@[j].0@ != name@,
            },
    {
        let mut i: usize = self.db.len();
        while i > 0
            invariant
                i <= self.db@.len(),
                forall|j: int| i <= j < self.db@.len() ==> self.db@[j].0@ != name@,
            decreases i,
        {
            if crate::consensus::bytes_eq(&self.db[i - 1].0, name) {
                return Some(i - 1);
            }
            i = i - 1;
        }
        None
    }

    /// The index of the category named `name`, made empty where missing.
    fn ensure_category(&mut self, name: &Vec<u8>) -> (i: usize)
        ensures
            i < final(self).db@.len(),
            final(self).db@[i as int].0@ == name@,
            forall|j: int| i < j < final(self).db@.len() ==> final(self).db@[j].0@ != name@,
            forall|c: Seq<u8>| #[trigger] final(self).category(c) == old(self).category(c),
    {
        match self.find(name) {
            Some(i) => i,
            None => {
                let ghost s = self.db@;
                proof {
                    lemma_category_absent(s, name@);
                }
                self.db.push((copy_bytes(name), ByteMap::new()));
                assert(self.db@.drop_last() =~= s);
                (self.db.len() - 1)
            },
        }
    }

    /// Puts `value` under `key` in category `name`, or deletes `key` there where `value` is `None`.
    fn with_category(&mut self, name: &Vec<u8>, key: Vec<u8>, value: Option<Vec<u8>>)
        ensures
            forall|c: Seq<u8>|
                #[trigger] final(self).category(c) == if c == name@ {
                    match value {
                        Some(v) => old(self).category(c).insert(key@, v@),
                        None => old(self).category(c).remove(key@),
                    }
                } else {
                    old(self).category(c)
                },
    {
        let ghost start = *self;
        let i = self.ensure_category(name);
        let ghost mid = *self;
        let ghost s = self.db@;
        let mut m = ByteMap::new();
        proof {
            lemma_category_found(s, i as int);
        }
        let (entry_name, mut m) = self.db.remove(i);
        match value {
            Some(v) => m.insert(key, v),
            None => m.remove(&key),
        }
        let ghost e = (entry_name, m);
        self.db.insert(i, (entry_name, m));
        assert(self.db@ =~= s.update(i as int, e));
        proof {
            assert forall|c: Seq<u8>| #[trigger] self.category(c) == if c == name@ {
                match value {
                    Some(v) => start.category(c).insert(key@, v@),
                    None => start.category(c).remove(key@),
                }
            } else {
                start.category(c)
            } by {
                lemma_category_update(s, i as int, e, c);
                assert(mid.category(c) == start.category(c));
                assert(mid.category(c) == category_of(s, c));
            }
        }
        proof {
            assert forall|c: Seq<u8>| #[trigger] category_of(s.update(i as int, e), c) == if c == name@ {
                e.1@
            } else {
                category_of(s, c)
            } by {
                lemma_category_update(s, i as int, e, c);
            }
        }
    }

    pub fn insert(&mut self, category: &Vec<u8>, key: Vec<u8>, val: Vec<u8>)
        ensures
            final(self).category(category@) == old(self).category(category@).insert(key@, val@),
            forall|c: Seq<u8>| c != category@ ==> #[trigger] final(self).category(c) == old(self).category(c),
    {
        self.with_category(category, key, Some(val));
    }

    pub fn remove(&mut self, category: &Vec<u8>, key: &Vec<u8>)
        ensures
            final(self).category(category@) == old(self).category(category@).remove(key@),
            forall|c: Seq<u8>| c != category@ ==> #[trigger] final(self).category(c) == old(self).category(c),
    {
        self.with_category(category, copy_bytes(key), None);
    }

    pub fn get(&self, category: &Vec<u8>, key: &Vec<u8>) -> (r: Option<Vec<u8>>)
        ensures
            match r {
                Some(v) => self.category(category@).contains_key(key@) && self.category(category@)[key@] == v@,
                None => !self.category(category@).contains_key(key@),
            },
    {
        match self.find(category) {
            Some(i) => {
                proof {
                    lemma_category_found(self.db@, i as int);
                }
                self.db[i].1.get(key)
            },
            None => {
                proof {
                    lemma_category_absent(self.db@, category@);
                }
                None
            },
        }
    }

    pub fn contains(&self, category: &Vec<u8>, key: &Vec<u8>) -> (r: bool)
        ensures
            r == self.category(category@).contains_key(key@),
    {
        self.get(category, key).is_some()
    }

    /// Applies a batch of writes to one category: `Some(v)` puts `v` under its
    /// key, `None` deletes the key. Keys and writes must pair up one to one.
    pub fn batch_modify(&mut self, category: &Vec<u8>, keys: Vec<Vec<u8>>, vals: Vec<Option<Vec<u8>>>) -> (r:
        Result<(), MemoryAdapterError>)
        ensures
            keys@.len() != vals@.len() ==> r == Err::<(), MemoryAdapterError>(
                MemoryAdapterError::BatchLengthMismatch,
            ) && forall|c: Seq<u8>| #[trigger] final(self).category(c) == old(self).category(c),
            keys@.len() == vals@.len() ==> r is Ok && final(self).category(category@) == apply_batch(
                old(self).category(category@),
                keys@,
                vals@,
            ),
            forall|c: Seq<u8>| c != category@ ==> #[trigger] final(self).category(c) == old(self).category(c),
    {
        if keys.len() != vals.len() {
            return Err(MemoryAdapterError::BatchLengthMismatch);
        }
        let ghost start = *self;
        let mut i: usize = 0;
        while i < keys.len()
            invariant
                keys@.len() == vals@.len(),
                i <= keys@.len(),
                self.category(category@) == apply_batch(
                    start.category(category@),
                    keys@.take(i as int),
                    vals@.take(i as int),
                ),
                forall|c: Seq<u8>| c != category@ ==> #[trigger] self.category(c) == start.category(c),
            decreases keys@.len() - i,
        {
            assert(keys@.take(i + 1).drop_last() =~= keys@.take(i as int));
            assert(vals@.take(i + 1).drop_last() =~= vals@.take(i as int));
            assert(keys@.take(i + 1).last() == keys@[i as int]);
            assert(vals@.take(i + 1).last() == vals@[i as int]);
            let value = match &vals[i] {
                Some(v) => Some(copy_bytes(v)),
                None => None,
            };
            self.with_category(category, copy_bytes(&keys[i]), value);
            i = i + 1;
        }
        assert(keys@.take(i as int) =~= keys@);
        assert(vals@.take(i as int) =~= vals@);
        Ok(())
    }

    /// A snapshot of category `name`, to be walked one by one.
    pub fn prepare_iter(&self, name: &Vec<u8>) -> (r: MemoryIntoIterator)
        ensures
            map_of(r.items()) == self.category(name@),
    {
        let items = match self.find(name) {
            Some(i) => {
                proof {
                    lemma_category_found(self.db@, i as int);
                }
                self.db[i].1.pairs()
            },
            None => {
                proof {
                    lemma_category_absent(self.db@, name@);
                    assert(map_of(Seq::<(Vec<u8>, Vec<u8>)>::empty()) =~= Map::<Seq<u8>, Seq<u8>>::empty());
                }
                Vec::new()
            },
        };
        MemoryIntoIterator { items }
    }
}

/// A map after putting `vals[i]` under `keys[i]` for each `i` in order.
pub open spec fn put_all(m: Map<Seq<u8>, Seq<u8>>, keys: Seq<Vec<u8>>, vals: Seq<Vec<u8>>) -> Map<
    Seq<u8>,
    Seq<u8>,
>
    decreases keys.len(),
{
    if keys.len() == 0 || vals.len() == 0 {
        m
    } else {
        put_all(m, keys.drop_last(), vals.drop_last()).insert(keys.last()@, vals.last()@)
    }
}

/// Errors of a key/value store.
#[derive(Debug, PartialEq, Eq, Structural)]
pub enum StoreError {
    Io,
}

/// A durable key/value store under the state trie.
pub trait TrieStore {
    /// What the store holds.
    spec fn stored(&self) -> Map<Seq<u8>, Seq<u8>>;

    fn get(&self, key: &Vec<u8>) -> (r: Result<Option<Vec<u8>>, StoreError>)
        ensures
            r matches Ok(Some(v)) ==> self.stored().contains_key(key@) && self.stored()[key@] == v@,
            r matches Ok(None) ==> !self.stored().contains_key(key@),
    ;

    fn put(&mut self, key: Vec<u8>, value: Vec<u8>) -> (r: Result<(), StoreError>)
        ensures
            r is Ok ==> final(self).stored() == old(self).stored().insert(key@, value@),
            r is Err ==> final(self).stored() == old(self).stored(),
    ;

    /// Puts every pair of a batch, all or none.
    fn write_batch(&mut self, keys: &Vec<Vec<u8>>, vals: &Vec<Vec<u8>>) -> (r: Result<(), StoreError>)
        requires
            keys@.len() == vals@.len(),
        ensures
            r is Ok ==> final(self).stored() == put_all(old(self).stored(), keys@, vals@),
            r is Err ==> final(self).stored() == old(self).stored(),
    ;
}

/// A store kept in memory.
pub struct MemoryStore {
    map: ByteMap,
}

impl MemoryStore {
    pub fn new() -> (r: MemoryStore)
        ensures
            r.stored() == Map::<Seq<u8>, Seq<u8>>::empty(),
    {
        MemoryStore { map: ByteMap::new() }
    }
}

impl TrieStore for MemoryStore {
    closed spec fn stored(&self) -> Map<Seq<u8>, Seq<u8>> {
        self.map@
    }

    fn get(&self, key: &Vec<u8>) -> (r: Result<Option<Vec<u8>>, StoreError>) {
        Ok(self.map.get(key))
    }

    fn put(&mut self, key: Vec<u8>, value: Vec<u8>) -> (r: Result<(), StoreError>) {
        self.map.insert(key, value);
        Ok(())
    }

    fn write_batch(&mut self, keys: &Vec<Vec<u8>>, vals: &Vec<Vec<u8>>) -> (r: Result<(), StoreError>) {
        let ghost start = self.map@;
        let mut i: usize = 0;
        while i < keys.len()
            invariant
                keys@.len() == vals@.len(),
                i <= keys@.len(),
                self.map@ == put_all(start, keys@.take(i as int), vals@.take(i as int)),
            decreases keys@.len() - i,
        {
            assert(keys@.take(i + 1).drop_last() =~= keys@.take(i as int));
            assert(vals@.take(i + 1).drop_last() =~= vals@.take(i as int));
            assert(keys@.take(i + 1).last() == keys@[i as int]);
            assert(vals@.take(i + 1).last() == vals@[i as int]);
            self.map.insert(copy_bytes(&keys[i]), copy_bytes(&vals[i]));
            i = i + 1;
        }
        assert(keys@.take(i as int) =~= keys@);
        assert(vals@.take(i as int) =~= vals@);
        Ok(())
    }
}

} // verus!
