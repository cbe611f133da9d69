use axon_core::storage::{MemoryAdapter, MemoryAdapterError, MemoryStore};
use axon_core::trie_db::{rand_remove_indices, rand_remove_list, RocksTrieDB, RocksTrieDBError};

fn rand_bytes(len: usize) -> Vec<u8> {
    (0..len).map(|_| rand::random::<u8>()).collect()
}

#[test]
fn test_rand_remove() {
    let list = (0..10).collect::<Vec<_>>();
    let keys = list.iter().collect::<Vec<_>>();

    for num in 1..10 {
        let res = rand_remove_list(keys.clone(), num);
        assert_eq!(res.len(), num);
    }
}

#[test]
fn rand_remove_is_fixed_and_distinct() {
    let a = rand_remove_indices(50, 20);
    let b = rand_remove_indices(50, 20);
    assert_eq!(a, b);
    let mut sorted = a.clone();
    sorted.sort();
    sorted.dedup();
    assert_eq!(sorted.len(), 20);
    assert!(a.iter().all(|i| *i < 50));
    let all = rand_remove_indices(5, 5);
    let mut s = all.clone();
    s.sort();
    assert_eq!(s, vec![0, 1, 2, 3, 4]);
}

#[test]
fn test_trie_insert() {
    let key_1 = rand_bytes(32);
    let val_1 = rand_bytes(128);
    let key_2 = rand_bytes(32);
    let val_2 = rand_bytes(256);

    let mut trie = RocksTrieDB::new(MemoryStore::new(), 100);

    trie.insert(key_1.clone(), val_1.clone()).unwrap();
    trie.insert(key_2.clone(), val_2.clone()).unwrap();

    let get_1 = trie.get(&key_1).unwrap();
    assert_eq!(val_1, get_1.unwrap());

    let get_2 = trie.get(&key_2).unwrap();
    assert_eq!(val_2, get_2.unwrap());

    let val_3 = rand_bytes(256);
    trie.insert(key_1.clone(), val_3.clone()).unwrap();
    let get_3 = trie.get(&key_1).unwrap();
    assert_eq!(val_3, get_3.unwrap());
}

#[test]
fn test_trie_cache() {
    let key_1 = rand_bytes(32);
    let val_1 = rand_bytes(128);
    let key_2 = rand_bytes(32);
    let val_2 = rand_bytes(256);

    let mut trie = RocksTrieDB::new(MemoryStore::new(), 100);

    trie.insert(key_1.clone(), val_1.clone()).unwrap();
    trie.insert(key_2.clone(), val_2.clone()).unwrap();

    let get_1 = trie.get(&key_1).unwrap();
    assert_eq!(val_1, get_1.unwrap());
    assert_eq!(trie.cache_len(), 2);

    let get_2 = trie.get(&key_2).unwrap();
    assert_eq!(val_2, get_2.unwrap());
    assert_eq!(trie.cache_len(), 2);

    let get_1 = trie.cache_get(&key_1).unwrap();
    assert_eq!(val_1, get_1);

    let val_3 = rand_bytes(256);
    trie.insert(key_1.clone(), val_3.clone()).unwrap();
    let get_3 = trie.cache_get(&key_1).unwrap();
    assert_eq!(val_3, get_3);
    assert_eq!(trie.cache_len(), 2);
}

#[test]
fn eviction_reloads_from_store() {
    let k1 = vec![1u8; 4];
    let k2 = vec![2u8; 4];
    let mut trie = RocksTrieDB::new(MemoryStore::new(), 1);
    trie.insert(k1.clone(), vec![10]).unwrap();
    trie.insert(k2.clone(), vec![20]).unwrap();
    assert_eq!(trie.cache_len(), 2);
    trie.flush().unwrap();
    assert_eq!(trie.cache_len(), 1);
    let (evicted, value) = if trie.cache_get(&k1).is_none() { (k1, vec![10]) } else { (k2, vec![20]) };
    assert!(trie.cache_get(&evicted).is_none());
    assert_eq!(trie.get(&evicted).unwrap(), Some(value.clone()));
    assert_eq!(trie.cache_get(&evicted), Some(value));
    assert_eq!(trie.cache_len(), 2);
    // Under the target nothing is evicted.
    let mut small = RocksTrieDB::new(MemoryStore::new(), 5);
    small.insert(vec![1], vec![1]).unwrap();
    small.flush().unwrap();
    assert_eq!(small.cache_len(), 1);
}

#[test]
fn trie_contains_batch_and_remove() {
    let mut trie = RocksTrieDB::new(MemoryStore::new(), 10);
    assert!(!trie.contains(&vec![7]).unwrap());
    assert_eq!(trie.get(&vec![7]).unwrap(), None);
    assert_eq!(
        trie.insert_batch(vec![vec![1], vec![2]], vec![vec![10]]),
        Err(RocksTrieDBError::BatchLengthMismatch)
    );
    trie.insert_batch(vec![vec![1], vec![2], vec![1]], vec![vec![10], vec![20], vec![11]]).unwrap();
    assert_eq!(trie.get(&vec![1]).unwrap(), Some(vec![11]));
    assert_eq!(trie.get(&vec![2]).unwrap(), Some(vec![20]));
    assert!(trie.contains(&vec![2]).unwrap());
    trie.remove(&vec![1]).unwrap();
    trie.remove_batch(&vec![vec![2]]).unwrap();
    assert_eq!(trie.get(&vec![1]).unwrap(), Some(vec![11]));
}

#[test]
fn memory_adapter_categories() {
    let cat_a = b"block".to_vec();
    let cat_b = b"receipt".to_vec();
    let mut db = MemoryAdapter::new();
    db.insert(&cat_a, vec![1], vec![10]);
    db.insert(&cat_b, vec![1], vec![99]);
    assert_eq!(db.get(&cat_a, &vec![1]), Some(vec![10]));
    assert_eq!(db.get(&cat_b, &vec![1]), Some(vec![99]));
    db.remove(&cat_a, &vec![1]);
    assert!(!db.contains(&cat_a, &vec![1]));
    assert!(db.contains(&cat_b, &vec![1]));

    assert_eq!(
        db.batch_modify(&cat_a, vec![vec![1]], vec![]),
        Err(MemoryAdapterError::BatchLengthMismatch)
    );
    db.batch_modify(&cat_a, vec![vec![1], vec![2], vec![1]], vec![Some(vec![1]), Some(vec![2]), None])
        .unwrap();
    assert_eq!(db.get(&cat_a, &vec![1]), None);
    assert_eq!(db.get(&cat_a, &vec![2]), Some(vec![2]));

    let snapshot = db.prepare_iter(&cat_b);
    let mut it = snapshot.ref_to_iter();
    assert_eq!(it.next(), Some((vec![1], vec![99])));
    assert_eq!(it.next(), None);
    let mut empty = db.prepare_iter(&b"none".to_vec()).ref_to_iter();
    assert_eq!(empty.next(), None);
}
