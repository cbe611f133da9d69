use axon_core::mempool::{check_dup_order_hashes, AdmitAction, MemPoolError, MemPoolImpl};
use axon_core::pool::PriorityPool;
use axon_core::types::{Address, SignedTransaction, H256};
use tiny_keccak::{Hasher, Keccak};

fn digest(data: &[u8]) -> H256 {
    let mut out = [0u8; 32];
    let mut k = Keccak::v256();
    k.update(data);
    k.finalize(&mut out);
    H256::new(out)
}

fn mock_tx(i: u64, gas_limit: u64, gas_price: u64) -> SignedTransaction {
    let hash = digest(format!("tx-{}", i).as_bytes());
    let mut sender = [0u8; 20];
    sender[0] = (i % 7) as u8;
    SignedTransaction::new(hash, Address::new(sender), i, gas_limit, gas_price)
}

fn mock_txs(n: u64) -> Vec<SignedTransaction> {
    (0..n).map(|i| mock_tx(i, 21000, 1 + i % 13)).collect()
}

fn mock_sys_txs(n: u64) -> Vec<SignedTransaction> {
    (0..n).map(|i| mock_tx(1_000_000 + i, 21000, 1)).collect()
}

fn add_tx(mempool: &mut MemPoolImpl<()>, tx: SignedTransaction, sys: bool) -> Result<AdmitAction, MemPoolError> {
    mempool.insert_tx(tx, sys, Ok(()), false)
}

#[test]
fn test_dup_order_hashes() {
    let hashes = vec![
        digest(b"test1"),
        digest(b"test2"),
        digest(b"test3"),
        digest(b"test4"),
        digest(b"test2"),
    ];
    assert!(check_dup_order_hashes(&hashes).is_err());

    let hashes = vec![digest(b"test1"), digest(b"test2"), digest(b"test3"), digest(b"test4")];
    assert!(check_dup_order_hashes(&hashes).is_ok());
}

#[test]
fn dup_order_reports_first_repeat() {
    let hashes = vec![digest(b"a"), digest(b"b"), digest(b"b"), digest(b"a")];
    match check_dup_order_hashes(&hashes) {
        Err(MemPoolError::EnsureDup(h)) => assert_eq!(h, digest(b"b")),
        other => panic!("unexpected {:?}", other),
    }
    assert!(check_dup_order_hashes(&vec![]).is_ok());
}

#[test]
fn test_insert() {
    // insertion under pool size
    let mut mempool = MemPoolImpl::new(100, ());
    for tx in mock_txs(100) {
        add_tx(&mut mempool, tx, false).unwrap();
    }
    assert_eq!(mempool.get_tx_cache().len(), 100);

    // invalid insertion
    let mut mempool = MemPoolImpl::new(800, ());
    for tx in mock_txs(80) {
        add_tx(&mut mempool, tx, false).unwrap();
    }
    for i in 0..10u64 {
        let tx = mock_tx(500 + i, 21000, 1);
        let bad = Err(MemPoolError::CheckAuthorization { tx_hash: tx.hash, err_info: String::from("bad signature") });
        assert!(mempool.insert_tx(tx, false, bad, false).is_err());
    }
    assert_eq!(mempool.get_tx_cache().len(), 80);
}

#[test]
fn insert_follow_up_depends_on_origin() {
    let mut mempool = MemPoolImpl::new(10, ());
    let txs = mock_txs(2);
    assert_eq!(mempool.insert_tx(txs[0], false, Ok(()), false).unwrap(), AdmitAction::Broadcast);
    assert_eq!(mempool.insert_tx(txs[1], false, Ok(()), true).unwrap(), AdmitAction::ReportGood);
}

#[test]
fn insert_then_duplicate() {
    let mut pool = PriorityPool::new(10);
    let tx = mock_tx(1, 21000, 5);
    pool.insert(tx).unwrap();
    assert!(pool.contains(&tx.hash));
    assert!(matches!(pool.insert(tx), Err(MemPoolError::Dup(h)) if h == tx.hash));
    assert!(matches!(pool.insert_system_script_tx(tx), Err(MemPoolError::Dup(_))));
    assert_eq!(pool.len(), 1);
}

#[test]
fn full_pool_and_package_all() {
    let mut mempool = MemPoolImpl::new(100, ());
    for tx in mock_txs(100) {
        add_tx(&mut mempool, tx, false).unwrap();
    }
    let all = mempool.package(u64::MAX, 100);
    assert_eq!(all.len(), 100);
    let extra = mock_tx(100, 21000, 1);
    assert!(matches!(add_tx(&mut mempool, extra, false), Err(MemPoolError::ReachLimit(100))));
    assert_eq!(mempool.len(), 100);
}

#[test]
fn test_package() {
    for (insert, expect) in [(50u64, 50usize), (100, 100), (101, 100), (200, 100), (201, 100)] {
        let mut mempool = MemPoolImpl::new((insert * 10) as usize, ());
        for tx in mock_txs(insert) {
            add_tx(&mut mempool, tx, false).unwrap();
        }
        assert_eq!(mempool.package(u64::MAX, 100).len(), expect);
    }
}

#[test]
fn package_orders_by_priority_and_stops_at_gas() {
    let mut pool = PriorityPool::new(10);
    let a = mock_tx(1, 10, 3);
    let b = mock_tx(2, 10, 9);
    let c = mock_tx(3, 10, 3);
    let d = mock_tx(4, 10, 5);
    for t in [a, b, c, d] {
        pool.insert(t).unwrap();
    }
    let s = mock_tx(5, 10, 0);
    pool.insert_system_script_tx(s).unwrap();
    let all = pool.package(1000, 10);
    assert_eq!(all, vec![s.hash, b.hash, d.hash, a.hash, c.hash]);
    // 35 gas fits three transactions of 10, not a fourth.
    assert_eq!(pool.package(35, 10), vec![s.hash, b.hash, d.hash]);
    // exactly 40 fits four.
    assert_eq!(pool.package(40, 10).len(), 4);
    assert_eq!(pool.package(1000, 2), vec![s.hash, b.hash]);
    assert_eq!(pool.package(1000, 0).len(), 0);
    assert_eq!(pool.len(), 5);
}

#[test]
fn test_package_multi_types() {
    let mut mempool = MemPoolImpl::new(1024, ());
    let evm_txs = mock_txs(1024);
    let sys_txs = mock_sys_txs(5);
    for tx in sys_txs.iter() {
        add_tx(&mut mempool, *tx, true).unwrap();
    }
    for tx in evm_txs.iter() {
        add_tx(&mut mempool, *tx, false).unwrap();
    }
    assert_eq!(mempool.get_tx_cache().system_script_queue_len(), 5);

    let package_txs = mempool.package(1_000_000_000, 10000);
    let sys_hashes: Vec<H256> = sys_txs.iter().map(|t| t.hash).collect();
    assert_eq!(package_txs[..5].to_vec(), sys_hashes);
    assert_eq!(package_txs.len(), 1024 + 5);

    mempool.flush(&package_txs, |_t| true);
    assert_eq!(mempool.get_tx_cache().system_script_queue_len(), 0);
    assert_eq!(mempool.len(), 0);
}

#[test]
fn package_all_then_flush_all() {
    let mut mempool = MemPoolImpl::new(1024, ());
    for tx in mock_sys_txs(5) {
        add_tx(&mut mempool, tx, true).unwrap();
    }
    for tx in mock_txs(1024) {
        add_tx(&mut mempool, tx, false).unwrap();
    }
    // A full ordinary queue turns away system-script transactions too.
    assert!(matches!(add_tx(&mut mempool, mock_tx(77_777, 1, 1), true), Err(MemPoolError::ReachLimit(1024))));
    let hashes = mempool.package(1_000_000_000, 10000);
    assert_eq!(hashes.len(), 1029);
    assert_eq!(mempool.get_tx_cache().system_script_queue_len(), 5);
    mempool.flush(&hashes, |_t| true);
    assert_eq!(mempool.get_tx_cache().system_script_queue_len(), 0);
    assert_eq!(mempool.get_tx_cache().real_queue_len(), 0);
    assert!(mempool.is_empty());
}

#[test]
fn test_flush() {
    let mut mempool = MemPoolImpl::new(1000, ());
    let txs = mock_txs(555);
    for tx in txs.iter() {
        add_tx(&mut mempool, *tx, false).unwrap();
    }
    assert_eq!(mempool.get_tx_cache().len(), 555);

    let remove_hashes: Vec<H256> = txs[..123].iter().map(|tx| tx.hash).collect();
    mempool.flush(&remove_hashes, |_t| true);
    assert_eq!(mempool.len(), 432);
    for h in remove_hashes.iter() {
        assert!(!mempool.get_tx_cache().contains(h));
    }
    mempool.package(u64::MAX, 1000);
    assert_eq!(mempool.len(), 432);

    let absent: Vec<H256> = (0..222u64).map(|i| mock_tx(9000 + i, 1, 1).hash).collect();
    mempool.flush(&absent, |_t| true);
    assert_eq!(mempool.get_tx_cache().len(), 432);
}

#[test]
fn flush_drops_stale_nonces() {
    let mut mempool = MemPoolImpl::new(100, ());
    for tx in mock_txs(10) {
        add_tx(&mut mempool, tx, false).unwrap();
    }
    mempool.flush(&vec![], |t| t.nonce >= 4);
    assert_eq!(mempool.len(), 6);
    assert!(!mempool.get_tx_cache().contains(&mock_tx(3, 0, 0).hash));
    assert!(mempool.get_tx_cache().contains(&mock_tx(4, 0, 0).hash));
}

#[test]
fn count_by_address() {
    let mut mempool = MemPoolImpl::new(100, ());
    for tx in mock_txs(14) {
        add_tx(&mut mempool, tx, false).unwrap();
    }
    let mut sender = [0u8; 20];
    sender[0] = 0;
    assert_eq!(mempool.get_tx_count_by_address(&Address::new(sender)), 2);
    sender[0] = 6;
    assert_eq!(mempool.get_tx_count_by_address(&Address::new(sender)), 2);
    sender[0] = 9;
    assert_eq!(mempool.get_tx_count_by_address(&Address::new(sender)), 0);
}

#[test]
fn test_ensure_order_txs() {
    for (in_pool, out_pool) in [(100u64, 0u64), (50, 50), (0, 100)] {
        let mut mempool = MemPoolImpl::new(1000, ());
        let txs = mock_txs(in_pool + out_pool);
        for tx in txs[..in_pool as usize].iter() {
            add_tx(&mut mempool, *tx, false).unwrap();
        }
        let tx_hashes: Vec<H256> = txs.iter().map(|tx| tx.hash).collect();
        check_dup_order_hashes(&tx_hashes).unwrap();
        let unknown = mempool.show_unknown_txs(&tx_hashes);
        assert_eq!(unknown.len(), out_pool as usize);
        let pulled: Vec<SignedTransaction> = txs[in_pool as usize..].to_vec();
        mempool.insert_pulled_txs(&unknown, pulled, true).unwrap();

        let fetch_txs = mempool.get_full_txs(&tx_hashes, vec![]).unwrap();
        assert_eq!(fetch_txs.len(), txs.len());
    }
}

#[test]
fn ensure_order_pull_errors() {
    let mut mempool = MemPoolImpl::new(100, ());
    let txs = mock_txs(3);
    let hashes: Vec<H256> = txs.iter().map(|t| t.hash).collect();
    let unknown = mempool.show_unknown_txs(&hashes);
    assert!(matches!(
        mempool.insert_pulled_txs(&unknown, txs[..2].to_vec(), true),
        Err(MemPoolError::EnsureBreak { require: 3, response: 2 })
    ));
    assert!(matches!(
        mempool.insert_pulled_txs(&unknown, txs.clone(), false),
        Err(MemPoolError::VerifyBatchTransactions)
    ));
    assert_eq!(mempool.len(), 0);
}

#[test]
fn full_txs_mismatch() {
    let mut mempool = MemPoolImpl::new(100, ());
    let txs = mock_txs(4);
    add_tx(&mut mempool, txs[0], false).unwrap();
    add_tx(&mut mempool, txs[2], false).unwrap();
    let hashes: Vec<H256> = txs.iter().map(|t| t.hash).collect();
    let full = mempool.get_full_txs(&hashes, vec![txs[1], txs[3]]).unwrap();
    assert_eq!(full.len(), 4);
    assert_eq!(full[0].hash, txs[0].hash);
    assert_eq!(full[1].hash, txs[2].hash);
    assert_eq!(full[2].hash, txs[1].hash);
    assert!(matches!(
        mempool.get_full_txs(&hashes, vec![txs[1]]),
        Err(MemPoolError::MisMatch { require: 4, response: 3 })
    ));
    assert_eq!(mempool.co_queue_len(), 0);
}
