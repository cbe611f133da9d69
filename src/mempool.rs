use vstd::prelude::*;

use crate::pool::{
    has_hash, is_package_len, lead_count, lemma_lead_count_bounds, listed, priority_insert,
    subsequence_of, PriorityPool,
};
use crate::types::{Address, H256, SignedTransaction};

verus! {

/// Errors of transaction admission, batch validation and the pool itself.
#[derive(Debug)]
pub enum MemPoolError {
    ExceedSizeLimit { tx_hash: H256, max_tx_size: usize, size: usize },
    ExceedGasLimit { tx_hash: H256, gas_limit_config: u64, gas_limit_tx: u64 },
    InvalidNonce { current: u64, tx_nonce: u64 },
    Insert(H256),
    ReachLimit(usize),
    Dup(H256),
    EnsureBreak { require: usize, response: usize },
    EnsureDup(H256),
    MisMatch { require: usize, response: usize },
    InsertCandidate(usize),
    CheckAuthorization { tx_hash: H256, err_info: String },
    CheckHash { expect: H256, actual: H256 },
    CommittedTx(H256),
    WrongChain(H256),
    Timeout { tx_hash: H256, timeout: u64 },
    InvalidTimeout(H256),
    VerifyBatchTransactions,
    EncodeJson,
}

/// Where a transaction comes from.
#[derive(Clone, Copy, Debug, PartialEq, Eq, Structural)]
pub enum TxType {
    NewTx,
    ProposeTx,
}

/// What follows the admission of a transaction: one received from a peer
/// earns that peer a good report, one submitted locally is broadcast.
#[derive(Clone, Copy, Debug, PartialEq, Eq, Structural)]
pub enum AdmitAction {
    Broadcast,
    ReportGood,
}

/// No hash occurs twice in `s`.
pub open spec fn all_distinct(s: Seq<H256>) -> bool {
    forall|i: int, j: int| 0 <= i < j < s.len() ==> s[i]@ != s[j]@
}

/// `s[j]` is the first hash of `s` that repeats an earlier one.
pub open spec fn first_repeat_at(s: Seq<H256>, j: int) -> bool {
    &&& 0 <= j < s.len()
    &&& all_distinct(s.take(j))
    &&& listed(s.take(j), s[j]@)
}

/// Rejects a proposed transaction order that names a hash twice, with the
/// first hash that repeats an earlier one.
pub fn check_dup_order_hashes(order_tx_hashes: &Vec<H256>) -> (r: Result<(), MemPoolError>)
    ensures
        all_distinct(order_tx_hashes@) ==> r is Ok,
        !all_distinct(order_tx_hashes@) ==> exists|j: int|
            first_repeat_at(order_tx_hashes@, j) && r == Err::<(), MemPoolError>(
                MemPoolError::EnsureDup(order_tx_hashes@[j]),
            ),
{
    let ghost s = order_tx_hashes@;
    let mut j: usize = 0;
    while j < order_tx_hashes.len()
        invariant
            s == order_tx_hashes@,
            j <= s.len(),
            all_distinct(s.take(j as int)),
        decreases s.len() - j,
    {
        let mut i: usize = 0;
        while i < j
            invariant
                s == order_tx_hashes@,
                j < s.len(),
                all_distinct(s.take(j as int)),
                i <= j,
                forall|k: int| 0 <= k < i ==> s[k]@ != s[j as int]@,
            decreases j - i,
        {
            if order_tx_hashes[i].same_as(&order_tx_hashes[j]) {
                assert(s.take(j as int)[i as int] == s[i as int]);
                assert(first_repeat_at(s, j as int));
                return Err(MemPoolError::EnsureDup(order_tx_hashes[j]));
            }
            i = i + 1;
        }
        let ghost next = s.take(j + 1);
        assert forall|a: int, b: int| 0 <= a < b < j + 1 implies #[trigger] next[a]@ != #[trigger] next[b]@ by {
            if b < j {
                assert(s.take(j as int)[a] == s[a] && s.take(j as int)[b] == s[b]);
            }
        }
        j = j + 1;
    }
    proof {
        assert(s.take(j as int) =~= s);
    }
    Ok(())
}

/// The hashes of `hs` that the pool does not hold, in order.
pub open spec fn unknown_of(pool: PriorityPool, hs: Seq<H256>) -> Seq<H256>
    decreases hs.len(),
{
    if hs.len() == 0 {
        hs
    } else if pool.holds(hs.last()@) {
        unknown_of(pool, hs.drop_last())
    } else {
        unknown_of(pool, hs.drop_last()).push(hs.last())
    }
}

/// The pooled transactions of the hashes of `hs` that the pool holds, in order.
pub open spec fn known_of(pool: PriorityPool, hs: Seq<H256>) -> Seq<SignedTransaction>
    decreases hs.len(),
{
    if hs.len() == 0 {
        Seq::empty()
    } else if pool.holds(hs.last()@) {
        known_of(pool, hs.drop_last()).push(pool.entry(hs.last()@))
    } else {
        known_of(pool, hs.drop_last())
    }
}

/// The mempool: admission, batching and deduplication of pending transactions
/// over a priority pool, with the collaborator that validates them.
pub struct MemPoolImpl<Adapter> {
    pool: PriorityPool,
    adapter: Adapter,
}

impl<Adapter> MemPoolImpl<Adapter> {
    pub closed spec fn tx_pool(&self) -> PriorityPool {
        self.pool
    }

    pub closed spec fn adapter_of(&self) -> Adapter {
        self.adapter
    }

    pub open spec fn wf(&self) -> bool {
        self.tx_pool().wf()
    }

    pub fn new(pool_size: usize, adapter: Adapter) -> (r: Self)
        ensures
            r.wf(),
            r.tx_pool().capacity() == pool_size,
            r.tx_pool().all_txs().len() == 0,
            r.adapter_of() == adapter,
    {
        MemPoolImpl { pool: PriorityPool::new(pool_size), adapter }
    }

    pub fn len(&self) -> (r: usize)
        requires
            self.wf(),
        ensures
            r == self.tx_pool().all_txs().len(),
    {
        self.pool.len()
    }

    pub fn co_queue_len(&self) -> (r: usize)
        ensures
            r == 0,
    {
        self.pool.co_queue_len()
    }

    pub fn is_empty(&self) -> (r: bool)
        requires
            self.wf(),
        ensures
            r == (self.tx_pool().all_txs().len() == 0),
    {
        self.len() == 0
    }

    pub fn get_adapter(&self) -> (r: &Adapter)
        ensures
            *r == self.adapter_of(),
    {
        &self.adapter
    }

    pub fn get_tx_cache(&self) -> (r: &PriorityPool)
        ensures
            *r == self.tx_pool(),
    {
        &self.pool
    }

    /// The hashes of `tx_hashes` that the pool does not hold, in order.
    pub fn show_unknown_txs(&self, tx_hashes: &Vec<H256>) -> (r: Vec<H256>)
        ensures
            r@ == unknown_of(self.tx_pool(), tx_hashes@),
    {
        let ghost hs = tx_hashes@;
        let mut r: Vec<H256> = Vec::new();
        let mut i: usize = 0;
        while i < tx_hashes.len()
            invariant
                hs == tx_hashes@,
                i <= hs.len(),
                r@ == unknown_of(self.tx_pool(), hs.take(i as int)),
            decreases hs.len() - i,
        {
            assert(hs.take(i + 1).drop_last() =~= hs.take(i as int));
            assert(hs.take(i + 1).last() == hs[i as int]);
            if !self.pool.contains(&tx_hashes[i]) {
                r.push(tx_hashes[i]);
            }
            i = i + 1;
        }
        assert(hs.take(i as int) =~= hs);
        r
    }

    /// Admits a transaction whose checks by the adapter (authorization,
    /// transaction rules, not yet committed) came out as `checks`. A full
    /// ordinary queue refuses first; then a failed check; then a duplicate.
    /// The admitted transaction joins the system-script queue or the ordinary
    /// one, and the answer says what to do next.
    pub fn insert_tx(
        &mut self,
        tx: SignedTransaction,
        is_system_script: bool,
        checks: Result<(), MemPoolError>,
        is_network_origin: bool,
    ) -> (r: Result<AdmitAction, MemPoolError>)
        requires
            old(self).wf(),
        ensures
            final(self).wf(),
            final(self).tx_pool().capacity() == old(self).tx_pool().capacity(),
            final(self).adapter_of() == old(self).adapter_of(),
            r is Err ==> final(self).tx_pool().same_contents(old(self).tx_pool()),
            old(self).tx_pool().real_txs().len() == old(self).tx_pool().capacity() ==> r == Err::<
                AdmitAction,
                MemPoolError,
            >(MemPoolError::ReachLimit(old(self).tx_pool().capacity() as usize)),
            old(self).tx_pool().real_txs().len() < old(self).tx_pool().capacity() && checks is Err
                ==> r == Err::<AdmitAction, MemPoolError>(checks->Err_0),
            old(self).tx_pool().real_txs().len() < old(self).tx_pool().capacity() && checks is Ok
                && old(self).tx_pool().holds(tx.hash@) ==> r == Err::<AdmitAction, MemPoolError>(
                MemPoolError::Dup(tx.hash),
            ),
            old(self).tx_pool().real_txs().len() < old(self).tx_pool().capacity() && checks is Ok
                && !old(self).tx_pool().holds(tx.hash@) && old(self).tx_pool().all_txs().len()
                < usize::MAX ==> r == Ok::<AdmitAction, MemPoolError>(
                if is_network_origin {
                    AdmitAction::ReportGood
                } else {
                    AdmitAction::Broadcast
                },
            ),
            r is Ok ==> final(self).tx_pool().holds(tx.hash@),
            r is Ok && is_system_script ==> final(self).tx_pool().system_txs() == old(
                self,
            ).tx_pool().system_txs().push(tx) && final(self).tx_pool().real_txs() == old(
                self,
            ).tx_pool().real_txs(),
            r is Ok && !is_system_script ==> final(self).tx_pool().real_txs() == priority_insert(
                old(self).tx_pool().real_txs(),
                tx,
            ) && final(self).tx_pool().system_txs() == old(self).tx_pool().system_txs(),
    {
        if self.pool.reach_limit() {
            return Err(MemPoolError::ReachLimit(self.pool.pool_size()));
        }
        match checks {
            Ok(()) => {},
            Err(e) => {
                return Err(e);
            },
        }
        let inserted = if is_system_script {
            self.pool.insert_system_script_tx(tx)
        } else {
            self.pool.insert(tx)
        };
        match inserted {
            Ok(()) => {
                if is_network_origin {
                    Ok(AdmitAction::ReportGood)
                } else {
                    Ok(AdmitAction::Broadcast)
                }
            },
            Err(e) => Err(e),
        }
    }

    /// Adds a transaction carried over from before a restart, unless storage
    /// says it is already committed (`stored` is the outcome of that check).
    pub fn initial_insert(&mut self, tx: SignedTransaction, stored: Result<(), MemPoolError>) -> (r:
        Result<(), MemPoolError>)
        requires
            old(self).wf(),
        ensures
            final(self).wf(),
            final(self).adapter_of() == old(self).adapter_of(),
            final(self).tx_pool().capacity() == old(self).tx_pool().capacity(),
            final(self).tx_pool().system_txs() == old(self).tx_pool().system_txs(),
            stored is Err ==> r == stored && final(self).tx_pool().same_contents(old(self).tx_pool()),
            stored is Ok ==> r == crate::pool::insert_result(old(self).tx_pool(), tx),
            r is Ok ==> final(self).tx_pool().real_txs() == priority_insert(old(self).tx_pool().real_txs(), tx),
            r is Err ==> final(self).tx_pool().same_contents(old(self).tx_pool()),
    {
        match stored {
            Ok(()) => self.pool.insert(tx),
            Err(e) => Err(e),
        }
    }

    /// The hashes of the next proposal's transactions, as the pool packages them.
    pub fn package(&self, gas_limit: u64, tx_num_limit: usize) -> (r: Vec<H256>)
        requires
            self.wf(),
        ensures
            is_package_len(
                self.tx_pool().all_txs(),
                gas_limit as int,
                tx_num_limit as int,
                r@.len() as int,
            ),
            forall|i: int| 0 <= i < r@.len() ==> r@[i]@ == self.tx_pool().all_txs()[i].hash@,
    {
        self.pool.package(gas_limit, tx_num_limit)
    }

    /// Drops the committed transactions, then those that `nonce_check` (the
    /// adapter's authorization check against the latest state) refuses.
    pub fn flush<F: Fn(SignedTransaction) -> bool>(&mut self, tx_hashes: &Vec<H256>, nonce_check: F)
        requires
            old(self).wf(),
            forall|t: SignedTransaction| nonce_check.requires((t,)),
        ensures
            final(self).wf(),
            final(self).tx_pool().capacity() == old(self).tx_pool().capacity(),
            final(self).adapter_of() == old(self).adapter_of(),
            subsequence_of(final(self).tx_pool().system_txs(), old(self).tx_pool().system_txs()),
            subsequence_of(final(self).tx_pool().real_txs(), old(self).tx_pool().real_txs()),
            forall|i: int| 0 <= i < tx_hashes@.len() ==> !final(self).tx_pool().holds(tx_hashes@[i]@),
            forall|t: SignedTransaction|
                final(self).tx_pool().all_txs().contains(t) ==> old(self).tx_pool().all_txs().contains(t)
                    && !listed(tx_hashes@, t.hash@) && nonce_check.ensures((t,), true),
            forall|j: int|
                0 <= j < old(self).tx_pool().all_txs().len() && !listed(
                    tx_hashes@,
                    old(self).tx_pool().all_txs()[j].hash@,
                ) && !final(self).tx_pool().all_txs().contains(old(self).tx_pool().all_txs()[j])
                    ==> nonce_check.ensures((old(self).tx_pool().all_txs()[j],), false),
    {
        let ghost before = self.pool;
        self.pool.flush(tx_hashes, nonce_check);
        proof {
            let a = self.pool;
            let ns = before.system_txs().len();
            let fs = a.system_txs().len();
            assert forall|t: SignedTransaction| a.all_txs().contains(t) implies before.all_txs().contains(t)
                && !listed(tx_hashes@, t.hash@) && nonce_check.ensures((t,), true) by {
                let k = choose|k: int| 0 <= k < a.all_txs().len() && a.all_txs()[k] == t;
                if k < fs {
                    assert(a.system_txs()[k] == t);
                    assert(a.system_txs().contains(t));
                    let m = choose|m: int| 0 <= m < ns && before.system_txs()[m] == t;
                    assert(before.all_txs()[m] == t);
                } else {
                    assert(a.real_txs()[k - fs] == t);
                    assert(a.real_txs().contains(t));
                    let m = choose|m: int| 0 <= m < before.real_txs().len() && before.real_txs()[m] == t;
                    assert(before.all_txs()[m + ns] == t);
                }
            }
            assert forall|j: int|
                0 <= j < before.all_txs().len() && !listed(tx_hashes@, before.all_txs()[j].hash@)
                    && !a.all_txs().contains(before.all_txs()[j]) implies nonce_check.ensures(
                (before.all_txs()[j],),
                false,
            ) by {
                let t = before.all_txs()[j];
                if j < ns {
                    assert(before.system_txs()[j] == t);
                    if a.system_txs().contains(t) {
                        let m = choose|m: int| 0 <= m < fs && a.system_txs()[m] == t;
                        assert(a.all_txs()[m] == t);
                    }
                } else {
                    assert(before.real_txs()[j - ns] == t);
                    if a.real_txs().contains(t) {
                        let m = choose|m: int| 0 <= m < a.real_txs().len() && a.real_txs()[m] == t;
                        assert(a.all_txs()[m + fs] == t);
                    }
                }
            }
        }
    }

    /// The full transactions of `tx_hashes`: those the pool holds, in order,
    /// followed by `from_storage`, what storage returned for the others. Fails
    /// with `MisMatch` unless that makes one transaction per hash.
    pub fn get_full_txs(&self, tx_hashes: &Vec<H256>, from_storage: Vec<SignedTransaction>) -> (r:
        Result<Vec<SignedTransaction>, MemPoolError>)
        requires
            self.wf(),
        ensures
            ({
                let full = known_of(self.tx_pool(), tx_hashes@) + from_storage@;
                &&& full.len() == tx_hashes@.len() ==> r == Ok::<
                    Vec<SignedTransaction>,
                    MemPoolError,
                >(r->Ok_0) && r->Ok_0@ == full
                &&& full.len() != tx_hashes@.len() ==> r == Err::<
                    Vec<SignedTransaction>,
                    MemPoolError,
                >(MemPoolError::MisMatch { require: tx_hashes@.len() as usize, response: full.len() as usize })
            }),
    {
        let ghost hs = tx_hashes@;
        let mut full: Vec<SignedTransaction> = Vec::new();
        let mut i: usize = 0;
        while i < tx_hashes.len()
            invariant
                self.wf(),
                hs == tx_hashes@,
                i <= hs.len(),
                full@ == known_of(self.tx_pool(), hs.take(i as int)),
                full@.len() <= i,
            decreases hs.len() - i,
        {
            assert(hs.take(i + 1).drop_last() =~= hs.take(i as int));
            assert(hs.take(i + 1).last() == hs[i as int]);
            match self.pool.get_by_hash(&tx_hashes[i]) {
                Some(t) => full.push(t),
                None => {},
            }
            i = i + 1;
        }
        assert(hs.take(i as int) =~= hs);
        let ghost known = full@;
        let mut j: usize = 0;
        while j < from_storage.len()
            invariant
                full@ == known + from_storage@.take(j as int),
                j <= from_storage@.len(),
            decreases from_storage@.len() - j,
        {
            full.push(from_storage[j]);
            j = j + 1;
            assert(full@ =~= known + from_storage@.take(j as int));
        }
        assert(from_storage@.take(j as int) =~= from_storage@);
        if full.len() != tx_hashes.len() {
            return Err(MemPoolError::MisMatch { require: tx_hashes.len(), response: full.len() });
        }
        Ok(full)
    }

    /// Puts the transactions pulled from peers for the unknown hashes of a
    /// proposed order into the ordinary queue. `pulled` must hold one
    /// transaction per unknown hash (else `EnsureBreak`), and `verified` says
    /// whether every one of them passed the adapter's checks (else
    /// `VerifyBatchTransactions`). Insertion stops at the first refusal.
    pub fn insert_pulled_txs(
        &mut self,
        unknown_hashes: &Vec<H256>,
        pulled: Vec<SignedTransaction>,
        verified: bool,
    ) -> (r: Result<(), MemPoolError>)
        requires
            old(self).wf(),
        ensures
            final(self).wf(),
            final(self).tx_pool().capacity() == old(self).tx_pool().capacity(),
            final(self).tx_pool().system_txs() == old(self).tx_pool().system_txs(),
            final(self).adapter_of() == old(self).adapter_of(),
            pulled@.len() != unknown_hashes@.len() ==> r == Err::<(), MemPoolError>(
                MemPoolError::EnsureBreak {
                    require: unknown_hashes@.len() as usize,
                    response: pulled@.len() as usize,
                },
            ) && final(self).tx_pool().same_contents(old(self).tx_pool()),
            pulled@.len() == unknown_hashes@.len() && !verified ==> r == Err::<(), MemPoolError>(
                MemPoolError::VerifyBatchTransactions,
            ) && final(self).tx_pool().same_contents(old(self).tx_pool()),
            r is Ok ==> forall|i: int|
                0 <= i < pulled@.len() ==> final(self).tx_pool().holds(#[trigger] pulled@[i].hash@),
            pulled@.len() == unknown_hashes@.len() && verified && (forall|i: int, j: int|
                0 <= i < j < pulled@.len() ==> pulled@[i].hash@ != pulled@[j].hash@) && (forall|i: int|
                0 <= i < pulled@.len() ==> !old(self).tx_pool().holds(#[trigger] pulled@[i].hash@))
                && old(self).tx_pool().real_txs().len() + pulled@.len() <= old(self).tx_pool().capacity()
                && old(self).tx_pool().all_txs().len() + pulled@.len() < usize::MAX ==> r is Ok,
    {
        if pulled.len() != unknown_hashes.len() {
            return Err(
                MemPoolError::EnsureBreak { require: unknown_hashes.len(), response: pulled.len() },
            );
        }
        if !verified {
            return Err(MemPoolError::VerifyBatchTransactions);
        }
        let ghost start = self.pool;
        let mut i: usize = 0;
        while i < pulled.len()
            invariant
                self.wf(),
                start == old(self).tx_pool(),
                self.adapter_of() == old(self).adapter_of(),
                self.tx_pool().capacity() == start.capacity(),
                self.tx_pool().system_txs() == start.system_txs(),
                i <= pulled@.len(),
                pulled@.len() == unknown_hashes@.len(),
                verified,
                self.tx_pool().real_txs().len() == start.real_txs().len() + i,
                forall|k: int| 0 <= k < i ==> self.tx_pool().holds(#[trigger] pulled@[k].hash@),
                forall|h: Seq<u8>| start.holds(h) ==> self.tx_pool().holds(h),
                forall|h: Seq<u8>|
                    self.tx_pool().holds(h) ==> start.holds(h) || exists|k: int|
                        0 <= k < i && pulled@[k].hash@ == h,
            decreases pulled@.len() - i,
        {
            let ghost before = self.pool;
            match self.pool.insert(pulled[i]) {
                Ok(()) => {},
                Err(e) => {
                    return Err(e);
                },
            }
            proof {
                let a = self.pool;
                let t = pulled@[i as int];
                lemma_lead_count_bounds(before.real_txs(), t.gas_price);
                assert forall|h: Seq<u8>| before.holds(h) implies a.holds(h) by {
                    if has_hash(before.real_txs(), h) {
                        let k = choose|k: int| 0 <= k < before.real_txs().len() && before.real_txs()[k].hash@ == h;
                        let p = lead_count(before.real_txs(), t.gas_price);
                        if k < p {
                            assert(a.real_txs()[k] == before.real_txs()[k]);
                        } else {
                            assert(a.real_txs()[k + 1] == before.real_txs()[k]);
                        }
                    }
                }
                assert forall|h: Seq<u8>| a.holds(h) implies start.holds(h) || exists|k: int|
                    0 <= k < i + 1 && pulled@[k].hash@ == h by {
                    if has_hash(a.real_txs(), h) {
                        let m = choose|m: int| 0 <= m < a.real_txs().len() && a.real_txs()[m].hash@ == h;
                        let p = lead_count(before.real_txs(), t.gas_price);
                        if m < p {
                            assert(before.real_txs()[m] == a.real_txs()[m]);
                            assert(before.holds(h));
                        } else if m > p {
                            assert(before.real_txs()[m - 1] == a.real_txs()[m]);
                            assert(before.holds(h));
                        } else {
                            assert(pulled@[i as int].hash@ == h);
                        }
                    } else {
                        assert(has_hash(before.system_txs(), h));
                    }
                }
            }
            i = i + 1;
        }
        Ok(())
    }

    /// How many pooled transactions `address` has sent.
    pub fn get_tx_count_by_address(&self, address: &Address) -> (r: usize)
        requires
            self.wf(),
        ensures
            r == crate::pool::sender_count(self.tx_pool().all_txs(), address@),
    {
        self.pool.get_tx_count_by_address(address)
    }
}

} // verus!
