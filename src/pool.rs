use vstd::prelude::*;

use crate::mempool::MemPoolError;
use crate::types::{Address, H256, SignedTransaction};

verus! {

/// Sum of the gas limits of a sequence of transactions.
pub open spec fn gas_sum(txs: Seq<SignedTransaction>) -> int
    decreases txs.len(),
{
    if txs.len() == 0 {
        0
    } else {
        gas_sum(txs.drop_last()) + txs.last().gas_limit
    }
}

/// The hashes of a sequence of transactions, in order.
pub open spec fn hashes_of(txs: Seq<SignedTransaction>) -> Seq<Seq<u8>> {
    txs.map_values(|t: SignedTransaction| t.hash@)
}

/// How many transactions `txs` sends from `addr`.
pub open spec fn sender_count(txs: Seq<SignedTransaction>, addr: Seq<u8>) -> nat
    decreases txs.len(),
{
    if txs.len() == 0 {
        0
    } else {
        sender_count(txs.drop_last(), addr) + if txs.last().sender@ == addr {
            1nat
        } else {
            0nat
        }
    }
}

/// No two transactions of `txs` share a hash.
pub open spec fn distinct_hashes(txs: Seq<SignedTransaction>) -> bool {
    forall|i: int, j: int|
        0 <= i < txs.len() && 0 <= j < txs.len() && i != j ==> txs[i].hash@ != txs[j].hash@
}

/// `txs` is ordered by non-increasing gas price.
pub open spec fn by_priority(txs: Seq<SignedTransaction>) -> bool {
    forall|i: int, j: int| 0 <= i < j < txs.len() ==> txs[i].gas_price >= txs[j].gas_price
}

/// Whether some transaction of `txs` has hash `h`.
pub open spec fn has_hash(txs: Seq<SignedTransaction>, h: Seq<u8>) -> bool {
    exists|i: int| 0 <= i < txs.len() && txs[i].hash@ == h
}

/// How many leading transactions of `q` pay at least `price`: where a
/// transaction paying `price` goes into a queue ordered by priority.
pub open spec fn lead_count(q: Seq<SignedTransaction>, price: u64) -> int
    decreases q.len(),
{
    if q.len() == 0 {
        0
    } else if q[0].gas_price >= price {
        1 + lead_count(q.drop_first(), price)
    } else {
        0
    }
}

/// `q` with `tx` put behind every entry paying at least as much.
pub open spec fn priority_insert(q: Seq<SignedTransaction>, tx: SignedTransaction) -> Seq<
    SignedTransaction,
> {
    q.insert(lead_count(q, tx.gas_price), tx)
}

/// A transaction goes somewhere between the front and the back of a queue.
pub proof fn lemma_lead_count_bounds(q: Seq<SignedTransaction>, price: u64)
    ensures
        0 <= lead_count(q, price) <= q.len(),
    decreases q.len(),
{
    if q.len() > 0 {
        lemma_lead_count_bounds(q.drop_first(), price);
    }
}

proof fn lemma_lead_count(q: Seq<SignedTransaction>, price: u64, p: int)
    requires
        0 <= p <= q.len(),
        forall|j: int| 0 <= j < p ==> q[j].gas_price >= price,
        p == q.len() || q[p].gas_price < price,
    ensures
        lead_count(q, price) == p,
    decreases p,
{
    if p > 0 {
        let r = q.drop_first();
        assert forall|j: int| 0 <= j < p - 1 implies r[j].gas_price >= price by {
            assert(r[j] == q[j + 1]);
        }
        if p < q.len() {
            assert(r[p - 1] == q[p]);
        }
        lemma_lead_count(r, price, p - 1);
    }
}

/// Whether one of `hs` equals `h`.
pub open spec fn listed(hs: Seq<H256>, h: Seq<u8>) -> bool {
    exists|i: int| 0 <= i < hs.len() && hs[i]@ == h
}

/// Whether one of `hs` equals `h`.
pub fn is_listed(hs: &Vec<H256>, h: &H256) -> (r: bool)
    ensures
        r == listed(hs@, h@),
{
    let mut i: usize = 0;
    while i < hs.len()
        invariant
            i <= hs@.len(),
            forall|j: int| 0 <= j < i ==> hs@[j]@ != h@,
        decreases hs@.len() - i,
    {
        if hs[i].same_as(h) {
            return true;
        }
        i = i + 1;
    }
    false
}

/// The number of leading transactions of `txs` that a package takes: the
/// longest prefix of at most `n` transactions whose gas fits in `g`.
pub open spec fn is_package_len(txs: Seq<SignedTransaction>, g: int, n: int, k: int) -> bool {
    &&& 0 <= k <= txs.len()
    &&& k <= n
    &&& gas_sum(txs.take(k)) <= g
    &&& (k == n || k == txs.len() || gas_sum(txs.take(k + 1)) > g)
}

/// `a` is `b` with some entries left out, the rest in their order.
pub open spec fn subsequence_of(a: Seq<SignedTransaction>, b: Seq<SignedTransaction>) -> bool {
    exists|idx: Seq<int>|
        idx.len() == a.len() && (forall|i: int| 0 <= i < idx.len() ==> 0 <= #[trigger] idx[i] < b.len() && a[i] == b[idx[i]])
            && (forall|i: int, j: int| 0 <= i < j < idx.len() ==> #[trigger] idx[i] < #[trigger] idx[j])
}

/// The answer of the pool to an ordinary transaction: a duplicate is
/// refused first, then any transaction while the ordinary queue is full (or
/// the pool could no longer count its entries).
pub open spec fn insert_result(p: PriorityPool, tx: SignedTransaction) -> Result<(), MemPoolError> {
    if p.holds(tx.hash@) {
        Err(MemPoolError::Dup(tx.hash))
    } else if p.real_txs().len() >= p.capacity() || p.all_txs().len() >= usize::MAX {
        Err(MemPoolError::ReachLimit(p.capacity() as usize))
    } else {
        Ok(())
    }
}

/// The answer of the pool to a system-script transaction: only a duplicate
/// (or a pool that could no longer count its entries) is refused.
pub open spec fn system_insert_result(p: PriorityPool, tx: SignedTransaction) -> Result<(), MemPoolError> {
    if p.holds(tx.hash@) {
        Err(MemPoolError::Dup(tx.hash))
    } else if p.all_txs().len() >= usize::MAX {
        Err(MemPoolError::ReachLimit(p.capacity() as usize))
    } else {
        Ok(())
    }
}

/// The transaction pool: a FIFO queue of system-script transactions and an
/// ordinary queue kept by non-increasing gas price, stable on equal prices.
pub struct PriorityPool {
    pool_size: usize,
    system_queue: Vec<SignedTransaction>,
    real_queue: Vec<SignedTransaction>,
}

impl PriorityPool {
    /// The system-script queue, oldest first.
    pub closed spec fn system_txs(&self) -> Seq<SignedTransaction> {
        self.system_queue@
    }

    /// The ordinary queue, highest priority first.
    pub closed spec fn real_txs(&self) -> Seq<SignedTransaction> {
        self.real_queue@
    }

    /// Every transaction, in package order.
    pub open spec fn all_txs(&self) -> Seq<SignedTransaction> {
        self.system_txs() + self.real_txs()
    }

    pub closed spec fn capacity(&self) -> nat {
        self.pool_size as nat
    }

    /// Whether a transaction with hash `h` is in either queue.
    pub open spec fn holds(&self, h: Seq<u8>) -> bool {
        has_hash(self.system_txs(), h) || has_hash(self.real_txs(), h)
    }

    /// Both queues and the capacity are those of `other`.
    pub open spec fn same_contents(&self, other: PriorityPool) -> bool {
        &&& self.system_txs() == other.system_txs()
        &&& self.real_txs() == other.real_txs()
        &&& self.capacity() == other.capacity()
    }

    /// The pooled transaction with hash `h` (meaningful where `holds(h)`).
    pub open spec fn entry(&self, h: Seq<u8>) -> SignedTransaction {
        let i = choose|i: int| 0 <= i < self.all_txs().len() && self.all_txs()[i].hash@ == h;
        self.all_txs()[i]
    }

    pub open spec fn wf(&self) -> bool {
        &&& self.real_txs().len() <= self.capacity()
        &&& self.system_txs().len() + self.real_txs().len() <= usize::MAX
        &&& by_priority(self.real_txs())
        &&& distinct_hashes(self.system_txs())
        &&& distinct_hashes(self.real_txs())
        &&& forall|i: int, j: int|
            0 <= i < self.system_txs().len() && 0 <= j < self.real_txs().len()
                ==> self.system_txs()[i].hash@ != self.real_txs()[j].hash@
    }

    pub fn new(pool_size: usize) -> (r: PriorityPool)
        ensures
            r.wf(),
            r.capacity() == pool_size,
            r.system_txs().len() == 0,
            r.real_txs().len() == 0,
    {
        PriorityPool { pool_size, system_queue: Vec::new(), real_queue: Vec::new() }
    }

    pub fn pool_size(&self) -> (r: usize)
        ensures
            r == self.capacity(),
    {
        self.pool_size
    }

    /// Number of transactions in both queues.
    pub fn len(&self) -> (r: usize)
        requires
            self.wf(),
        ensures
            r == self.all_txs().len(),
    {
        self.system_queue.len() + self.real_queue.len()
    }

    pub fn is_empty(&self) -> (r: bool)
        requires
            self.wf(),
        ensures
            r == (self.all_txs().len() == 0),
    {
        self.len() == 0
    }

    /// Number of ordinary transactions.
    pub fn real_queue_len(&self) -> (r: usize)
        ensures
            r == self.real_txs().len(),
    {
        self.real_queue.len()
    }

    /// Number of system-script transactions.
    pub fn system_script_queue_len(&self) -> (r: usize)
        ensures
            r == self.system_txs().len(),
    {
        self.system_queue.len()
    }

    /// Depth of the queue of transactions waiting to be sorted in: the ordinary
    /// queue is sorted on insertion, so none ever waits.
    pub fn co_queue_len(&self) -> (r: usize)
        ensures
            r == 0,
    {
        0
    }

    /// Whether the ordinary queue is full.
    pub fn reach_limit(&self) -> (r: bool)
        requires
            self.wf(),
        ensures
            r == (self.real_txs().len() == self.capacity()),
    {
        self.real_queue.len() >= self.pool_size
    }

    fn find_in(q: &Vec<SignedTransaction>, h: &H256) -> (r: Option<usize>)
        ensures
            match r {
                Some(i) => i < q@.len() && q@[i as int].hash@ == h@,
                None => !has_hash(q@, h@),
            },
    {
        let mut i: usize = 0;
        while i < q.len()
            invariant
                i <= q@.len(),
                forall|j: int| 0 <= j < i ==> q@[j].hash@ != h@,
            decreases q@.len() - i,
        {
            if q[i].hash.same_as(h) {
                return Some(i);
            }
            i = i + 1;
        }
        None
    }

    /// Whether a transaction with hash `h` is in the pool.
    pub fn contains(&self, h: &H256) -> (r: bool)
        ensures
            r == self.holds(h@),
    {
        Self::find_in(&self.system_queue, h).is_some() || Self::find_in(&self.real_queue, h).is_some()
    }

    proof fn lemma_entry_at(&self, k: int)
        requires
            self.wf(),
            0 <= k < self.all_txs().len(),
        ensures
            self.entry(self.all_txs()[k].hash@) == self.all_txs()[k],
    {
        let all = self.all_txs();
        let h = all[k].hash@;
        let n = self.system_txs().len();
        let i = choose|i: int| 0 <= i < all.len() && all[i].hash@ == h;
        if i != k {
            if i < n && k < n {
                assert(self.system_txs()[i] == all[i] && self.system_txs()[k] == all[k]);
            } else if i >= n && k >= n {
                assert(self.real_txs()[i - n] == all[i] && self.real_txs()[k - n] == all[k]);
            } else if i < n {
                assert(self.system_txs()[i] == all[i] && self.real_txs()[k - n] == all[k]);
            } else {
                assert(self.system_txs()[k] == all[k] && self.real_txs()[i - n] == all[i]);
            }
        }
    }

    /// The transaction with hash `h`, if the pool holds it.
    pub fn get_by_hash(&self, h: &H256) -> (r: Option<SignedTransaction>)
        requires
            self.wf(),
        ensures
            match r {
                Some(t) => self.holds(h@) && t == self.entry(h@),
                None => !self.holds(h@),
            },
    {
        match Self::find_in(&self.system_queue, h) {
            Some(i) => {
                proof {
                    assert(self.all_txs()[i as int] == self.system_txs()[i as int]);
                    self.lemma_entry_at(i as int);
                }
                Some(self.system_queue[i])
            },
            None => match Self::find_in(&self.real_queue, h) {
                Some(i) => {
                    proof {
                        let k = self.system_txs().len() + i;
                        assert(self.all_txs()[k] == self.real_txs()[i as int]);
                        self.lemma_entry_at(k);
                    }
                    Some(self.real_queue[i])
                },
                None => None,
            },
        }
    }

    /// Adds an ordinary transaction behind every queued one of equal or higher
    /// gas price and ahead of every cheaper one.
    pub fn insert(&mut self, tx: SignedTransaction) -> (r: Result<(), MemPoolError>)
        requires
            old(self).wf(),
        ensures
            final(self).wf(),
            final(self).capacity() == old(self).capacity(),
            final(self).system_txs() == old(self).system_txs(),
            r == insert_result(*old(self), tx),
            r is Err ==> final(self).real_txs() == old(self).real_txs(),
            r is Ok ==> final(self).holds(tx.hash@),
            r is Ok ==> final(self).real_txs() == priority_insert(old(self).real_txs(), tx),
    {
        if self.contains(&tx.hash) {
            return Err(MemPoolError::Dup(tx.hash));
        }
        if self.real_queue.len() >= self.pool_size {
            return Err(MemPoolError::ReachLimit(self.pool_size));
        }
        if self.system_queue.len() >= usize::MAX - self.real_queue.len() {
            // The pool cannot count more entries than a `usize` holds.
            return Err(MemPoolError::ReachLimit(self.pool_size));
        }
        let ghost q = self.real_queue@;
        let mut p: usize = 0;
        while p < self.real_queue.len() && self.real_queue[p].gas_price >= tx.gas_price
            invariant
                p <= self.real_queue@.len(),
                self.real_queue@ == q,
                forall|j: int| 0 <= j < p ==> q[j].gas_price >= tx.gas_price,
            decreases q.len() - p,
        {
            p = p + 1;
        }
        proof {
            assert forall|j: int| p <= j < q.len() implies q[j].gas_price < tx.gas_price by {
                assert(q[p as int].gas_price < tx.gas_price);
                if j > p {
                    assert(q[p as int].gas_price >= q[j].gas_price);
                }
            }
        }
        proof {
            lemma_lead_count(q, tx.gas_price, p as int);
        }
        self.real_queue.insert(p, tx);
        proof {
            let n = self.real_queue@;
            assert(n[p as int] == tx);
            assert(has_hash(n, tx.hash@));
            assert forall|i: int, j: int| 0 <= i < j < n.len() implies n[i].gas_price
                >= n[j].gas_price by {
                if i < p && j <= p {
                } else if i < p {
                    assert(n[j] == q[j - 1]);
                } else if i == p {
                    assert(n[j] == q[j - 1]);
                } else {
                    assert(n[i] == q[i - 1]);
                    assert(n[j] == q[j - 1]);
                }
            }
            assert forall|i: int, j: int|
                0 <= i < n.len() && 0 <= j < n.len() && i != j implies n[i].hash@ != n[j].hash@ by {
                if i != p && j != p {
                    let a = if i < p { i } else { i - 1 };
                    let b = if j < p { j } else { j - 1 };
                    assert(n[i] == q[a]);
                    assert(n[j] == q[b]);
                } else if i == p {
                    let b = if j < p { j } else { j - 1 };
                    assert(n[j] == q[b]);
                } else {
                    let a = if i < p { i } else { i - 1 };
                    assert(n[i] == q[a]);
                }
            }
            assert forall|i: int, j: int|
                0 <= i < self.system_txs().len() && 0 <= j < n.len() implies self.system_txs()[i].hash@
                != n[j].hash@ by {
                if j < p {
                    assert(n[j] == q[j]);
                } else if j > p {
                    assert(n[j] == q[j - 1]);
                } else {
                    assert(!has_hash(self.system_txs(), tx.hash@));
                }
            }
        }
        Ok(())
    }

    /// Appends a system-script transaction to its FIFO queue.
    pub fn insert_system_script_tx(&mut self, tx: SignedTransaction) -> (r: Result<(), MemPoolError>)
        requires
            old(self).wf(),
        ensures
            final(self).wf(),
            final(self).capacity() == old(self).capacity(),
            final(self).real_txs() == old(self).real_txs(),
            r == system_insert_result(*old(self), tx),
            r is Err ==> final(self).system_txs() == old(self).system_txs(),
            r is Ok ==> final(self).system_txs() == old(self).system_txs().push(tx),
            r is Ok ==> final(self).holds(tx.hash@),
    {
        if self.contains(&tx.hash) {
            return Err(MemPoolError::Dup(tx.hash));
        }
        if self.system_queue.len() >= usize::MAX - self.real_queue.len() {
            // The pool cannot count more entries than a `usize` holds.
            return Err(MemPoolError::ReachLimit(self.pool_size));
        }
        let ghost q = self.system_queue@;
        self.system_queue.push(tx);
        proof {
            let n = self.system_queue@;
            assert(n[q.len() as int] == tx);
            assert(has_hash(n, tx.hash@));
            assert forall|i: int, j: int|
                0 <= i < n.len() && 0 <= j < n.len() && i != j implies n[i].hash@ != n[j].hash@ by {
                if i < q.len() && j < q.len() {
                    assert(n[i] == q[i]);
                    assert(n[j] == q[j]);
                } else if i < q.len() {
                    assert(n[i] == q[i]);
                } else {
                    assert(n[j] == q[j]);
                }
            }
            assert forall|i: int, j: int|
                0 <= i < n.len() && 0 <= j < self.real_txs().len() implies n[i].hash@
                != self.real_txs()[j].hash@ by {
                if i < q.len() {
                    assert(n[i] == q[i]);
                }
            }
        }
        Ok(())
    }

    /// How many pooled transactions `addr` has sent.
    pub fn get_tx_count_by_address(&self, addr: &Address) -> (r: usize)
        requires
            self.wf(),
        ensures
            r == sender_count(self.all_txs(), addr@),
    {
        let ghost all = self.all_txs();
        let total = self.system_queue.len() + self.real_queue.len();
        let mut count: usize = 0;
        let mut i: usize = 0;
        while i < total
            invariant
                total == all.len(),
                all == self.system_queue@ + self.real_queue@,
                i <= total,
                count == sender_count(all.take(i as int), addr@),
                count <= i,
            decreases total - i,
        {
            let t = if i < self.system_queue.len() {
                self.system_queue[i]
            } else {
                self.real_queue[i - self.system_queue.len()]
            };
            assert(t == all[i as int]);
            assert(all.take(i + 1).drop_last() =~= all.take(i as int));
            if t.sender.same_as(addr) {
                count = count + 1;
            }
            i = i + 1;
        }
        assert(all.take(total as int) =~= all);
        count
    }

    /// The hashes of the transactions to propose next: every system-script
    /// transaction in FIFO order, then ordinary ones by priority, stopping as
    /// soon as `tx_num_limit` are taken or the next one would take the summed
    /// gas past `gas_limit`. The pool is left as it is.
    pub fn package(&self, gas_limit: u64, tx_num_limit: usize) -> (r: Vec<H256>)
        requires
            self.wf(),
        ensures
            is_package_len(self.all_txs(), gas_limit as int, tx_num_limit as int, r@.len() as int),
            forall|i: int| 0 <= i < r@.len() ==> r@[i]@ == self.all_txs()[i].hash@,
    {
        let ghost all = self.all_txs();
        let total = self.system_queue.len() + self.real_queue.len();
        let mut r: Vec<H256> = Vec::new();
        let mut used: u64 = 0;
        let mut i: usize = 0;
        let mut full = false;
        while i < total && !full
            invariant
                total == all.len(),
                all == self.system_queue@ + self.real_queue@,
                i <= total,
                i <= tx_num_limit,
                r@.len() == i,
                used == gas_sum(all.take(i as int)),
                used <= gas_limit,
                full ==> i == tx_num_limit || gas_sum(all.take(i + 1)) > gas_limit,
                forall|j: int| 0 <= j < i ==> r@[j]@ == all[j].hash@,
            decreases total - i, if full { 0int } else { 1int },
        {
            if i >= tx_num_limit {
                full = true;
            } else {
                let t = if i < self.system_queue.len() {
                    self.system_queue[i]
                } else {
                    self.real_queue[i - self.system_queue.len()]
                };
                assert(t == all[i as int]);
                assert(all.take(i + 1).drop_last() =~= all.take(i as int));
                if t.gas_limit > gas_limit - used {
                    full = true;
                } else {
                    r.push(t.hash);
                    used = used + t.gas_limit;
                    i = i + 1;
                }
            }
        }
        r
    }

    /// The transactions of `q` that `flush` keeps, in their order.
    fn retain_valid<F: Fn(SignedTransaction) -> bool>(
        q: &Vec<SignedTransaction>,
        committed: &Vec<H256>,
        nonce_check: &F,
    ) -> (kept: Vec<SignedTransaction>)
        requires
            forall|t: SignedTransaction| nonce_check.requires((t,)),
        ensures
            kept@.len() <= q@.len(),
            subsequence_of(kept@, q@),
            by_priority(q@) ==> by_priority(kept@),
            distinct_hashes(q@) ==> distinct_hashes(kept@),
            forall|t: SignedTransaction|
                kept@.contains(t) ==> q@.contains(t) && !listed(committed@, t.hash@)
                    && nonce_check.ensures((t,), true),
            forall|j: int|
                0 <= j < q@.len() && !listed(committed@, q@[j].hash@) && !kept@.contains(q@[j])
                    ==> nonce_check.ensures((q@[j],), false),
    {
        let mut kept: Vec<SignedTransaction> = Vec::new();
        let ghost mut idx: Seq<int> = Seq::empty();
        let mut i: usize = 0;
        while i < q.len()
            invariant
                i <= q@.len(),
                kept@.len() <= i,
                forall|t: SignedTransaction| nonce_check.requires((t,)),
                idx.len() == kept@.len(),
                forall|a: int| 0 <= a < idx.len() ==> 0 <= #[trigger] idx[a] < i,
                forall|a: int| 0 <= a < idx.len() ==> #[trigger] kept@[a] == q@[idx[a]],
                forall|a: int, b: int| 0 <= a < b < idx.len() ==> #[trigger] idx[a] < #[trigger] idx[b],
                forall|t: SignedTransaction|
                    kept@.contains(t) ==> q@.contains(t) && !listed(committed@, t.hash@)
                        && nonce_check.ensures((t,), true),
                forall|j: int|
                    0 <= j < i && !listed(committed@, q@[j].hash@) && !kept@.contains(q@[j])
                        ==> nonce_check.ensures((q@[j],), false),
            decreases q@.len() - i,
        {
            let t = &q[i];
            if !is_listed(committed, &t.hash) {
                let ok = nonce_check(*t);
                if ok {
                    let ghost before = kept@;
                    kept.push(*t);
                    proof {
                        let ghost old_idx = idx;
                        idx = idx.push(i as int);
                        assert forall|a: int| 0 <= a < old_idx.len() implies idx[a] == old_idx[a] by {}
                        assert(idx[old_idx.len() as int] == i);
                        assert forall|a: int, b: int| 0 <= a < b < idx.len() implies idx[a] < idx[b] by {
                            if b < old_idx.len() {
                                assert(old_idx[a] < old_idx[b]);
                            }
                        }
                        assert forall|a: int| 0 <= a < idx.len() implies kept@[a] == q@[idx[a]] by {
                            if a < before.len() {
                                assert(kept@[a] == before[a]);
                            }
                        }
                        assert(kept@[before.len() as int] == *t);
                        assert forall|u: SignedTransaction| kept@.contains(u) implies q@.contains(u)
                            && !listed(committed@, u.hash@) && nonce_check.ensures((u,), true) by {
                            let a = choose|a: int| 0 <= a < kept@.len() && kept@[a] == u;
                            if a < before.len() {
                                assert(before[a] == u);
                                assert(before.contains(u));
                            } else {
                                assert(q@[i as int] == u);
                            }
                        }
                        assert forall|j: int|
                            0 <= j < i + 1 && !listed(committed@, q@[j].hash@) && !kept@.contains(
                                q@[j],
                            ) implies nonce_check.ensures((q@[j],), false) by {
                            if j < i {
                                if before.contains(q@[j]) {
                                    let a = choose|a: int| 0 <= a < before.len() && before[a] == q@[j];
                                    assert(kept@[a] == q@[j]);
                                }
                            } else {
                                assert(kept@[before.len() as int] == q@[j]);
                            }
                        }
                    }
                }
            }
            i = i + 1;
        }
        proof {
            assert forall|a: int| 0 <= a < idx.len() implies 0 <= #[trigger] idx[a] < q@.len() && kept@[a] == q@[idx[a]] by {}
            if by_priority(q@) {
                assert forall|a: int, b: int| 0 <= a < b < kept@.len() implies kept@[a].gas_price
                    >= kept@[b].gas_price by {
                    assert(idx[a] < idx[b]);
                }
            }
            if distinct_hashes(q@) {
                assert forall|a: int, b: int|
                    0 <= a < kept@.len() && 0 <= b < kept@.len() && a != b implies kept@[a].hash@
                    != kept@[b].hash@ by {
                    if a < b {
                        assert(idx[a] < idx[b]);
                    } else {
                        assert(idx[b] < idx[a]);
                    }
                }
            }
        }
        kept
    }

    /// Removes every transaction whose hash is in `committed`, then every
    /// remaining one for which `nonce_check` answers false.
    pub fn flush<F: Fn(SignedTransaction) -> bool>(&mut self, committed: &Vec<H256>, nonce_check: F)
        requires
            old(self).wf(),
            forall|t: SignedTransaction| nonce_check.requires((t,)),
        ensures
            final(self).wf(),
            final(self).capacity() == old(self).capacity(),
            subsequence_of(final(self).system_txs(), old(self).system_txs()),
            subsequence_of(final(self).real_txs(), old(self).real_txs()),
            forall|i: int| 0 <= i < committed@.len() ==> !final(self).holds(committed@[i]@),
            forall|t: SignedTransaction|
                final(self).system_txs().contains(t) ==> old(self).system_txs().contains(t)
                    && !listed(committed@, t.hash@) && nonce_check.ensures((t,), true),
            forall|t: SignedTransaction|
                final(self).real_txs().contains(t) ==> old(self).real_txs().contains(t)
                    && !listed(committed@, t.hash@) && nonce_check.ensures((t,), true),
            forall|j: int|
                0 <= j < old(self).system_txs().len() && !listed(committed@, old(self).system_txs()[j].hash@)
                    && !final(self).system_txs().contains(old(self).system_txs()[j])
                    ==> nonce_check.ensures((old(self).system_txs()[j],), false),
            forall|j: int|
                0 <= j < old(self).real_txs().len() && !listed(committed@, old(self).real_txs()[j].hash@)
                    && !final(self).real_txs().contains(old(self).real_txs()[j])
                    ==> nonce_check.ensures((old(self).real_txs()[j],), false),
    {
        let sys = Self::retain_valid(&self.system_queue, committed, &nonce_check);
        let ordinary = Self::retain_valid(&self.real_queue, committed, &nonce_check);
        let ghost old_sys = self.system_queue@;
        let ghost old_real = self.real_queue@;
        self.system_queue = sys;
        self.real_queue = ordinary;
        proof {
            assert forall|i: int, j: int|
                0 <= i < sys@.len() && 0 <= j < ordinary@.len() implies sys@[i].hash@ != ordinary@[j].hash@ by {
                assert(sys@.contains(sys@[i]));
                assert(ordinary@.contains(ordinary@[j]));
                let a = choose|a: int| 0 <= a < old_sys.len() && old_sys[a] == sys@[i];
                let b = choose|b: int| 0 <= b < old_real.len() && old_real[b] == ordinary@[j];
            }
            assert forall|i: int| 0 <= i < committed@.len() implies !self.holds(committed@[i]@) by {
                assert(listed(committed@, committed@[i]@));
                if has_hash(sys@, committed@[i]@) {
                    let a = choose|a: int| 0 <= a < sys@.len() && sys@[a].hash@ == committed@[i]@;
                    assert(sys@.contains(sys@[a]));
                }
                if has_hash(ordinary@, committed@[i]@) {
                    let a = choose|a: int| 0 <= a < ordinary@.len() && ordinary@[a].hash@ == committed@[i]@;
                    assert(ordinary@.contains(ordinary@[a]));
                }
            }
        }
    }
}

/// Once an ordinary transaction is admitted, the pool holds it, and
/// offering it again is refused as a duplicate. `after` is the pool as the
/// admission leaves it.
pub proof fn lemma_insert_then_duplicate(p: PriorityPool, after: PriorityPool, tx: SignedTransaction)
    requires
        p.wf(),
        insert_result(p, tx) is Ok,
        after.system_txs() == p.system_txs(),
        after.real_txs() == priority_insert(p.real_txs(), tx),
        after.capacity() == p.capacity(),
    ensures
        after.holds(tx.hash@),
        insert_result(after, tx) == Err::<(), MemPoolError>(MemPoolError::Dup(tx.hash)),
        system_insert_result(after, tx) == Err::<(), MemPoolError>(MemPoolError::Dup(tx.hash)),
{
    lemma_lead_count_bounds(p.real_txs(), tx.gas_price);
    let k = lead_count(p.real_txs(), tx.gas_price);
    assert(after.real_txs()[k] == tx);
}

/// A well-formed pool never holds more ordinary transactions than its size.
pub proof fn lemma_capacity_respected(p: PriorityPool)
    requires
        p.wf(),
    ensures
        p.real_txs().len() <= p.capacity(),
{
}

/// A package lists the system-script transactions first, oldest first, then
/// ordinary ones by non-increasing gas price; it holds at most `n` hashes
/// whose gas sums to at most `g`. `r` is a package that `package(g, n)`
/// returned for `p`.
pub proof fn lemma_package_order(p: PriorityPool, r: Seq<Seq<u8>>, g: int, n: int)
    requires
        p.wf(),
        is_package_len(p.all_txs(), g, n, r.len() as int),
        forall|i: int| 0 <= i < r.len() ==> r[i] == p.all_txs()[i].hash@,
    ensures
        r.len() <= n,
        gas_sum(p.all_txs().take(r.len() as int)) <= g,
        forall|i: int| 0 <= i < r.len() && i < p.system_txs().len() ==> r[i] == p.system_txs()[i].hash@,
        forall|i: int|
            p.system_txs().len() <= i < r.len() ==> r[i] == p.real_txs()[i - p.system_txs().len()].hash@,
        forall|i: int, j: int|
            p.system_txs().len() <= i < j < r.len() ==> #[trigger] p.all_txs()[i].gas_price
                >= #[trigger] p.all_txs()[j].gas_price,
        r.len() < p.all_txs().len() && r.len() < n ==> gas_sum(p.all_txs().take(r.len() as int + 1)) > g,
{
    let ns = p.system_txs().len();
    assert forall|i: int, j: int|
        ns <= i < j < r.len() implies #[trigger] p.all_txs()[i].gas_price >= #[trigger] p.all_txs()[j].gas_price by {
        assert(p.all_txs()[i] == p.real_txs()[i - ns]);
        assert(p.all_txs()[j] == p.real_txs()[j - ns]);
    }
}

proof fn lemma_gas_sum_prefix(txs: Seq<SignedTransaction>, k: int)
    requires
        0 <= k <= txs.len(),
    ensures
        gas_sum(txs.take(k)) <= gas_sum(txs),
    decreases txs.len() - k,
{
    if k < txs.len() {
        lemma_gas_sum_prefix(txs, k + 1);
        assert(txs.take(k + 1).drop_last() =~= txs.take(k));
    } else {
        assert(txs.take(k) =~= txs);
    }
}

/// A package whose limits leave room for the whole pool takes every
/// transaction: all hashes, system-script ones first. `r` is a package that
/// `package(g, n)` returned for `p`.
pub proof fn lemma_package_takes_all(p: PriorityPool, r: Seq<Seq<u8>>, g: int, n: int)
    requires
        p.wf(),
        is_package_len(p.all_txs(), g, n, r.len() as int),
        forall|i: int| 0 <= i < r.len() ==> r[i] == p.all_txs()[i].hash@,
        n >= p.all_txs().len(),
        gas_sum(p.all_txs()) <= g,
    ensures
        r.len() == p.all_txs().len(),
        r == hashes_of(p.all_txs()),
        forall|i: int| 0 <= i < p.system_txs().len() ==> r[i] == p.system_txs()[i].hash@,
{
    let all = p.all_txs();
    if r.len() < all.len() {
        lemma_gas_sum_prefix(all, r.len() as int + 1);
    }
    assert(r =~= hashes_of(all));
    assert forall|i: int| 0 <= i < p.system_txs().len() implies r[i] == p.system_txs()[i].hash@ by {
        assert(all[i] == p.system_txs()[i]);
    }
}

} // verus!
