//! The transaction queue: admission, batch drain and inspection.
use crate::containers::{
    body_contains, body_contents, body_entries, body_get, body_insert, body_len, body_new,
    body_remove, counter_contents, counter_get, counter_insert, counter_new, counter_remove,
    ring_capacity, ring_contents, ring_new, ring_pop, ring_push, set_contains, set_contents,
    set_insert, set_new, BodyMap, CounterMap, Ring,
};
use crate::model::{
    counters_agree, expired_event, hashes_of, lemma_consistent_same_parts,
    lemma_count_remove, lemma_counts_after_remove, lemma_counts_carry, lemma_drained_consistent,
    lemma_hashes_push, lemma_push_contains, lemma_push_contains_usize, lemma_pushed_consistent,
    DrainOutcome, QueueView,
};
use crate::time::TimeSource;
use crate::transaction::{AcceptedTransaction, Fingerprint, StateView};
use rand::seq::IteratorRandom;
use vstd::prelude::*;

verus! {

/// Why a transaction was not admitted, or was dropped from the queue.
#[derive(Clone, Copy, Debug, PartialEq, Eq, Structural)]
pub enum Error {
    /// Queue is full
    Full,
    /// Transaction is regarded to have been tampered to have a future timestamp
    InFuture,
    /// Transaction expired
    Expired,
    /// Transaction is already applied
    InBlockchain,
    /// User reached maximum number of transactions in the queue
    MaximumTransactionsPerUser,
    /// The transaction is already in the queue
    IsInQueue,
    /// Failure during signature condition execution
    SignatureCondition,
}

/// A rejected push: the transaction, handed back, and the reason.
#[derive(Clone, Debug)]
pub struct Failure {
    /// Transaction failed to be pushed into the queue
    pub tx: AcceptedTransaction,
    /// Push failure reason
    pub err: Error,
}

/// Stage of a transaction that an event reports.
#[derive(Clone, Copy, Debug, PartialEq, Eq, Structural)]
pub enum TransactionStatus {
    /// The transaction was admitted.
    Queued,
    /// The transaction outlived its time to live and was dropped.
    Expired,
}

/// Pipeline event about one transaction.
#[derive(Clone, Copy, Debug, PartialEq, Eq)]
pub struct TransactionEvent {
    /// Fingerprint of the transaction.
    pub hash: Fingerprint,
    /// Height of the block holding it; the queue never knows one.
    pub block_height: Option<u64>,
    /// What happened to it.
    pub status: TransactionStatus,
}

/// Settings of a queue.
#[derive(Clone, Copy, Debug)]
pub struct Config {
    /// Maximum number of resident transactions.
    pub capacity: usize,
    /// Maximum number of resident transactions of one account.
    pub capacity_per_user: usize,
    /// Default time to live, in milliseconds; it also caps a transaction's own.
    pub transaction_time_to_live_ms: u64,
    /// Largest admitted lead of a creation time over the clock, in milliseconds.
    pub future_threshold_ms: u64,
}

/// Relies on rand's `IteratorRandom::choose_multiple` over `0..len`, with the
/// thread-local generator: `amount` distinct positions below `len`, for
/// `amount <= len`, in an order of the generator's choosing.
#[verifier::external_body]
fn sample_positions(len: usize, amount: usize) -> (r: Vec<usize>)
    requires
        amount <= len,
    ensures
        r@.len() == amount,
        forall|i: int| 0 <= i < r@.len() ==> r@[i] < len,
        r@.no_duplicates(),
{
    (0..len).choose_multiple(&mut rand::thread_rng(), amount)
}

/// Queue of transactions awaiting a block.
///
/// Each operation takes the queue exclusively; producers and the single
/// consumer share it behind a lock.
pub struct Queue {
    /// The queue for transactions
    tx_hashes: Ring,
    /// [`AcceptedTransaction`]s addressed by `Hash`
    accepted_txs: BodyMap,
    /// Amount of transactions per user in the queue
    txs_per_user: CounterMap,
    /// The maximum number of transactions in the queue
    capacity: usize,
    /// The maximum number of transactions in the queue per user. Used to apply throttling
    capacity_per_user: usize,
    /// The time source used to check transaction against
    time_source: TimeSource,
    /// Length of time after which transactions are dropped, in milliseconds.
    tx_time_to_live_ms: u64,
    /// A point in time that is considered `Future` we cannot use
    /// current time, because of network time synchronisation issues
    future_threshold_ms: u64,
    /// Events emitted and not yet taken.
    events: Vec<TransactionEvent>,
    /// Events already taken.
    delivered: Ghost<Seq<TransactionEvent>>,
}

impl View for Queue {
    type V = QueueView;

    closed spec fn view(&self) -> QueueView {
        QueueView {
            order: ring_contents(self.tx_hashes),
            body: body_contents(self.accepted_txs),
            per_user: counter_contents(self.txs_per_user),
            capacity: self.capacity as nat,
            capacity_per_user: self.capacity_per_user as nat,
            ttl_ms: self.tx_time_to_live_ms as nat,
            future_threshold_ms: self.future_threshold_ms as nat,
            events: self.events@,
            delivered: self.delivered@,
            clock: self.time_source,
        }
    }
}

/// Check that the user adhered to the maximum transaction per user limit and increment their transaction count.
fn check_and_increase_per_user_tx_count(counts: &mut CounterMap, capacity_per_user: usize, account_id: &String) -> (r: Result<(), Error>)
    requires
        capacity_per_user > 0,
    ensures
        ({
            let m = counter_contents(*old(counts));
            let load: nat = if m.contains_key(account_id@) { m[account_id@] as nat } else { 0 };
            if load >= capacity_per_user {
                r == Err::<(), Error>(Error::MaximumTransactionsPerUser) && counter_contents(*final(counts)) == m
            } else {
                r is Ok && counter_contents(*final(counts)) == m.insert(account_id@, (load + 1) as usize)
            }
        }),
{
    match counter_get(counts, account_id) {
        None => {
            counter_insert(counts, account_id, 1);
            Ok(())
        },
        Some(txs) => {
            if txs >= capacity_per_user {
                return Err(Error::MaximumTransactionsPerUser);
            }
            counter_insert(counts, account_id, txs + 1);
            Ok(())
        },
    }
}

/// Lowers the count of `account_id` by one, dropping the entry that would reach zero.
fn decrease_per_user_tx_count(counts: &mut CounterMap, account_id: &String)
    requires
        counter_contents(*old(counts)).contains_key(account_id@),
    ensures
        ({
            let m = counter_contents(*old(counts));
            counter_contents(*final(counts)) == if m[account_id@] > 1 {
                m.insert(account_id@, (m[account_id@] - 1) as usize)
            } else {
                m.remove(account_id@)
            }
        }),
{
    match counter_get(counts, account_id) {
        Some(count) => {
            if count > 1 {
                counter_insert(counts, account_id, count - 1);
            } else {
                counter_remove(counts, account_id);
            }
        },
        None => {},
    }
}

impl Queue {
    /// The queue's invariant, together with the agreement of its ring with its settings.
    pub open spec fn wf(&self) -> bool {
        self@.consistent() && self.ring_fits()
    }

    /// What a drain keeps of `pre` while it runs: settings, events, clock,
    /// and the agreement of the counters with the body.
    closed spec fn drain_frame(&self, pre: QueueView) -> bool {
        &&& self.drain_frame_except_events(pre)
        &&& self@.events == pre.events
    }

    /// Bookkeeping of a drain of `pre` in progress: the ring holds the
    /// fingerprints not popped yet; each popped one is either kept or dropped
    /// (and its entry gone); and what the drain still does from here, with
    /// `batch` already in the batch and `room` places left, completes `full`.
    closed spec fn drain_accounts(
        &self,
        pre: QueueView,
        view: StateView,
        now: int,
        pad: int,
        batch: Set<Fingerprint>,
        room: nat,
        full: DrainOutcome,
        kept: Seq<Fingerprint>,
        expired: Seq<Fingerprint>,
        dropped: Seq<Fingerprint>,
        taken: Seq<AcceptedTransaction>,
        popped: int,
    ) -> bool {
        let ring = ring_contents(self.tx_hashes);
        let rem = pre.drain_from(ring, view, now, pad, batch, room);
        let prefix = pre.order.subrange(0, popped);
        &&& pre.consistent()
        &&& self.drain_frame(pre)
        &&& 0 <= popped <= pre.order.len()
        &&& ring == pre.order.subrange(popped, pre.order.len() as int)
        &&& full.taken == taken + rem.taken
        &&& full.kept == kept + rem.kept
        &&& full.dropped == dropped + rem.dropped
        &&& full.expired == expired + rem.expired
        &&& full.rest == rem.rest
        &&& forall|x: Fingerprint|
            #[trigger] self@.body.contains_key(x) <==> (pre.body.contains_key(x) && !dropped.contains(x))
        &&& forall|x: Fingerprint| #[trigger] self@.body.contains_key(x) ==> self@.body[x] == pre.body[x]
        &&& self@.body.len() == ring.len() + kept.len()
        &&& kept.no_duplicates()
        &&& kept.len() + dropped.len() == popped
        &&& forall|x: Fingerprint| #[trigger] kept.contains(x) ==> prefix.contains(x) && !dropped.contains(x)
        &&& forall|x: Fingerprint| #[trigger] dropped.contains(x) ==> prefix.contains(x)
        &&& forall|x: Fingerprint| #[trigger] prefix.contains(x) ==> kept.contains(x) || dropped.contains(x)
        &&& forall|x: Fingerprint| #[trigger] expired.contains(x) ==> pre.body.contains_key(x)
    }

    /// As `drain_frame`, without the events.
    closed spec fn drain_frame_except_events(&self, pre: QueueView) -> bool {
        &&& self.ring_fits()
        &&& self@.same_config(pre)
        &&& 0 < pre.capacity
        &&& 0 < pre.capacity_per_user <= usize::MAX
        &&& self@.delivered == pre.delivered
        &&& self@.clock == pre.clock
        &&& self@.body.dom().finite()
        &&& counters_agree(self@)
    }

    /// The ring was created with the queue's capacity.
    pub closed spec fn ring_fits(&self) -> bool {
        &&& ring_capacity(self.tx_hashes) == self.capacity
        &&& ring_contents(self.tx_hashes).len() <= ring_capacity(self.tx_hashes)
    }

    /// Makes queue from configuration
    pub fn from_config(cfg: Config) -> (r: Self)
        requires
            cfg.capacity > 0,
            cfg.capacity_per_user > 0,
            cfg.capacity * 40 <= isize::MAX,
        ensures
            r.wf(),
            r@.clock == TimeSource::System,
            r@.order.len() == 0,
            r@.body.len() == 0,
            r@.per_user.dom() == Set::<Seq<char>>::empty(),
            r@.capacity == cfg.capacity,
            r@.capacity_per_user == cfg.capacity_per_user,
            r@.ttl_ms == cfg.transaction_time_to_live_ms,
            r@.future_threshold_ms == cfg.future_threshold_ms,
            r@.history().len() == 0,
    {
        Self::with_time_source(cfg, TimeSource::System)
    }

    /// Makes a queue from configuration that reads the time from `time_source`.
    pub fn with_time_source(cfg: Config, time_source: TimeSource) -> (r: Self)
        requires
            cfg.capacity > 0,
            cfg.capacity_per_user > 0,
            cfg.capacity * 40 <= isize::MAX,
        ensures
            r.wf(),
            r@.clock == time_source,
            r@.order.len() == 0,
            r@.body.len() == 0,
            r@.per_user.dom() == Set::<Seq<char>>::empty(),
            r@.capacity == cfg.capacity,
            r@.capacity_per_user == cfg.capacity_per_user,
            r@.ttl_ms == cfg.transaction_time_to_live_ms,
            r@.future_threshold_ms == cfg.future_threshold_ms,
            r@.history().len() == 0,
    {
        let q = Queue {
            tx_hashes: ring_new(cfg.capacity),
            accepted_txs: body_new(),
            txs_per_user: counter_new(),
            capacity: cfg.capacity,
            capacity_per_user: cfg.capacity_per_user,
            time_source,
            tx_time_to_live_ms: cfg.transaction_time_to_live_ms,
            future_threshold_ms: cfg.future_threshold_ms,
            events: Vec::new(),
            delivered: Ghost(Seq::empty()),
        };
        proof {
            let v = q@;
            assert(v.body.dom() =~= Set::<Fingerprint>::empty());
            assert(v.history() =~= Seq::<TransactionEvent>::empty());
            assert forall|a: Seq<char>| #[trigger] v.user_load(a) == v.count_of(a) by {
                assert(v.body.dom().filter(|h: Fingerprint| v.body[h].authority@ == a) =~= Set::empty());
            }
        }
        q
    }

    /// Where the queue reads the time.
    pub fn time_source(&self) -> (r: TimeSource)
        ensures
            r == self@.clock,
    {
        self.time_source
    }

    /// Makes the queue read the time from `time_source`.
    pub fn set_time_source(&mut self, time_source: TimeSource)
        requires
            old(self).wf(),
        ensures
            final(self).wf(),
            final(self)@ == (QueueView { clock: time_source, ..old(self)@ }),
    {
        let ghost pre = self@;
        self.time_source = time_source;
        proof {
            lemma_consistent_same_parts(pre, self@);
        }
    }

    /// Time to live applied when a transaction sets none, in milliseconds.
    pub fn tx_time_to_live_ms(&self) -> (r: u64)
        ensures
            r == self@.ttl_ms,
    {
        self.tx_time_to_live_ms
    }

    /// Checks if the transaction is waiting longer than its TTL or than the TTL from [`Config`],
    /// `time_padding_ms` after `now_ms`.
    pub fn is_expired_at(&self, tx: &AcceptedTransaction, time_padding_ms: u64, now_ms: u64) -> (r: bool)
        ensures
            r == self@.expired(*tx, now_ms as int, time_padding_ms as int),
    {
        let tx_creation_time = tx.creation_time_ms;
        let time_limit = match tx.time_to_live_ms {
            Some(tx_time_to_live) => if tx_time_to_live < self.tx_time_to_live_ms {
                tx_time_to_live
            } else {
                self.tx_time_to_live_ms
            },
            None => self.tx_time_to_live_ms,
        };
        let age = now_ms.saturating_sub(tx_creation_time);
        age > time_limit || time_padding_ms > time_limit - age
    }

    /// Checks if the transaction is waiting longer than its TTL or than the TTL from [`Config`],
    /// `time_padding_ms` after the time the queue's clock reads.
    pub fn is_expired(&self, tx: &AcceptedTransaction, time_padding_ms: u64) -> (r: bool)
        ensures
            exists|now: u64| self@.clock.may_read(now) && r == self@.expired(*tx, now as int, time_padding_ms as int),
    {
        let now = self.time_source.get_unix_time_ms();
        self.is_expired_at(tx, time_padding_ms, now)
    }

    /// If `true`, this transaction is regarded to have been tampered to have a future timestamp.
    fn is_in_future(&self, tx: &AcceptedTransaction, now_ms: u64) -> (r: bool)
        ensures
            r == self@.in_future(*tx, now_ms as int),
    {
        tx.creation_time_ms.saturating_sub(now_ms) > self.future_threshold_ms
    }

    /// Whether `tx` is neither expired nor committed at `now_ms`.
    fn is_pending(&self, tx: &AcceptedTransaction, state_view: &StateView, now_ms: u64) -> (r: bool)
        ensures
            r == self@.pending(*tx, *state_view, now_ms as int),
    {
        !self.is_expired_at(tx, 0, now_ms) && !tx.is_in_blockchain(state_view)
    }

    /// The first check that `tx` fails, in priority order.
    fn check_tx(&self, tx: &AcceptedTransaction, state_view: &StateView, time_padding_ms: u64, now_ms: u64) -> (r: Result<(), Error>)
        ensures
            r == self@.check(*tx, *state_view, now_ms as int, time_padding_ms as int),
    {
        if self.is_in_future(tx, now_ms) {
            Err(Error::InFuture)
        } else if self.is_expired_at(tx, time_padding_ms, now_ms) {
            Err(Error::Expired)
        } else if tx.is_in_blockchain(state_view) {
            Err(Error::InBlockchain)
        } else if !tx.check_signature_condition(state_view) {
            Err(Error::SignatureCondition)
        } else {
            Ok(())
        }
    }

    /// Push transaction into queue, checking it against the time `now_ms`.
    ///
    /// # Errors
    /// See [`enum@Error`]
    pub fn push_at(&mut self, tx: AcceptedTransaction, state_view: &StateView, now_ms: u64) -> (r: Result<(), Failure>)
        requires
            old(self).wf(),
        ensures
            final(self).wf(),
            old(self)@.push_post(final(self)@, tx, *state_view, now_ms as int, r),
    {
        if let Err(err) = self.check_tx(&tx, state_view, 0, now_ms) {
            return Err(Failure { tx, err });
        }
        let txs_len = body_len(&self.accepted_txs);
        let hash = tx.hash;
        if body_contains(&self.accepted_txs, &hash) {
            return Err(Failure { tx, err: Error::IsInQueue });
        }
        if txs_len >= self.capacity {
            return Err(Failure { tx, err: Error::Full });
        }
        let ghost pre = self@;
        let ghost t = tx;
        if let Err(err) = check_and_increase_per_user_tx_count(
            &mut self.txs_per_user,
            self.capacity_per_user,
            &tx.authority,
        ) {
            proof {
                assert(self@ == pre);
            }
            return Err(Failure { tx, err });
        }
        // The body entry goes in before the fingerprint, so that every
        // fingerprint in the ring has its entry.
        body_insert(&mut self.accepted_txs, hash, tx);
        let rejected = ring_push(&mut self.tx_hashes, hash);
        self.events.push(TransactionEvent { hash, block_height: None, status: TransactionStatus::Queued });
        proof {
            assert(rejected is None);
            let post = self@;
            assert(post == pre.pushed(t));
            lemma_pushed_consistent(pre, t);
        }
        Ok(())
    }

    /// Push transaction into queue, checking it against the time the queue's clock reads.
    ///
    /// # Errors
    /// See [`enum@Error`]
    pub fn push(&mut self, tx: AcceptedTransaction, state_view: &StateView) -> (r: Result<(), Failure>)
        requires
            old(self).wf(),
        ensures
            final(self).wf(),
            exists|now: u64|
                old(self)@.clock.may_read(now) && old(self)@.push_post(
                    final(self)@,
                    tx,
                    *state_view,
                    now as int,
                    r,
                ),
    {
        let now = self.time_source.get_unix_time_ms();
        self.push_at(tx, state_view, now)
    }

    /// Pop single transaction from the queue. Removes all transactions that fail the checks.
    ///
    /// Fingerprints are popped until one passes the checks at `now_ms` plus
    /// `time_padding_ms`; that one is recorded in `seen` and its transaction
    /// returned. Each failing one leaves the queue, and is recorded in
    /// `expired_transactions` where it failed as expired. `None` once the ring
    /// is empty. The ghost arguments carry the drain's bookkeeping.
    fn pop_from_queue(
        &mut self,
        seen: &mut Vec<Fingerprint>,
        state_view: &StateView,
        expired_transactions: &mut Vec<Fingerprint>,
        time_padding_ms: u64,
        now_ms: u64,
        pre: Ghost<QueueView>,
        batch: Ghost<Set<Fingerprint>>,
        room: Ghost<nat>,
        full: Ghost<DrainOutcome>,
        taken: Ghost<Seq<AcceptedTransaction>>,
        dropped: &mut Ghost<Seq<Fingerprint>>,
        popped: &mut Ghost<int>,
    ) -> (r: Option<AcceptedTransaction>)
        requires
            room@ > 0,
            old(self).drain_accounts(
                pre@,
                *state_view,
                now_ms as int,
                time_padding_ms as int,
                batch@,
                room@,
                full@,
                old(seen)@,
                old(expired_transactions)@,
                old(dropped)@,
                taken@,
                old(popped)@,
            ),
        ensures
            final(popped)@ >= old(popped)@,
            r is Some ==> final(popped)@ > old(popped)@,
            r is None ==> ring_contents(final(self).tx_hashes).len() == 0 && final(self).drain_accounts(
                pre@,
                *state_view,
                now_ms as int,
                time_padding_ms as int,
                batch@,
                room@,
                full@,
                final(seen)@,
                final(expired_transactions)@,
                final(dropped)@,
                taken@,
                final(popped)@,
            ),
            r is Some ==> ({
                let tx = r->Some_0;
                &&& pre@.body.contains_key(tx.hash)
                &&& tx == pre@.body[tx.hash]
                &&& if batch@.contains(tx.hash) {
                    final(self).drain_accounts(
                        pre@,
                        *state_view,
                        now_ms as int,
                        time_padding_ms as int,
                        batch@,
                        room@,
                        full@,
                        final(seen)@,
                        final(expired_transactions)@,
                        final(dropped)@,
                        taken@,
                        final(popped)@,
                    )
                } else {
                    final(self).drain_accounts(
                        pre@,
                        *state_view,
                        now_ms as int,
                        time_padding_ms as int,
                        batch@.insert(tx.hash),
                        (room@ - 1) as nat,
                        full@,
                        final(seen)@,
                        final(expired_transactions)@,
                        final(dropped)@,
                        taken@.push(tx),
                        final(popped)@,
                    )
                }
            }),
    {
        let ghost now = now_ms as int;
        let ghost pad = time_padding_ms as int;
        loop
            invariant
                now == now_ms as int,
                pad == time_padding_ms as int,
                room@ > 0,
                popped@ >= old(popped)@,
                self.drain_accounts(
                    pre@,
                    *state_view,
                    now,
                    pad,
                    batch@,
                    room@,
                    full@,
                    seen@,
                    expired_transactions@,
                    dropped@,
                    taken@,
                    popped@,
                ),
            decreases ring_contents(self.tx_hashes).len(),
        {
            let ghost cur = ring_contents(self.tx_hashes);
            let ghost before = self@;
            let ghost kept0 = seen@;
            let ghost dropped0 = dropped@;
            let ghost expired0 = expired_transactions@;
            let ghost at = popped@;
            let popped_hash = ring_pop(&mut self.tx_hashes);
            proof {
                lemma_counts_carry(before, self@);
            }
            let hash = match popped_hash {
                None => {
                    return None;
                },
                Some(hash) => hash,
            };
            proof {
                assert(cur[0] == pre@.order[at]);
                assert(pre@.order.subrange(0, at + 1) =~= pre@.order.subrange(0, at).push(hash));
                assert(!pre@.order.subrange(0, at).contains(hash)) by {
                    if pre@.order.subrange(0, at).contains(hash) {
                        let k = choose|k: int| 0 <= k < at && pre@.order.subrange(0, at)[k] == hash;
                        assert(pre@.order[k] == pre@.order[at]);
                    }
                }
                assert(pre@.body.contains_key(hash));
                assert(!dropped@.contains(hash));
                assert(self@.body.contains_key(hash));
                assert(cur.drop_first() =~= ring_contents(self.tx_hashes));
                lemma_push_contains(pre@.order.subrange(0, at), hash);
                lemma_push_contains(kept0, hash);
                lemma_push_contains(dropped0, hash);
                lemma_push_contains(expired0, hash);
                assert(!kept0.contains(hash));
            }
            let entry = body_get(&self.accepted_txs, &hash);
            let tx = match entry {
                Some(tx) => tx,
                // Every fingerprint in the ring has its entry.
                None => {
                    continue;
                },
            };
            match self.check_tx(&tx, state_view, time_padding_ms, now_ms) {
                Err(e) => {
                    let ghost s0 = self@;
                    let ghost a = tx.authority@;
                    proof {
                        lemma_count_remove(s0.body, hash, a);
                        assert(s0.user_load(a) == s0.count_of(a));
                    }
                    body_remove(&mut self.accepted_txs, &hash);
                    decrease_per_user_tx_count(&mut self.txs_per_user, &tx.authority);
                    if e == Error::Expired {
                        expired_transactions.push(hash);
                    }
                    proof {
                        let rem_tail = pre@.drain_from(cur.drop_first(), *state_view, now, pad, batch@, room@);
                        assert(dropped0 + (seq![hash] + rem_tail.dropped) =~= dropped0.push(hash) + rem_tail.dropped);
                        assert(expired0 + (seq![hash] + rem_tail.expired) =~= expired0.push(hash) + rem_tail.expired);
                        lemma_counts_after_remove(s0, self@, hash);
                    }
                    *dropped = Ghost(dropped@.push(hash));
                    *popped = Ghost(popped@ + 1);
                    proof {
                        let ring = ring_contents(self.tx_hashes);
                        let rem = pre@.drain_from(ring, *state_view, now, pad, batch@, room@);
                        let prefix = pre@.order.subrange(0, popped@);
                        assert(pre@.consistent());
                        assert(self.drain_frame(pre@));
                        assert(0 <= popped@ <= pre@.order.len());
                        assert(ring == pre@.order.subrange(popped@, pre@.order.len() as int));
                        assert(full@.taken == taken@ + rem.taken);
                        assert(full@.kept == seen@ + rem.kept);
                        assert(full@.dropped == dropped@ + rem.dropped);
                        assert(full@.expired == expired_transactions@ + rem.expired);
                        assert(full@.rest == rem.rest);
                        assert(self@.body.len() == ring.len() + seen@.len());
                        assert(seen@.len() + dropped@.len() == popped@);
                    }
                },
                Ok(()) => {
                    seen.push(hash);
                    *popped = Ghost(popped@ + 1);
                    proof {
                        assert(tx == pre@.body[hash]);
                        assert(tx.hash == hash);
                        assert(seen@.no_duplicates()) by {
                            assert forall|i: int, j: int| 0 <= i < j < seen@.len() implies seen@[i] != seen@[j] by {
                                if j == kept0.len() {
                                    assert(kept0.contains(seen@[i]));
                                } else {
                                    assert(kept0[i] != kept0[j]);
                                }
                            }
                        }
                        let ring = ring_contents(self.tx_hashes);
                        assert(ring == pre@.order.subrange(popped@, pre@.order.len() as int));
                        assert(self@.body.len() == ring.len() + seen@.len());
                        assert(seen@.len() + dropped@.len() == popped@);
                        if batch@.contains(hash) {
                            let rem_tail = pre@.drain_from(cur.drop_first(), *state_view, now, pad, batch@, room@);
                            assert(kept0 + (seq![hash] + rem_tail.kept) =~= seen@ + rem_tail.kept);
                            assert(full@.taken == taken@ + rem_tail.taken);
                            assert(full@.kept == seen@ + rem_tail.kept);
                            assert(full@.dropped == dropped@ + rem_tail.dropped);
                            assert(full@.expired == expired_transactions@ + rem_tail.expired);
                            assert(full@.rest == rem_tail.rest);
                        } else {
                            let rem_tail = pre@.drain_from(
                                cur.drop_first(),
                                *state_view,
                                now,
                                pad,
                                batch@.insert(hash),
                                (room@ - 1) as nat,
                            );
                            assert(kept0 + (seq![hash] + rem_tail.kept) =~= seen@ + rem_tail.kept);
                            assert(taken@ + (seq![tx] + rem_tail.taken) =~= taken@.push(tx) + rem_tail.taken);
                            assert(full@.taken == taken@.push(tx) + rem_tail.taken);
                            assert(full@.kept == seen@ + rem_tail.kept);
                            assert(full@.dropped == dropped@ + rem_tail.dropped);
                            assert(full@.expired == expired_transactions@ + rem_tail.expired);
                            assert(full@.rest == rem_tail.rest);
                        }
                    }
                    return Some(tx);
                },
            }
        }
    }

    /// Put transactions into provided vector until they fill the whole block or
    /// there are no more transactions in the queue, checking them against the
    /// time `now_ms` plus `time_padding_ms`.
    pub fn get_transactions_for_block_at(
        &mut self,
        state_view: &StateView,
        max_txs_in_block: usize,
        transactions: &mut Vec<AcceptedTransaction>,
        time_padding_ms: u64,
        now_ms: u64,
    )
        requires
            old(self).wf(),
        ensures
            final(self).wf(),
            old(self)@.drain_post(
                final(self)@,
                old(transactions)@,
                final(transactions)@,
                *state_view,
                max_txs_in_block as nat,
                time_padding_ms as int,
                now_ms as int,
            ),
    {
        if transactions.len() >= max_txs_in_block {
            return;
        }
        let ghost pre = self@;
        let ghost out0 = transactions@;
        let ghost now = now_ms as int;
        let ghost pad = time_padding_ms as int;

        // Fingerprints of the batch, so that no transaction joins it twice.
        let mut transactions_hashes = set_new();
        let mut i: usize = 0;
        while i < transactions.len()
            invariant
                0 <= i <= transactions.len(),
                transactions@ == out0,
                set_contents(transactions_hashes) == hashes_of(out0.subrange(0, i as int)),
            decreases transactions.len() - i,
        {
            proof {
                assert(out0.subrange(0, i + 1) =~= out0.subrange(0, i as int).push(out0[i as int]));
                lemma_hashes_push(out0.subrange(0, i as int), out0[i as int]);
            }
            set_insert(&mut transactions_hashes, transactions[i].hash);
            i = i + 1;
        }
        proof {
            assert(out0.subrange(0, out0.len() as int) =~= out0);
        }

        let ghost full = pre.drain_outcome(*state_view, now, pad, out0, max_txs_in_block as nat);
        let mut room: usize = max_txs_in_block - transactions.len();
        let mut seen_queue: Vec<Fingerprint> = Vec::new();
        let mut expired_transactions: Vec<Fingerprint> = Vec::new();
        let mut dropped: Ghost<Seq<Fingerprint>> = Ghost(Seq::empty());
        let mut taken: Ghost<Seq<AcceptedTransaction>> = Ghost(Seq::empty());
        let mut popped: Ghost<int> = Ghost(0);
        let mut done = false;
        proof {
            assert(pre.order.subrange(0, pre.order.len() as int) =~= pre.order);
        }
        // Pop fingerprints until the batch is full or the ring is empty. A
        // transaction that fails the checks leaves the queue; one that passes
        // is kept for the ring and joins the batch unless it is already there.
        while !done && room > 0
            invariant
                pre == old(self)@,
                out0 == old(transactions)@,
                now == now_ms as int,
                pad == time_padding_ms as int,
                full == pre.drain_outcome(*state_view, now, pad, out0, max_txs_in_block as nat),
                done ==> ring_contents(self.tx_hashes).len() == 0,
                self.drain_accounts(
                    pre,
                    *state_view,
                    now,
                    pad,
                    set_contents(transactions_hashes),
                    room as nat,
                    full,
                    seen_queue@,
                    expired_transactions@,
                    dropped@,
                    taken@,
                    popped@,
                ),
                transactions@ == out0 + taken@,
                set_contents(transactions_hashes) == hashes_of(transactions@),
                room + transactions@.len() == max_txs_in_block,
            decreases ring_contents(self.tx_hashes).len() + if done { 0int } else { 1int },
        {
            let popped_tx = self.pop_from_queue(
                &mut seen_queue,
                state_view,
                &mut expired_transactions,
                time_padding_ms,
                now_ms,
                Ghost(pre),
                Ghost(set_contents(transactions_hashes)),
                Ghost(room as nat),
                Ghost(full),
                Ghost(taken@),
                &mut dropped,
                &mut popped,
            );
            match popped_tx {
                None => {
                    done = true;
                },
                Some(tx) => {
                    if !set_contains(&transactions_hashes, &tx.hash) {
                        set_insert(&mut transactions_hashes, tx.hash);
                        proof {
                            lemma_hashes_push(transactions@, tx);
                        }
                        taken = Ghost(taken@.push(tx));
                        transactions.push(tx);
                        room = room - 1;
                    }
                },
            }
        }
        let ghost rest = ring_contents(self.tx_hashes);
        proof {
            assert(rest.len() + seen_queue@.len() <= pre.capacity);
            assert(full.kept == seen_queue@);
            assert(full.dropped == dropped@);
            assert(full.rest == rest);
            assert(full.taken =~= taken@);
            assert(full.expired =~= expired_transactions@);
        }

        // Every kept fingerprint goes back behind the unpopped ones, in pop
        // order. They fit: the ring held them all before the drain.
        let ghost body_after = self@.body;
        let ghost counts_after = self@.per_user;
        let mut j: usize = 0;
        while j < seen_queue.len()
            invariant
                pre.consistent(),
                pre == old(self)@,
                self.drain_frame(pre),
                self@.body == body_after,
                self@.per_user == counts_after,
                0 <= j <= seen_queue@.len(),
                ring_contents(self.tx_hashes) == rest + seen_queue@.subrange(0, j as int),
                rest.len() + seen_queue@.len() <= pre.capacity,
            decreases seen_queue.len() - j,
        {
            let ghost before = self@;
            let rejected = ring_push(&mut self.tx_hashes, seen_queue[j]);
            proof {
                lemma_counts_carry(before, self@);
                assert(rejected is None);
                assert(seen_queue@.subrange(0, j + 1) =~= seen_queue@.subrange(0, j as int).push(seen_queue@[j as int]));
            }
            j = j + 1;
        }

        // Report the transactions dropped@ as expired_transactions.
        let ghost events_before = self.events@;
        let mut k: usize = 0;
        while k < expired_transactions.len()
            invariant
                pre.consistent(),
                pre == old(self)@,
                self.drain_frame_except_events(pre),
                self@.body == body_after,
                self@.per_user == counts_after,
                self@.order == rest + seen_queue@,
                0 <= k <= expired_transactions@.len(),
                self.events@ == events_before + expired_transactions@.subrange(0, k as int).map_values(
                    |h: Fingerprint| expired_event(h),
                ),
            decreases expired_transactions.len() - k,
        {
            let ghost before = self@;
            self.events.push(TransactionEvent {
                hash: expired_transactions[k],
                block_height: None,
                status: TransactionStatus::Expired,
            });
            proof {
                lemma_counts_carry(before, self@);
                assert(expired_transactions@.subrange(0, k + 1).map_values(|h: Fingerprint| expired_event(h))
                    =~= expired_transactions@.subrange(0, k as int).map_values(|h: Fingerprint| expired_event(h)).push(expired_event(expired_transactions@[k as int])));
            }
            k = k + 1;
        }
        proof {
            assert(seen_queue@.subrange(0, seen_queue@.len() as int) =~= seen_queue@);
            assert(expired_transactions@.subrange(0, expired_transactions@.len() as int) =~= expired_transactions@);
            lemma_drained_consistent(pre, full, self@, popped@);
        }
    }

    /// Put transactions into provided vector until they fill the whole block or
    /// there are no more transactions in the queue, checking them against the
    /// time the queue's clock reads plus `time_padding_ms`.
    ///
    /// BEWARE: Shouldn't be called in parallel with itself.
    pub fn get_transactions_for_block(
        &mut self,
        state_view: &StateView,
        max_txs_in_block: usize,
        transactions: &mut Vec<AcceptedTransaction>,
        time_padding_ms: u64,
    )
        requires
            old(self).wf(),
        ensures
            final(self).wf(),
            exists|now: u64|
                old(self)@.clock.may_read(now) && old(self)@.drain_post(
                    final(self)@,
                    old(transactions)@,
                    final(transactions)@,
                    *state_view,
                    max_txs_in_block as nat,
                    time_padding_ms as int,
                    now as int,
                ),
    {
        let now = self.time_source.get_unix_time_ms();
        self.get_transactions_for_block_at(state_view, max_txs_in_block, transactions, time_padding_ms, now);
    }

    /// Hands over the events emitted since the last call, oldest first.
    pub fn take_events(&mut self) -> (r: Vec<TransactionEvent>)
        requires
            old(self).wf(),
        ensures
            final(self).wf(),
            r@ == old(self)@.events,
            final(self)@ == (QueueView {
                events: Seq::empty(),
                delivered: old(self)@.delivered + old(self)@.events,
                ..old(self)@
            }),
    {
        let ghost pre = self@;
        let mut r = Vec::new();
        std::mem::swap(&mut self.events, &mut r);
        self.delivered = Ghost(self.delivered@ + r@);
        proof {
            assert(self@.history() =~= pre.history());
            lemma_consistent_same_parts(pre, self@);
        }
        r
    }

    /// Returns all pending transactions: those neither expired nor committed at `now_ms`.
    pub fn all_transactions_at(&self, state_view: &StateView, now_ms: u64) -> (r: Vec<AcceptedTransaction>)
        requires
            self.wf(),
        ensures
            self@.lists_pending(r@, *state_view, now_ms as int),
    {
        let mut entries = body_entries(&self.accepted_txs);
        let ghost e0 = entries@;
        let ghost q = self@;
        let mut out: Vec<AcceptedTransaction> = Vec::new();
        while entries.len() > 0
            invariant
                q == self@,
                q.consistent(),
                entries@.len() <= e0.len(),
                entries@ == e0.subrange(0, entries@.len() as int),
                e0.len() == q.body.len(),
                forall|i: int| 0 <= i < e0.len() ==> q.body.contains_key(#[trigger] e0[i].0) && q.body[e0[i].0] == e0[i].1,
                forall|i: int, j: int| 0 <= i < j < e0.len() ==> e0[i].0 != e0[j].0,
                forall|h: Fingerprint| #[trigger] q.body.contains_key(h) ==> exists|i: int| 0 <= i < e0.len() && e0[i].0 == h,
                forall|i: int|
                    0 <= i < out@.len() ==> q.body.contains_key(#[trigger] out@[i].hash) && q.body[out@[i].hash]
                        == out@[i] && q.pending(out@[i], *state_view, now_ms as int),
                forall|i: int|
                    #![trigger out@[i]]
                    0 <= i < out@.len() ==> exists|k: int|
                        entries@.len() <= k < e0.len() && #[trigger] e0[k].0 == out@[i].hash,
                forall|i: int, j: int| 0 <= i < j < out@.len() ==> out@[i].hash != out@[j].hash,
                forall|k: int|
                    entries@.len() <= k < e0.len() && q.pending(#[trigger] e0[k].1, *state_view, now_ms as int)
                        ==> exists|i: int| 0 <= i < out@.len() && out@[i].hash == e0[k].0,
            decreases entries@.len(),
        {
            let ghost m = entries@.len() - 1;
            let entry = entries.pop();
            if let Some((hash, tx)) = entry {
                proof {
                    assert(e0[m] == (hash, tx));
                    assert(tx.hash == hash);
                }
                if self.is_pending(&tx, state_view, now_ms) {
                    let ghost before = out@;
                    out.push(tx);
                    proof {
                        assert forall|i: int, j: int| 0 <= i < j < out@.len() implies out@[i].hash != out@[j].hash by {
                            if j == before.len() {
                                let k = choose|k: int| m + 1 <= k < e0.len() && #[trigger] e0[k].0 == before[i].hash;
                                assert(e0[k].0 != e0[m].0);
                            }
                        }
                        assert forall|i: int| #![trigger out@[i]] 0 <= i < out@.len() implies exists|k: int|
                            m <= k < e0.len() && #[trigger] e0[k].0 == out@[i].hash by {
                            if i == before.len() {
                                assert(e0[m].0 == out@[i].hash);
                            } else {
                                assert(out@[i] == before[i]);
                            }
                        }
                        assert forall|k: int|
                            m <= k < e0.len() && q.pending(#[trigger] e0[k].1, *state_view, now_ms as int)
                            implies exists|i: int| 0 <= i < out@.len() && out@[i].hash == e0[k].0 by {
                            if k == m {
                                assert(out@[before.len() as int].hash == e0[k].0);
                            } else {
                                let i = choose|i: int| 0 <= i < before.len() && before[i].hash == e0[k].0;
                                assert(out@[i] == before[i]);
                            }
                        }
                    }
                }
            }
        }
        proof {
            let ps = q.pending_set(*state_view, now_ms as int);
            assert forall|h: Fingerprint| #[trigger] ps.contains(h) implies exists|i: int|
                0 <= i < out@.len() && out@[i].hash == h by {
                assert(q.body.contains_key(h));
                let k = choose|k: int| 0 <= k < e0.len() && e0[k].0 == h;
                assert(q.pending(e0[k].1, *state_view, now_ms as int));
            }
            let hs = out@.map_values(|t: AcceptedTransaction| t.hash);
            assert(hs.no_duplicates()) by {
                assert forall|i: int, j: int| 0 <= i < hs.len() && 0 <= j < hs.len() && i != j implies hs[i] != hs[j] by {
                    if i < j {
                        assert(out@[i].hash != out@[j].hash);
                    } else {
                        assert(out@[j].hash != out@[i].hash);
                    }
                }
            }
            hs.unique_seq_to_set();
            assert(hs.to_set() =~= ps) by {
                assert forall|h: Fingerprint| hs.to_set().contains(h) implies ps.contains(h) by {
                    let i = choose|i: int| 0 <= i < hs.len() && hs[i] == h;
                    assert(out@[i].hash == h);
                }
                assert forall|h: Fingerprint| ps.contains(h) implies hs.to_set().contains(h) by {
                    let i = choose|i: int| 0 <= i < out@.len() && out@[i].hash == h;
                    assert(hs[i] == h);
                }
            }
        }
        out
    }

    /// Returns all pending transactions: those neither expired nor committed at
    /// the time the queue's clock reads.
    pub fn all_transactions(&self, state_view: &StateView) -> (r: Vec<AcceptedTransaction>)
        requires
            self.wf(),
        ensures
            exists|now: u64| self@.clock.may_read(now) && self@.lists_pending(r@, *state_view, now as int),
    {
        let now = self.time_source.get_unix_time_ms();
        self.all_transactions_at(state_view, now)
    }

    /// Returns `n` randomly selected pending transactions, as of `now_ms`.
    pub fn n_random_transactions_at(&self, n: u32, state_view: &StateView, now_ms: u64) -> (r: Vec<AcceptedTransaction>)
        requires
            self.wf(),
        ensures
            self@.samples_pending(r@, n as nat, *state_view, now_ms as int),
    {
        let mut pending = self.all_transactions_at(state_view, now_ms);
        let ghost listed = pending@;
        let len = pending.len();
        let mut slots: Vec<Option<AcceptedTransaction>> = Vec::new();
        while pending.len() > 0
            invariant
                pending@ == listed.subrange(0, pending@.len() as int),
                slots@.len() + pending@.len() == listed.len(),
                forall|j: int| 0 <= j < slots@.len() ==> slots@[j] == Some(listed[listed.len() - 1 - j]),
            decreases pending@.len(),
        {
            let ghost m = pending@.len() - 1;
            if let Some(tx) = pending.pop() {
                proof {
                    assert(tx == listed[m]);
                }
                slots.push(Some(tx));
            }
        }
        let amount: usize = if (n as usize) < len {
            n as usize
        } else {
            len
        };
        let positions = sample_positions(len, amount);
        let mut out: Vec<AcceptedTransaction> = Vec::new();
        let mut k: usize = 0;
        while k < positions.len()
            invariant
                slots@.len() == len == listed.len(),
                positions@.len() == amount,
                forall|i: int| 0 <= i < positions@.len() ==> positions@[i] < len,
                positions@.no_duplicates(),
                0 <= k <= positions@.len(),
                forall|j: int|
                    0 <= j < slots@.len() ==> #[trigger] slots@[j] == if positions@.subrange(0, k as int).contains(
                        j as usize,
                    ) {
                        None
                    } else {
                        Some(listed[listed.len() - 1 - j])
                    },
                out@.len() == k,
                forall|t: int| 0 <= t < k ==> out@[t] == listed[listed.len() - 1 - positions@[t]],
            decreases positions@.len() - k,
        {
            let i = positions[k];
            let ghost before = slots@;
            let slot = slots.remove(i);
            slots.insert(i, None);
            proof {
                assert(slots@ =~= before.update(i as int, None));
                assert(!positions@.subrange(0, k as int).contains(i)) by {
                    if positions@.subrange(0, k as int).contains(i) {
                        let t = choose|t: int| 0 <= t < k && positions@.subrange(0, k as int)[t] == i;
                        assert(positions@[t] == positions@[k as int]);
                    }
                }
                assert(positions@.subrange(0, k + 1) =~= positions@.subrange(0, k as int).push(i));
                assert(before[i as int] == Some(listed[listed.len() - 1 - i]));
                assert forall|j: int| 0 <= j < slots@.len() implies #[trigger] slots@[j] == if positions@.subrange(0, k + 1).contains(j as usize) {
                    None
                } else {
                    Some(listed[listed.len() - 1 - j])
                } by {
                    lemma_push_contains_usize(positions@.subrange(0, k as int), i);
                    assert(before[j] == if positions@.subrange(0, k as int).contains(j as usize) {
                        None
                    } else {
                        Some(listed[listed.len() - 1 - j])
                    });
                }
            }
            if let Some(tx) = slot {
                out.push(tx);
            }
            k = k + 1;
        }
        proof {
            let q = self@;
            assert forall|i: int, j: int| 0 <= i < j < out@.len() implies out@[i].hash != out@[j].hash by {
                assert(positions@[i] != positions@[j]);
                let a = listed.len() - 1 - positions@[i];
                let b = listed.len() - 1 - positions@[j];
                if a < b {
                    assert(listed[a].hash != listed[b].hash);
                } else {
                    assert(listed[b].hash != listed[a].hash);
                }
            }
        }
        out
    }

    /// Returns `n` randomly selected pending transactions, as of the time the
    /// queue's clock reads.
    pub fn n_random_transactions(&self, n: u32, state_view: &StateView) -> (r: Vec<AcceptedTransaction>)
        requires
            self.wf(),
        ensures
            exists|now: u64| self@.clock.may_read(now) && self@.samples_pending(r@, n as nat, *state_view, now as int),
    {
        let now = self.time_source.get_unix_time_ms();
        self.n_random_transactions_at(n, state_view, now)
    }

    /// Return the number of transactions in the queue.
    pub fn tx_len(&self) -> (r: usize)
        requires
            self.wf(),
        ensures
            r == self@.body.len(),
    {
        body_len(&self.accepted_txs)
    }
}

} // verus!
