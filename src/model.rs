//! Abstract state of the queue, the validity checks, and what push and
//! drain do to that state, with the lemmas the queue's proofs use.
use crate::queue::{Error, Failure, TransactionEvent, TransactionStatus};
use crate::time::TimeSource;
use crate::transaction::{AcceptedTransaction, Fingerprint, StateView};
use vstd::prelude::*;

verus! {

/// The event that reports `h` as admitted.
pub open spec fn queued_event(h: Fingerprint) -> TransactionEvent {
    TransactionEvent { hash: h, block_height: None, status: TransactionStatus::Queued }
}

/// The event that reports `h` as expired.
pub open spec fn expired_event(h: Fingerprint) -> TransactionEvent {
    TransactionEvent { hash: h, block_height: None, status: TransactionStatus::Expired }
}

/// `a - b`, or zero where `b` is the larger.
pub open spec fn saturating_diff(a: int, b: int) -> int {
    if a > b {
        a - b
    } else {
        0
    }
}

/// Fingerprints of the transactions in `txs`.
pub open spec fn hashes_of(txs: Seq<AcceptedTransaction>) -> Set<Fingerprint> {
    Set::new(|h: Fingerprint| exists|k: int| 0 <= k < txs.len() && #[trigger] txs[k].hash == h)
}

/// Whether an event of index below `n` in `history` reports `h` as admitted.
pub open spec fn queued_before(history: Seq<TransactionEvent>, h: Fingerprint, n: int) -> bool {
    exists|j: int| 0 <= j < n && j < history.len() && #[trigger] history[j] == queued_event(h)
}

/// Every expiry event in `history` follows an admission event for the same fingerprint.
pub open spec fn expiries_follow_admission(history: Seq<TransactionEvent>) -> bool {
    forall|i: int|
        0 <= i < history.len() && (#[trigger] history[i]).status == TransactionStatus::Expired
            ==> queued_before(history, history[i].hash, i)
}

/// Number of entries of `body` whose authority is `a`.
pub open spec fn count_in(body: Map<Fingerprint, AcceptedTransaction>, a: Seq<char>) -> nat {
    body.dom().filter(authored_by(body, a)).len()
}

/// Whether the entry of `body` under a fingerprint has authority `a`.
pub open spec fn authored_by(body: Map<Fingerprint, AcceptedTransaction>, a: Seq<char>) -> spec_fn(Fingerprint) -> bool {
    |h: Fingerprint| body[h].authority@ == a
}

pub(crate) proof fn lemma_count_insert(
    body: Map<Fingerprint, AcceptedTransaction>,
    h: Fingerprint,
    tx: AcceptedTransaction,
    a: Seq<char>,
)
    requires
        body.dom().finite(),
        !body.contains_key(h),
    ensures
        count_in(body.insert(h, tx), a) == count_in(body, a) + if tx.authority@ == a {
            1nat
        } else {
            0nat
        },
{
    let b1 = body.insert(h, tx);
    let s0 = body.dom().filter(authored_by(body, a));
    let s1 = b1.dom().filter(authored_by(b1, a));
    body.dom().lemma_len_filter(authored_by(body, a));
    if tx.authority@ == a {
        assert(s1 =~= s0.insert(h));
    } else {
        assert(s1 =~= s0);
    }
}

pub(crate) proof fn lemma_count_remove(body: Map<Fingerprint, AcceptedTransaction>, h: Fingerprint, a: Seq<char>)
    requires
        body.dom().finite(),
        body.contains_key(h),
    ensures
        count_in(body.remove(h), a) + (if body[h].authority@ == a {
            1nat
        } else {
            0nat
        }) == count_in(body, a),
{
    let b1 = body.remove(h);
    let s0 = body.dom().filter(authored_by(body, a));
    let s1 = b1.dom().filter(authored_by(b1, a));
    body.dom().lemma_len_filter(authored_by(body, a));
    if body[h].authority@ == a {
        assert(s1 =~= s0.remove(h));
    } else {
        assert(s1 =~= s0);
    }
}

/// A state that agrees with a consistent one on its contents, settings and
/// history is consistent too.
pub(crate) proof fn lemma_consistent_same_parts(a: QueueView, b: QueueView)
    requires
        a.consistent(),
        a.order == b.order,
        a.body == b.body,
        a.per_user == b.per_user,
        a.same_config(b),
        a.history() == b.history(),
    ensures
        b.consistent(),
{
    assert forall|x: Seq<char>| #[trigger] b.user_load(x) == b.count_of(x) by {
        assert(a.user_load(x) == a.count_of(x));
    }
}

/// Abstract state of a queue.
pub struct QueueView {
    /// Fingerprints in admission order.
    pub order: Seq<Fingerprint>,
    /// Resident transactions by fingerprint.
    pub body: Map<Fingerprint, AcceptedTransaction>,
    /// Number of resident transactions of each account that has one.
    pub per_user: Map<Seq<char>, usize>,
    /// Maximum number of resident transactions.
    pub capacity: nat,
    /// Maximum number of resident transactions of one account.
    pub capacity_per_user: nat,
    /// Default time to live, in milliseconds.
    pub ttl_ms: nat,
    /// Largest admitted lead of a creation time over the clock, in milliseconds.
    pub future_threshold_ms: nat,
    /// Events emitted and not yet taken by the caller.
    pub events: Seq<TransactionEvent>,
    /// Events emitted and already taken by the caller.
    pub delivered: Seq<TransactionEvent>,
    /// Where the queue reads the time.
    pub clock: TimeSource,
}

/// Result of draining a run of fingerprints.
pub struct DrainOutcome {
    /// Transactions appended to the batch, in pop order.
    pub taken: Seq<AcceptedTransaction>,
    /// Popped fingerprints that passed the checks and go back to the queue.
    pub kept: Seq<Fingerprint>,
    /// Popped fingerprints that failed the checks and leave the queue.
    pub dropped: Seq<Fingerprint>,
    /// Those of `dropped` that failed as expired.
    pub expired: Seq<Fingerprint>,
    /// Fingerprints left unpopped.
    pub rest: Seq<Fingerprint>,
}

impl QueueView {
    /// Every event emitted so far, in order.
    pub open spec fn history(self) -> Seq<TransactionEvent> {
        self.delivered + self.events
    }

    /// Number of resident transactions whose authority is `a`.
    pub open spec fn count_of(self, a: Seq<char>) -> nat {
        count_in(self.body, a)
    }

    /// The counter of account `a`; zero where it has none.
    pub open spec fn user_load(self, a: Seq<char>) -> nat {
        if self.per_user.contains_key(a) {
            self.per_user[a] as nat
        } else {
            0
        }
    }

    /// Whether the settings of `self` and `other` agree.
    pub open spec fn same_config(self, other: QueueView) -> bool {
        &&& self.capacity == other.capacity
        &&& self.capacity_per_user == other.capacity_per_user
        &&& self.ttl_ms == other.ttl_ms
        &&& self.future_threshold_ms == other.future_threshold_ms
    }

    /// The invariant of every queue between operations.
    pub open spec fn consistent(self) -> bool {
        &&& 0 < self.capacity
        &&& 0 < self.capacity_per_user <= usize::MAX
        &&& self.body.dom().finite()
        &&& self.order.no_duplicates()
        &&& forall|i: int| 0 <= i < self.order.len() ==> self.body.contains_key(#[trigger] self.order[i])
        &&& forall|h: Fingerprint| #[trigger] self.body.contains_key(h) ==> self.order.contains(h)
        &&& forall|h: Fingerprint| #[trigger] self.body.contains_key(h) ==> self.body[h].hash == h
        &&& self.order.len() == self.body.len()
        &&& forall|a: Seq<char>| #[trigger] self.per_user.contains_key(a) ==> self.per_user[a] > 0
        &&& forall|a: Seq<char>| #[trigger] self.user_load(a) == self.count_of(a)
        &&& self.body.len() <= self.capacity
        &&& forall|a: Seq<char>|
            #[trigger] self.per_user.contains_key(a) ==> self.per_user[a] <= self.capacity_per_user
        &&& forall|h: Fingerprint|
            #[trigger] self.body.contains_key(h) ==> queued_before(
                self.history(),
                h,
                self.history().len() as int,
            )
        &&& expiries_follow_admission(self.history())
    }

    /// The time to live that applies to `tx`: the smaller of the default and its own.
    pub open spec fn effective_ttl(self, tx: AcceptedTransaction) -> int {
        match tx.time_to_live_ms {
            Some(t) => if t < self.ttl_ms {
                t as int
            } else {
                self.ttl_ms as int
            },
            None => self.ttl_ms as int,
        }
    }

    /// Whether `tx` was created further ahead of `now` than the threshold allows.
    pub open spec fn in_future(self, tx: AcceptedTransaction, now: int) -> bool {
        saturating_diff(tx.creation_time_ms as int, now) > self.future_threshold_ms
    }

    /// Whether `tx`, `padding` milliseconds after `now`, is older than its time to live.
    pub open spec fn expired(self, tx: AcceptedTransaction, now: int, padding: int) -> bool {
        saturating_diff(now, tx.creation_time_ms as int) + padding > self.effective_ttl(tx)
    }

    /// Whether `tx` is neither expired (with no padding) nor committed.
    pub open spec fn pending(self, tx: AcceptedTransaction, view: StateView, now: int) -> bool {
        !self.expired(tx, now, 0) && !view.committed(tx.hash)
    }

    /// The first check that `tx` fails, in priority order, or `Ok`.
    pub open spec fn check(self, tx: AcceptedTransaction, view: StateView, now: int, padding: int) -> Result<(), Error> {
        if self.in_future(tx, now) {
            Err(Error::InFuture)
        } else if self.expired(tx, now, padding) {
            Err(Error::Expired)
        } else if view.committed(tx.hash) {
            Err(Error::InBlockchain)
        } else if !view.signature_ok(tx.authority@, tx.signatories@) {
            Err(Error::SignatureCondition)
        } else {
            Ok(())
        }
    }
}

impl QueueView {
    /// What pushing `tx` at time `now` gives: `Ok` where it is admitted.
    pub open spec fn push_outcome(self, tx: AcceptedTransaction, view: StateView, now: int) -> Result<(), Error> {
        match self.check(tx, view, now, 0) {
            Err(e) => Err(e),
            Ok(_) => if self.body.contains_key(tx.hash) {
                Err(Error::IsInQueue)
            } else if self.body.len() >= self.capacity {
                Err(Error::Full)
            } else if self.user_load(tx.authority@) >= self.capacity_per_user {
                Err(Error::MaximumTransactionsPerUser)
            } else {
                Ok(())
            },
        }
    }

    /// The state after admitting `tx`.
    pub open spec fn pushed(self, tx: AcceptedTransaction) -> QueueView {
        QueueView {
            order: self.order.push(tx.hash),
            body: self.body.insert(tx.hash, tx),
            per_user: self.per_user.insert(tx.authority@, (self.user_load(tx.authority@) + 1) as usize),
            events: self.events.push(queued_event(tx.hash)),
            ..self
        }
    }

    /// Whether `post` and `r` are what pushing `tx` on `self` at time `now` gives:
    /// the admitted state with `Ok`, or `self` unchanged with the transaction
    /// handed back and the reason.
    pub open spec fn push_post(
        self,
        post: QueueView,
        tx: AcceptedTransaction,
        view: StateView,
        now: int,
        r: Result<(), Failure>,
    ) -> bool {
        match self.push_outcome(tx, view, now) {
            Ok(_) => r is Ok && post == self.pushed(tx),
            Err(e) => r == Err::<(), Failure>(Failure { tx, err: e }) && post == self,
        }
    }
}

impl QueueView {
    /// Drains the run `order` of fingerprints with `room` places left in the
    /// batch: a fingerprint that fails the checks is dropped; one that passes is
    /// kept for the queue, and its transaction joins the batch unless `seen`
    /// already holds it. Popping stops when the batch is full.
    pub open spec fn drain_from(
        self,
        order: Seq<Fingerprint>,
        view: StateView,
        now: int,
        padding: int,
        seen: Set<Fingerprint>,
        room: nat,
    ) -> DrainOutcome
        decreases order.len(),
    {
        if room == 0 || order.len() == 0 {
            DrainOutcome {
                taken: Seq::empty(),
                kept: Seq::empty(),
                dropped: Seq::empty(),
                expired: Seq::empty(),
                rest: order,
            }
        } else {
            let h = order[0];
            let tx = self.body[h];
            let tail = order.drop_first();
            match self.check(tx, view, now, padding) {
                Err(e) => {
                    let r = self.drain_from(tail, view, now, padding, seen, room);
                    DrainOutcome {
                        dropped: seq![h] + r.dropped,
                        expired: if e == Error::Expired {
                            seq![h] + r.expired
                        } else {
                            r.expired
                        },
                        ..r
                    }
                },
                Ok(_) => if seen.contains(h) {
                    let r = self.drain_from(tail, view, now, padding, seen, room);
                    DrainOutcome { kept: seq![h] + r.kept, ..r }
                } else {
                    let r = self.drain_from(tail, view, now, padding, seen.insert(h), (room - 1) as nat);
                    DrainOutcome { taken: seq![tx] + r.taken, kept: seq![h] + r.kept, ..r }
                },
            }
        }
    }

    /// Outcome of draining the whole queue into a batch that already holds
    /// `out` and may hold `max` transactions.
    pub open spec fn drain_outcome(
        self,
        view: StateView,
        now: int,
        padding: int,
        out: Seq<AcceptedTransaction>,
        max: nat,
    ) -> DrainOutcome {
        self.drain_from(self.order, view, now, padding, hashes_of(out), (max - out.len()) as nat)
    }

    /// The state after a drain with outcome `r`: kept fingerprints go back
    /// behind the unpopped ones, dropped entries leave, counters follow the
    /// body, and an expiry event is emitted for each expired transaction.
    pub open spec fn drained(self, r: DrainOutcome) -> QueueView {
        let body = self.body.remove_keys(r.dropped.to_set());
        QueueView {
            order: r.rest + r.kept,
            body: body,
            per_user: Map::new(
                |a: Seq<char>| count_in(body, a) > 0,
                |a: Seq<char>| count_in(body, a) as usize,
            ),
            events: self.events + r.expired.map_values(|h: Fingerprint| expired_event(h)),
            ..self
        }
    }

    /// Whether `post` and the batch `out1` are what draining `self` into the
    /// batch `out0` gives. A batch already holding `max` transactions leaves
    /// everything as it is.
    pub open spec fn drain_post(
        self,
        post: QueueView,
        out0: Seq<AcceptedTransaction>,
        out1: Seq<AcceptedTransaction>,
        view: StateView,
        max: nat,
        padding: int,
        now: int,
    ) -> bool {
        if out0.len() >= max {
            post == self && out1 == out0
        } else {
            let r = self.drain_outcome(view, now, padding, out0, max);
            post == self.drained(r) && out1 == out0 + r.taken
        }
    }
}

/// The counters of `q` agree with its body, are positive and within the per-account capacity.
pub open spec fn counters_agree(q: QueueView) -> bool {
    &&& forall|a: Seq<char>| #[trigger] q.per_user.contains_key(a) ==> q.per_user[a] > 0
    &&& forall|a: Seq<char>| #[trigger] q.user_load(a) == q.count_of(a)
    &&& forall|a: Seq<char>| #[trigger] q.per_user.contains_key(a) ==> q.per_user[a] <= q.capacity_per_user
}

/// Counters that agree with the body keep agreeing while neither changes.
pub(crate) proof fn lemma_counts_carry(a: QueueView, b: QueueView)
    requires
        a.body == b.body,
        a.per_user == b.per_user,
        a.capacity_per_user == b.capacity_per_user,
        counters_agree(a),
    ensures
        counters_agree(b),
{
    assert forall|x: Seq<char>| #[trigger] b.user_load(x) == b.count_of(x) by {
        assert(a.user_load(x) == a.count_of(x));
    }
}

/// Removing an entry and lowering its authority's counter keeps the counters in agreement.
pub(crate) proof fn lemma_counts_after_remove(a: QueueView, b: QueueView, h: Fingerprint)
    requires
        a.body.dom().finite(),
        a.body.contains_key(h),
        a.per_user.contains_key(a.body[h].authority@),
        b.body == a.body.remove(h),
        b.capacity_per_user == a.capacity_per_user,
        ({
            let id = a.body[h].authority@;
            b.per_user == if a.per_user[id] > 1 {
                a.per_user.insert(id, (a.per_user[id] - 1) as usize)
            } else {
                a.per_user.remove(id)
            }
        }),
        counters_agree(a),
    ensures
        counters_agree(b),
{
    let id = a.body[h].authority@;
    assert forall|y: Seq<char>| #[trigger] b.user_load(y) == b.count_of(y) by {
        lemma_count_remove(a.body, h, y);
        assert(a.user_load(y) == a.count_of(y));
    }
    assert forall|y: Seq<char>| #[trigger] b.per_user.contains_key(y) implies b.per_user[y] > 0
        && b.per_user[y] <= b.capacity_per_user by {
        assert(a.per_user.contains_key(y));
    }
}

pub(crate) proof fn lemma_push_contains(s: Seq<Fingerprint>, v: Fingerprint)
    ensures
        forall|x: Fingerprint| #[trigger] s.push(v).contains(x) <==> (s.contains(x) || x == v),
{
    assert forall|x: Fingerprint| #[trigger] s.push(v).contains(x) <==> (s.contains(x) || x == v) by {
        if s.contains(x) {
            let i = choose|i: int| 0 <= i < s.len() && s[i] == x;
            assert(s.push(v)[i] == x);
        }
        if x == v {
            assert(s.push(v)[s.len() as int] == x);
        }
        if s.push(v).contains(x) {
            let i = choose|i: int| 0 <= i < s.len() + 1 && s.push(v)[i] == x;
            if i < s.len() {
                assert(s[i] == x);
            }
        }
    }
}

pub(crate) proof fn lemma_push_contains_usize(s: Seq<usize>, v: usize)
    ensures
        forall|x: usize| #[trigger] s.push(v).contains(x) <==> (s.contains(x) || x == v),
{
    assert forall|x: usize| #[trigger] s.push(v).contains(x) <==> (s.contains(x) || x == v) by {
        if s.contains(x) {
            let i = choose|i: int| 0 <= i < s.len() && s[i] == x;
            assert(s.push(v)[i] == x);
        }
        if x == v {
            assert(s.push(v)[s.len() as int] == x);
        }
        if s.push(v).contains(x) {
            let i = choose|i: int| 0 <= i < s.len() + 1 && s.push(v)[i] == x;
            if i < s.len() {
                assert(s[i] == x);
            }
        }
    }
}

/// The state a drain leaves is consistent, and is the drained state of its outcome.
pub(crate) proof fn lemma_drained_consistent(pre: QueueView, r: DrainOutcome, post: QueueView, popped: int)
    requires
        pre.consistent(),
        post.same_config(pre),
        post.delivered == pre.delivered,
        post.clock == pre.clock,
        post.order == r.rest + r.kept,
        post.events == pre.events + r.expired.map_values(|h: Fingerprint| expired_event(h)),
        forall|x: Fingerprint|
            #[trigger] post.body.contains_key(x) <==> (pre.body.contains_key(x) && !r.dropped.contains(x)),
        forall|x: Fingerprint| #[trigger] post.body.contains_key(x) ==> post.body[x] == pre.body[x],
        post.body.len() == r.rest.len() + r.kept.len(),
        r.rest.len() + r.kept.len() <= pre.capacity,
        post.body.dom().finite(),
        forall|a: Seq<char>| #[trigger] post.per_user.contains_key(a) ==> post.per_user[a] > 0,
        forall|a: Seq<char>| #[trigger] post.user_load(a) == post.count_of(a),
        forall|a: Seq<char>|
            #[trigger] post.per_user.contains_key(a) ==> post.per_user[a] <= post.capacity_per_user,
        r.kept.no_duplicates(),
        0 <= popped <= pre.order.len(),
        r.rest == pre.order.subrange(popped, pre.order.len() as int),
        forall|x: Fingerprint|
            #[trigger] r.kept.contains(x) ==> pre.order.subrange(0, popped).contains(x) && !r.dropped.contains(x),
        forall|x: Fingerprint| #[trigger] r.dropped.contains(x) ==> pre.order.subrange(0, popped).contains(x),
        forall|x: Fingerprint|
            #[trigger] pre.order.subrange(0, popped).contains(x) ==> r.kept.contains(x) || r.dropped.contains(x),
        forall|x: Fingerprint| #[trigger] r.expired.contains(x) ==> pre.body.contains_key(x),
    ensures
        post.consistent(),
        post == pre.drained(r),
{
    let n = pre.order.len() as int;
    let prefix = pre.order.subrange(0, popped);
    // The unpopped run and the popped prefix share no fingerprint.
    assert forall|x: Fingerprint| #[trigger] r.rest.contains(x) implies !prefix.contains(x) by {
        let i = choose|i: int| 0 <= i < r.rest.len() && r.rest[i] == x;
        assert(r.rest[i] == pre.order[popped + i]);
        if prefix.contains(x) {
            let k = choose|k: int| 0 <= k < prefix.len() && prefix[k] == x;
            assert(pre.order[k] == pre.order[popped + i]);
        }
    }
    assert(post.order.no_duplicates()) by {
        assert forall|i: int, j: int| 0 <= i < j < post.order.len() implies post.order[i] != post.order[j] by {
            if j < r.rest.len() {
                assert(pre.order[popped + i] != pre.order[popped + j]);
            } else if i >= r.rest.len() {
                assert(r.kept[i - r.rest.len()] != r.kept[j - r.rest.len()]);
            } else {
                assert(r.rest.contains(post.order[i]));
                assert(r.kept.contains(post.order[j]));
            }
        }
    }
    assert forall|i: int| 0 <= i < post.order.len() implies post.body.contains_key(#[trigger] post.order[i]) by {
        let x = post.order[i];
        if i < r.rest.len() {
            assert(pre.order[popped + i] == x);
            assert(pre.body.contains_key(x));
            assert(!prefix.contains(x)) by {
                assert(r.rest.contains(x));
            }
        } else {
            assert(r.kept[i - r.rest.len()] == x);
            assert(r.kept.contains(x));
            assert(prefix.contains(x));
            let k = choose|k: int| 0 <= k < prefix.len() && prefix[k] == x;
            assert(pre.order[k] == x);
            assert(pre.body.contains_key(pre.order[k]));
        }
    }
    assert forall|x: Fingerprint| #[trigger] post.body.contains_key(x) implies post.order.contains(x) by {
        assert(pre.order.contains(x));
        let k = choose|k: int| 0 <= k < n && pre.order[k] == x;
        if k < popped {
            assert(prefix[k] == x);
            assert(prefix.contains(x));
            assert(!r.dropped.contains(x));
            assert(r.kept.contains(x));
            let m = choose|m: int| 0 <= m < r.kept.len() && r.kept[m] == x;
            assert(post.order[r.rest.len() + m] == x);
        } else {
            assert(post.order[k - popped] == x);
        }
    }
    let hist = pre.history();
    let added = r.expired.map_values(|h: Fingerprint| expired_event(h));
    assert(post.history() =~= hist + added);
    assert forall|x: Fingerprint| #[trigger] post.body.contains_key(x) implies queued_before(
        post.history(),
        x,
        post.history().len() as int,
    ) by {
        assert(queued_before(hist, x, hist.len() as int));
        let j = choose|j: int| 0 <= j < hist.len() && j < hist.len() && #[trigger] hist[j] == queued_event(x);
        assert(post.history()[j] == hist[j]);
    }
    assert forall|i: int|
        0 <= i < post.history().len() && (#[trigger] post.history()[i]).status == TransactionStatus::Expired
        implies queued_before(post.history(), post.history()[i].hash, i) by {
        if i < hist.len() {
            assert(post.history()[i] == hist[i]);
            assert(queued_before(hist, hist[i].hash, i));
            let j = choose|j: int| 0 <= j < i && j < hist.len() && #[trigger] hist[j] == queued_event(hist[i].hash);
            assert(post.history()[j] == hist[j]);
        } else {
            let x = r.expired[i - hist.len()];
            assert(post.history()[i] == expired_event(x));
            assert(r.expired.contains(x));
            assert(queued_before(hist, x, hist.len() as int));
            let j = choose|j: int| 0 <= j < hist.len() && j < hist.len() && #[trigger] hist[j] == queued_event(x);
            assert(post.history()[j] == hist[j]);
        }
    }
    let d = pre.drained(r);
    assert(post.body =~= d.body);
    assert(post.per_user =~= d.per_user) by {
        assert forall|a: Seq<char>| post.per_user.contains_key(a) == d.per_user.dom().contains(a) by {
            assert(post.user_load(a) == post.count_of(a));
        }
        assert forall|a: Seq<char>| #[trigger] post.per_user.contains_key(a) implies post.per_user[a] == d.per_user[a] by {
            assert(post.user_load(a) == post.count_of(a));
        }
    }
}

pub(crate) proof fn lemma_hashes_push(txs: Seq<AcceptedTransaction>, tx: AcceptedTransaction)
    ensures
        hashes_of(txs.push(tx)) == hashes_of(txs).insert(tx.hash),
{
    let l = txs.push(tx);
    assert forall|h: Fingerprint| hashes_of(l).contains(h) == hashes_of(txs).insert(tx.hash).contains(h) by {
        if hashes_of(txs).contains(h) {
            let k = choose|k: int| 0 <= k < txs.len() && #[trigger] txs[k].hash == h;
            assert(l[k].hash == h);
        }
        if h == tx.hash {
            assert(l[txs.len() as int].hash == h);
        }
        if hashes_of(l).contains(h) {
            let k = choose|k: int| 0 <= k < l.len() && #[trigger] l[k].hash == h;
            if k < txs.len() {
                assert(txs[k].hash == h);
            }
        }
    }
    assert(hashes_of(l) =~= hashes_of(txs).insert(tx.hash));
}

impl QueueView {
    /// Fingerprints of the resident transactions that are pending at `now`.
    pub open spec fn pending_set(self, view: StateView, now: int) -> Set<Fingerprint> {
        self.body.dom().filter(|h: Fingerprint| self.pending(self.body[h], view, now))
    }

    /// Whether `txs` lists each pending resident transaction exactly once, in any order.
    pub open spec fn lists_pending(self, txs: Seq<AcceptedTransaction>, view: StateView, now: int) -> bool {
        &&& forall|i: int|
            0 <= i < txs.len() ==> self.body.contains_key(#[trigger] txs[i].hash) && self.body[txs[i].hash]
                == txs[i] && self.pending(txs[i], view, now)
        &&& forall|i: int, j: int| 0 <= i < j < txs.len() ==> txs[i].hash != txs[j].hash
        &&& forall|h: Fingerprint|
            #[trigger] self.pending_set(view, now).contains(h) ==> exists|i: int| 0 <= i < txs.len() && txs[i].hash == h
        &&& txs.len() == self.pending_set(view, now).len()
    }

    /// Whether `txs` is a sample of `n` pending resident transactions (all of
    /// them where fewer are pending), each at most once.
    pub open spec fn samples_pending(self, txs: Seq<AcceptedTransaction>, n: nat, view: StateView, now: int) -> bool {
        &&& forall|i: int|
            0 <= i < txs.len() ==> self.body.contains_key(#[trigger] txs[i].hash) && self.body[txs[i].hash]
                == txs[i] && self.pending(txs[i], view, now)
        &&& forall|i: int, j: int| 0 <= i < j < txs.len() ==> txs[i].hash != txs[j].hash
        &&& txs.len() == if n < self.pending_set(view, now).len() {
            n
        } else {
            self.pending_set(view, now).len()
        }
    }
}

/// Admitting a transaction that passes every push check keeps the invariant.
pub(crate) proof fn lemma_pushed_consistent(pre: QueueView, tx: AcceptedTransaction)
    requires
        pre.consistent(),
        !pre.body.contains_key(tx.hash),
        pre.body.len() < pre.capacity,
        pre.user_load(tx.authority@) < pre.capacity_per_user,
    ensures
        pre.pushed(tx).consistent(),
{
    let post = pre.pushed(tx);
    let h = tx.hash;
    assert(!pre.order.contains(h));
    assert(post.order.no_duplicates()) by {
        assert forall|i: int, j: int| 0 <= i < j < post.order.len() implies post.order[i] != post.order[j] by {
            if j == post.order.len() - 1 {
                assert(pre.order[i] == post.order[i]);
            }
        }
    }
    assert forall|i: int| 0 <= i < post.order.len() implies post.body.contains_key(#[trigger] post.order[i]) by {
        if i < pre.order.len() {
            assert(pre.order[i] == post.order[i]);
        }
    }
    assert forall|x: Fingerprint| #[trigger] post.body.contains_key(x) implies post.order.contains(x) by {
        if x != h {
            let i = choose|i: int| 0 <= i < pre.order.len() && pre.order[i] == x;
            assert(post.order[i] == x);
        } else {
            assert(post.order[pre.order.len() as int] == x);
        }
    }
    assert forall|a: Seq<char>| #[trigger] post.user_load(a) == post.count_of(a) by {
        lemma_count_insert(pre.body, h, tx, a);
        assert(pre.user_load(a) == pre.count_of(a));
    }
    let hist = pre.history();
    assert(post.history() =~= hist.push(queued_event(h)));
    assert forall|x: Fingerprint| #[trigger] post.body.contains_key(x) implies queued_before(
        post.history(),
        x,
        post.history().len() as int,
    ) by {
        if x == h {
            assert(post.history()[hist.len() as int] == queued_event(h));
        } else {
            assert(queued_before(hist, x, hist.len() as int));
            let j = choose|j: int| 0 <= j < hist.len() && j < hist.len() && #[trigger] hist[j] == queued_event(x);
            assert(post.history()[j] == queued_event(x));
        }
    }
    assert forall|i: int|
        0 <= i < post.history().len() && (#[trigger] post.history()[i]).status == TransactionStatus::Expired
        implies queued_before(post.history(), post.history()[i].hash, i) by {
        assert(i < hist.len());
        assert(post.history()[i] == hist[i]);
        assert(queued_before(hist, hist[i].hash, i));
        let j = choose|j: int| 0 <= j < i && j < hist.len() && #[trigger] hist[j] == queued_event(hist[i].hash);
        assert(post.history()[j] == hist[j]);
    }
}

} // verus!
