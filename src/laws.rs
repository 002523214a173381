//! Properties of the queue that hold of every reachable state, and laws that
//! relate several operations.
use crate::model::{count_in, expiries_follow_admission, hashes_of, QueueView};
use crate::queue::{Error, Failure, Queue};
use crate::transaction::{AcceptedTransaction, Fingerprint, StateView};
use vstd::prelude::*;

verus! {

/// Whether the resident transaction under `x` passes every check.
pub open spec fn passes(q: QueueView, x: Fingerprint, view: StateView, now: int, padding: int) -> bool {
    q.check(q.body[x], view, now, padding) is Ok
}

/// What one drain pass over `order` does with each fingerprint: every one
/// is kept, dropped or left unpopped; kept ones pass the checks and dropped
/// ones fail them; what is taken is the transaction of a passing fingerprint;
/// and with room for the whole run, nothing is left unpopped and every
/// passing fingerprint not in `seen` has its transaction taken.
proof fn lemma_drain_from(
    q: QueueView,
    order: Seq<Fingerprint>,
    view: StateView,
    now: int,
    padding: int,
    seen: Set<Fingerprint>,
    room: nat,
)
    ensures
        ({
            let r = q.drain_from(order, view, now, padding, seen, room);
            &&& forall|x: Fingerprint|
                #[trigger] order.contains(x) ==> r.kept.contains(x) || r.dropped.contains(x) || r.rest.contains(x)
            &&& forall|x: Fingerprint| #[trigger] r.kept.contains(x) ==> passes(q, x, view, now, padding)
            &&& forall|x: Fingerprint| #[trigger] r.dropped.contains(x) ==> !passes(q, x, view, now, padding)
            &&& forall|i: int|
                #![trigger r.taken[i]]
                0 <= i < r.taken.len() ==> exists|x: Fingerprint|
                    #[trigger] order.contains(x) && r.taken[i] == q.body[x] && passes(q, x, view, now, padding)
            &&& room >= order.len() ==> r.rest.len() == 0
            &&& forall|x: Fingerprint|
                room >= order.len() && #[trigger] order.contains(x) && passes(q, x, view, now, padding)
                    && !seen.contains(x) ==> r.taken.contains(q.body[x])
        }),
    decreases order.len(),
{
    let r = q.drain_from(order, view, now, padding, seen, room);
    if room == 0 || order.len() == 0 {
        assert forall|x: Fingerprint| #[trigger] order.contains(x) implies r.kept.contains(x) || r.dropped.contains(x)
            || r.rest.contains(x) by {}
    } else {
        let h = order[0];
        let tail = order.drop_first();
        assert forall|x: Fingerprint| #[trigger] order.contains(x) implies x == h || tail.contains(x) by {
            let i = choose|i: int| 0 <= i < order.len() && order[i] == x;
            if i > 0 {
                assert(tail[i - 1] == x);
            }
        }
        assert forall|x: Fingerprint| #[trigger] tail.contains(x) implies order.contains(x) by {
            let i = choose|i: int| 0 <= i < tail.len() && tail[i] == x;
            assert(order[i + 1] == x);
        }
        assert(order.contains(h)) by {
            assert(order[0] == h);
        }
        let seen2 = if passes(q, h, view, now, padding) && !seen.contains(h) {
            seen.insert(h)
        } else {
            seen
        };
        let room2: nat = if passes(q, h, view, now, padding) && !seen.contains(h) {
            (room - 1) as nat
        } else {
            room
        };
        lemma_drain_from(q, tail, view, now, padding, seen2, room2);
        let t = q.drain_from(tail, view, now, padding, seen2, room2);
        lemma_seq_prepend_contains(h, t.kept);
        lemma_seq_prepend_contains(h, t.dropped);
        lemma_seq_prepend_contains_tx(q.body[h], t.taken);
        if !passes(q, h, view, now, padding) {
            assert(r.kept == t.kept);
            assert(r.dropped == seq![h] + t.dropped);
            assert(r.taken == t.taken);
        } else if seen.contains(h) {
            assert(r.kept == seq![h] + t.kept);
            assert(r.dropped == t.dropped);
            assert(r.taken == t.taken);
        } else {
            assert(r.kept == seq![h] + t.kept);
            assert(r.dropped == t.dropped);
            assert(r.taken == seq![q.body[h]] + t.taken);
        }
        let takes = passes(q, h, view, now, padding) && !seen.contains(h);
        assert forall|i: int| #![trigger r.taken[i]] 0 <= i < r.taken.len() implies exists|x: Fingerprint|
            #[trigger] order.contains(x) && r.taken[i] == q.body[x] && passes(q, x, view, now, padding) by {
            if takes && i == 0 {
                assert(order.contains(h) && r.taken[0] == q.body[h]);
            } else {
                let j = if takes {
                    i - 1
                } else {
                    i
                };
                assert(r.taken[i] == t.taken[j]);
                let x = choose|x: Fingerprint|
                    #[trigger] tail.contains(x) && t.taken[j] == q.body[x] && passes(q, x, view, now, padding);
                assert(order.contains(x));
            }
        }
        assert(r.rest == t.rest);
    }
}

proof fn lemma_seq_prepend_contains(v: Fingerprint, s: Seq<Fingerprint>)
    ensures
        forall|x: Fingerprint| #[trigger] (seq![v] + s).contains(x) <==> (x == v || s.contains(x)),
{
    let l = seq![v] + s;
    assert forall|x: Fingerprint| #[trigger] l.contains(x) <==> (x == v || s.contains(x)) by {
        if x == v {
            assert(l[0] == x);
        }
        if s.contains(x) {
            let i = choose|i: int| 0 <= i < s.len() && s[i] == x;
            assert(l[i + 1] == x);
        }
        if l.contains(x) {
            let i = choose|i: int| 0 <= i < l.len() && l[i] == x;
            if i > 0 {
                assert(s[i - 1] == x);
            }
        }
    }
}

proof fn lemma_seq_prepend_contains_tx(v: AcceptedTransaction, s: Seq<AcceptedTransaction>)
    ensures
        forall|x: AcceptedTransaction| #[trigger] (seq![v] + s).contains(x) <==> (x == v || s.contains(x)),
{
    let l = seq![v] + s;
    assert forall|x: AcceptedTransaction| #[trigger] l.contains(x) <==> (x == v || s.contains(x)) by {
        if x == v {
            assert(l[0] == x);
        }
        if s.contains(x) {
            let i = choose|i: int| 0 <= i < s.len() && s[i] == x;
            assert(l[i + 1] == x);
        }
        if l.contains(x) {
            let i = choose|i: int| 0 <= i < l.len() && l[i] == x;
            if i > 0 {
                assert(s[i - 1] == x);
            }
        }
    }
}

/// Every fingerprint in the admission order has a transaction in the body.
pub proof fn order_is_backed_by_body(q: &Queue)
    requires
        q.wf(),
    ensures
        forall|h: Fingerprint| #[trigger] q@.order.contains(h) ==> q@.body.contains_key(h),
{
    assert forall|h: Fingerprint| #[trigger] q@.order.contains(h) implies q@.body.contains_key(h) by {
        let i = choose|i: int| 0 <= i < q@.order.len() && q@.order[i] == h;
        assert(q@.body.contains_key(q@.order[i]));
    }
}

/// Between operations the admission order and the body hold the same
/// fingerprints, each once in the order.
pub proof fn order_matches_body(q: &Queue)
    requires
        q.wf(),
    ensures
        q@.order.no_duplicates(),
        q@.order.len() == q@.body.len(),
        forall|h: Fingerprint| #[trigger] q@.body.contains_key(h) ==> q@.order.contains(h),
{
}

/// The counter of each account equals the number of resident transactions
/// that it submitted; an account without a counter has none.
pub proof fn counters_count_body(q: &Queue)
    requires
        q.wf(),
    ensures
        forall|a: Seq<char>|
            #[trigger] count_in(q@.body, a) == if q@.per_user.contains_key(a) {
                q@.per_user[a] as nat
            } else {
                0
            },
{
    assert forall|a: Seq<char>|
        #[trigger] count_in(q@.body, a) == if q@.per_user.contains_key(a) {
            q@.per_user[a] as nat
        } else {
            0
        } by {
        assert(q@.user_load(a) == q@.count_of(a));
    }
}

/// Neither the body nor the admission order holds more than `capacity` entries.
pub proof fn within_capacity(q: &Queue)
    requires
        q.wf(),
    ensures
        q@.body.len() <= q@.capacity,
        q@.order.len() <= q@.capacity,
{
}

/// No account has more than `capacity_per_user` resident transactions.
pub proof fn within_capacity_per_user(q: &Queue)
    requires
        q.wf(),
    ensures
        forall|a: Seq<char>| #[trigger] q@.per_user.contains_key(a) ==> q@.per_user[a] <= q@.capacity_per_user,
{
}

/// Every expiry event emitted so far comes after an admission event for the
/// same transaction.
pub proof fn expiry_only_after_admission(q: &Queue)
    requires
        q.wf(),
    ensures
        expiries_follow_admission(q@.history()),
{
}

/// Pushing a transaction that was just admitted, against the same state view
/// at the same time, fails as already in the queue and leaves the state as
/// the first push left it.
pub proof fn repush_is_refused(q: QueueView, tx: AcceptedTransaction, view: StateView, now: int)
    requires
        q.consistent(),
        q.push_outcome(tx, view, now) is Ok,
    ensures
        q.pushed(tx).push_outcome(tx, view, now) == Err::<(), Error>(Error::IsInQueue),
        q.pushed(tx).push_post(
            q.pushed(tx),
            tx,
            view,
            now,
            Err::<(), Failure>(Failure { tx, err: Error::IsInQueue }),
        ),
{
    let p = q.pushed(tx);
    assert(p.body.contains_key(tx.hash));
    assert(p.check(tx, view, now, 0) == q.check(tx, view, now, 0));
}

/// A drain keeps every transaction that passes the checks and that it does
/// not take, because the batch was full or already held it; a later drain
/// against the same view, at the same time and padding, with room for the
/// whole queue, takes it unless its batch already holds it.
pub proof fn drain_keeps_untaken(
    q: QueueView,
    view: StateView,
    now: int,
    padding: int,
    out: Seq<AcceptedTransaction>,
    max: nat,
    h: Fingerprint,
    later_out: Seq<AcceptedTransaction>,
    later_max: nat,
)
    requires
        q.consistent(),
        out.len() < max,
        q.body.contains_key(h),
        passes(q, h, view, now, padding),
        !q.drain_outcome(view, now, padding, out, max).taken.contains(q.body[h]),
    ensures
        ({
            let q1 = q.drained(q.drain_outcome(view, now, padding, out, max));
            &&& q1.body.contains_key(h)
            &&& q1.body[h] == q.body[h]
            &&& q1.order.contains(h)
            &&& (later_max >= later_out.len() + q1.order.len() && !hashes_of(later_out).contains(h))
                ==> q1.drain_outcome(view, now, padding, later_out, later_max).taken.contains(q.body[h])
        }),
{
    let r = q.drain_outcome(view, now, padding, out, max);
    lemma_drain_from(q, q.order, view, now, padding, hashes_of(out), (max - out.len()) as nat);
    let q1 = q.drained(r);
    assert(q.order.contains(h));
    assert(!r.dropped.contains(h));
    assert(!r.dropped.to_set().contains(h));
    assert(q1.body.contains_key(h));
    assert(r.kept.contains(h) || r.rest.contains(h));
    if r.kept.contains(h) {
        let i = choose|i: int| 0 <= i < r.kept.len() && r.kept[i] == h;
        assert(q1.order[r.rest.len() + i] == h);
    } else {
        let i = choose|i: int| 0 <= i < r.rest.len() && r.rest[i] == h;
        assert(q1.order[i] == h);
    }
    if later_max >= later_out.len() + q1.order.len() && !hashes_of(later_out).contains(h) {
        lemma_drain_from(
            q1,
            q1.order,
            view,
            now,
            padding,
            hashes_of(later_out),
            (later_max - later_out.len()) as nat,
        );
        assert(passes(q1, h, view, now, padding));
        assert(q1.order.contains(h));
        assert(q1.drain_outcome(view, now, padding, later_out, later_max).taken.contains(q1.body[h]));
    }
}

/// Once the state view reports a resident transaction as committed, a drain
/// against that view does not take it, and a drain with room for the whole
/// queue removes it from the queue.
pub proof fn drain_drops_committed(
    q: QueueView,
    view: StateView,
    now: int,
    padding: int,
    out: Seq<AcceptedTransaction>,
    max: nat,
    h: Fingerprint,
)
    requires
        q.consistent(),
        q.body.contains_key(h),
        view.committed(h),
    ensures
        out.len() < max ==> forall|i: int|
            0 <= i < q.drain_outcome(view, now, padding, out, max).taken.len()
                ==> (#[trigger] q.drain_outcome(view, now, padding, out, max).taken[i]).hash != h,
        max >= out.len() + q.order.len() ==> !q.drained(
            q.drain_outcome(view, now, padding, out, max),
        ).body.contains_key(h),
{
    let r = q.drain_outcome(view, now, padding, out, max);
    lemma_drain_from(q, q.order, view, now, padding, hashes_of(out), (max - out.len()) as nat);
    assert(!passes(q, h, view, now, padding));
    assert forall|i: int| 0 <= i < r.taken.len() implies (#[trigger] r.taken[i]).hash != h by {
        let x = choose|x: Fingerprint|
            #[trigger] q.order.contains(x) && r.taken[i] == q.body[x] && passes(q, x, view, now, padding);
        let k = choose|k: int| 0 <= k < q.order.len() && q.order[k] == x;
        assert(q.body.contains_key(q.order[k]));
    }
    if max >= out.len() + q.order.len() {
        assert(q.order.contains(h));
        assert(r.dropped.contains(h));
        assert(r.dropped.to_set().contains(h));
    }
}

} // verus!
