use tx_queue::{
    Account, AcceptedTransaction, Config, Error, Failure, Fingerprint, PublicKey, Queue,
    SignatureCheckCondition, StateView, TimeSource, TransactionEvent, TransactionStatus,
};

const ALICE: &str = "alice@wonderland";
const BOB: &str = "bob@wonderland";

fn key(n: u8) -> PublicKey {
    [n; 32]
}

fn fingerprint(n: u64) -> Fingerprint {
    let mut h = [0u8; 32];
    h[..8].copy_from_slice(&n.to_le_bytes());
    h
}

fn tx_at(n: u64, authority: &str, k: PublicKey, creation_time_ms: u64) -> AcceptedTransaction {
    AcceptedTransaction {
        hash: fingerprint(n),
        authority: authority.to_string(),
        creation_time_ms,
        time_to_live_ms: None,
        signatories: vec![k],
    }
}

fn view_with(accounts: &[(&str, PublicKey)]) -> StateView {
    let mut view = StateView::new();
    for (id, k) in accounts {
        view.accounts.push(Account::new(id.to_string(), *k));
    }
    view
}

fn cfg(capacity: usize, capacity_per_user: usize, ttl_ms: u64, future_threshold_ms: u64) -> Config {
    Config {
        capacity,
        capacity_per_user,
        transaction_time_to_live_ms: ttl_ms,
        future_threshold_ms,
    }
}

fn mock_queue(config: Config) -> Queue {
    Queue::with_time_source(config, TimeSource::new_mock(0))
}

fn drain(queue: &mut Queue, view: &StateView, max: usize) -> Vec<AcceptedTransaction> {
    let mut out = Vec::new();
    queue.get_transactions_for_block(view, max, &mut out, 0);
    out
}

fn move_clock(queue: &mut Queue, ms: u64) {
    let mut clock = queue.time_source();
    clock.advance(ms);
    queue.set_time_source(clock);
}

fn push_err(r: Result<(), Failure>) -> Error {
    match r {
        Ok(()) => panic!("push was admitted"),
        Err(f) => f.err,
    }
}

#[test]
fn push_then_drain_returns_the_transaction() {
    let view = view_with(&[(ALICE, key(1))]);
    let mut queue = mock_queue(cfg(10, 10, 100_000, 1_000));
    let tx = tx_at(1, ALICE, key(1), 0);
    queue.push(tx.clone(), &view).unwrap();
    let out = drain(&mut queue, &view, 2);
    assert_eq!(out.len(), 1);
    assert_eq!(out[0].hash, tx.hash);
    assert_eq!(out[0].authority, tx.authority);
    let events = queue.take_events();
    assert_eq!(events.len(), 1);
    assert_eq!(events[0].status, TransactionStatus::Queued);
    assert_eq!(events[0].hash, tx.hash);
}

#[test]
fn eleventh_push_is_refused_as_full() {
    let view = view_with(&[(ALICE, key(1))]);
    let mut queue = mock_queue(cfg(10, 10, 100_000, 1_000));
    for n in 0..10 {
        queue.push(tx_at(n, ALICE, key(1), 0), &view).unwrap();
    }
    let failure = queue.push(tx_at(10, ALICE, key(1), 0), &view).unwrap_err();
    assert_eq!(failure.err, Error::Full);
    assert_eq!(failure.tx.hash, fingerprint(10));
    assert_eq!(queue.tx_len(), 10);
}

#[test]
fn per_account_cap_throttles_only_that_account() {
    let view = view_with(&[(ALICE, key(1)), (BOB, key(2))]);
    let mut queue = mock_queue(cfg(100, 1, 100_000, 1_000));
    queue.push(tx_at(1, ALICE, key(1), 0), &view).unwrap();
    assert_eq!(push_err(queue.push(tx_at(2, ALICE, key(1), 0), &view)), Error::MaximumTransactionsPerUser);
    queue.push(tx_at(3, BOB, key(2), 0), &view).unwrap();
    assert_eq!(queue.tx_len(), 2);
}

#[test]
fn future_dated_push_is_refused() {
    let view = view_with(&[(ALICE, key(1))]);
    let mut queue = mock_queue(cfg(100, 100, 100_000, 1_000));
    assert_eq!(push_err(queue.push(tx_at(1, ALICE, key(1), 3_000), &view)), Error::InFuture);
    assert_eq!(queue.tx_len(), 0);
    // A lead of exactly the threshold is admitted.
    queue.push(tx_at(2, ALICE, key(1), 1_000), &view).unwrap();
    assert_eq!(queue.tx_len(), 1);
}

#[test]
fn expiry_emits_one_event() {
    let view = view_with(&[(ALICE, key(1))]);
    let mut queue = mock_queue(cfg(100, 100, 200, 1_000));
    let tx = tx_at(1, ALICE, key(1), 0);
    queue.push(tx.clone(), &view).unwrap();
    queue.take_events();
    move_clock(&mut queue, 201);
    assert!(drain(&mut queue, &view, 2).is_empty());
    assert_eq!(
        queue.take_events(),
        vec![TransactionEvent { hash: tx.hash, block_height: None, status: TransactionStatus::Expired }]
    );
    assert_eq!(queue.tx_len(), 0);
}

#[test]
fn committed_transaction_is_dropped_without_event() {
    let mut view = view_with(&[(ALICE, key(1))]);
    let mut queue = mock_queue(cfg(100, 100, 100_000, 1_000));
    let tx = tx_at(1, ALICE, key(1), 0);
    queue.push(tx.clone(), &view).unwrap();
    queue.take_events();
    view.transactions.push(tx.hash);
    assert!(drain(&mut queue, &view, 2).is_empty());
    assert_eq!(queue.tx_len(), 0);
    assert!(queue.take_events().is_empty());
    // The account's counter was released with the entry.
    let mut strict = mock_queue(cfg(100, 1, 100_000, 1_000));
    strict.push(tx_at(5, ALICE, key(1), 0), &view).unwrap();
    view.transactions.push(fingerprint(5));
    assert!(drain(&mut strict, &view, 2).is_empty());
    strict.push(tx_at(6, ALICE, key(1), 0), &view).unwrap();
}

#[test]
fn multisig_policy_needs_both_keys() {
    let mut account = Account::new(ALICE.to_string(), key(1)).add_signatory(key(2));
    account.signature_check_condition = SignatureCheckCondition::all_account_signatures();
    let mut view = StateView::new();
    view.accounts.push(account);
    let mut queue = mock_queue(cfg(100, 100, 100_000, 1_000));
    assert_eq!(push_err(queue.push(tx_at(1, ALICE, key(1), 0), &view)), Error::SignatureCondition);
    let mut both = tx_at(2, ALICE, key(1), 0);
    both.signatories.push(key(2));
    queue.push(both, &view).unwrap();
    assert_eq!(queue.tx_len(), 1);
}

#[test]
fn any_signature_policy_accepts_an_extra_key() {
    let mut account = Account::new(ALICE.to_string(), key(1));
    account.signature_check_condition = SignatureCheckCondition::AnyAccountSignatureOr(vec![key(9)]);
    let mut view = StateView::new();
    view.accounts.push(account);
    assert!(tx_at(1, ALICE, key(9), 0).check_signature_condition(&view));
    assert!(tx_at(2, ALICE, key(1), 0).check_signature_condition(&view));
    assert!(!tx_at(3, ALICE, key(4), 0).check_signature_condition(&view));
}

#[test]
fn unknown_account_fails_signature_condition() {
    let view = view_with(&[(ALICE, key(1))]);
    let mut queue = mock_queue(cfg(100, 100, 100_000, 1_000));
    assert_eq!(push_err(queue.push(tx_at(1, BOB, key(1), 0), &view)), Error::SignatureCondition);
}

#[test]
fn stale_push_is_refused_as_expired_and_never_reported() {
    let view = view_with(&[(ALICE, key(1))]);
    let mut queue = mock_queue(cfg(100, 100, 100, 1_000));
    move_clock(&mut queue, 500);
    assert_eq!(push_err(queue.push(tx_at(1, ALICE, key(1), 0), &view)), Error::Expired);
    assert!(drain(&mut queue, &view, 5).is_empty());
    assert!(queue.take_events().is_empty());
}

#[test]
fn check_priority_reports_expiry_before_commit() {
    let mut view = view_with(&[(ALICE, key(1))]);
    view.transactions.push(fingerprint(1));
    let mut queue = mock_queue(cfg(100, 100, 100, 1_000));
    move_clock(&mut queue, 500);
    assert_eq!(push_err(queue.push(tx_at(1, ALICE, key(1), 0), &view)), Error::Expired);
    assert_eq!(push_err(queue.push(tx_at(1, ALICE, key(1), 500), &view)), Error::InBlockchain);
}

#[test]
fn pushing_twice_is_refused_as_in_queue() {
    let view = view_with(&[(ALICE, key(1))]);
    let mut queue = mock_queue(cfg(100, 100, 100_000, 1_000));
    let tx = tx_at(1, ALICE, key(1), 0);
    queue.push(tx.clone(), &view).unwrap();
    let failure = queue.push(tx.clone(), &view).unwrap_err();
    assert_eq!(failure.err, Error::IsInQueue);
    assert_eq!(failure.tx.hash, tx.hash);
    assert_eq!(queue.tx_len(), 1);
    assert_eq!(queue.take_events().len(), 1);
    assert_eq!(drain(&mut queue, &view, 5).len(), 1);
}

#[test]
fn untaken_transactions_stay_for_the_next_drain() {
    let view = view_with(&[(ALICE, key(1))]);
    let mut queue = mock_queue(cfg(100, 100, 100_000, 1_000));
    for n in 1..=3 {
        queue.push(tx_at(n, ALICE, key(1), 0), &view).unwrap();
    }
    let first = drain(&mut queue, &view, 1);
    assert_eq!(first.len(), 1);
    assert_eq!(first[0].hash, fingerprint(1));
    assert_eq!(queue.tx_len(), 3);
    let all = drain(&mut queue, &view, 10);
    let mut got: Vec<Fingerprint> = all.iter().map(|t| t.hash).collect();
    got.sort();
    assert_eq!(got, vec![fingerprint(1), fingerprint(2), fingerprint(3)]);
}

#[test]
fn drain_skips_what_the_batch_already_holds() {
    let view = view_with(&[(ALICE, key(1))]);
    let mut queue = mock_queue(cfg(100, 100, 100_000, 1_000));
    let a = tx_at(1, ALICE, key(1), 0);
    queue.push(a.clone(), &view).unwrap();
    queue.push(tx_at(2, ALICE, key(1), 0), &view).unwrap();
    let mut out = vec![a.clone()];
    queue.get_transactions_for_block(&view, 5, &mut out, 0);
    assert_eq!(out.iter().map(|t| t.hash).collect::<Vec<_>>(), vec![fingerprint(1), fingerprint(2)]);
    assert_eq!(queue.tx_len(), 2);
    let again = drain(&mut queue, &view, 5);
    assert_eq!(again.len(), 2);
}

#[test]
fn full_batch_leaves_queue_untouched() {
    let view = view_with(&[(ALICE, key(1))]);
    let mut queue = mock_queue(cfg(100, 100, 100, 1_000));
    queue.push(tx_at(1, ALICE, key(1), 0), &view).unwrap();
    queue.take_events();
    move_clock(&mut queue, 1_000);
    let mut out = vec![tx_at(7, BOB, key(2), 0)];
    queue.get_transactions_for_block(&view, 1, &mut out, 0);
    assert_eq!(out.len(), 1);
    // Nothing was popped, so the expired entry is still there and unreported.
    assert_eq!(queue.tx_len(), 1);
    assert!(queue.take_events().is_empty());
}

#[test]
fn drain_returns_in_admission_order() {
    let view = view_with(&[(ALICE, key(1))]);
    let mut queue = mock_queue(cfg(100, 100, 100_000, 1_000));
    for n in [5u64, 3, 9] {
        queue.push(tx_at(n, ALICE, key(1), 0), &view).unwrap();
    }
    let out = drain(&mut queue, &view, 3);
    assert_eq!(out.iter().map(|t| t.hash).collect::<Vec<_>>(), vec![fingerprint(5), fingerprint(3), fingerprint(9)]);
}

#[test]
fn padding_makes_a_drain_anticipate_expiry() {
    let view = view_with(&[(ALICE, key(1))]);
    let mut queue = mock_queue(cfg(100, 100, 1_000, 1_000));
    queue.push(tx_at(1, ALICE, key(1), 0), &view).unwrap();
    move_clock(&mut queue, 600);
    let mut out = Vec::new();
    queue.get_transactions_for_block(&view, 5, &mut out, 400);
    assert_eq!(out.len(), 1);
    let mut out = Vec::new();
    queue.get_transactions_for_block(&view, 5, &mut out, 401);
    assert!(out.is_empty());
    assert_eq!(queue.tx_len(), 0);
}

#[test]
fn expiry_uses_the_smaller_time_to_live() {
    let queue = mock_queue(cfg(100, 100, 1_000, 1_000));
    let mut tx = tx_at(1, ALICE, key(1), 100);
    assert!(!queue.is_expired_at(&tx, 0, 1_100));
    assert!(queue.is_expired_at(&tx, 0, 1_101));
    assert!(queue.is_expired_at(&tx, 1, 1_100));
    tx.time_to_live_ms = Some(300);
    assert!(!queue.is_expired_at(&tx, 0, 400));
    assert!(queue.is_expired_at(&tx, 0, 401));
    tx.time_to_live_ms = Some(5_000);
    assert!(queue.is_expired_at(&tx, 0, 1_101));
    // A clock behind the creation time counts as no age at all.
    assert!(!queue.is_expired_at(&tx, 0, 0));
    assert!(!queue.is_expired(&tx, 0));
    assert_eq!(queue.tx_time_to_live_ms(), 1_000);
}

#[test]
fn all_transactions_lists_pending_only() {
    let mut view = view_with(&[(ALICE, key(1))]);
    let mut queue = mock_queue(cfg(100, 100, 1_000, 1_000));
    for n in 1..=4 {
        queue.push(tx_at(n, ALICE, key(1), 0), &view).unwrap();
    }
    view.transactions.push(fingerprint(2));
    let mut listed: Vec<Fingerprint> = queue.all_transactions(&view).iter().map(|t| t.hash).collect();
    listed.sort();
    assert_eq!(listed, vec![fingerprint(1), fingerprint(3), fingerprint(4)]);
    assert!(queue.all_transactions_at(&view, 5_000).is_empty());
    assert_eq!(queue.tx_len(), 4);
}

#[test]
fn random_sample_is_distinct_and_bounded() {
    let view = view_with(&[(ALICE, key(1))]);
    let mut queue = mock_queue(cfg(100, 100, 100_000, 1_000));
    for n in 1..=6 {
        queue.push(tx_at(n, ALICE, key(1), 0), &view).unwrap();
    }
    let sample = queue.n_random_transactions(4, &view);
    assert_eq!(sample.len(), 4);
    let mut hs: Vec<Fingerprint> = sample.iter().map(|t| t.hash).collect();
    hs.sort();
    hs.dedup();
    assert_eq!(hs.len(), 4);
    assert!(hs.iter().all(|h| (1..=6).any(|n| fingerprint(n) == *h)));
    assert_eq!(queue.n_random_transactions(50, &view).len(), 6);
    assert!(queue.n_random_transactions(0, &view).is_empty());
}

#[test]
fn interleaved_push_and_drain_keep_queue_consistent() {
    let view = view_with(&[(ALICE, key(1)), (BOB, key(2))]);
    let mut queue = mock_queue(cfg(8, 5, 300, 1_000));
    let mut committed = view.clone();
    let mut next: u64 = 0;
    for round in 0..40u64 {
        for _ in 0..(round % 4) {
            let who = if next % 3 == 0 { (BOB, key(2)) } else { (ALICE, key(1)) };
            let now = queue.time_source().get_unix_time_ms();
            let _ = queue.push(tx_at(next, who.0, who.1, now), &committed);
            next += 1;
        }
        let batch = drain(&mut queue, &committed, (round % 3) as usize);
        for tx in &batch {
            committed.transactions.push(tx.hash);
        }
        move_clock(&mut queue, 37);
        assert!(queue.tx_len() <= 8);
    }
    // Every resident transaction is reachable by a drain with room for all of them.
    let resident = queue.tx_len();
    let listed = queue.all_transactions(&committed).len();
    assert!(listed <= resident);
    move_clock(&mut queue, 10_000);
    assert!(drain(&mut queue, &committed, 100).is_empty());
    assert_eq!(queue.tx_len(), 0);
}

#[test]
fn mock_clock_moves_and_saturates() {
    let mut clock = TimeSource::new_mock(10);
    clock.advance(5);
    assert_eq!(clock.get_unix_time_ms(), 15);
    clock.rewind(20);
    assert_eq!(clock.get_unix_time_ms(), 0);
    clock.advance(u64::MAX);
    clock.advance(1);
    assert_eq!(clock.get_unix_time_ms(), u64::MAX);
    let system = TimeSource::new_system();
    assert!(system.get_unix_time_ms() > 0);
}

#[test]
fn from_config_reads_the_system_clock() {
    let queue = Queue::from_config(cfg(4, 2, 1_000, 1_000));
    assert_eq!(queue.time_source(), TimeSource::System);
    assert_eq!(queue.tx_len(), 0);
}

#[test]
fn state_view_lookups() {
    let mut view = view_with(&[(ALICE, key(1)), (ALICE, key(2))]);
    view.transactions.push(fingerprint(3));
    assert!(view.has_transaction(&fingerprint(3)));
    assert!(!view.has_transaction(&fingerprint(4)));
    // The first account registered under a name is the one consulted.
    assert!(view.check_account_signatures(&ALICE.to_string(), &vec![key(1)]));
    assert!(!view.check_account_signatures(&ALICE.to_string(), &vec![key(2)]));
    assert!(!view.check_account_signatures(&BOB.to_string(), &vec![key(1)]));
}
