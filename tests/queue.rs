use tx_queue::{
    Account, AcceptedTransaction, Config, Error, Failure, Fingerprint, PublicKey, Queue,
    SignatureCheckCondition, StateView, TimeSource, TransactionEvent, TransactionStatus,
};

const ALICE: &str = "alice@wonderland";
const BOB: &str = "bob@wonderland";

fn key(n: u8) -> PublicKey {
    [n; 32]
}

fn fingerprint(n: u64) -> Fingerprint {
    let mut h = [0u8; 32];
    h[..8].copy_from_slice(&n.to_le_bytes());
    h
}

fn signed_tx(n: u64, authority: &str, keys: &[PublicKey], creation_time_ms: u64) -> AcceptedTransaction {
    AcceptedTransaction {
        hash: fingerprint(n),
        authority: authority.to_string(),
        creation_time_ms,
        time_to_live_ms: None,
        signatories: keys.to_vec(),
    }
}

fn accepted_tx(n: u64, authority: &str, k: PublicKey, queue: &Queue) -> AcceptedTransaction {
    signed_tx(n, authority, &[k], clock_now(queue))
}

fn clock_now(queue: &Queue) -> u64 {
    queue.time_source().get_unix_time_ms()
}

fn advance(queue: &mut Queue, ms: u64) {
    let mut clock = queue.time_source();
    clock.advance(ms);
    queue.set_time_source(clock);
}

fn rewind(queue: &mut Queue, ms: u64) {
    let mut clock = queue.time_source();
    clock.rewind(ms);
    queue.set_time_source(clock);
}

fn world_with_test_domains(keys: &[PublicKey]) -> StateView {
    let mut account = Account::new(ALICE.to_string(), keys[0]);
    for k in &keys[1..] {
        account = account.add_signatory(*k);
    }
    let mut view = StateView::new();
    view.accounts.push(account);
    view
}

fn config(capacity: usize, capacity_per_user: usize, ttl_ms: u64, future_threshold_ms: u64) -> Config {
    Config {
        capacity,
        capacity_per_user,
        transaction_time_to_live_ms: ttl_ms,
        future_threshold_ms,
    }
}

fn config_factory() -> Config {
    config(100, 65536, 100_000, 1_000)
}

fn test_queue(cfg: Config) -> Queue {
    Queue::with_time_source(cfg, TimeSource::new_mock(0))
}

fn collect_transactions_for_block(queue: &mut Queue, view: &StateView, max: usize) -> Vec<AcceptedTransaction> {
    let mut transactions = Vec::new();
    queue.get_transactions_for_block(view, max, &mut transactions, 0);
    transactions
}

fn hashes(txs: &[AcceptedTransaction]) -> Vec<Fingerprint> {
    txs.iter().map(|t| t.hash).collect()
}

fn err_of(r: Result<(), Failure>) -> Error {
    match r {
        Ok(()) => panic!("push was admitted"),
        Err(f) => f.err,
    }
}

#[test]
fn push_tx() {
    let view = world_with_test_domains(&[key(1)]);
    let mut queue = test_queue(config_factory());
    let tx = accepted_tx(1, ALICE, key(1), &queue);
    queue.push(tx, &view).expect("Failed to push tx into queue");
}

#[test]
fn push_tx_overflow() {
    let capacity = 10;
    let view = world_with_test_domains(&[key(1)]);
    let mut queue = test_queue(config(capacity, 65536, 100_000, 1_000));
    for n in 0..capacity as u64 {
        let tx = accepted_tx(n, ALICE, key(1), &queue);
        queue.push(tx, &view).expect("Failed to push tx into queue");
        advance(&mut queue, 10);
    }
    let tx = accepted_tx(100, ALICE, key(1), &queue);
    assert!(matches!(queue.push(tx, &view), Err(Failure { err: Error::Full, .. })));
    assert_eq!(queue.tx_len(), capacity);
}

#[test]
fn push_multisignature_tx() {
    let keys = [key(1), key(2)];
    let mut account = Account::new(ALICE.to_string(), keys[0]).add_signatory(keys[1]);
    account.signature_check_condition = SignatureCheckCondition::all_account_signatures();
    let mut view = StateView::new();
    view.accounts.push(account);

    let mut queue = test_queue(config_factory());
    let fully_signed_tx = signed_tx(1, ALICE, &keys, 0);
    assert!(fully_signed_tx.check_signature_condition(&view));

    for (n, k) in keys.iter().enumerate() {
        let partially_signed_tx = signed_tx(10 + n as u64, ALICE, &[*k], 0);
        assert!(!partially_signed_tx.check_signature_condition(&view));
        assert!(matches!(
            queue.push(partially_signed_tx, &view).unwrap_err().err,
            Error::SignatureCondition
        ));
    }
}

#[test]
fn get_available_txs() {
    let max_txs_in_block = 2;
    let view = world_with_test_domains(&[key(1)]);
    let mut queue = test_queue(config_factory());
    for n in 0..5 {
        let tx = accepted_tx(n, ALICE, key(1), &queue);
        queue.push(tx, &view).expect("Failed to push tx into queue");
        advance(&mut queue, 10);
    }
    let available = collect_transactions_for_block(&mut queue, &view, max_txs_in_block);
    assert_eq!(available.len(), max_txs_in_block);
}

#[test]
fn push_tx_already_in_blockchain() {
    let mut view = world_with_test_domains(&[key(1)]);
    let mut queue = test_queue(config_factory());
    let tx = accepted_tx(1, ALICE, key(1), &queue);
    view.transactions.push(tx.hash());
    assert!(matches!(queue.push(tx, &view), Err(Failure { err: Error::InBlockchain, .. })));
    assert_eq!(queue.tx_len(), 0);
}

#[test]
fn get_tx_drop_if_in_blockchain() {
    let max_txs_in_block = 2;
    let mut view = world_with_test_domains(&[key(1)]);
    let mut queue = test_queue(config_factory());
    let tx = accepted_tx(1, ALICE, key(1), &queue);
    queue.push(tx.clone(), &view).unwrap();
    view.transactions.push(tx.hash());
    assert_eq!(collect_transactions_for_block(&mut queue, &view, max_txs_in_block).len(), 0);
    assert_eq!(queue.tx_len(), 0);
}

#[test]
fn get_available_txs_with_timeout() {
    let max_txs_in_block = 6;
    let view = world_with_test_domains(&[key(1)]);
    let mut queue = test_queue(config(100, 65536, 200, 1_000));
    for n in 0..(max_txs_in_block as u64 - 1) {
        let tx = accepted_tx(n, ALICE, key(1), &queue);
        queue.push(tx, &view).expect("Failed to push tx into queue");
        advance(&mut queue, 100);
    }
    let tx = accepted_tx(10, ALICE, key(1), &queue);
    queue.push(tx, &view).expect("Failed to push tx into queue");
    advance(&mut queue, 101);
    assert_eq!(collect_transactions_for_block(&mut queue, &view, max_txs_in_block).len(), 1);

    let tx = accepted_tx(11, ALICE, key(1), &queue);
    queue.push(tx, &view).expect("Failed to push tx into queue");
    advance(&mut queue, 210);
    assert_eq!(collect_transactions_for_block(&mut queue, &view, max_txs_in_block).len(), 0);
}

#[test]
fn transactions_available_after_pop() {
    let max_txs_in_block = 2;
    let view = world_with_test_domains(&[key(1)]);
    let mut queue = test_queue(config_factory());
    let tx = accepted_tx(1, ALICE, key(1), &queue);
    queue.push(tx, &view).expect("Failed to push tx into queue");

    let a = hashes(&collect_transactions_for_block(&mut queue, &view, max_txs_in_block));
    let b = hashes(&collect_transactions_for_block(&mut queue, &view, max_txs_in_block));
    assert_eq!(a.len(), 1);
    assert_eq!(a, b);
}

#[test]
fn custom_expired_transaction_is_rejected() {
    const TTL_MS: u64 = 200;
    let max_txs_in_block = 2;
    let view = world_with_test_domains(&[key(1)]);
    let mut queue = test_queue(config_factory());
    let mut tx = accepted_tx(1, ALICE, key(1), &queue);
    tx.time_to_live_ms = Some(TTL_MS);
    let tx_hash = tx.hash();
    queue.push(tx.clone(), &view).expect("Failed to push tx into queue");
    let queued_tx_event = queue.take_events();
    assert_eq!(
        queued_tx_event,
        vec![TransactionEvent { hash: tx_hash, block_height: None, status: TransactionStatus::Queued }]
    );

    let mut txs = Vec::new();
    advance(&mut queue, TTL_MS + 1);
    queue.get_transactions_for_block(&view, max_txs_in_block, &mut txs, 0);
    let expired_tx_event = queue.take_events();
    assert!(txs.is_empty());
    assert_eq!(
        expired_tx_event,
        vec![TransactionEvent { hash: tx_hash, block_height: None, status: TransactionStatus::Expired }]
    );
}

#[test]
fn push_tx_in_future() {
    let future_threshold_ms = 1_000;
    let view = world_with_test_domains(&[key(1)]);
    let mut queue = test_queue(config(65536, 65536, 86_400_000, future_threshold_ms));

    let tx = accepted_tx(1, ALICE, key(1), &queue);
    assert!(queue.push(tx, &view).is_ok());

    advance(&mut queue, future_threshold_ms * 2);
    let tx = accepted_tx(2, ALICE, key(1), &queue);
    rewind(&mut queue, future_threshold_ms * 2);

    assert!(matches!(queue.push(tx, &view), Err(Failure { err: Error::InFuture, .. })));
    assert_eq!(queue.tx_len(), 1);
}

#[test]
fn queue_throttling() {
    let mut view = StateView::new();
    view.accounts.push(Account::new(ALICE.to_string(), key(1)));
    view.accounts.push(Account::new(BOB.to_string(), key(2)));
    let mut queue = test_queue(config(100, 1, 100_000, 1_000));

    let tx = accepted_tx(1, ALICE, key(1), &queue);
    queue.push(tx, &view).expect("Failed to push tx into queue");

    let result = queue.push(accepted_tx(2, ALICE, key(1), &queue), &view);
    assert!(
        matches!(result, Err(Failure { tx: _, err: Error::MaximumTransactionsPerUser })),
        "Failed to match: {result:?}",
    );

    let tx = accepted_tx(3, BOB, key(2), &queue);
    queue.push(tx, &view).expect("Failed to push tx into queue");

    let transactions = collect_transactions_for_block(&mut queue, &view, 10);
    assert_eq!(transactions.len(), 2);
    for transaction in &transactions {
        view.transactions.push(transaction.hash());
    }
    let transactions = collect_transactions_for_block(&mut queue, &view, 10);
    assert!(transactions.is_empty());

    let tx = accepted_tx(4, ALICE, key(1), &queue);
    queue.push(tx, &view).expect("Failed to push tx into queue");
    let tx = accepted_tx(5, BOB, key(2), &queue);
    queue.push(tx, &view).expect("Failed to push tx into queue");
}
