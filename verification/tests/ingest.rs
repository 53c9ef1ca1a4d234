use bee_node::message::TransactionBroadcast;
use bee_node::requester::Requested;
use bee_node::sender::SenderRegistry;
use bee_node::tangle::Tangle;
use bee_node::transaction::Transaction;
use bee_node::worker::{TransactionWorker, TransactionWorkerError};

fn make_hash(n: u8) -> bee_node::hash::Hash {
    let mut bytes = vec![0u8; 49];
    bytes[0] = n;
    bee_node::hash::Hash::from_bytes(bytes).unwrap()
}

fn make_tx(address: &bee_node::hash::Hash, bundle: &bee_node::hash::Hash, branch: &bee_node::hash::Hash, trunk: &bee_node::hash::Hash, index: u64) -> Transaction {
    Transaction {
        signature_fragments: Vec::new(),
        address: address.clone(),
        value: 0,
        obsolete_tag: Vec::new(),
        timestamp: 0,
        index,
        last_index: 1,
        bundle: bundle.clone(),
        trunk: trunk.clone(),
        branch: branch.clone(),
        tag: Vec::new(),
        attachment_ts: 0,
        attachment_lbts: 0,
        attachment_ubts: 0,
        nonce: Vec::new(),
    }
}

#[test]
fn test_tx_worker_with_compressed_buffer() {
    // a zero-payload 1024-byte broadcast, ingested with minimum weight 0
    let mut worker = TransactionWorker::new(10000);
    let mut tangle = Tangle::new();
    let mut requested = Requested::new();
    let mut registry = SenderRegistry::new();
    let mut validator_queue: Vec<bee_node::hash::Hash> = Vec::new();

    let tx_bytes = vec![0u8; 1024];
    let message = TransactionBroadcast::new(&tx_bytes);

    let (trits, transaction) = worker.decode_transaction_broadcast(&message).unwrap();
    assert_eq!(trits.len(), 8019);
    assert!(trits.iter().all(|t| *t == 0));
    assert_eq!(transaction.value, 0);
    assert!(transaction.index == 0);

    // the digest of the all-zero transaction, supplied by the sponge
    let hash = bee_node::hash::Hash::zeros();

    let outcome = TransactionWorker::store_transaction(
        &mut tangle,
        &mut requested,
        &mut registry,
        &mut validator_queue,
        16000,
        &message,
        transaction,
        hash,
        0,
        &make_hash(77),
        &make_hash(78),
    )
    .unwrap();

    assert_eq!(tangle.size(), 1);
    assert_eq!(tangle.contains_transaction(&bee_node::hash::Hash::zeros()), true);
    assert!(outcome.broadcast);
    assert!(outcome.milestone_tail.is_none());
}

#[test]
fn ingest_same_transaction_twice_is_blocked_by_cache() {
    let mut worker = TransactionWorker::new(10000);
    let mut tangle = Tangle::new();
    let mut requested = Requested::new();
    let mut registry = SenderRegistry::new();
    let mut validator_queue: Vec<bee_node::hash::Hash> = Vec::new();

    let tx_bytes = vec![0u8; 1024];
    let message = TransactionBroadcast::new(&tx_bytes);

    let (_, transaction) = worker.decode_transaction_broadcast(&message).unwrap();
    let hash = bee_node::hash::Hash::zeros();
    TransactionWorker::store_transaction(
        &mut tangle,
        &mut requested,
        &mut registry,
        &mut validator_queue,
        1,
        &message,
        transaction,
        hash,
        0,
        &make_hash(77),
        &make_hash(78),
    )
    .unwrap();
    assert_eq!(tangle.size(), 1);

    // the second feed never reaches the store: the cache blocks it
    match worker.decode_transaction_broadcast(&message) {
        Err(TransactionWorkerError::Duplicate) => {}
        _ => unreachable!(),
    }
    assert_eq!(tangle.size(), 1);
}

#[test]
fn insufficient_weight_is_rejected() {
    let mut tangle = Tangle::new();
    let mut requested = Requested::new();
    let mut registry = SenderRegistry::new();
    let mut validator_queue: Vec<bee_node::hash::Hash> = Vec::new();

    // hash with a nonzero final trit has weight 0
    let mut bytes = vec![0u8; 49];
    bytes[48] = 9; // its third trit is nonzero, so there are no trailing zeros
    let hash = bee_node::hash::Hash::from_bytes(bytes).unwrap();
    let zero = bee_node::hash::Hash::zeros();
    let tx = make_tx(&hash, &hash, &zero, &zero, 0);
    let message = TransactionBroadcast::new(&vec![0u8; 1024]);

    match TransactionWorker::store_transaction(
        &mut tangle,
        &mut requested,
        &mut registry,
        &mut validator_queue,
        1,
        &message,
        tx,
        hash,
        1,
        &make_hash(77),
        &make_hash(78),
    ) {
        Err(TransactionWorkerError::InsufficientWeight) => {}
        _ => unreachable!(),
    }
    assert_eq!(tangle.size(), 0);
}

#[test]
fn requested_arrival_triggers_solidification_not_broadcast() {
    let mut tangle = Tangle::new();
    let mut requested = Requested::new();
    let mut registry = SenderRegistry::new();
    let mut validator_queue: Vec<bee_node::hash::Hash> = Vec::new();
    registry.add_peer(5);

    let hash = make_hash(12);
    let zero = bee_node::hash::Hash::zeros();
    requested.insert(hash.clone(), 7);
    let tx = make_tx(&hash, &hash, &zero, &zero, 1);
    let message = TransactionBroadcast::new(&vec![0u8; 1024]);

    let outcome = TransactionWorker::store_transaction(
        &mut tangle,
        &mut requested,
        &mut registry,
        &mut validator_queue,
        1,
        &message,
        tx,
        hash.clone(),
        0,
        &make_hash(77),
        &make_hash(78),
    )
    .unwrap();

    assert_eq!(outcome.solidify, Some((hash.clone(), 7)));
    assert!(!outcome.broadcast);
    assert!(!requested.contains(&hash));
}

#[test]
fn coordinator_bundle_tail_reaches_validator_queue_once() {
    // two transactions with the coordinator address forming a tail+head
    // bundle: ingesting head then tail hands exactly the tail on
    let coordinator = make_hash(50);
    let bundle = make_hash(60);
    let tail_hash = make_hash(61);
    let head_hash = make_hash(62);
    let zero = bee_node::hash::Hash::zeros();

    let mut tangle = Tangle::new();
    let mut requested = Requested::new();
    let mut registry = SenderRegistry::new();
    let mut validator_queue: Vec<bee_node::hash::Hash> = Vec::new();

    // head: index 1, trunk of the tail is the head
    let head = make_tx(&coordinator, &bundle, &zero, &zero, 1);
    let tail = make_tx(&coordinator, &bundle, &zero, &head_hash, 0);
    let message = TransactionBroadcast::new(&vec![0u8; 1024]);

    let outcome_head = TransactionWorker::store_transaction(
        &mut tangle,
        &mut requested,
        &mut registry,
        &mut validator_queue,
        1,
        &message,
        head,
        head_hash.clone(),
        0,
        &coordinator,
        &make_hash(78),
    )
    .unwrap();
    // the head is no tail and has no tail approver chain yet
    assert!(outcome_head.milestone_tail.is_none());
    assert_eq!(validator_queue.len(), 0);

    let outcome_tail = TransactionWorker::store_transaction(
        &mut tangle,
        &mut requested,
        &mut registry,
        &mut validator_queue,
        1,
        &message,
        tail,
        tail_hash.clone(),
        0,
        &coordinator,
        &make_hash(78),
    )
    .unwrap();
    assert_eq!(outcome_tail.milestone_tail, Some(tail_hash.clone()));
    assert_eq!(validator_queue.len(), 1);
    assert_eq!(validator_queue[0], tail_hash);
}
