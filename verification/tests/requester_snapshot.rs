use bee_node::pqueue::TransactionRequesterWorkerEntry;
use bee_node::requester::{Requested, TransactionRequesterWorker};
use bee_node::sender::SenderRegistry;
use bee_node::snapshot::{parse_balance, SnapshotState, SnapshotStateError, IOTA_SUPPLY};
use bee_node::tangle::Tangle;

fn make_hash(n: u8) -> bee_node::hash::Hash {
    let mut bytes = vec![0u8; 49];
    bytes[0] = n;
    bee_node::hash::Hash::from_bytes(bytes).unwrap()
}

#[test]
fn request_with_one_peer_enqueues_framed_message() {
    // a request (h, 7) with one handshaked peer lands on that peer's
    // transaction-request queue as a framed message carrying the packed hash
    let tangle = Tangle::new();
    let mut requested = Requested::new();
    let mut registry = SenderRegistry::new();
    registry.add_peer(42);
    let mut worker = TransactionRequesterWorker::new(1);

    let h = make_hash(11);
    let entry = TransactionRequesterWorkerEntry(h.clone(), 7);
    let sent_to = worker.handle_entry(&tangle, &mut requested, &mut registry, &entry);

    assert_eq!(sent_to, Some(42));
    assert!(requested.contains(&h));
    let frames = registry.transaction_request_frames(42);
    assert_eq!(frames.len(), 1);
    let mut expected = vec![0x03u8, 0, 49];
    expected.extend_from_slice(h.as_bytes());
    assert_eq!(frames[0], expected);
}

#[test]
fn request_with_no_peers_changes_nothing() {
    // with no handshaked peers a popped request is dropped and the
    // requested map stays unchanged
    let tangle = Tangle::new();
    let mut requested = Requested::new();
    let mut registry = SenderRegistry::new();
    let mut worker = TransactionRequesterWorker::new(1);

    let h = make_hash(11);
    let entry = TransactionRequesterWorkerEntry(h.clone(), 7);
    let sent_to = worker.handle_entry(&tangle, &mut requested, &mut registry, &entry);

    assert_eq!(sent_to, None);
    assert!(requested.is_empty());
    assert_eq!(registry.peer_count(), 0);
}

#[test]
fn stored_or_entry_point_requests_are_discarded() {
    let mut tangle = Tangle::new();
    let mut requested = Requested::new();
    let mut registry = SenderRegistry::new();
    registry.add_peer(1);
    let mut worker = TransactionRequesterWorker::new(1);

    let h = make_hash(11);
    tangle.add_solid_entry_point(h.clone());
    let entry = TransactionRequesterWorkerEntry(h.clone(), 7);
    assert_eq!(worker.handle_entry(&tangle, &mut requested, &mut registry, &entry), None);
    assert!(requested.is_empty());
}

#[test]
fn requested_map_insert_remove() {
    let mut requested = Requested::new();
    let a = make_hash(1);
    let b = make_hash(2);
    requested.insert(a.clone(), 4);
    requested.insert(b.clone(), 9);
    assert_eq!(requested.len(), 2);
    let removed = requested.remove(&a).unwrap();
    assert_eq!(removed.1, 4);
    assert!(requested.remove(&a).is_none());
    assert!(requested.contains(&b));
}

#[test]
fn balance_parsing() {
    assert_eq!(parse_balance(&b"0".to_vec()), Some(0));
    assert_eq!(parse_balance(&b"2779530283277761".to_vec()), Some(2779530283277761));
    assert_eq!(parse_balance(&b"18446744073709551615".to_vec()), Some(u64::MAX));
    assert_eq!(parse_balance(&b"18446744073709551616".to_vec()), None);
    assert_eq!(parse_balance(&b"".to_vec()), None);
    assert_eq!(parse_balance(&b"12x".to_vec()), None);
}

#[test]
fn snapshot_supply_must_match() {
    let addr: Vec<u8> = vec![b'9'; 81];
    let mut good_line = addr.clone();
    good_line.push(b';');
    good_line.extend_from_slice(b"2779530283277761");
    let state = SnapshotState::from_lines(&vec![good_line]).unwrap();
    assert_eq!(state.state().len(), 1);
    assert_eq!(state.balance_of(&bee_node::hash::Hash::zeros()), Some(IOTA_SUPPLY));

    let mut short_line = addr.clone();
    short_line.push(b';');
    short_line.extend_from_slice(b"5");
    match SnapshotState::from_lines(&vec![short_line]) {
        Err(SnapshotStateError::InvalidSupply(claimed, expected)) => {
            assert_eq!(claimed, 5);
            assert_eq!(expected, IOTA_SUPPLY);
        }
        _ => unreachable!(),
    }
}

#[test]
fn snapshot_rejects_bad_lines() {
    let mut bad_addr: Vec<u8> = vec![b'9'; 80];
    bad_addr.push(b';');
    bad_addr.extend_from_slice(b"5");
    match SnapshotState::from_lines(&vec![bad_addr]) {
        Err(SnapshotStateError::InvalidAddress) => {}
        _ => unreachable!(),
    }

    let no_semi: Vec<u8> = vec![b'9'; 81];
    match SnapshotState::from_lines(&vec![no_semi]) {
        Err(SnapshotStateError::InvalidBalance) => {}
        _ => unreachable!(),
    }
}

#[test]
fn snapshot_last_balance_wins() {
    let addr: Vec<u8> = vec![b'9'; 81];
    let mut line1 = addr.clone();
    line1.push(b';');
    line1.extend_from_slice(b"1");
    let mut line2 = addr.clone();
    line2.push(b';');
    line2.extend_from_slice(b"2779530283277760");
    let state = SnapshotState::from_lines(&vec![line1, line2]).unwrap();
    assert_eq!(state.state().len(), 1);
    assert_eq!(state.balance_of(&bee_node::hash::Hash::zeros()), Some(2779530283277760));
}
