use bee_node::message::{Heartbeat, MilestoneRequest, TransactionBroadcast, TransactionRequest};
use bee_node::sender::SenderRegistry;

#[test]
fn send_to_missing_peer_is_ignored() {
    let mut registry = SenderRegistry::new();
    registry.send_milestone_request(9, MilestoneRequest::new(1));
    registry.send_heartbeat(9, Heartbeat::new(1, 2));
    registry.send_transaction_request(9, TransactionRequest::new(&vec![0u8; 49]));
    assert_eq!(registry.peer_count(), 0);
}

#[test]
fn add_and_remove_peer() {
    let mut registry = SenderRegistry::new();
    registry.add_peer(1);
    registry.add_peer(2);
    registry.add_peer(1); // second registration is ignored
    assert_eq!(registry.peer_count(), 2);
    assert!(registry.contains_peer(1));
    registry.remove_peer(1);
    assert!(!registry.contains_peer(1));
    assert_eq!(registry.peer_count(), 1);
}

#[test]
fn broadcast_excludes_the_sender() {
    let mut registry = SenderRegistry::new();
    registry.add_peer(1);
    registry.add_peer(2);
    registry.add_peer(3);
    let body = vec![7u8; 300];
    registry.broadcast_transaction_message(Some(2), TransactionBroadcast::new(&body));

    let mut expected = vec![0x04u8, 1, 44]; // 300 = 1 * 256 + 44
    expected.extend_from_slice(&body);
    assert_eq!(registry.transaction_broadcast_frames(1), vec![expected.clone()]);
    assert_eq!(registry.transaction_broadcast_frames(2).len(), 0);
    assert_eq!(registry.transaction_broadcast_frames(3), vec![expected]);
}

#[test]
fn per_peer_per_kind_order_is_kept() {
    let mut registry = SenderRegistry::new();
    registry.add_peer(1);
    registry.send_transaction_request(1, TransactionRequest::new(&vec![1u8; 49]));
    registry.send_transaction_request(1, TransactionRequest::new(&vec![2u8; 49]));
    let frames = registry.transaction_request_frames(1);
    assert_eq!(frames.len(), 2);
    assert_eq!(frames[0][3], 1);
    assert_eq!(frames[1][3], 2);
}
