use bee_node::compression::{compress_transaction_bytes, uncompress_transaction_bytes};
use bee_node::message::{
    Heartbeat, MessageError, MilestoneRequest, TransactionBroadcast, TransactionRequest,
};

fn transaction_fixture() -> Vec<u8> {
    let mut v = Vec::new();
    for i in 0..500u32 {
        v.push((i % 256) as u8);
    }
    v
}

#[test]
fn size_range_test() {
    assert_eq!(TransactionBroadcast::size_range().contains(&291), false);
    assert_eq!(TransactionBroadcast::size_range().contains(&292), true);
    assert_eq!(TransactionBroadcast::size_range().contains(&293), true);

    assert_eq!(TransactionBroadcast::size_range().contains(&1603), true);
    assert_eq!(TransactionBroadcast::size_range().contains(&1604), true);
    assert_eq!(TransactionBroadcast::size_range().contains(&1605), false);
}

#[test]
fn from_bytes_invalid_length_test() {
    match TransactionBroadcast::from_bytes(&vec![0; 291]) {
        Err(MessageError::InvalidPayloadLength(length)) => assert_eq!(length, 291),
        _ => unreachable!(),
    }
    match TransactionBroadcast::from_bytes(&vec![0; 1605]) {
        Err(MessageError::InvalidPayloadLength(length)) => assert_eq!(length, 1605),
        _ => unreachable!(),
    }
}

#[test]
fn from_bytes_valid_length_test() {
    assert!(TransactionBroadcast::from_bytes(&vec![0; 292]).is_ok());
    assert!(TransactionBroadcast::from_bytes(&vec![0; 1604]).is_ok());
}

#[test]
fn size_test() {
    let message = TransactionBroadcast::new(&transaction_fixture());

    assert_eq!(message.size(), 500);
}

#[test]
fn to_from_test() {
    let message_from = TransactionBroadcast::new(&transaction_fixture());
    let bytes = message_from.to_bytes();
    let message_to = TransactionBroadcast::from_bytes(&bytes).unwrap();
    assert_eq!(message_to.transaction, transaction_fixture());
}

#[test]
fn full_to_from_test() {
    let message_from = TransactionBroadcast::new(&transaction_fixture());
    let bytes = message_from.into_full_bytes();
    let header = bytes[0..3].to_vec();
    let payload = bytes[3..].to_vec();
    assert_eq!(bytes[0], 0x04);
    let message_to = TransactionBroadcast::from_full_bytes(&header, &payload).unwrap();
    assert_eq!(message_to.transaction, transaction_fixture());
}

#[test]
fn milestone_request_round_trip() {
    let m = MilestoneRequest::new(0x01020304);
    let bytes = m.into_full_bytes();
    assert_eq!(bytes, vec![0x02, 0, 4, 1, 2, 3, 4]);
    let header = bytes[0..3].to_vec();
    let payload = bytes[3..].to_vec();
    let back = MilestoneRequest::from_full_bytes(&header, &payload).unwrap();
    assert_eq!(back.index, 0x01020304);
}

#[test]
fn heartbeat_round_trip() {
    let m = Heartbeat::new(7, 3);
    let bytes = m.into_full_bytes();
    assert_eq!(bytes.len(), 11);
    assert_eq!(bytes[0], 0x06);
    let header = bytes[0..3].to_vec();
    let payload = bytes[3..].to_vec();
    let back = Heartbeat::from_full_bytes(&header, &payload).unwrap();
    assert_eq!(back.solid_milestone_index, 7);
    assert_eq!(back.snapshot_milestone_index, 3);
}

#[test]
fn transaction_request_round_trip() {
    let hash: Vec<u8> = (0..49u8).collect();
    let m = TransactionRequest::new(&hash);
    let bytes = m.into_full_bytes();
    assert_eq!(bytes.len(), 52);
    assert_eq!(bytes[0], 0x03);
    let header = bytes[0..3].to_vec();
    let payload = bytes[3..].to_vec();
    let back = TransactionRequest::from_full_bytes(&header, &payload).unwrap();
    assert_eq!(back.hash, hash);
}

#[test]
fn advertised_length_mismatch() {
    let m = MilestoneRequest::new(1);
    let bytes = m.into_full_bytes();
    let header = bytes[0..3].to_vec();
    let mut payload = bytes[3..].to_vec();
    payload.push(0);
    match MilestoneRequest::from_full_bytes(&header, &payload) {
        Err(MessageError::InvalidAdvertisedLength(advertised, actual)) => {
            assert_eq!(advertised, 4);
            assert_eq!(actual, 5);
        }
        _ => unreachable!(),
    }
}

#[test]
fn uncompress_compress_round_trip() {
    // a blob with a partially zero signature region
    let mut blob = vec![0u8; 1604];
    for i in 0..600 {
        blob[i] = (i % 100) as u8 + 1;
    }
    for i in 1312..1604 {
        blob[i] = (i % 50) as u8 + 1;
    }
    let compressed = compress_transaction_bytes(&blob);
    assert_eq!(compressed.len(), 600 + 292);
    let back = uncompress_transaction_bytes(&compressed);
    assert_eq!(back, blob);

    // an all-zero blob compresses to the minimum size
    let zeros = vec![0u8; 1604];
    let compressed = compress_transaction_bytes(&zeros);
    assert_eq!(compressed.len(), 292);
    assert_eq!(uncompress_transaction_bytes(&compressed), zeros);
}

#[test]
fn error_discrimination_per_kind() {
    // advertised-length mismatch wins over a bad payload length
    let header = vec![0x04u8, 0, 4];
    let payload = vec![0u8; 5];
    match TransactionBroadcast::from_full_bytes(&header, &payload) {
        Err(MessageError::InvalidAdvertisedLength(4, 5)) => {}
        _ => unreachable!(),
    }
    // matching advertised length but a body outside the range
    let header = vec![0x04u8, 0, 5];
    match TransactionBroadcast::from_full_bytes(&header, &payload) {
        Err(MessageError::InvalidPayloadLength(5)) => {}
        _ => unreachable!(),
    }
}
