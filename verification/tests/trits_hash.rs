use bee_node::t5b1::{t5b1_bytes_to_trits, T5B1Buf};
use bee_node::transaction::{Transaction, TransactionError};
use bee_node::trits::{extract, insert};

#[test]
fn extract_reads_packed_digits() {
    // 0 packs five zero trits
    for e in 0..5 {
        assert_eq!(extract(0, e), 0);
    }
    // 1 = pack of (1, 0, 0, 0, 0)
    assert_eq!(extract(1, 0), 1);
    assert_eq!(extract(1, 1), 0);
    // -1 = pack of (-1, 0, 0, 0, 0)
    assert_eq!(extract(-1, 0), -1);
    // 121 = pack of (1, 1, 1, 1, 1)
    for e in 0..5 {
        assert_eq!(extract(121, e), 1);
        assert_eq!(extract(-121, e), -1);
    }
}

#[test]
fn insert_replaces_one_digit() {
    let b = insert(0, 2, 1);
    assert_eq!(extract(b, 2), 1);
    for e in [0usize, 1, 3, 4] {
        assert_eq!(extract(b, e), 0);
    }
    let b2 = insert(b, 2, -1);
    assert_eq!(extract(b2, 2), -1);
    let b3 = insert(b2, 2, 0);
    assert_eq!(b3, 0);
}

#[test]
fn t5b1_buf_push_pop_round_trip() {
    let mut buf = T5B1Buf::new();
    let trits = [1i8, -1, 0, 1, 1, 0, -1, 1, 0, 0, 1, -1];
    for t in trits {
        buf.push(t);
    }
    assert_eq!(buf.len(), trits.len());
    for t in trits.iter().rev() {
        assert_eq!(buf.pop(), Some(*t));
    }
    assert_eq!(buf.pop(), None);
}

#[test]
fn t5b1_decode_checks_byte_range() {
    // 130 as a signed octet is 130 - 256 = -126, outside [-121, 121]
    assert!(t5b1_bytes_to_trits(&vec![0, 130], 9).is_none());
    let trits = t5b1_bytes_to_trits(&vec![1, 0], 9).unwrap();
    assert_eq!(trits.len(), 9);
    assert_eq!(trits[0], 1);
    assert!(trits[1..].iter().all(|t| *t == 0));
}

#[test]
fn hash_weight_counts_trailing_zero_trits() {
    assert_eq!(bee_node::hash::Hash::zeros().weight(), 243);
    // a nonzero first trit leaves 242 trailing zeros
    let mut bytes = vec![0u8; 49];
    bytes[0] = 1;
    let h = bee_node::hash::Hash::from_bytes(bytes).unwrap();
    assert_eq!(h.weight(), 242);
    // a nonzero final trit leaves none
    let mut bytes = vec![0u8; 49];
    bytes[48] = 9;
    let h = bee_node::hash::Hash::from_bytes(bytes).unwrap();
    assert_eq!(h.weight(), 0);
}

#[test]
fn hash_from_bytes_validates() {
    assert!(bee_node::hash::Hash::from_bytes(vec![0u8; 48]).is_none());
    assert!(bee_node::hash::Hash::from_bytes(vec![0u8; 49]).is_some());
    let mut bytes = vec![0u8; 49];
    bytes[3] = 130; // out of the packed range
    assert!(bee_node::hash::Hash::from_bytes(bytes).is_none());
    let mut bytes = vec![0u8; 49];
    bytes[48] = 27; // its fourth trit, a padding position, is nonzero
    assert!(bee_node::hash::Hash::from_bytes(bytes).is_none());
}

#[test]
fn transaction_from_all_zero_trits() {
    let trits = vec![0i8; 8019];
    let tx = Transaction::from_trits(&trits).unwrap();
    assert_eq!(tx.value, 0);
    assert_eq!(tx.index, 0);
    assert_eq!(tx.last_index, 0);
    assert_eq!(tx.timestamp, 0);
    assert!(tx.is_tail());
    assert_eq!(tx.address, bee_node::hash::Hash::zeros());
    assert_eq!(tx.bundle, bee_node::hash::Hash::zeros());
    assert_eq!(tx.trunk, bee_node::hash::Hash::zeros());
    assert_eq!(tx.branch, bee_node::hash::Hash::zeros());
}

#[test]
fn transaction_field_extraction() {
    let mut trits = vec![0i8; 8019];
    // value 5 = -1 - 3 + 9
    trits[6804] = -1;
    trits[6805] = -1;
    trits[6806] = 1;
    // timestamp 2 = (-1, 1)
    trits[6966] = -1;
    trits[6967] = 1;
    // current index 1
    trits[6993] = 1;
    // last index 1
    trits[7020] = 1;
    let tx = Transaction::from_trits(&trits).unwrap();
    assert_eq!(tx.value, 5);
    assert_eq!(tx.timestamp, 2);
    assert_eq!(tx.index, 1);
    assert_eq!(tx.last_index, 1);
    assert!(!tx.is_tail());
}

#[test]
fn transaction_rejects_negative_fields() {
    let mut trits = vec![0i8; 8019];
    trits[6966] = -1; // negative timestamp
    match Transaction::from_trits(&trits) {
        Err(TransactionError::InvalidTimestamp) => {}
        _ => unreachable!(),
    }
    let mut trits = vec![0i8; 8019];
    trits[6993] = -1; // negative current index
    match Transaction::from_trits(&trits) {
        Err(TransactionError::InvalidIndex) => {}
        _ => unreachable!(),
    }
    let mut trits = vec![0i8; 8019];
    trits[7020] = -1; // negative last index
    match Transaction::from_trits(&trits) {
        Err(TransactionError::InvalidLastIndex) => {}
        _ => unreachable!(),
    }
    let mut trits = vec![0i8; 8019];
    trits[6884] = 1; // a nonzero trit at the top of the value field
    match Transaction::from_trits(&trits) {
        Err(TransactionError::InvalidValue) => {}
        _ => unreachable!(),
    }
}
