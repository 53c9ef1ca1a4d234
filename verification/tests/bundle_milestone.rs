use bee_node::bundle::Bundle;
use bee_node::milestone::{MilestoneValidatorWorker, MilestoneValidatorWorkerError};
use bee_node::tangle::Tangle;
use bee_node::transaction::Transaction;

fn make_hash(n: u8) -> bee_node::hash::Hash {
    let mut bytes = vec![0u8; 49];
    bytes[0] = n;
    bee_node::hash::Hash::from_bytes(bytes).unwrap()
}

fn make_tx(
    address: &bee_node::hash::Hash,
    value: i64,
    bundle: &bee_node::hash::Hash,
    branch: &bee_node::hash::Hash,
    trunk: &bee_node::hash::Hash,
    index: u64,
) -> Transaction {
    Transaction {
        signature_fragments: Vec::new(),
        address: address.clone(),
        value,
        obsolete_tag: Vec::new(),
        timestamp: 0,
        index,
        last_index: 2,
        bundle: bundle.clone(),
        trunk: trunk.clone(),
        branch: branch.clone(),
        tag: Vec::new(),
        attachment_ts: 0,
        attachment_lbts: 0,
        attachment_ubts: 0,
        nonce: Vec::new(),
    }
}

#[test]
fn bundle_accessors() {
    let bundle_hash = make_hash(40);
    let a1 = make_hash(1);
    let a2 = make_hash(2);
    let trunk = make_hash(3);
    let branch = make_hash(4);
    let zero = bee_node::hash::Hash::zeros();
    let tail = make_tx(&a1, 5, &bundle_hash, &zero, &zero, 0);
    let head = make_tx(&a2, -5, &bundle_hash, &branch, &trunk, 1);
    let b = Bundle::new(vec![tail, head]).unwrap();

    assert_eq!(b.len(), 2);
    assert_eq!(*b.hash(), bundle_hash);
    assert_eq!(b.tail().address, a1);
    assert_eq!(b.head().address, a2);
    assert_eq!(*b.trunk(), trunk);
    assert_eq!(*b.branch(), branch);
    assert_eq!(b.get(0).unwrap().address, a1);
    assert_eq!(b.get(1).unwrap().address, a2);
    assert!(b.get(2).is_none());
}

#[test]
fn bundle_refuses_empty_and_mixed() {
    assert!(Bundle::new(Vec::new()).is_none());
    let zero = bee_node::hash::Hash::zeros();
    let t1 = make_tx(&make_hash(1), 0, &make_hash(40), &zero, &zero, 0);
    let t2 = make_tx(&make_hash(2), 0, &make_hash(41), &zero, &zero, 1);
    assert!(Bundle::new(vec![t1, t2]).is_none());
}

#[test]
fn ledger_diff_balanced_sums_to_zero() {
    // a value-balanced bundle: +7 to one address, -5 and -2 from another
    let bundle_hash = make_hash(40);
    let addr_a = make_hash(1);
    let addr_b = make_hash(2);
    let zero = bee_node::hash::Hash::zeros();
    let t1 = make_tx(&addr_a, 7, &bundle_hash, &zero, &zero, 0);
    let t2 = make_tx(&addr_b, -5, &bundle_hash, &zero, &zero, 1);
    let t3 = make_tx(&addr_b, -2, &bundle_hash, &zero, &zero, 2);
    let b = Bundle::new(vec![t1, t2, t3]).unwrap();

    let diff = b.ledger_diff();
    assert_eq!(diff.len(), 2);
    let total: i64 = diff.iter().map(|p| p.1).sum();
    assert_eq!(total, 0);
    for (addr, v) in &diff {
        if *addr == addr_a {
            assert_eq!(*v, 7);
        } else {
            assert_eq!(*addr, addr_b);
            assert_eq!(*v, -7);
        }
    }
}

#[test]
fn ledger_diff_drops_zero_net_addresses() {
    // an address whose changes cancel out is absent from the diff
    let bundle_hash = make_hash(40);
    let addr_a = make_hash(1);
    let addr_b = make_hash(2);
    let zero = bee_node::hash::Hash::zeros();
    let t1 = make_tx(&addr_a, 5, &bundle_hash, &zero, &zero, 0);
    let t2 = make_tx(&addr_a, -5, &bundle_hash, &zero, &zero, 1);
    let t3 = make_tx(&addr_b, 0, &bundle_hash, &zero, &zero, 2);
    let b = Bundle::new(vec![t1, t2, t3]).unwrap();

    let diff = b.ledger_diff();
    assert_eq!(diff.len(), 0);
}

#[test]
fn validate_milestone_unknown_tail() {
    let tangle = Tangle::new();
    let worker = MilestoneValidatorWorker::new(1);
    match worker.validate_milestone(&tangle, &make_hash(9)) {
        Err(MilestoneValidatorWorkerError::UnknownTail) => {}
        _ => unreachable!(),
    }
}

#[test]
fn validate_milestone_not_a_tail() {
    let mut tangle = Tangle::new();
    let worker = MilestoneValidatorWorker::new(1);
    let h = make_hash(9);
    let zero = bee_node::hash::Hash::zeros();
    let tx = make_tx(&h, 0, &h, &zero, &zero, 1);
    tangle.insert_transaction(tx, h.clone());
    match worker.validate_milestone(&tangle, &h) {
        Err(MilestoneValidatorWorkerError::NotATail) => {}
        _ => unreachable!(),
    }
}

#[test]
fn validate_milestone_incomplete_and_complete() {
    let mut tangle = Tangle::new();
    let worker = MilestoneValidatorWorker::new(1);
    let bundle_hash = make_hash(40);
    let tail_hash = make_hash(9);
    let next_hash = make_hash(10);
    let zero = bee_node::hash::Hash::zeros();

    let tail = make_tx(&tail_hash, 0, &bundle_hash, &zero, &next_hash, 0);
    tangle.insert_transaction(tail, tail_hash.clone());
    match worker.validate_milestone(&tangle, &tail_hash) {
        Err(MilestoneValidatorWorkerError::IncompleteBundle) => {}
        _ => unreachable!(),
    }

    let next = make_tx(&next_hash, 0, &bundle_hash, &zero, &zero, 1);
    tangle.insert_transaction(next, next_hash.clone());
    let bundle = worker.validate_milestone(&tangle, &tail_hash).unwrap();
    assert_eq!(bundle.len(), 2);
    assert_eq!(bundle[0].address, tail_hash);
    assert_eq!(bundle[1].address, next_hash);
}

#[test]
fn apply_milestone_advances_last_index() {
    let mut tangle = Tangle::new();
    let h = make_hash(9);
    assert!(MilestoneValidatorWorker::apply_milestone(&mut tangle, 4, h.clone()));
    assert_eq!(tangle.get_last_milestone_index(), 4);
    assert!(tangle.contains_milestone(4));
    // a lower index records the milestone but does not move the counter
    assert!(!MilestoneValidatorWorker::apply_milestone(&mut tangle, 2, make_hash(8)));
    assert_eq!(tangle.get_last_milestone_index(), 4);
    assert!(tangle.contains_milestone(2));
}

#[test]
fn get_latest_milestone_uses_last_index() {
    let mut tangle = Tangle::new();
    let h = make_hash(9);
    let zero = bee_node::hash::Hash::zeros();
    let tx = make_tx(&h, 0, &h, &zero, &zero, 0);
    tangle.insert_transaction(tx, h.clone());
    assert!(tangle.get_latest_milestone().is_none());
    MilestoneValidatorWorker::apply_milestone(&mut tangle, 3, h.clone());
    let latest = tangle.get_latest_milestone().unwrap();
    assert_eq!(latest.address, h);
}
