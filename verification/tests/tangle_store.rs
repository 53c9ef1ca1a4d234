use bee_node::tangle::{Tangle, TxFilter};
use bee_node::transaction::Transaction;

fn make_hash(n: u8) -> bee_node::hash::Hash {
    let mut bytes = vec![0u8; 49];
    bytes[0] = n;
    bee_node::hash::Hash::from_bytes(bytes).unwrap()
}

fn make_tx(address: &bee_node::hash::Hash, bundle: &bee_node::hash::Hash, branch: &bee_node::hash::Hash, trunk: &bee_node::hash::Hash, index: u64) -> Transaction {
    Transaction {
        signature_fragments: Vec::new(),
        address: address.clone(),
        value: 0,
        obsolete_tag: Vec::new(),
        timestamp: 0,
        index,
        last_index: 1,
        bundle: bundle.clone(),
        trunk: trunk.clone(),
        branch: branch.clone(),
        tag: Vec::new(),
        attachment_ts: 0,
        attachment_lbts: 0,
        attachment_ubts: 0,
        nonce: Vec::new(),
    }
}

// branch, trunk: the argument order the fixtures below use
fn attached(address: &bee_node::hash::Hash, branch: &bee_node::hash::Hash, trunk: &bee_node::hash::Hash) -> Transaction {
    make_tx(address, address, branch, trunk, 0)
}

struct Fixture {
    tangle: Tangle,
    a_hash: bee_node::hash::Hash,
    b_hash: bee_node::hash::Hash,
    c_hash: bee_node::hash::Hash,
    d_hash: bee_node::hash::Hash,
    e_hash: bee_node::hash::Hash,
}

// a   b
// |\ /
// | c
// |/|
// d |
//  \|
//   e
//
// trunk path from e: e -> d -> a
fn create_test_tangle() -> Fixture {
    let mut tangle = Tangle::new();
    let zero = bee_node::hash::Hash::zeros();
    let a_hash = make_hash(1);
    let b_hash = make_hash(2);
    let c_hash = make_hash(3);
    let d_hash = make_hash(4);
    let e_hash = make_hash(5);

    let a = attached(&a_hash, &zero, &zero);
    let b = attached(&b_hash, &zero, &zero);
    let c = attached(&c_hash, &a_hash, &b_hash); // branch a, trunk b
    let d = attached(&d_hash, &c_hash, &a_hash);
    let e = attached(&e_hash, &c_hash, &d_hash);

    assert!(tangle.insert_transaction(a, a_hash.clone()).is_some());
    assert!(tangle.insert_transaction(b, b_hash.clone()).is_some());
    assert!(tangle.insert_transaction(c, c_hash.clone()).is_some());
    assert!(tangle.insert_transaction(d, d_hash.clone()).is_some());
    assert!(tangle.insert_transaction(e, e_hash.clone()).is_some());

    assert_eq!(5, tangle.size());
    assert_eq!(2, tangle.num_approvers(&a_hash));
    assert_eq!(1, tangle.num_approvers(&b_hash));
    assert_eq!(2, tangle.num_approvers(&c_hash));
    assert_eq!(1, tangle.num_approvers(&d_hash));
    assert_eq!(0, tangle.num_approvers(&e_hash));

    Fixture { tangle, a_hash, b_hash, c_hash, d_hash, e_hash }
}

#[test]
fn insert_and_contains() {
    let mut tangle = Tangle::new();
    let hash = make_hash(9);
    let zero = bee_node::hash::Hash::zeros();
    let transaction = attached(&hash, &zero, &zero);

    assert!(tangle.insert_transaction(transaction, hash.clone()).is_some());
    assert_eq!(1, tangle.size());
    assert!(tangle.contains_transaction(&hash));
}

#[test]
fn insert_twice_returns_none() {
    let mut tangle = Tangle::new();
    let hash = make_hash(9);
    let zero = bee_node::hash::Hash::zeros();
    let transaction = attached(&hash, &zero, &zero);
    let again = attached(&hash, &zero, &zero);

    assert!(tangle.insert_transaction(transaction, hash.clone()).is_some());
    assert!(tangle.insert_transaction(again, hash.clone()).is_none());
    assert_eq!(1, tangle.size());
}

#[test]
fn update_and_get_snapshot_milestone_index() {
    let mut tangle = Tangle::new();

    tangle.update_snapshot_milestone_index(1_368_160);

    assert_eq!(1368160, tangle.get_snapshot_milestone_index());
}

#[test]
fn update_and_get_solid_milestone_index() {
    let mut tangle = Tangle::new();

    tangle.update_solid_milestone_index(1_368_167);

    assert_eq!(1_368_167, tangle.get_solid_milestone_index());
}

#[test]
fn update_and_get_last_milestone_index() {
    let mut tangle = Tangle::new();

    tangle.update_last_milestone_index(1_368_168);

    assert_eq!(1_368_168, tangle.get_last_milestone_index());
}

#[test]
fn is_synced_iff_indices_equal() {
    let mut tangle = Tangle::new();
    assert!(tangle.is_synced());
    tangle.update_last_milestone_index(5);
    assert!(!tangle.is_synced());
    tangle.update_solid_milestone_index(5);
    assert!(tangle.is_synced());
}

#[test]
fn milestone_bookkeeping() {
    let mut tangle = Tangle::new();
    let h = make_hash(21);
    assert!(!tangle.contains_milestone(12));
    tangle.add_milestone(12, h.clone());
    assert!(tangle.contains_milestone(12));
    assert!(tangle.get_milestone_hash(12).is_some());
    assert!(tangle.get_milestone(12).is_none()); // the transaction is not stored
    tangle.remove_milestone(12);
    assert!(!tangle.contains_milestone(12));
}

#[test]
fn solid_entry_point_bookkeeping() {
    let mut tangle = Tangle::new();
    let h = make_hash(33);
    assert!(!tangle.is_solid_entry_point(&h));
    tangle.add_solid_entry_point(h.clone());
    assert!(tangle.is_solid_entry_point(&h));
    assert!(tangle.is_solid_transaction(&h));
    tangle.remove_solid_entry_point(h.clone());
    assert!(!tangle.is_solid_entry_point(&h));
    assert!(!tangle.is_solid_transaction(&h));
}

#[test]
fn walk_trunk_approvers() {
    let f = create_test_tangle();

    let txs = f.tangle.trunk_walk_approvers(&f.a_hash, &TxFilter::All);

    assert_eq!(3, txs.len());
    assert_eq!(txs[0].0.address, f.a_hash);
    assert_eq!(txs[1].0.address, f.d_hash);
    assert_eq!(txs[2].0.address, f.e_hash);
}

#[test]
fn walk_trunk_approvees() {
    let f = create_test_tangle();

    let txs = f.tangle.trunk_walk_approvees(&f.e_hash, &TxFilter::All);

    assert_eq!(3, txs.len());
    assert_eq!(txs[0].0.address, f.e_hash);
    assert_eq!(txs[1].0.address, f.d_hash);
    assert_eq!(txs[2].0.address, f.a_hash);
}

#[test]
fn walk_approvees() {
    let f = create_test_tangle();

    assert_eq!(5, f.tangle.size());
    assert!(f.tangle.contains_transaction(&f.e_hash));
}

#[test]
fn walk_approvees_depth_first() {
    let f = create_test_tangle();

    let (visited, _missing) = f.tangle.walk_approvees_depth_first(&f.e_hash);
    let addresses: Vec<bee_node::hash::Hash> = visited.iter().map(|p| p.1.address.clone()).collect();

    assert_eq!(addresses[0], f.e_hash);
    assert_eq!(addresses[1], f.d_hash);
    assert_eq!(addresses[2], f.a_hash);
    assert_eq!(addresses[3], f.c_hash);
    assert_eq!(addresses[4], f.b_hash);
}

#[test]
fn walk_approvers_post_order_dfs() {
    let mut tangle = Tangle::new();

    // solid entry points standing for the cut-off ancestors
    let sep1 = make_hash(101);
    let sep2 = make_hash(102);
    let sep3 = make_hash(103);
    let sep4 = make_hash(104);
    let sep5 = make_hash(105);
    let sep6 = make_hash(106);
    tangle.add_solid_entry_point(sep1.clone());
    tangle.add_solid_entry_point(sep2.clone());
    tangle.add_solid_entry_point(sep3.clone());
    tangle.add_solid_entry_point(sep4.clone());
    tangle.add_solid_entry_point(sep5.clone());
    tangle.add_solid_entry_point(sep6.clone());

    let h: Vec<bee_node::hash::Hash> = (0..26).map(|i| make_hash(i as u8 + 1)).collect();
    // indices: a=0 .. z=25; arguments are (branch, trunk)
    let links: Vec<(usize, bee_node::hash::Hash, bee_node::hash::Hash)> = vec![
        (0, sep1.clone(), sep2.clone()),
        (1, sep3.clone(), sep4.clone()),
        (2, sep5.clone(), sep6.clone()),
        (3, h[1].clone(), h[0].clone()),
        (4, h[1].clone(), h[0].clone()),
        (5, h[2].clone(), h[1].clone()),
        (6, h[4].clone(), h[3].clone()),
        (7, h[5].clone(), h[4].clone()),
        (8, h[2].clone(), h[5].clone()),
        (9, h[7].clone(), h[6].clone()),
        (10, h[8].clone(), h[7].clone()),
        (11, h[9].clone(), h[6].clone()),
        (12, h[7].clone(), h[9].clone()),
        (13, h[10].clone(), h[7].clone()),
        (14, h[8].clone(), h[10].clone()),
        (15, h[8].clone(), h[10].clone()),
        (16, h[12].clone(), h[11].clone()),
        (17, h[12].clone(), h[11].clone()),
        (18, h[14].clone(), h[13].clone()),
        (19, h[15].clone(), h[14].clone()),
        (20, h[17].clone(), h[16].clone()),
        (21, h[18].clone(), h[17].clone()),
        (22, h[19].clone(), h[18].clone()),
        (23, h[20].clone(), h[16].clone()),
        (24, h[21].clone(), h[20].clone()),
        (25, h[18].clone(), h[21].clone()),
    ];
    for (i, branch, trunk) in links {
        let tx = attached(&h[i], &branch, &trunk);
        assert!(tangle.insert_transaction(tx, h[i].clone()).is_some());
    }

    let v_hash = h[21].clone();
    let (visited, missing, skipped) = tangle.walk_approvers_post_order_dfs(&v_hash);
    let hashes: Vec<bee_node::hash::Hash> = visited.iter().map(|p| p.0.clone()).collect();

    assert!(missing.is_empty());
    assert!(skipped.is_empty());
    assert_eq!(hashes.len(), 18);
    assert_eq!(hashes[0], h[0]); // a
    assert_eq!(hashes[1], h[1]); // b
    assert_eq!(hashes[2], h[3]); // d
    assert_eq!(hashes[3], h[4]); // e
    assert_eq!(hashes[4], h[6]); // g
    assert_eq!(hashes[5], h[2]); // c
    assert_eq!(hashes[6], h[5]); // f
    assert_eq!(hashes[7], h[7]); // h
    assert_eq!(hashes[8], h[9]); // j
    assert_eq!(hashes[9], h[11]); // l
    assert_eq!(hashes[10], h[12]); // m
    assert_eq!(hashes[11], h[17]); // r
    assert_eq!(hashes[12], h[8]); // i
    assert_eq!(hashes[13], h[10]); // k
    assert_eq!(hashes[14], h[13]); // n
    assert_eq!(hashes[15], h[14]); // o
    assert_eq!(hashes[16], h[18]); // s
    assert_eq!(hashes[17], h[21]); // v
}

#[test]
fn post_order_walk_abandons_reference_cycles() {
    // two stored transactions referencing each other: the walk emits the
    // root once its predecessors are analyzed and abandons the partner
    // whose predecessor lies on the walk's own path
    let mut tangle = Tangle::new();
    let a_hash = make_hash(1);
    let b_hash = make_hash(2);
    let a = attached(&a_hash, &b_hash, &b_hash);
    let b = attached(&b_hash, &a_hash, &a_hash);
    assert!(tangle.insert_transaction(a, a_hash.clone()).is_some());
    assert!(tangle.insert_transaction(b, b_hash.clone()).is_some());

    let (visited, missing, skipped) = tangle.walk_approvers_post_order_dfs(&a_hash);
    assert!(missing.is_empty());
    assert_eq!(skipped.len(), 1);
    assert_eq!(skipped[0], b_hash);
    assert_eq!(visited.len(), 1);
    assert_eq!(visited[0].0, a_hash);
}

#[test]
fn walks_report_each_missing_hash_once() {
    // two stored vertices reference the same absent hash; the walk
    // reports it exactly once
    let mut tangle = Tangle::new();
    let gone = make_hash(9);
    let x_hash = make_hash(1);
    let y_hash = make_hash(2);
    let x = attached(&x_hash, &gone, &gone);
    let y = attached(&y_hash, &gone, &x_hash);
    assert!(tangle.insert_transaction(x, x_hash.clone()).is_some());
    assert!(tangle.insert_transaction(y, y_hash.clone()).is_some());

    let (visited, missing) = tangle.walk_approvees_depth_first(&y_hash);
    assert_eq!(visited.len(), 2);
    assert_eq!(missing.len(), 1);
    assert_eq!(missing[0], gone);

    let (post_visited, post_missing, post_skipped) =
        tangle.walk_approvers_post_order_dfs(&y_hash);
    assert_eq!(post_visited.len(), 2);
    assert_eq!(post_missing.len(), 1);
    assert_eq!(post_missing[0], gone);
    assert!(post_skipped.is_empty());
}
