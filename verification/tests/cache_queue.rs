use bee_node::cache::TinyHashCache;
use bee_node::pqueue::{TransactionRequesterWorkerEntry, WaitPriorityQueue};

fn make_hash(n: u8) -> bee_node::hash::Hash {
    let mut bytes = vec![0u8; 49];
    bytes[0] = n;
    bee_node::hash::Hash::from_bytes(bytes).unwrap()
}

#[test]
fn cache_fifo_eviction() {
    // capacity 3, fed a, b, c, a, d, b
    let mut cache = TinyHashCache::new(3);
    let a = vec![1u8];
    let b = vec![2u8];
    let c = vec![3u8];
    let d = vec![4u8];

    assert_eq!(cache.insert(&a), true);
    assert_eq!(cache.insert(&b), true);
    assert_eq!(cache.insert(&c), true);
    assert_eq!(cache.insert(&a), false);
    assert_eq!(cache.insert(&d), true); // evicts a, the oldest
    assert_eq!(cache.insert(&b), false);

    assert_eq!(cache.len(), 3);
    assert!(!cache.contains(&a));
    assert!(cache.contains(&b));
    assert!(cache.contains(&c));
    assert!(cache.contains(&d));
}

#[test]
fn cache_duplicate_keeps_order() {
    let mut cache = TinyHashCache::new(2);
    let a = vec![1u8];
    let b = vec![2u8];
    let c = vec![3u8];
    assert!(cache.insert(&a));
    assert!(cache.insert(&b));
    assert!(!cache.insert(&a)); // does not disturb order: a is still oldest
    assert!(cache.insert(&c)); // evicts a
    assert!(!cache.contains(&a));
    assert!(cache.contains(&b));
    assert!(cache.contains(&c));
}

#[test]
fn queue_pops_largest_index_first() {
    // priorities 3, 1, 4, 1, 5 pop as 5, 4, 3, 1, 1
    let mut queue = WaitPriorityQueue::new();
    for (i, p) in [3u32, 1, 4, 1, 5].iter().enumerate() {
        queue.insert(TransactionRequesterWorkerEntry(make_hash(i as u8 + 1), *p));
    }
    let mut popped: Vec<u32> = Vec::new();
    while let Some(e) = queue.pop() {
        popped.push(e.1);
    }
    assert_eq!(popped, vec![5, 4, 3, 1, 1]);
}

#[test]
fn queue_ties_leave_in_insertion_order() {
    let mut queue = WaitPriorityQueue::new();
    queue.insert(TransactionRequesterWorkerEntry(make_hash(1), 7));
    queue.insert(TransactionRequesterWorkerEntry(make_hash(2), 7));
    let first = queue.pop().unwrap();
    let second = queue.pop().unwrap();
    assert_eq!(first.0, make_hash(1));
    assert_eq!(second.0, make_hash(2));
}

#[test]
fn queue_empty_pop_then_insert_returns_entry() {
    let mut queue = WaitPriorityQueue::new();
    assert!(queue.is_empty());
    assert!(queue.pop().is_none());
    let x = TransactionRequesterWorkerEntry(make_hash(9), 4);
    queue.insert(x);
    assert!(!queue.is_empty());
    let back = queue.pop().unwrap();
    assert_eq!(back.0, make_hash(9));
    assert_eq!(back.1, 4);
    assert!(queue.pop().is_none());
}
