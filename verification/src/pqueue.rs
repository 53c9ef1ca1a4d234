//! Priority queue of transaction requests.
//!
//! Producers insert entries ordered by milestone index; the consumer takes
//! the entry with the largest index first.  The waiting (suspension and
//! wake-up of consumers) is asynchronous plumbing and lives outside the
//! library; this is the queue those waiters drain.

use vstd::prelude::*;

verus! {

/// A request for a transaction: the hash to fetch and the milestone index
/// it was needed for.  Ordering is by milestone index alone; equality is
/// structural on both fields.
pub struct TransactionRequesterWorkerEntry(pub crate::hash::Hash, pub u32);

impl PartialEq for TransactionRequesterWorkerEntry {
    fn eq(&self, other: &Self) -> (r: bool) {
        self.0 == other.0 && self.1 == other.1
    }
}

impl vstd::std_specs::cmp::PartialEqSpecImpl for TransactionRequesterWorkerEntry {
    open spec fn obeys_eq_spec() -> bool {
        true
    }

    open spec fn eq_spec(&self, other: &TransactionRequesterWorkerEntry) -> bool {
        self.0@ == other.0@ && self.1 == other.1
    }
}

/// The abstract value of an entry: hash bytes and milestone index.
pub open spec fn entry_view(e: TransactionRequesterWorkerEntry) -> (Seq<u8>, u32) {
    (e.0@, e.1)
}

/// Position `i` holds the entry that is served next: it has the maximal
/// index, and it is the earliest-inserted entry among those with that
/// index.
pub open spec fn is_first_max(s: Seq<(Seq<u8>, u32)>, i: int) -> bool {
    &&& 0 <= i < s.len()
    &&& forall|j: int| 0 <= j < s.len() ==> (#[trigger] s[j]).1 <= s[i].1
    &&& forall|j: int| 0 <= j < i ==> (#[trigger] s[j]).1 < s[i].1
}

/// A max-priority queue of transaction-request entries.  The view is the
/// sequence of held entries in insertion order.
pub struct WaitPriorityQueue {
    entries: Vec<TransactionRequesterWorkerEntry>,
}

impl View for WaitPriorityQueue {
    type V = Seq<(Seq<u8>, u32)>;

    closed spec fn view(&self) -> Seq<(Seq<u8>, u32)> {
        self.entries@.map_values(|e: TransactionRequesterWorkerEntry| entry_view(e))
    }
}

impl WaitPriorityQueue {
    /// Creates an empty queue.
    pub fn new() -> (r: Self)
        ensures
            r@ == Seq::<(Seq<u8>, u32)>::empty(),
    {
        let r = Self { entries: Vec::new() };
        proof {
            assert(r@ =~= Seq::<(Seq<u8>, u32)>::empty());
        }
        r
    }

    /// Whether the queue holds no entry.
    pub fn is_empty(&self) -> (r: bool)
        ensures
            r <==> self@.len() == 0,
    {
        self.entries.len() == 0
    }

    /// Number of held entries.
    pub fn len(&self) -> (r: usize)
        ensures
            r == self@.len(),
    {
        self.entries.len()
    }

    /// Adds an entry to the queue.
    pub fn insert(&mut self, entry: TransactionRequesterWorkerEntry)
        ensures
            final(self)@ == old(self)@.push(entry_view(entry)),
    {
        self.entries.push(entry);
        proof {
            assert(self@ =~= old(self)@.push(entry_view(entry)));
        }
    }

    /// Takes the entry with the largest milestone index; among equal
    /// indices the earliest-inserted entry leaves first.  Returns nothing
    /// when the queue is empty.
    pub fn pop(&mut self) -> (r: Option<TransactionRequesterWorkerEntry>)
        ensures
            r is Some <==> old(self)@.len() > 0,
            r is None ==> final(self)@ == old(self)@,
            r matches Some(e) ==> exists|i: int|
                {
                    &&& #[trigger] is_first_max(old(self)@, i)
                    &&& entry_view(e) == old(self)@[i]
                    &&& final(self)@ == old(self)@.remove(i)
                },
    {
        let n = self.entries.len();
        if n == 0 {
            return None;
        }
        let mut best: usize = 0;
        let mut j: usize = 1;
        while j < n
            invariant
                n == self@.len(),
                best < j <= n,
                forall|k: int| 0 <= k < j ==> (#[trigger] self@[k]).1 <= self@[best as int].1,
                forall|k: int| 0 <= k < best ==> (#[trigger] self@[k]).1 < self@[best as int].1,
            decreases n - j,
        {
            if self.entries[j].1 > self.entries[best].1 {
                best = j;
            }
            j += 1;
        }
        proof {
            assert(is_first_max(self@, best as int));
        }
        let e = self.entries.remove(best);
        proof {
            assert(self@ =~= old(self)@.remove(best as int));
        }
        Some(e)
    }
}

} // verus!
