//! Bounded first-in-first-out set of recently seen byte blobs.
//!
//! The ingest path uses this cache to drop duplicate transaction broadcasts
//! at ingress.  Membership test and insertion are one operation, so there
//! is no window between them.

use vstd::prelude::*;
use crate::hash::{copy_bytes, eq_bytes};

verus! {

/// A bounded FIFO set of byte blobs.  The view is the sequence of blobs in
/// arrival order, oldest first.
pub struct TinyHashCache {
    elems: Vec<Vec<u8>>,
    max_capacity: usize,
}

/// Membership of a blob in a sequence of blobs.
pub open spec fn cache_contains(s: Seq<Seq<u8>>, blob: Seq<u8>) -> bool {
    exists|i: int| 0 <= i < s.len() && s[i] == blob
}

impl View for TinyHashCache {
    type V = Seq<Seq<u8>>;

    closed spec fn view(&self) -> Seq<Seq<u8>> {
        self.elems@.map_values(|v: Vec<u8>| v@)
    }
}

impl TinyHashCache {
    /// The capacity fixed at construction.
    pub closed spec fn spec_capacity(&self) -> int {
        self.max_capacity as int
    }

    /// The cache never exceeds its capacity and never holds a blob twice.
    pub open spec fn wf(&self) -> bool {
        &&& self@.len() <= self.spec_capacity()
        &&& 1 <= self.spec_capacity()
        &&& forall|i: int, j: int| 0 <= i < j < self@.len() ==> self@[i] != self@[j]
    }

    /// Creates an empty cache holding at most `capacity` blobs.
    pub fn new(capacity: usize) -> (r: Self)
        requires
            capacity >= 1,
        ensures
            r.wf(),
            r@ == Seq::<Seq<u8>>::empty(),
            r.spec_capacity() == capacity,
    {
        let r = Self { elems: Vec::new(), max_capacity: capacity };
        proof {
            assert(r@ =~= Seq::<Seq<u8>>::empty());
        }
        r
    }

    /// Number of blobs currently held.
    pub fn len(&self) -> (r: usize)
        ensures
            r == self@.len(),
    {
        self.elems.len()
    }

    /// Whether `bytes` is currently held.
    pub fn contains(&self, bytes: &Vec<u8>) -> (r: bool)
        ensures
            r <==> cache_contains(self@, bytes@),
    {
        let n = self.elems.len();
        let mut i: usize = 0;
        while i < n
            invariant
                n == self@.len(),
                i <= n,
                forall|j: int| 0 <= j < i ==> self@[j] != bytes@,
            decreases n - i,
        {
            if eq_bytes(&self.elems[i], bytes) {
                proof {
                    assert(self@[i as int] == bytes@);
                }
                return true;
            }
            i += 1;
        }
        false
    }

    /// Inserts `bytes` unless it is already held, and reports whether it
    /// was inserted.  When the cache is full, the oldest blob is evicted
    /// first.
    pub fn insert(&mut self, bytes: &Vec<u8>) -> (r: bool)
        requires
            old(self).wf(),
        ensures
            final(self).wf(),
            final(self).spec_capacity() == old(self).spec_capacity(),
            r <==> !cache_contains(old(self)@, bytes@),
            !r ==> final(self)@ == old(self)@,
            r && old(self)@.len() < old(self).spec_capacity() ==> final(self)@ == old(self)@.push(
                bytes@,
            ),
            r && old(self)@.len() == old(self).spec_capacity() ==> final(self)@ == old(
                self,
            )@.subrange(1, old(self)@.len() as int).push(bytes@),
            cache_contains(final(self)@, bytes@),
    {
        if self.contains(bytes) {
            return false;
        }
        if self.elems.len() == self.max_capacity {
            self.elems.remove(0);
            proof {
                assert(self@ =~= old(self)@.subrange(1, old(self)@.len() as int));
            }
        }
        let ghost mid = self@;
        self.elems.push(copy_bytes(bytes));
        proof {
            assert(self@ =~= mid.push(bytes@));
            assert(self@[self@.len() - 1] == bytes@);
        }
        true
    }
}

} // verus!
