//! The transaction requester.
//!
//! The requester drains the priority queue of wanted transactions.  An
//! entry whose hash is a solid entry point or already stored is discarded;
//! otherwise the hash is recorded in the process-wide requested map (the
//! ingest path uses it to detect arrivals) and a transaction request is
//! enqueued for one uniformly chosen handshaked peer.  With no handshaked
//! peers the entry is dropped untouched.

use vstd::prelude::*;
use rand::Rng;
use rand::SeedableRng;
use crate::alist::{alist_has, alist_index, lemma_alist_at};
use crate::message::TransactionRequest;
use crate::pqueue::TransactionRequesterWorkerEntry;
use crate::sender::SenderRegistry;
use crate::tangle::Tangle;

verus! {

/// The random generator state the requester draws peers with.
#[verifier::external_type_specification]
#[verifier::external_body]
pub struct ExLcg64Xsh32(rand_pcg::Lcg64Xsh32);

/// Relies on rand_pcg's `SeedableRng::seed_from_u64`: builds a generator
/// deterministically from a 64-bit seed; never fails.
#[verifier::external_body]
fn pcg32_from_seed(seed: u64) -> (r: rand_pcg::Pcg32) {
    rand_pcg::Pcg32::seed_from_u64(seed)
}

/// Relies on rand's `Rng::gen_range`: returns a uniformly distributed
/// index in `[0, n)`; panics only when the range is empty, which the
/// precondition rules out.  Which index comes back depends on the
/// generator state, so nothing more is promised.
#[verifier::external_body]
fn gen_index(rng: &mut rand_pcg::Pcg32, n: usize) -> (r: usize)
    requires
        n > 0,
    ensures
        r < n,
{
    rng.gen_range(0, n)
}

/// The process-wide map from requested transaction hash to the milestone
/// index it was requested for.
pub struct Requested {
    entries: Vec<(crate::hash::Hash, u32)>,
}

impl Requested {
    /// The entries as an association list, in request order.
    pub closed spec fn entries_seq(&self) -> Seq<(crate::hash::Hash, u32)> {
        self.entries@
    }

    /// Whether `h` is currently requested.
    pub open spec fn spec_contains(&self, h: Seq<u8>) -> bool {
        alist_has(self.entries_seq(), h)
    }

    /// The milestone index `h` was requested for.
    pub open spec fn index_of(&self, h: Seq<u8>) -> u32 {
        self.entries_seq()[alist_index(self.entries_seq(), h)].1
    }

    /// Hashes are requested at most once.
    pub open spec fn wf(&self) -> bool {
        forall|i: int, j: int|
            0 <= i < j < self.entries_seq().len() ==> (#[trigger] self.entries_seq()[i]).0@ != (
            #[trigger] self.entries_seq()[j]).0@
    }

    /// Creates an empty requested map.
    pub fn new() -> (r: Requested)
        ensures
            r.wf(),
            r.entries_seq().len() == 0,
    {
        Requested { entries: Vec::new() }
    }

    /// Whether no transaction is currently requested.
    pub fn is_empty(&self) -> (r: bool)
        ensures
            r <==> self.entries_seq().len() == 0,
    {
        self.entries.len() == 0
    }

    /// Number of requested transactions.
    pub fn len(&self) -> (r: usize)
        ensures
            r == self.entries_seq().len(),
    {
        self.entries.len()
    }

    /// Finds the entry position of `h`.
    fn find(&self, h: &crate::hash::Hash) -> (r: Option<usize>)
        ensures
            r is Some <==> self.spec_contains(h@),
            r matches Some(i) ==> i < self.entries_seq().len() && self.entries_seq()[
                i as int].0@ == h@,
    {
        let n = self.entries.len();
        let mut i: usize = 0;
        while i < n
            invariant
                n == self.entries_seq().len(),
                i <= n,
                forall|j: int| 0 <= j < i ==> (#[trigger] self.entries_seq()[j]).0@ != h@,
            decreases n - i,
        {
            if self.entries[i].0 == *h {
                proof {
                    assert(self.entries_seq()[i as int].0@ == h@);
                }
                return Some(i);
            }
            i += 1;
        }
        None
    }

    /// Whether `h` is currently requested.
    pub fn contains(&self, h: &crate::hash::Hash) -> (r: bool)
        ensures
            r == self.spec_contains(h@),
    {
        self.find(h).is_some()
    }

    /// Records that `h` was requested for milestone `index`; a second
    /// request of the same hash updates the index.
    pub fn insert(&mut self, h: crate::hash::Hash, index: u32)
        requires
            old(self).wf(),
            h.wf(),
        ensures
            final(self).wf(),
            final(self).spec_contains(h@),
            final(self).index_of(h@) == index,
            forall|k: Seq<u8>|
                k != h@ ==> (final(self).spec_contains(k) <==> old(self).spec_contains(k)),
            forall|k: Seq<u8>|
                k != h@ && old(self).spec_contains(k) ==> #[trigger] final(self).index_of(k)
                    == old(self).index_of(k),
    {
        let ghost old_seq = self.entries_seq();
        match self.find(&h) {
            Some(i) => {
                let elem = vstd::std_specs::vec::vec_index_mut(&mut self.entries, i);
                *elem = (h, index);
                proof {
                    let s_new = self.entries_seq();
                    let ii = i as int;
                    assert(s_new == old_seq.update(ii, s_new[ii]));
                    assert(s_new[ii].0@ == old_seq[ii].0@);
                    assert(forall|j: int|
                        0 <= j < s_new.len() ==> (#[trigger] s_new[j]).0@ == old_seq[j].0@);
                    assert(self.wf());
                    lemma_alist_at(s_new, ii);
                    assert forall|k: Seq<u8>|
                        k != h@ && old(self).spec_contains(k) implies #[trigger] final(self).index_of(k) == old(self).index_of(k) && final(self).spec_contains(k) by {
                        let j = alist_index(old_seq, k);
                        lemma_alist_at(old_seq, j);
                        lemma_alist_at(s_new, j);
                        assert(s_new[j] == old_seq[j]);
                    }
                    assert forall|k: Seq<u8>|
                        k != h@ && old(self).spec_contains(k) implies #[trigger] self.spec_contains(
                        k,
                    ) by {
                        let j = alist_index(old_seq, k);
                        lemma_alist_at(old_seq, j);
                        assert(s_new[j].0@ == k);
                    }
                    assert forall|k: Seq<u8>| k != h@ && self.spec_contains(k) implies old(self).spec_contains(k) by {
                        let j = alist_index(s_new, k);
                        assert(old_seq[j].0@ == k);
                    }
                }
            },
            None => {
                self.entries.push((h, index));
                proof {
                    let s_new = self.entries_seq();
                    let m = s_new.len() - 1;
                    assert(s_new[m].0@ == h@);
                    assert(forall|j: int| 0 <= j < m ==> (#[trigger] s_new[j]) == old_seq[j]);
                    assert(self.wf());
                    lemma_alist_at(s_new, m);
                    assert forall|k: Seq<u8>|
                        k != h@ && old(self).spec_contains(k) implies #[trigger] final(self).index_of(k) == old(self).index_of(k) && final(self).spec_contains(k) by {
                        let j = alist_index(old_seq, k);
                        lemma_alist_at(old_seq, j);
                        lemma_alist_at(s_new, j);
                        assert(s_new[j] == old_seq[j]);
                    }
                    assert forall|k: Seq<u8>|
                        k != h@ && old(self).spec_contains(k) implies #[trigger] self.spec_contains(
                        k,
                    ) by {
                        let j = alist_index(old_seq, k);
                        lemma_alist_at(old_seq, j);
                        assert(s_new[j].0@ == k);
                    }
                    assert forall|k: Seq<u8>| k != h@ && self.spec_contains(k) implies old(self).spec_contains(k) by {
                        let j = alist_index(s_new, k);
                        assert(j < m);
                        assert(old_seq[j].0@ == k);
                    }
                }
            },
        }
    }

    /// Removes and returns the entry of `h`, if one is recorded.
    pub fn remove(&mut self, h: &crate::hash::Hash) -> (r: Option<(crate::hash::Hash, u32)>)
        requires
            old(self).wf(),
        ensures
            final(self).wf(),
            r is Some <==> old(self).spec_contains(h@),
            r matches Some(p) ==> p.0@ == h@ && p.1 == old(self).index_of(h@),
            !final(self).spec_contains(h@),
            forall|k: Seq<u8>|
                k != h@ ==> (final(self).spec_contains(k) <==> old(self).spec_contains(k)),
            forall|k: Seq<u8>|
                k != h@ && old(self).spec_contains(k) ==> #[trigger] final(self).index_of(k)
                    == old(self).index_of(k),
            r is None ==> final(self).entries_seq() == old(self).entries_seq(),
    {
        let ghost old_seq = self.entries_seq();
        match self.find(h) {
            Some(i) => {
                proof {
                    lemma_alist_at(old_seq, i as int);
                }
                let p = self.entries.remove(i);
                proof {
                    let s_new = self.entries_seq();
                    let ii = i as int;
                    assert(s_new == old_seq.remove(ii));
                    assert(forall|j: int| 0 <= j < ii ==> (#[trigger] s_new[j]) == old_seq[j]);
                    assert(forall|j: int|
                        ii <= j < s_new.len() ==> (#[trigger] s_new[j]) == old_seq[j + 1]);
                    assert(self.wf());
                    assert forall|k: Seq<u8>|
                        k != h@ && old(self).spec_contains(k) implies #[trigger] final(self).index_of(k) == old(self).index_of(k) && final(self).spec_contains(k) by {
                        let j = alist_index(old_seq, k);
                        lemma_alist_at(old_seq, j);
                        if j < ii {
                            assert(s_new[j] == old_seq[j]);
                            lemma_alist_at(s_new, j);
                        } else {
                            assert(j != ii);
                            assert(s_new[j - 1] == old_seq[j]);
                            lemma_alist_at(s_new, j - 1);
                        }
                    }
                    assert forall|k: Seq<u8>|
                        k != h@ && old(self).spec_contains(k) implies #[trigger] self.spec_contains(
                        k,
                    ) by {
                        let j = alist_index(old_seq, k);
                        lemma_alist_at(old_seq, j);
                        if j < ii {
                            assert(s_new[j].0@ == k);
                        } else {
                            assert(j != ii);
                            assert(s_new[j - 1].0@ == k);
                        }
                    }
                    assert forall|k: Seq<u8>| self.spec_contains(k) implies k != h@ && old(self).spec_contains(k) by {
                        let j = alist_index(s_new, k);
                        if j < ii {
                            assert(old_seq[j].0@ == k);
                            assert(old_seq[j].0@ != old_seq[ii].0@);
                        } else {
                            assert(old_seq[j + 1].0@ == k);
                            assert(old_seq[ii].0@ != old_seq[j + 1].0@);
                        }
                    }
                }
                Some(p)
            },
            None => None,
        }
    }
}

/// The worker that turns wanted hashes into transaction requests on the
/// wire.
pub struct TransactionRequesterWorker {
    rng: rand_pcg::Pcg32,
}

impl TransactionRequesterWorker {
    /// Creates a worker whose peer choice is driven by the given seed.
    pub fn new(seed: u64) -> TransactionRequesterWorker {
        TransactionRequesterWorker { rng: pcg32_from_seed(seed) }
    }

    /// Records the request and enqueues a transaction-request frame for
    /// one uniformly chosen handshaked peer.  With no handshaked peers
    /// nothing happens: the queue entry is dropped and the requested map
    /// is left unchanged.  Returns the endpoint the request went to.
    pub fn process_request(
        &mut self,
        requested: &mut Requested,
        registry: &mut SenderRegistry,
        hash: &crate::hash::Hash,
        index: u32,
    ) -> (r: Option<u64>)
        requires
            old(requested).wf(),
            old(registry).wf(),
            hash.wf(),
        ensures
            final(requested).wf(),
            final(registry).wf(),
            r is None <==> old(registry).contexts_seq().len() == 0,
            old(registry).contexts_seq().len() == 0 ==> final(requested).entries_seq() == old(requested).entries_seq() && final(registry).contexts_seq() == old(registry).contexts_seq(),
            old(registry).contexts_seq().len() > 0 ==> final(requested).spec_contains(hash@)
                && final(requested).index_of(hash@) == index,
            r matches Some(epid) ==> old(registry).has_peer(epid) && final(registry).transaction_request_queue(epid) == old(registry).transaction_request_queue(
                epid,
            ).push(crate::message::spec_frame(0x03, hash@)),
            forall|e: u64| final(registry).has_peer(e) <==> old(registry).has_peer(e),
            forall|e: u64|
                (r matches Some(epid) ==> e != epid) && old(registry).has_peer(e)
                    ==> #[trigger] final(registry).context_of(e) == old(registry).context_of(e),
    {
        if registry.peer_count() == 0 {
            return None;
        }
        requested.insert(hash.clone(), index);
        let peers = registry.peers();
        let pick = gen_index(&mut self.rng, peers.len());
        let epid = peers[pick];
        let message = TransactionRequest::new(hash.as_bytes());
        registry.send_transaction_request(epid, message);
        Some(epid)
    }

    /// Handles one entry popped from the requester queue: an entry whose
    /// hash is a solid entry point or already stored is discarded without
    /// touching anything; any other entry is processed as a request.
    pub fn handle_entry(
        &mut self,
        tangle: &Tangle,
        requested: &mut Requested,
        registry: &mut SenderRegistry,
        entry: &TransactionRequesterWorkerEntry,
    ) -> (r: Option<u64>)
        requires
            tangle.wf(),
            old(requested).wf(),
            old(registry).wf(),
            entry.0.wf(),
        ensures
            final(requested).wf(),
            final(registry).wf(),
            tangle.is_sep(entry.0@) || tangle.contains_tx(entry.0@) ==> final(requested).entries_seq() == old(requested).entries_seq() && final(registry).contexts_seq()
                == old(registry).contexts_seq() && r is None,
            !(tangle.is_sep(entry.0@) || tangle.contains_tx(entry.0@)) ==> {
                &&& (r is None <==> old(registry).contexts_seq().len() == 0)
                &&& (old(registry).contexts_seq().len() == 0 ==> final(requested).entries_seq() == old(requested).entries_seq() && final(registry).contexts_seq() == old(registry).contexts_seq())
                &&& (old(registry).contexts_seq().len() > 0 ==> final(requested).spec_contains(entry.0@) && final(requested).index_of(entry.0@) == entry.1)
                &&& (r matches Some(epid) ==> old(registry).has_peer(epid) && final(registry).transaction_request_queue(epid) == old(registry).transaction_request_queue(
                    epid,
                ).push(crate::message::spec_frame(0x03, entry.0@)))
            },
    {
        if tangle.is_solid_entry_point(&entry.0) || tangle.contains_transaction(&entry.0) {
            return None;
        }
        self.process_request(requested, registry, &entry.0, entry.1)
    }
}

} // verus!
