//! The transaction ingest pipeline.
//!
//! A received broadcast runs through: dedup against the ingress cache,
//! uncompression to the fixed 1604-byte form, unpacking into 8019 trits,
//! building the transaction, hashing (done outside the library by the
//! sponge, on the trit string this pipeline hands out), the proof-of-work
//! gate, storage in the tangle, solidification triggers, and milestone
//! candidacy.  The pipeline is split around the external digest: the
//! first stage yields the trit string to hash, the second stage takes the
//! digest and finishes the work.

use vstd::prelude::*;
use crate::cache::{cache_contains, TinyHashCache};
use crate::compression::{spec_uncompress, uncompress_transaction_bytes};
use crate::message::TransactionBroadcast;
use crate::requester::Requested;
use crate::sender::SenderRegistry;
use crate::t5b1::t5b1_bytes_to_trits;
use crate::tangle::{filter_matches, Tangle, TxFilter};
use crate::transaction::{
    from_trits_err, from_trits_ok, parsed_from, tx_eq, Transaction, TransactionError,
};
use crate::trits::{is_valid_t5b1_byte, trit_at};
use crate::hash::spec_weight;

verus! {

/// Why the ingest pipeline dropped a broadcast.
#[derive(Debug, PartialEq, Eq, Structural)]
pub enum TransactionWorkerError {
    /// The same bytes were received before and are still in the cache.
    Duplicate,
    /// A byte of the uncompressed blob is outside the packed-trit range.
    InvalidPackedBytes,
    /// The trits do not build a transaction.
    InvalidTransaction(TransactionError),
    /// The hash has fewer trailing zero trits than the configured minimum
    /// weight magnitude.
    InsufficientWeight,
    /// The tangle already stores a transaction under this hash.
    AlreadyStored,
}

/// What the second ingest stage decided.
pub struct IngestOutcome {
    /// Milestone solidification should be triggered: the tangle is not
    /// synced and nothing is currently requested.
    pub trigger_milestone_solidification: bool,
    /// The transaction had been requested: trigger its solidification for
    /// this milestone index instead of re-broadcasting.
    pub solidify: Option<(crate::hash::Hash, u32)>,
    /// The transaction arrived unrequested and was re-broadcast to every
    /// peer except its sender.
    pub broadcast: bool,
    /// The tail handed to milestone validation.
    pub milestone_tail: Option<crate::hash::Hash>,
}

/// The trit string denoted by a compressed broadcast body.
pub open spec fn spec_broadcast_trits(blob: Seq<u8>) -> Seq<i8> {
    Seq::new(8019, |i: int| trit_at(spec_uncompress(blob), i) as i8)
}

/// The uncompressed bytes of a broadcast body are all valid packed-trit
/// bytes.
pub open spec fn spec_broadcast_bytes_valid(blob: Seq<u8>) -> bool {
    forall|i: int|
        0 <= i < spec_uncompress(blob).len() ==> is_valid_t5b1_byte(
            #[trigger] spec_uncompress(blob)[i],
        )
}

/// The ingest worker: the ingress cache and the pipeline around it.
pub struct TransactionWorker {
    cache: TinyHashCache,
}

impl TransactionWorker {
    /// The worker's cache is well formed.
    pub closed spec fn wf(&self) -> bool {
        self.cache.wf()
    }

    /// The blobs currently held by the ingress cache.
    pub closed spec fn cache_view(&self) -> Seq<Seq<u8>> {
        self.cache@
    }

    /// Creates a worker whose ingress cache holds at most `cache_size`
    /// blobs.
    pub fn new(cache_size: usize) -> (r: TransactionWorker)
        requires
            cache_size >= 1,
        ensures
            r.wf(),
            r.cache_view() == Seq::<Seq<u8>>::empty(),
    {
        TransactionWorker { cache: TinyHashCache::new(cache_size) }
    }

    /// First ingest stage: dedup, uncompress and unpack the broadcast,
    /// and build the transaction.  Returns the full trit string (the
    /// input of the external digest) together with the transaction.
    pub fn decode_transaction_broadcast(&mut self, transaction_broadcast: &TransactionBroadcast)
        -> (r: Result<(Vec<i8>, Transaction), TransactionWorkerError>)
        requires
            old(self).wf(),
            292 <= transaction_broadcast.transaction@.len() <= 1604,
        ensures
            final(self).wf(),
            ({
                let blob = transaction_broadcast.transaction@;
                let dup = cache_contains(old(self).cache_view(), blob);
                &&& (dup ==> r == Result::<(Vec<i8>, Transaction), TransactionWorkerError>::Err(
                    TransactionWorkerError::Duplicate,
                ) && final(self).cache_view() == old(self).cache_view())
                &&& (!dup ==> cache_contains(final(self).cache_view(), blob))
                &&& (r is Ok <==> !dup && spec_broadcast_bytes_valid(blob) && from_trits_ok(
                    spec_broadcast_trits(blob),
                ))
                &&& (r matches Ok(p) ==> p.0@ == spec_broadcast_trits(blob) && parsed_from(
                    p.1,
                    spec_broadcast_trits(blob),
                ))
                &&& (!dup && !spec_broadcast_bytes_valid(blob) ==> r == Result::<
                    (Vec<i8>, Transaction),
                    TransactionWorkerError,
                >::Err(TransactionWorkerError::InvalidPackedBytes))
                &&& (!dup && spec_broadcast_bytes_valid(blob) && !from_trits_ok(
                    spec_broadcast_trits(blob),
                ) ==> r == Result::<(Vec<i8>, Transaction), TransactionWorkerError>::Err(
                    TransactionWorkerError::InvalidTransaction(
                        from_trits_err(spec_broadcast_trits(blob)),
                    ),
                ))
            }),
    {
        if !self.cache.insert(&transaction_broadcast.transaction) {
            return Err(TransactionWorkerError::Duplicate);
        }
        let uncompressed = uncompress_transaction_bytes(&transaction_broadcast.transaction);
        let trits = match t5b1_bytes_to_trits(&uncompressed, 8019) {
            Some(trits) => trits,
            None => {
                return Err(TransactionWorkerError::InvalidPackedBytes);
            },
        };
        proof {
            assert(trits@ =~= spec_broadcast_trits(transaction_broadcast.transaction@));
        }
        match Transaction::from_trits(&trits) {
            Ok(transaction) => Ok((trits, transaction)),
            Err(e) => Err(TransactionWorkerError::InvalidTransaction(e)),
        }
    }

    /// Second ingest stage, run on the digest of the trit string: the
    /// proof-of-work gate, storage, solidification triggers, re-broadcast
    /// and milestone candidacy.  The tail of a milestone candidate is
    /// appended to the validator queue.
    pub fn store_transaction(
        tangle: &mut Tangle,
        requested: &mut Requested,
        registry: &mut SenderRegistry,
        validator_queue: &mut Vec<crate::hash::Hash>,
        from: u64,
        transaction_broadcast: &TransactionBroadcast,
        transaction: Transaction,
        hash: crate::hash::Hash,
        mwm: u8,
        coordinator_address: &crate::hash::Hash,
        null_address: &crate::hash::Hash,
    ) -> (r: Result<IngestOutcome, TransactionWorkerError>)
        requires
            old(tangle).wf(),
            old(requested).wf(),
            old(registry).wf(),
            transaction.wf(),
            hash.wf(),
            transaction_broadcast.transaction@.len() <= 1604,
        ensures
            final(tangle).wf(),
            final(requested).wf(),
            final(registry).wf(),
            spec_weight(hash@) < mwm ==> r == Result::<
                IngestOutcome,
                TransactionWorkerError,
            >::Err(TransactionWorkerError::InsufficientWeight) && *final(tangle) == *old(tangle)
                && final(requested).entries_seq() == old(requested).entries_seq() && final(registry).contexts_seq() == old(registry).contexts_seq() && final(validator_queue)@ == old(validator_queue)@,
            spec_weight(hash@) >= mwm && old(tangle).contains_tx(hash@) ==> r == Result::<
                IngestOutcome,
                TransactionWorkerError,
            >::Err(TransactionWorkerError::AlreadyStored) && final(tangle).vertices_seq() == old(tangle).vertices_seq() && final(requested).entries_seq() == old(requested).entries_seq()
                && final(registry).contexts_seq() == old(registry).contexts_seq() && final(validator_queue)@ == old(validator_queue)@,
            r is Ok <==> spec_weight(hash@) >= mwm && !old(tangle).contains_tx(hash@),
            r matches Ok(outcome) ==> {
                let was_requested = old(requested).spec_contains(hash@);
                &&& final(tangle).contains_tx(hash@)
                &&& forall|k: Seq<u8>|
                    old(tangle).contains_tx(k) ==> #[trigger] final(tangle).contains_tx(k)
                &&& forall|k: Seq<u8>|
                    k != hash@ && old(tangle).contains_tx(k) ==> #[trigger] final(tangle).vertex_of(k) == old(tangle).vertex_of(k)
                &&& final(tangle).tx_of(hash@) == transaction
                &&& final(tangle).vertices_seq().len() == old(tangle).vertices_seq().len() + 1
                &&& outcome.trigger_milestone_solidification == (old(tangle).spec_solid_milestone_index() != old(tangle).spec_last_milestone_index() && old(requested).entries_seq().len() == 0)
                &&& (outcome.solidify matches Some(p) ==> was_requested && p.0@ == hash@ && p.1
                    == old(requested).index_of(hash@))
                &&& (outcome.solidify is Some <==> was_requested)
                &&& !final(requested).spec_contains(hash@)
                &&& outcome.broadcast == !was_requested
                &&& (was_requested ==> final(registry).contexts_seq() == old(registry).contexts_seq())
                &&& (!was_requested ==> forall|e: u64|
                    old(registry).has_peer(e) && e != from ==> #[trigger] final(registry).transaction_broadcast_queue(e) == old(registry).transaction_broadcast_queue(
                        e,
                    ).push(
                        crate::message::spec_frame(0x04, transaction_broadcast.transaction@),
                    ))
                &&& (outcome.milestone_tail is Some ==> transaction.address@
                    == coordinator_address@ || transaction.address@ == null_address@)
                &&& (outcome.milestone_tail matches Some(t) ==> final(tangle).contains_tx(t@)
                    && final(tangle).tx_of(t@).index == 0 && (t@ == hash@ || final(tangle).tx_of(t@).bundle@ == transaction.bundle@))
                &&& (transaction.index == 0 && (transaction.address@ == coordinator_address@
                    || transaction.address@ == null_address@) ==> (outcome.milestone_tail matches
                Some(t) && t@ == hash@))
                &&& (outcome.milestone_tail matches Some(t) ==> final(validator_queue)@.len()
                    == old(validator_queue)@.len() + 1 && final(validator_queue)@.last()@ == t@
                    && final(validator_queue)@.subrange(0, old(validator_queue)@.len() as int)
                    == old(validator_queue)@)
                &&& (outcome.milestone_tail is None ==> final(validator_queue)@ == old(validator_queue)@)
            },
    {
        if hash.weight() < mwm {
            return Err(TransactionWorkerError::InsufficientWeight);
        }
        let ghost tangle_pre = *tangle;
        let not_synced = !tangle.is_synced();
        let requested_empty = requested.is_empty();
        let tx_address = transaction.address.clone();
        let tx_bundle = transaction.bundle.clone();
        let tx_is_tail = transaction.is_tail();
        let stored = tangle.insert_transaction(transaction, hash.clone());
        let stored_tx = match stored {
            Some(t) => t,
            None => {
                return Err(TransactionWorkerError::AlreadyStored);
            },
        };
        let trigger_milestone_solidification = not_synced && requested_empty;
        let removed = requested.remove(&hash);
        let (solidify, broadcast) = match removed {
            Some(entry) => (Some(entry), false),
            None => {
                registry.broadcast_transaction_message(
                    Some(from),
                    TransactionBroadcast {
                        transaction: crate::hash::copy_bytes(&transaction_broadcast.transaction),
                    },
                );
                (None, true)
            },
        };
        let candidate = tx_address == *coordinator_address || tx_address == *null_address;
        let milestone_tail: Option<crate::hash::Hash> = if candidate {
            if tx_is_tail {
                Some(hash.clone())
            } else {
                let chain = tangle.trunk_walk_approvers(
                    &hash,
                    &TxFilter::SameBundle(tx_bundle),
                );
                if chain.len() > 0 {
                    let last = &chain[chain.len() - 1];
                    if last.0.is_tail() {
                        proof {
                            assert(tangle.contains_tx(last.1@));
                            assert(tx_eq(last.0, tangle.tx_of(last.1@)));
                            assert(filter_matches(
                                &TxFilter::SameBundle(stored_tx.bundle),
                                &last.0,
                            ));
                        }
                        Some(last.1.clone())
                    } else {
                        None
                    }
                } else {
                    None
                }
            }
        } else {
            None
        };
        match &milestone_tail {
            Some(t) => {
                let ghost queue_pre = validator_queue@;
                validator_queue.push(t.clone());
                proof {
                    assert(validator_queue@.subrange(0, queue_pre.len() as int) =~= queue_pre);
                }
            },
            None => {},
        }
        proof {
            assert forall|k: Seq<u8>| old(tangle).contains_tx(k) implies #[trigger]
                tangle.contains_tx(k) by {}
            assert forall|k: Seq<u8>|
                k != hash@ && old(tangle).contains_tx(k) implies #[trigger] tangle.vertex_of(k)
                == old(tangle).vertex_of(k) by {
                assert(tangle.contains_tx(k));
            }
        }
        Ok(
            IngestOutcome {
                trigger_milestone_solidification,
                solidify,
                broadcast,
                milestone_tail,
            },
        )
    }
}

} // verus!
