//! The peer send fabric.
//!
//! For every handshaked peer the protocol layer installs a context with one
//! outbound queue per message kind.  Point-to-point sends enqueue a framed
//! message on one peer's queue; a broadcast enqueues a copy on every
//! peer's queue, optionally excluding the peer a message came from.  A
//! missing peer is silently ignored: it may have disconnected.  Dedicated
//! tasks outside the library drain the queues into the network.

use vstd::prelude::*;
use crate::hash::copy_bytes;
use crate::message::{
    spec_frame, spec_u32_be, Heartbeat, MilestoneRequest, TransactionBroadcast, TransactionRequest,
};

verus! {

/// The outbound queues of one peer, one per message kind, each holding
/// fully framed messages in send order.
pub struct SenderContext {
    pub milestone_request: Vec<Vec<u8>>,
    pub transaction_broadcast: Vec<Vec<u8>>,
    pub transaction_request: Vec<Vec<u8>>,
    pub heartbeat: Vec<Vec<u8>>,
}

/// The frames of a queue, oldest first.
pub open spec fn queue_frames(q: Seq<Vec<u8>>) -> Seq<Seq<u8>> {
    q.map_values(|v: Vec<u8>| v@)
}

impl SenderContext {
    /// Creates a context with four empty queues.
    pub fn new() -> (r: SenderContext)
        ensures
            r.milestone_request@.len() == 0,
            r.transaction_broadcast@.len() == 0,
            r.transaction_request@.len() == 0,
            r.heartbeat@.len() == 0,
    {
        SenderContext {
            milestone_request: Vec::new(),
            transaction_broadcast: Vec::new(),
            transaction_request: Vec::new(),
            heartbeat: Vec::new(),
        }
    }
}

/// A copy of a frame queue.
fn copy_frames(q: &Vec<Vec<u8>>) -> (r: Vec<Vec<u8>>)
    ensures
        queue_frames(r@) == queue_frames(q@),
{
    let n = q.len();
    let mut out: Vec<Vec<u8>> = Vec::new();
    let mut i: usize = 0;
    while i < n
        invariant
            n == q@.len(),
            i <= n,
            out@.len() == i,
            forall|j: int| 0 <= j < i ==> (#[trigger] out@[j])@ == q@[j]@,
        decreases n - i,
    {
        out.push(copy_bytes(&q[i]));
        i += 1;
    }
    proof {
        assert(queue_frames(out@) =~= queue_frames(q@));
    }
    out
}

/// The process-wide mapping from endpoint id to sender context.
pub struct SenderRegistry {
    contexts: Vec<(u64, SenderContext)>,
}

impl SenderRegistry {
    /// The contexts as an association list, in handshake order.
    pub closed spec fn contexts_seq(&self) -> Seq<(u64, SenderContext)> {
        self.contexts@
    }

    /// Whether a peer is registered.
    pub open spec fn has_peer(&self, epid: u64) -> bool {
        exists|i: int| 0 <= i < self.contexts_seq().len() && (#[trigger] self.contexts_seq()[i]).0
            == epid
    }

    /// The position of a peer in the context list.
    pub open spec fn peer_index(&self, epid: u64) -> int {
        choose|i: int|
            0 <= i < self.contexts_seq().len() && (#[trigger] self.contexts_seq()[i]).0 == epid
    }

    /// The context of a peer.
    pub open spec fn context_of(&self, epid: u64) -> SenderContext {
        self.contexts_seq()[self.peer_index(epid)].1
    }

    /// The framed transaction requests queued for a peer.
    pub open spec fn transaction_request_queue(&self, epid: u64) -> Seq<Seq<u8>> {
        queue_frames(self.context_of(epid).transaction_request@)
    }

    /// The framed transaction broadcasts queued for a peer.
    pub open spec fn transaction_broadcast_queue(&self, epid: u64) -> Seq<Seq<u8>> {
        queue_frames(self.context_of(epid).transaction_broadcast@)
    }

    /// The framed milestone requests queued for a peer.
    pub open spec fn milestone_request_queue(&self, epid: u64) -> Seq<Seq<u8>> {
        queue_frames(self.context_of(epid).milestone_request@)
    }

    /// The framed heartbeats queued for a peer.
    pub open spec fn heartbeat_queue(&self, epid: u64) -> Seq<Seq<u8>> {
        queue_frames(self.context_of(epid).heartbeat@)
    }

    /// Peers are registered at most once.
    pub open spec fn wf(&self) -> bool {
        forall|i: int, j: int|
            0 <= i < j < self.contexts_seq().len() ==> (#[trigger] self.contexts_seq()[i]).0 != (
            #[trigger] self.contexts_seq()[j]).0
    }

    /// Creates a registry with no peers.
    pub fn new() -> (r: SenderRegistry)
        ensures
            r.wf(),
            r.contexts_seq().len() == 0,
    {
        SenderRegistry { contexts: Vec::new() }
    }

    /// Number of registered peers.
    pub fn peer_count(&self) -> (r: usize)
        ensures
            r == self.contexts_seq().len(),
    {
        self.contexts.len()
    }

    /// The endpoint ids of the registered peers, in handshake order.
    pub fn peers(&self) -> (r: Vec<u64>)
        ensures
            r@.len() == self.contexts_seq().len(),
            forall|i: int|
                0 <= i < r@.len() ==> #[trigger] r@[i] == self.contexts_seq()[i].0,
            forall|i: int| 0 <= i < r@.len() ==> self.has_peer(#[trigger] r@[i]),
    {
        let n = self.contexts.len();
        let mut out: Vec<u64> = Vec::new();
        let mut i: usize = 0;
        while i < n
            invariant
                n == self.contexts_seq().len(),
                i <= n,
                out@.len() == i,
                forall|j: int| 0 <= j < i ==> #[trigger] out@[j] == self.contexts_seq()[j].0,
            decreases n - i,
        {
            out.push(self.contexts[i].0);
            i += 1;
        }
        proof {
            assert forall|i2: int| 0 <= i2 < out@.len() implies self.has_peer(
                #[trigger] out@[i2],
            ) by {
                assert(self.contexts_seq()[i2].0 == out@[i2]);
            }
        }
        out
    }

    /// Finds the context position of a peer.
    fn find_peer(&self, epid: u64) -> (r: Option<usize>)
        ensures
            r is Some <==> self.has_peer(epid),
            r matches Some(i) ==> i < self.contexts_seq().len() && self.contexts_seq()[
                i as int].0 == epid,
    {
        let n = self.contexts.len();
        let mut i: usize = 0;
        while i < n
            invariant
                n == self.contexts_seq().len(),
                i <= n,
                forall|j: int| 0 <= j < i ==> (#[trigger] self.contexts_seq()[j]).0 != epid,
            decreases n - i,
        {
            if self.contexts[i].0 == epid {
                proof {
                    assert(self.contexts_seq()[i as int].0 == epid);
                }
                return Some(i);
            }
            i += 1;
        }
        None
    }

    /// Whether a peer is registered.
    pub fn contains_peer(&self, epid: u64) -> (r: bool)
        ensures
            r == self.has_peer(epid),
    {
        self.find_peer(epid).is_some()
    }

    /// Installs a fresh context for a newly handshaked peer; a second
    /// registration of the same endpoint is ignored.
    pub fn add_peer(&mut self, epid: u64)
        requires
            old(self).wf(),
        ensures
            final(self).wf(),
            final(self).has_peer(epid),
            forall|e: u64| e != epid ==> (final(self).has_peer(e) <==> old(self).has_peer(e)),
            forall|e: u64|
                e != epid && old(self).has_peer(e) ==> #[trigger] final(self).context_of(e) == old(self).context_of(e),
            !old(self).has_peer(epid) ==> final(self).transaction_request_queue(epid).len() == 0
                && final(self).transaction_broadcast_queue(epid).len() == 0 && final(self).milestone_request_queue(epid).len() == 0 && final(self).heartbeat_queue(
                epid,
            ).len() == 0,
            old(self).has_peer(epid) ==> final(self).contexts_seq() == old(self).contexts_seq(),
    {
        if self.contains_peer(epid) {
            return ;
        }
        let ghost old_seq = self.contexts_seq();
        self.contexts.push((epid, SenderContext::new()));
        proof {
            let s_new = self.contexts_seq();
            let m = s_new.len() - 1;
            assert(s_new[m].0 == epid);
            assert(forall|j: int| 0 <= j < m ==> (#[trigger] s_new[j]) == old_seq[j]);
            assert forall|j: int| 0 <= j < m implies (#[trigger] s_new[j]).0 != epid by {
                assert(old(self).contexts_seq()[j].0 != epid);
            }
            assert(self.wf());
            assert(self.peer_index(epid) == m);
            assert forall|e: u64| e != epid && old(self).has_peer(e) implies #[trigger] final(self).context_of(e) == old(self).context_of(e) by {
                let j = old(self).peer_index(e);
                assert(s_new[j].0 == e);
                assert(self.peer_index(e) == j);
            }
            assert forall|e: u64| e != epid && self.has_peer(e) implies old(self).has_peer(e) by {
                let j = choose|j: int|
                    0 <= j < s_new.len() && (#[trigger] s_new[j]).0 == e;
                assert(j < m);
                assert(old(self).contexts_seq()[j].0 == e);
            }
            assert forall|e: u64| old(self).has_peer(e) implies #[trigger] self.has_peer(e) by {
                let j = choose|j: int|
                    0 <= j < old_seq.len() && (#[trigger] old_seq[j]).0 == e;
                assert(s_new[j].0 == e);
            }
        }
    }

    /// Forgets the context of a disconnected peer.
    pub fn remove_peer(&mut self, epid: u64)
        requires
            old(self).wf(),
        ensures
            final(self).wf(),
            !final(self).has_peer(epid),
            forall|e: u64| e != epid ==> (final(self).has_peer(e) <==> old(self).has_peer(e)),
            forall|e: u64|
                e != epid && old(self).has_peer(e) ==> #[trigger] final(self).context_of(e) == old(self).context_of(e),
    {
        match self.find_peer(epid) {
            Some(i) => {
                let ghost old_seq = self.contexts_seq();
                self.contexts.remove(i);
                proof {
                    let s_new = self.contexts_seq();
                    let ii = i as int;
                    assert(s_new == old_seq.remove(ii));
                    assert(forall|j: int| 0 <= j < ii ==> (#[trigger] s_new[j]) == old_seq[j]);
                    assert(forall|j: int|
                        ii <= j < s_new.len() ==> (#[trigger] s_new[j]) == old_seq[j + 1]);
                    assert forall|e: u64|
                        e != epid && old(self).has_peer(e) implies #[trigger] final(self).context_of(e) == old(self).context_of(e) && final(self).has_peer(e) by {
                        let j = old(self).peer_index(e);
                        if j < ii {
                            assert(s_new[j].0 == e);
                            assert(self.peer_index(e) == j);
                        } else {
                            assert(j != ii);
                            assert(s_new[j - 1].0 == e);
                            assert(self.peer_index(e) == j - 1);
                        }
                    }
                    assert forall|e: u64| self.has_peer(e) implies e != epid && old(self).has_peer(e) by {
                        let j = choose|j2: int|
                            0 <= j2 < s_new.len() && (#[trigger] s_new[j2]).0 == e;
                        if j < ii {
                            assert(old(self).contexts_seq()[j].0 == e);
                            assert(old(self).contexts_seq()[j].0 != old(self).contexts_seq()[
                            ii].0);
                        } else {
                            assert(old(self).contexts_seq()[j + 1].0 == e);
                            assert(old(self).contexts_seq()[ii].0 != old(self).contexts_seq()[j
                                + 1].0);
                        }
                    }
                    assert forall|e: u64|
                        e != epid && old(self).has_peer(e) implies #[trigger] self.has_peer(
                        e,
                    ) by {
                        let j = choose|j2: int|
                            0 <= j2 < old_seq.len() && (#[trigger] old_seq[j2]).0 == e;
                        if j < ii {
                            assert(s_new[j].0 == e);
                        } else {
                            assert(j != ii);
                            assert(s_new[j - 1].0 == e);
                        }
                    }
                }
            },
            None => {},
        }
    }

    /// Enqueues a framed transaction request for one peer; an unknown
    /// peer is silently ignored.
    pub fn send_transaction_request(&mut self, epid: u64, message: TransactionRequest)
        requires
            old(self).wf(),
            message.hash@.len() == 49,
        ensures
            final(self).wf(),
            forall|e: u64| final(self).has_peer(e) <==> old(self).has_peer(e),
            old(self).has_peer(epid) ==> final(self).transaction_request_queue(epid) == old(self).transaction_request_queue(epid).push(spec_frame(0x03, message.hash@)),
            !old(self).has_peer(epid) ==> final(self).contexts_seq() == old(self).contexts_seq(),
            forall|e: u64|
                e != epid && old(self).has_peer(e) ==> #[trigger] final(self).context_of(e) == old(self).context_of(e),
            old(self).has_peer(epid) ==> final(self).context_of(epid).transaction_broadcast
                == old(self).context_of(epid).transaction_broadcast && final(self).context_of(
                epid,
            ).milestone_request == old(self).context_of(epid).milestone_request && final(self).context_of(epid).heartbeat == old(self).context_of(epid).heartbeat,
    {
        match self.find_peer(epid) {
            Some(i) => {
                let ghost old_seq = self.contexts@;
                let frame = message.into_full_bytes();
                let elem = vstd::std_specs::vec::vec_index_mut(&mut self.contexts, i);
                elem.1.transaction_request.push(frame);
                proof {
                    self.frame_push_lemma(old_seq, i as int, epid);
                }
            },
            None => {},
        }
    }

    /// Enqueues a framed milestone request for one peer; an unknown peer
    /// is silently ignored.
    pub fn send_milestone_request(&mut self, epid: u64, message: MilestoneRequest)
        requires
            old(self).wf(),
        ensures
            final(self).wf(),
            forall|e: u64| final(self).has_peer(e) <==> old(self).has_peer(e),
            old(self).has_peer(epid) ==> final(self).milestone_request_queue(epid) == old(self).milestone_request_queue(epid).push(spec_frame(0x02, spec_u32_be(message.index))),
            !old(self).has_peer(epid) ==> final(self).contexts_seq() == old(self).contexts_seq(),
            forall|e: u64|
                e != epid && old(self).has_peer(e) ==> #[trigger] final(self).context_of(e) == old(self).context_of(e),
    {
        match self.find_peer(epid) {
            Some(i) => {
                let ghost old_seq = self.contexts@;
                let frame = message.into_full_bytes();
                let elem = vstd::std_specs::vec::vec_index_mut(&mut self.contexts, i);
                elem.1.milestone_request.push(frame);
                proof {
                    self.frame_push_lemma(old_seq, i as int, epid);
                }
            },
            None => {},
        }
    }

    /// Enqueues a framed heartbeat for one peer; an unknown peer is
    /// silently ignored.
    pub fn send_heartbeat(&mut self, epid: u64, message: Heartbeat)
        requires
            old(self).wf(),
        ensures
            final(self).wf(),
            forall|e: u64| final(self).has_peer(e) <==> old(self).has_peer(e),
            old(self).has_peer(epid) ==> final(self).heartbeat_queue(epid) == old(self).heartbeat_queue(epid).push(
                spec_frame(
                    0x06,
                    spec_u32_be(message.solid_milestone_index) + spec_u32_be(
                        message.snapshot_milestone_index,
                    ),
                ),
            ),
            !old(self).has_peer(epid) ==> final(self).contexts_seq() == old(self).contexts_seq(),
            forall|e: u64|
                e != epid && old(self).has_peer(e) ==> #[trigger] final(self).context_of(e) == old(self).context_of(e),
    {
        match self.find_peer(epid) {
            Some(i) => {
                let ghost old_seq = self.contexts@;
                let frame = message.into_full_bytes();
                let elem = vstd::std_specs::vec::vec_index_mut(&mut self.contexts, i);
                elem.1.heartbeat.push(frame);
                proof {
                    self.frame_push_lemma(old_seq, i as int, epid);
                }
            },
            None => {},
        }
    }

    /// Enqueues a framed transaction broadcast for one peer; an unknown
    /// peer is silently ignored.
    pub fn send_transaction_broadcast(&mut self, epid: u64, message: TransactionBroadcast)
        requires
            old(self).wf(),
            message.transaction@.len() <= 1604,
        ensures
            final(self).wf(),
            forall|e: u64| final(self).has_peer(e) <==> old(self).has_peer(e),
            old(self).has_peer(epid) ==> final(self).transaction_broadcast_queue(epid) == old(self).transaction_broadcast_queue(epid).push(spec_frame(0x04, message.transaction@)),
            !old(self).has_peer(epid) ==> final(self).contexts_seq() == old(self).contexts_seq(),
            forall|e: u64|
                e != epid && old(self).has_peer(e) ==> #[trigger] final(self).context_of(e) == old(self).context_of(e),
    {
        match self.find_peer(epid) {
            Some(i) => {
                let ghost old_seq = self.contexts@;
                let frame = message.into_full_bytes();
                let elem = vstd::std_specs::vec::vec_index_mut(&mut self.contexts, i);
                elem.1.transaction_broadcast.push(frame);
                proof {
                    self.frame_push_lemma(old_seq, i as int, epid);
                }
            },
            None => {},
        }
    }

    /// Enqueues a copy of a framed transaction broadcast for every
    /// registered peer except `exclude`.
    pub fn broadcast_transaction_message(
        &mut self,
        exclude: Option<u64>,
        message: TransactionBroadcast,
    )
        requires
            old(self).wf(),
            message.transaction@.len() <= 1604,
        ensures
            final(self).wf(),
            forall|e: u64| final(self).has_peer(e) <==> old(self).has_peer(e),
            forall|e: u64|
                old(self).has_peer(e) && (exclude matches Some(x) ==> e != x)
                    ==> #[trigger] final(self).transaction_broadcast_queue(e) == old(self).transaction_broadcast_queue(e).push(spec_frame(0x04, message.transaction@)),
            forall|e: u64|
                old(self).has_peer(e) && exclude == Some(e) ==> #[trigger] final(self).context_of(
                    e,
                ) == old(self).context_of(e),
    {
        let epids = self.peers();
        let n = epids.len();
        let mut i: usize = 0;
        while i < n
            invariant
                self.wf(),
                n == epids@.len(),
                i <= n,
                n == old(self).contexts_seq().len(),
                forall|j: int| 0 <= j < n ==> #[trigger] epids@[j] == old(self).contexts_seq()[j].0,
                forall|e: u64| self.has_peer(e) <==> old(self).has_peer(e),
                message.transaction@.len() <= 1604,
                forall|j1: int, j2: int|
                    0 <= j1 < j2 < n ==> old(self).contexts_seq()[j1].0 != old(self).contexts_seq()[j2].0,
                forall|j: int|
                    0 <= j < i && (exclude matches Some(x) ==> epids@[j] != x)
                        ==> #[trigger] self.transaction_broadcast_queue(epids@[j]) == old(self).transaction_broadcast_queue(epids@[j]).push(
                        spec_frame(0x04, message.transaction@),
                    ),
                forall|j: int|
                    i <= j < n ==> #[trigger] self.context_of(epids@[j]) == old(self).context_of(
                        epids@[j],
                    ),
                forall|j: int|
                    0 <= j < i && exclude == Some(epids@[j]) ==> #[trigger] self.context_of(
                        epids@[j],
                    ) == old(self).context_of(epids@[j]),
            decreases n - i,
        {
            let epid = epids[i];
            let skip = match exclude {
                Some(x) => x == epid,
                None => false,
            };
            if !skip {
                let ghost mid = *self;
                self.send_transaction_broadcast(epid, TransactionBroadcast {
                    transaction: copy_bytes(&message.transaction),
                });
                proof {
                    assert(old(self).has_peer(epid)) by {
                        assert(old(self).contexts_seq()[i as int].0 == epid);
                    }
                    assert forall|j: int|
                        0 <= j < i + 1 && (exclude matches Some(x) ==> epids@[j] != x)
                            implies #[trigger] self.transaction_broadcast_queue(epids@[j]) == old(self).transaction_broadcast_queue(epids@[j]).push(
                        spec_frame(0x04, message.transaction@),
                    ) by {
                        if j < i as int {
                            if epids@[j] != epid {
                                assert(self.context_of(epids@[j]) == mid.context_of(epids@[j]));
                                assert(self.transaction_broadcast_queue(epids@[j])
                                    == mid.transaction_broadcast_queue(epids@[j]));
                            } else {
                                assert(old(self).contexts_seq()[j].0 == old(self).contexts_seq()[
                                i as int].0);
                            }
                        } else {
                            assert(mid.context_of(epids@[j]) == old(self).context_of(epids@[j]));
                            assert(mid.transaction_broadcast_queue(epid) == old(self).transaction_broadcast_queue(epid));
                            assert(self.transaction_broadcast_queue(epid)
                                == mid.transaction_broadcast_queue(epid).push(
                                spec_frame(0x04, message.transaction@),
                            ));
                        }
                    }
                    assert forall|j: int|
                        i + 1 <= j < n implies #[trigger] self.context_of(epids@[j]) == old(self).context_of(epids@[j]) by {
                        if epids@[j] != epid {
                            assert(self.context_of(epids@[j]) == mid.context_of(epids@[j]));
                        } else {
                            assert(old(self).contexts_seq()[j].0 == old(self).contexts_seq()[
                            i as int].0);
                        }
                    }
                    assert forall|j: int|
                        0 <= j < i + 1 && exclude == Some(epids@[j])
                            implies #[trigger] self.context_of(epids@[j]) == old(self).context_of(
                        epids@[j],
                    ) by {
                        assert(epids@[j] != epid);
                        assert(self.context_of(epids@[j]) == mid.context_of(epids@[j]));
                    }
                }
            }
            i += 1;
        }
        proof {
            assert forall|e: u64|
                old(self).has_peer(e) && (exclude matches Some(x) ==> e != x)
                    implies #[trigger] self.transaction_broadcast_queue(e) == old(self).transaction_broadcast_queue(e).push(spec_frame(0x04, message.transaction@)) by {
                let j = old(self).peer_index(e);
                assert(epids@[j] == e);
            }
            assert forall|e: u64|
                old(self).has_peer(e) && exclude == Some(e) implies #[trigger] self.context_of(e)
                == old(self).context_of(e) by {
                let j = old(self).peer_index(e);
                assert(epids@[j] == e);
            }
        }
    }

    /// A copy of the framed transaction requests queued for a peer; empty
    /// for an unknown peer.
    pub fn transaction_request_frames(&self, epid: u64) -> (r: Vec<Vec<u8>>)
        requires
            self.wf(),
        ensures
            self.has_peer(epid) ==> queue_frames(r@) == self.transaction_request_queue(epid),
            !self.has_peer(epid) ==> r@.len() == 0,
    {
        match self.find_peer(epid) {
            Some(i) => {
                proof {
                    let j = choose|j: int|
                        0 <= j < self.contexts_seq().len() && (#[trigger] self.contexts_seq()[
                        j]).0 == epid;
                    assert(j == i as int);
                }
                let r = copy_frames(&self.contexts[i].1.transaction_request);
                proof {
                    assert(queue_frames(r@) =~= self.transaction_request_queue(epid));
                }
                r
            },
            None => Vec::new(),
        }
    }

    /// A copy of the framed transaction broadcasts queued for a peer;
    /// empty for an unknown peer.
    pub fn transaction_broadcast_frames(&self, epid: u64) -> (r: Vec<Vec<u8>>)
        requires
            self.wf(),
        ensures
            self.has_peer(epid) ==> queue_frames(r@) == self.transaction_broadcast_queue(epid),
            !self.has_peer(epid) ==> r@.len() == 0,
    {
        match self.find_peer(epid) {
            Some(i) => {
                proof {
                    let j = choose|j: int|
                        0 <= j < self.contexts_seq().len() && (#[trigger] self.contexts_seq()[
                        j]).0 == epid;
                    assert(j == i as int);
                }
                let r = copy_frames(&self.contexts[i].1.transaction_broadcast);
                proof {
                    assert(queue_frames(r@) =~= self.transaction_broadcast_queue(epid));
                }
                r
            },
            None => Vec::new(),
        }
    }

    /// Pushing one frame onto one queue of peer `epid` changes nothing
    /// else: proved once, used by every send.
    proof fn frame_push_lemma(&self, old_seq: Seq<(u64, SenderContext)>, ii: int, epid: u64)
        requires
            0 <= ii < old_seq.len(),
            old_seq[ii].0 == epid,
            self.contexts_seq().len() == old_seq.len(),
            self.contexts_seq() == old_seq.update(ii, self.contexts_seq()[ii]),
            self.contexts_seq()[ii].0 == epid,
            forall|i2: int, j2: int|
                0 <= i2 < j2 < old_seq.len() ==> (#[trigger] old_seq[i2]).0 != (
                #[trigger] old_seq[j2]).0,
        ensures
            self.wf(),
            self.has_peer(epid),
            self.peer_index(epid) == ii,
            forall|e: u64|
                self.has_peer(e) <==> exists|i: int|
                    0 <= i < old_seq.len() && (#[trigger] old_seq[i]).0 == e,
            forall|e: u64|
                e != epid && (exists|i: int| 0 <= i < old_seq.len() && (#[trigger] old_seq[i]).0
                    == e) ==> #[trigger] self.context_of(e) == old_seq[choose|i: int|
                    0 <= i < old_seq.len() && (#[trigger] old_seq[i]).0 == e].1,
    {
        let s_new = self.contexts_seq();
        assert(forall|j: int| 0 <= j < s_new.len() ==> (#[trigger] s_new[j]).0 == old_seq[j].0);
        assert(s_new[ii].0 == epid);
        assert forall|e: u64|
            self.has_peer(e) <==> exists|i: int|
                0 <= i < old_seq.len() && (#[trigger] old_seq[i]).0 == e by {
            if self.has_peer(e) {
                let j = self.peer_index(e);
                assert(old_seq[j].0 == e);
            }
            if exists|i: int| 0 <= i < old_seq.len() && (#[trigger] old_seq[i]).0 == e {
                let j = choose|i: int| 0 <= i < old_seq.len() && (#[trigger] old_seq[i]).0 == e;
                assert(s_new[j].0 == e);
            }
        }
        assert forall|e: u64|
            e != epid && (exists|i: int| 0 <= i < old_seq.len() && (#[trigger] old_seq[i]).0 == e)
                implies #[trigger] self.context_of(e) == old_seq[choose|i: int|
                0 <= i < old_seq.len() && (#[trigger] old_seq[i]).0 == e].1 by {
            let j = choose|i: int| 0 <= i < old_seq.len() && (#[trigger] old_seq[i]).0 == e;
            assert(s_new[j].0 == e);
            assert(self.peer_index(e) == j);
            assert(j != ii);
            assert(s_new[j] == old_seq[j]);
        }
    }
}

} // verus!
