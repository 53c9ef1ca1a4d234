//! Milestone validation.
//!
//! A milestone candidate arrives as the tail hash of a bundle signed by
//! the coordinator.  The validator collects the tail and `security_level`
//! further transactions along the trunk chain and hands them to the
//! external signature check; on success the milestone is recorded in the
//! tangle and the last milestone index advances when the new index is
//! larger.

use vstd::prelude::*;
use crate::tangle::Tangle;
use crate::transaction::{tx_eq, Transaction};

verus! {

/// Why a milestone candidate was rejected.
#[derive(Debug, PartialEq, Eq, Structural)]
pub enum MilestoneValidatorWorkerError {
    /// The tail hash is not stored.
    UnknownTail,
    /// The stored transaction is not a tail.
    NotATail,
    /// A transaction of the bundle has not arrived yet; expected and
    /// silent.
    IncompleteBundle,
    /// The external signature check rejected the bundle.
    InvalidMilestone,
}

/// The trunk chain starting below `h` stays inside the store for `k`
/// steps.
pub open spec fn trunk_chain_ok(tangle: &Tangle, h: Seq<u8>, k: nat) -> bool
    decreases k,
{
    k == 0 || {
        &&& tangle.contains_tx(tangle.tx_of(h).trunk@)
        &&& trunk_chain_ok(tangle, tangle.tx_of(h).trunk@, (k - 1) as nat)
    }
}

/// The validator worker; `security_level` is how many transactions above
/// the tail a coordinator bundle carries.
pub struct MilestoneValidatorWorker {
    pub security_level: usize,
}

impl MilestoneValidatorWorker {
    pub fn new(security_level: usize) -> (r: MilestoneValidatorWorker)
        ensures
            r.security_level == security_level,
    {
        MilestoneValidatorWorker { security_level }
    }

    /// Collects the candidate bundle of a tail: the tail itself and
    /// `security_level` transactions along its trunk chain, in order.
    /// The sequence is what the external signature check receives; the
    /// check's verdict, not this function, decides whether the candidate
    /// is a milestone.
    pub fn validate_milestone(&self, tangle: &Tangle, tail_hash: &crate::hash::Hash) -> (r: Result<
        Vec<Transaction>,
        MilestoneValidatorWorkerError,
    >)
        requires
            tangle.wf(),
        ensures
            !tangle.contains_tx(tail_hash@) ==> r == Result::<
                Vec<Transaction>,
                MilestoneValidatorWorkerError,
            >::Err(MilestoneValidatorWorkerError::UnknownTail),
            tangle.contains_tx(tail_hash@) && tangle.tx_of(tail_hash@).index != 0 ==> r
                == Result::<Vec<Transaction>, MilestoneValidatorWorkerError>::Err(
                MilestoneValidatorWorkerError::NotATail,
            ),
            r is Ok <==> tangle.contains_tx(tail_hash@) && tangle.tx_of(tail_hash@).index == 0
                && trunk_chain_ok(tangle, tail_hash@, self.security_level as nat),
            tangle.contains_tx(tail_hash@) && tangle.tx_of(tail_hash@).index == 0
                && !trunk_chain_ok(tangle, tail_hash@, self.security_level as nat) ==> r
                == Result::<Vec<Transaction>, MilestoneValidatorWorkerError>::Err(
                MilestoneValidatorWorkerError::IncompleteBundle,
            ),
            r matches Ok(v) ==> {
                &&& v@.len() == self.security_level + 1
                &&& tx_eq(v@[0], tangle.tx_of(tail_hash@))
                &&& forall|i: int|
                    1 <= i < v@.len() ==> tangle.contains_tx((#[trigger] v@[i - 1]).trunk@)
                        && tx_eq(v@[i], tangle.tx_of(v@[i - 1].trunk@))
            },
    {
        let tail = match tangle.get_transaction(tail_hash) {
            Some(t) => t,
            None => {
                return Err(MilestoneValidatorWorkerError::UnknownTail);
            },
        };
        if !tail.is_tail() {
            return Err(MilestoneValidatorWorkerError::NotATail);
        }
        let mut bundle: Vec<Transaction> = Vec::new();
        let mut current_trunk = tail.trunk.clone();
        let ghost mut cur: Seq<u8> = tail_hash@;
        bundle.push(tail);
        let mut step: usize = 0;
        while step < self.security_level
            invariant
                tangle.wf(),
                tangle.contains_tx(tail_hash@),
                tangle.tx_of(tail_hash@).index == 0,
                step <= self.security_level,
                bundle@.len() == step + 1,
                tx_eq(bundle@[0], tangle.tx_of(tail_hash@)),
                tangle.contains_tx(cur),
                tx_eq(bundle@[bundle@.len() - 1], tangle.tx_of(cur)),
                current_trunk@ == tangle.tx_of(cur).trunk@,
                forall|i: int|
                    1 <= i < bundle@.len() ==> tangle.contains_tx((#[trigger] bundle@[i
                        - 1]).trunk@) && tx_eq(bundle@[i], tangle.tx_of(bundle@[i - 1].trunk@)),
                trunk_chain_ok(tangle, tail_hash@, self.security_level as nat) <==> trunk_chain_ok(
                    tangle,
                    cur,
                    (self.security_level - step) as nat,
                ),
            decreases self.security_level - step,
        {
            let next = match tangle.get_transaction(&current_trunk) {
                Some(t) => t,
                None => {
                    proof {
                        assert(!trunk_chain_ok(
                            tangle,
                            cur,
                            (self.security_level - step) as nat,
                        ));
                    }
                    return Err(MilestoneValidatorWorkerError::IncompleteBundle);
                },
            };
            proof {
                assert(trunk_chain_ok(tangle, cur, (self.security_level - step) as nat)
                    <==> trunk_chain_ok(
                    tangle,
                    tangle.tx_of(cur).trunk@,
                    (self.security_level - step - 1) as nat,
                ));
                cur = tangle.tx_of(cur).trunk@;
            }
            current_trunk = next.trunk.clone();
            bundle.push(next);
            step += 1;
        }
        proof {
            assert(trunk_chain_ok(tangle, cur, 0));
        }
        Ok(bundle)
    }

    /// Records a validated milestone in the tangle and advances the last
    /// milestone index when the new index is larger.  Reports whether the
    /// index advanced.
    pub fn apply_milestone(tangle: &mut Tangle, index: u32, hash: crate::hash::Hash) -> (r: bool)
        requires
            old(tangle).wf(),
            hash.wf(),
        ensures
            final(tangle).wf(),
            final(tangle).contains_ms(index),
            final(tangle).ms_hash_of(index) == hash@,
            r <==> index > old(tangle).spec_last_milestone_index(),
            final(tangle).spec_last_milestone_index() == (if index > old(tangle).spec_last_milestone_index() {
                index
            } else {
                old(tangle).spec_last_milestone_index()
            }),
            final(tangle).spec_solid_milestone_index() == old(tangle).spec_solid_milestone_index(),
            final(tangle).spec_snapshot_milestone_index() == old(tangle).spec_snapshot_milestone_index(),
            forall|x: u32| x != index ==> (final(tangle).contains_ms(x) <==> old(tangle).contains_ms(x)),
            forall|k: Seq<u8>| old(tangle).contains_tx(k) <==> #[trigger] final(tangle).contains_tx(k),
    {
        tangle.add_milestone(index, hash);
        let ghost mid = *tangle;
        let r = if index > tangle.get_last_milestone_index() {
            tangle.update_last_milestone_index(index);
            true
        } else {
            false
        };
        proof {
            assert(tangle.vertices_seq() == mid.vertices_seq());
            assert(tangle.milestones_seq() == mid.milestones_seq());
            assert forall|k: Seq<u8>|
                old(tangle).contains_tx(k) <==> #[trigger] tangle.contains_tx(k) by {
                assert(mid.contains_tx(k) <==> old(tangle).contains_tx(k));
            }
        }
        r
    }
}

} // verus!
