//! The DAG store.
//!
//! The tangle maps transaction hashes to vertices, keeps for every hash the
//! ordered list of its approvers (children), indexes milestones, and holds
//! the set of solid entry points together with three milestone counters.
//! Invariant: after inserting `(tx, h)`, `h` is listed among the approvers
//! of `tx.trunk`, and of `tx.branch` when the two differ.  Inserting the
//! same hash twice leaves the vertex map unchanged: the first write wins.

use vstd::prelude::*;
use crate::alist::{
    alist_get, alist_has, alist_index, alist_unique, ilist_get, ilist_has, ilist_unique,
    lemma_alist_at, lemma_alist_same_keys, lemma_ilist_at,
};
use crate::transaction::{tx_eq, Transaction};

verus! {

/// A stored transaction with its solid and milestone flags.  The
/// transaction inside a vertex never changes; only the flags do.
pub struct Vertex {
    pub transaction: Transaction,
    pub solid: bool,
    pub milestone: bool,
}

impl Vertex {
    /// Wraps a freshly inserted transaction; both flags start unset.
    pub fn from(transaction: Transaction) -> (r: Vertex)
        ensures
            r.transaction == transaction,
            !r.solid,
            !r.milestone,
    {
        Vertex { transaction, solid: false, milestone: false }
    }

    /// Whether all ancestors of the vertex are known locally.
    pub fn is_solid(&self) -> (r: bool)
        ensures
            r == self.solid,
    {
        self.solid
    }

    /// Marks the vertex as solid.
    pub fn set_solid(&mut self)
        ensures
            final(self).transaction == old(self).transaction,
            final(self).solid,
            final(self).milestone == old(self).milestone,
    {
        self.solid = true;
    }

    /// Whether the vertex is a confirmed milestone.
    pub fn is_milestone(&self) -> (r: bool)
        ensures
            r == self.milestone,
    {
        self.milestone
    }

    /// Marks the vertex as a milestone.
    pub fn set_milestone(&mut self)
        ensures
            final(self).transaction == old(self).transaction,
            final(self).solid == old(self).solid,
            final(self).milestone,
    {
        self.milestone = true;
    }
}

/// Selects which transactions a trunk walk follows.
pub enum TxFilter {
    /// Follow every transaction.
    All,
    /// Follow only transactions whose bundle hash equals the given one.
    SameBundle(crate::hash::Hash),
}

/// What a filter accepts.
pub open spec fn filter_matches(f: &TxFilter, t: &Transaction) -> bool {
    match f {
        TxFilter::All => true,
        TxFilter::SameBundle(b) => t.bundle@ == b@,
    }
}

impl TxFilter {
    /// Whether the filter accepts `t`.
    pub fn matches(&self, t: &Transaction) -> (r: bool)
        ensures
            r == filter_matches(self, t),
    {
        match self {
            TxFilter::All => true,
            TxFilter::SameBundle(b) => t.bundle == *b,
        }
    }
}

/// A datastructure based on a directed acyclic graph.
pub struct Tangle {
    vertices: Vec<(crate::hash::Hash, Vertex)>,
    approvers: Vec<(crate::hash::Hash, Vec<crate::hash::Hash>)>,
    milestones: Vec<(u32, crate::hash::Hash)>,
    solid_entry_points: Vec<crate::hash::Hash>,
    solid_milestone_index: u32,
    snapshot_milestone_index: u32,
    last_milestone_index: u32,
}

impl Tangle {
    /// The vertex map as an association list, in insertion order.
    pub closed spec fn vertices_seq(&self) -> Seq<(crate::hash::Hash, Vertex)> {
        self.vertices@
    }

    /// The approver map as an association list.
    pub closed spec fn approvers_seq(&self) -> Seq<(crate::hash::Hash, Vec<crate::hash::Hash>)> {
        self.approvers@
    }

    /// The milestone index as an association list.
    pub closed spec fn milestones_seq(&self) -> Seq<(u32, crate::hash::Hash)> {
        self.milestones@
    }

    /// The solid entry points.
    pub closed spec fn seps_seq(&self) -> Seq<crate::hash::Hash> {
        self.solid_entry_points@
    }

    /// The solid milestone counter.
    pub closed spec fn spec_solid_milestone_index(&self) -> u32 {
        self.solid_milestone_index
    }

    /// The snapshot milestone counter.
    pub closed spec fn spec_snapshot_milestone_index(&self) -> u32 {
        self.snapshot_milestone_index
    }

    /// The last milestone counter.
    pub closed spec fn spec_last_milestone_index(&self) -> u32 {
        self.last_milestone_index
    }

    /// Whether a transaction with hash `h` is stored.
    pub open spec fn contains_tx(&self, h: Seq<u8>) -> bool {
        alist_has(self.vertices_seq(), h)
    }

    /// The stored vertex of hash `h`.
    pub open spec fn vertex_of(&self, h: Seq<u8>) -> Vertex {
        alist_get(self.vertices_seq(), h)
    }

    /// The stored transaction of hash `h`.
    pub open spec fn tx_of(&self, h: Seq<u8>) -> Transaction {
        self.vertex_of(h).transaction
    }

    /// Whether `h` has an approver list.
    pub open spec fn has_approvers(&self, h: Seq<u8>) -> bool {
        alist_has(self.approvers_seq(), h)
    }

    /// The approvers recorded for `h`, in insertion order; empty when no
    /// list was ever created.
    pub open spec fn approvers_of(&self, h: Seq<u8>) -> Seq<Seq<u8>> {
        if self.has_approvers(h) {
            alist_get(self.approvers_seq(), h)@.map_values(|x: crate::hash::Hash| x@)
        } else {
            Seq::empty()
        }
    }

    /// Whether `h` is a solid entry point.
    pub open spec fn is_sep(&self, h: Seq<u8>) -> bool {
        exists|i: int| 0 <= i < self.seps_seq().len() && (#[trigger] self.seps_seq()[i])@ == h
    }

    /// Whether milestone `index` is recorded.
    pub open spec fn contains_ms(&self, index: u32) -> bool {
        ilist_has(self.milestones_seq(), index)
    }

    /// The hash recorded for milestone `index`.
    pub open spec fn ms_hash_of(&self, index: u32) -> Seq<u8> {
        ilist_get(self.milestones_seq(), index)@
    }

    /// Keys of all three maps are unique and every stored hash is well
    /// formed.
    pub open spec fn wf(&self) -> bool {
        &&& alist_unique(self.vertices_seq())
        &&& alist_unique(self.approvers_seq())
        &&& ilist_unique(self.milestones_seq())
        &&& forall|i: int, j: int|
            0 <= i < j < self.seps_seq().len() ==> (#[trigger] self.seps_seq()[i])@ != (
            #[trigger] self.seps_seq()[j])@
        &&& forall|i: int|
            0 <= i < self.vertices_seq().len() ==> (#[trigger] self.vertices_seq()[i]).0.wf() && (
            #[trigger] self.vertices_seq()[i]).1.transaction.wf()
    }

    /// Creates an empty tangle.
    pub fn new() -> (r: Tangle)
        ensures
            r.wf(),
            r.vertices_seq().len() == 0,
            r.approvers_seq().len() == 0,
            r.milestones_seq().len() == 0,
            r.seps_seq().len() == 0,
            r.spec_solid_milestone_index() == 0,
            r.spec_snapshot_milestone_index() == 0,
            r.spec_last_milestone_index() == 0,
    {
        Tangle {
            vertices: Vec::new(),
            approvers: Vec::new(),
            milestones: Vec::new(),
            solid_entry_points: Vec::new(),
            solid_milestone_index: 0,
            snapshot_milestone_index: 0,
            last_milestone_index: 0,
        }
    }

    /// Finds the vertex-list position of `h`.
    fn find_vertex(&self, h: &crate::hash::Hash) -> (r: Option<usize>)
        ensures
            r is Some <==> self.contains_tx(h@),
            r matches Some(i) ==> i < self.vertices_seq().len() && self.vertices_seq()[
                i as int].0@ == h@,
    {
        let n = self.vertices.len();
        let mut i: usize = 0;
        while i < n
            invariant
                n == self.vertices_seq().len(),
                i <= n,
                forall|j: int| 0 <= j < i ==> (#[trigger] self.vertices_seq()[j]).0@ != h@,
            decreases n - i,
        {
            if self.vertices[i].0 == *h {
                proof {
                    assert(self.vertices_seq()[i as int].0@ == h@);
                }
                return Some(i);
            }
            i += 1;
        }
        None
    }

    /// Finds the approver-list position of `h`.
    fn find_approvers(&self, h: &crate::hash::Hash) -> (r: Option<usize>)
        ensures
            r is Some <==> self.has_approvers(h@),
            r matches Some(i) ==> i < self.approvers_seq().len() && self.approvers_seq()[
                i as int].0@ == h@,
    {
        let n = self.approvers.len();
        let mut i: usize = 0;
        while i < n
            invariant
                n == self.approvers_seq().len(),
                i <= n,
                forall|j: int| 0 <= j < i ==> (#[trigger] self.approvers_seq()[j]).0@ != h@,
            decreases n - i,
        {
            if self.approvers[i].0 == *h {
                proof {
                    assert(self.approvers_seq()[i as int].0@ == h@);
                }
                return Some(i);
            }
            i += 1;
        }
        None
    }

    /// Finds the milestone-list position of `index`.
    fn find_milestone(&self, index: u32) -> (r: Option<usize>)
        ensures
            r is Some <==> self.contains_ms(index),
            r matches Some(i) ==> i < self.milestones_seq().len() && self.milestones_seq()[
                i as int].0 == index,
    {
        let n = self.milestones.len();
        let mut i: usize = 0;
        while i < n
            invariant
                n == self.milestones_seq().len(),
                i <= n,
                forall|j: int| 0 <= j < i ==> (#[trigger] self.milestones_seq()[j]).0 != index,
            decreases n - i,
        {
            if self.milestones[i].0 == index {
                proof {
                    assert(self.milestones_seq()[i as int].0 == index);
                }
                return Some(i);
            }
            i += 1;
        }
        None
    }

    /// Appends `hash` to the approver list of `to`, creating the list on
    /// first use.
    fn push_approver(&mut self, to: &crate::hash::Hash, hash: &crate::hash::Hash)
        requires
            old(self).wf(),
            to.wf(),
            hash.wf(),
        ensures
            final(self).wf(),
            final(self).vertices_seq() == old(self).vertices_seq(),
            final(self).milestones_seq() == old(self).milestones_seq(),
            final(self).seps_seq() == old(self).seps_seq(),
            final(self).spec_solid_milestone_index() == old(self).spec_solid_milestone_index(),
            final(self).spec_snapshot_milestone_index() == old(self).spec_snapshot_milestone_index(),
            final(self).spec_last_milestone_index() == old(self).spec_last_milestone_index(),
            final(self).approvers_of(to@) == old(self).approvers_of(to@).push(hash@),
            forall|k: Seq<u8>|
                k != to@ ==> #[trigger] final(self).approvers_of(k) == old(self).approvers_of(k),
    {
        let found = self.find_approvers(to);
        match found {
            Some(i) => {
                let ghost old_seq = self.approvers@;
                let h = hash.clone();
                let elem = vstd::std_specs::vec::vec_index_mut(&mut self.approvers, i);
                elem.1.push(h);
                proof {
                    let s_new = self.approvers@;
                    let ii = i as int;
                    assert(s_new == old_seq.update(ii, s_new[ii]));
                    assert(s_new[ii].0 == old_seq[ii].0);
                    assert(s_new[ii].1@ == old_seq[ii].1@.push(h));
                    assert(forall|j: int|
                        0 <= j < s_new.len() ==> (#[trigger] s_new[j]).0@ == old_seq[j].0@);
                    assert(alist_unique(s_new));
                    lemma_alist_same_keys(s_new, old_seq);
                    lemma_alist_at(old_seq, ii);
                    lemma_alist_at(s_new, ii);
                    assert(s_new[ii].1@.map_values(|x: crate::hash::Hash| x@) =~= old_seq[
                    ii].1@.map_values(|x: crate::hash::Hash| x@).push(hash@));
                    assert(self.approvers_of(to@) == old(self).approvers_of(to@).push(hash@));
                    assert forall|k: Seq<u8>| k != to@ implies #[trigger] self.approvers_of(k)
                        == old(self).approvers_of(k) by {
                        if alist_has(old_seq, k) {
                            let j = alist_index(old_seq, k);
                            lemma_alist_at(old_seq, j);
                            lemma_alist_at(s_new, j);
                            assert(j != ii);
                            assert(s_new[j] == old_seq[j]);
                        }
                    }
                    assert(self.seps_seq() == old(self).seps_seq());
                    assert(self.vertices_seq() == old(self).vertices_seq());
                    assert(self.milestones_seq() == old(self).milestones_seq());
                    assert(self.wf());
                }
            },
            None => {
                let ghost old_seq = self.approvers@;
                let mut list: Vec<crate::hash::Hash> = Vec::new();
                list.push(hash.clone());
                self.approvers.push((to.clone(), list));
                proof {
                    let s_new = self.approvers@;
                    let m = s_new.len() - 1;
                    assert(s_new[m].0@ == to@);
                    assert(forall|j: int| 0 <= j < m ==> (#[trigger] s_new[j]) == old_seq[j]);
                    assert(alist_unique(s_new));
                    lemma_alist_at(s_new, m);
                    assert(s_new[m].1@.map_values(|x: crate::hash::Hash| x@) =~= Seq::<
                        Seq<u8>,
                    >::empty().push(hash@));
                    assert(old(self).approvers_of(to@) =~= Seq::<Seq<u8>>::empty());
                    assert(self.approvers_of(to@) == old(self).approvers_of(to@).push(hash@));
                    assert forall|k: Seq<u8>| k != to@ implies #[trigger] self.approvers_of(k)
                        == old(self).approvers_of(k) by {
                        if alist_has(old_seq, k) {
                            let j = alist_index(old_seq, k);
                            lemma_alist_at(old_seq, j);
                            lemma_alist_at(s_new, j);
                            assert(s_new[j] == old_seq[j]);
                        } else {
                            if alist_has(s_new, k) {
                                let j = alist_index(s_new, k);
                                if j < m {
                                    assert(old_seq[j].0@ == k);
                                }
                            }
                        }
                    }
                    assert(self.seps_seq() == old(self).seps_seq());
                    assert(self.vertices_seq() == old(self).vertices_seq());
                    assert(self.milestones_seq() == old(self).milestones_seq());
                    assert(self.wf());
                }
            },
        }
    }

    /// Inserts a transaction under its hash.  The hash is appended to the
    /// approver lists of the trunk, and of the branch when it differs,
    /// whether or not the vertex itself is new.  The vertex is stored only
    /// for a first writer, which receives a copy of the stored
    /// transaction; a second insertion of the same hash returns nothing
    /// and leaves the vertex map unchanged.
    pub fn insert_transaction(&mut self, transaction: Transaction, hash: crate::hash::Hash) -> (r:
        Option<Transaction>)
        requires
            old(self).wf(),
            transaction.wf(),
            hash.wf(),
        ensures
            final(self).wf(),
            final(self).approvers_of(transaction.trunk@) == old(self).approvers_of(
                transaction.trunk@,
            ).push(hash@),
            transaction.branch@ != transaction.trunk@ ==> final(self).approvers_of(
                transaction.branch@,
            ) == old(self).approvers_of(transaction.branch@).push(hash@),
            forall|k: Seq<u8>|
                k != transaction.trunk@ && k != transaction.branch@ ==> #[trigger] final(self).approvers_of(k) == old(self).approvers_of(k),
            r is Some <==> !old(self).contains_tx(hash@),
            r matches Some(t) ==> tx_eq(t, transaction),
            old(self).contains_tx(hash@) ==> final(self).vertices_seq() == old(self).vertices_seq(),
            !old(self).contains_tx(hash@) ==> final(self).vertices_seq().len() == old(self).vertices_seq().len() + 1 && final(self).contains_tx(hash@) && final(self).tx_of(
                hash@,
            ) == transaction && !final(self).vertex_of(hash@).solid && !final(self).vertex_of(
                hash@,
            ).milestone,
            forall|k: Seq<u8>|
                k != hash@ && old(self).contains_tx(k) ==> #[trigger] final(self).contains_tx(k)
                    && final(self).vertex_of(k) == old(self).vertex_of(k),
            forall|k: Seq<u8>| old(self).contains_tx(k) ==> #[trigger] final(self).contains_tx(k),
            final(self).milestones_seq() == old(self).milestones_seq(),
            final(self).seps_seq() == old(self).seps_seq(),
            final(self).spec_solid_milestone_index() == old(self).spec_solid_milestone_index(),
            final(self).spec_snapshot_milestone_index() == old(self).spec_snapshot_milestone_index(),
            final(self).spec_last_milestone_index() == old(self).spec_last_milestone_index(),
    {
        let trunk = transaction.trunk.clone();
        let branch = transaction.branch.clone();
        let hash_copy = hash.clone();
        let found = self.find_vertex(&hash);
        let r = match found {
            Some(_) => None,
            None => {
                let ghost old_vertices = self.vertices_seq();
                let handle = transaction.clone();
                let vertex = Vertex::from(transaction);
                self.vertices.push((hash, vertex));
                proof {
                    let s_new = self.vertices_seq();
                    let m = s_new.len() - 1;
                    assert(s_new[m].0@ == hash@);
                    assert(forall|j: int| 0 <= j < m ==> (#[trigger] s_new[j]) == old_vertices[j]);
                    assert(alist_unique(s_new));
                    lemma_alist_at(s_new, m);
                    assert forall|k: Seq<u8>|
                        k != hash@ && alist_has(old_vertices, k) implies #[trigger] alist_has(
                        s_new,
                        k,
                    ) && alist_get(s_new, k) == alist_get(old_vertices, k) by {
                        let j = alist_index(old_vertices, k);
                        lemma_alist_at(old_vertices, j);
                        lemma_alist_at(s_new, j);
                        assert(s_new[j] == old_vertices[j]);
                    }
                    assert forall|k: Seq<u8>| alist_has(old_vertices, k) implies #[trigger]
                        alist_has(s_new, k) by {
                        let j = alist_index(old_vertices, k);
                        assert(s_new[j].0@ == k);
                    }
                    assert(self.seps_seq() == old(self).seps_seq());
                    assert(self.approvers_seq() == old(self).approvers_seq());
                    assert(self.milestones_seq() == old(self).milestones_seq());
                    assert(self.wf());
                }
                Some(handle)
            },
        };
        self.push_approver(&trunk, &hash_copy);
        if !(branch == trunk) {
            self.push_approver(&branch, &hash_copy);
        }
        proof {
            assert(trunk@ == transaction.trunk@ && branch@ == transaction.branch@);
            assert(hash_copy@ == hash@);
        }
        r
    }

    /// A copy of the stored transaction of `hash`, if one is stored.
    pub fn get_transaction(&self, hash: &crate::hash::Hash) -> (r: Option<Transaction>)
        requires
            self.wf(),
        ensures
            r is Some <==> self.contains_tx(hash@),
            r matches Some(t) ==> tx_eq(t, self.tx_of(hash@)),
    {
        match self.find_vertex(hash) {
            Some(i) => {
                proof {
                    lemma_alist_at(self.vertices_seq(), i as int);
                }
                Some(self.vertices[i].1.transaction.clone())
            },
            None => None,
        }
    }

    /// Whether the transaction of `hash` is stored.
    pub fn contains_transaction(&self, hash: &crate::hash::Hash) -> (r: bool)
        ensures
            r == self.contains_tx(hash@),
    {
        self.find_vertex(hash).is_some()
    }

    /// Whether the transaction of `hash` counts as solid: it is a solid
    /// entry point, or its stored vertex carries the solid flag.
    pub fn is_solid_transaction(&self, hash: &crate::hash::Hash) -> (r: bool)
        requires
            self.wf(),
        ensures
            r == (self.is_sep(hash@) || (self.contains_tx(hash@) && self.vertex_of(hash@).solid)),
    {
        if self.is_solid_entry_point(hash) {
            true
        } else {
            match self.find_vertex(hash) {
                Some(i) => {
                    proof {
                        lemma_alist_at(self.vertices_seq(), i as int);
                    }
                    self.vertices[i].1.is_solid()
                },
                None => false,
            }
        }
    }

    /// Records `hash` as the milestone at `index` and, when its vertex is
    /// stored, sets the vertex's milestone flag.
    pub fn add_milestone(&mut self, index: u32, hash: crate::hash::Hash)
        requires
            old(self).wf(),
            hash.wf(),
        ensures
            final(self).wf(),
            final(self).contains_ms(index),
            final(self).ms_hash_of(index) == hash@,
            forall|x: u32| x != index ==> (final(self).contains_ms(x) <==> old(self).contains_ms(x)),
            forall|x: u32|
                x != index && old(self).contains_ms(x) ==> #[trigger] final(self).ms_hash_of(x)
                    == old(self).ms_hash_of(x),
            forall|k: Seq<u8>| old(self).contains_tx(k) <==> #[trigger] final(self).contains_tx(k),
            old(self).contains_tx(hash@) ==> final(self).vertex_of(hash@).milestone && final(self).vertex_of(hash@).transaction == old(self).vertex_of(hash@).transaction && final(self).vertex_of(hash@).solid == old(self).vertex_of(hash@).solid,
            forall|k: Seq<u8>|
                k != hash@ && old(self).contains_tx(k) ==> #[trigger] final(self).vertex_of(k)
                    == old(self).vertex_of(k),
            final(self).approvers_seq() == old(self).approvers_seq(),
            final(self).seps_seq() == old(self).seps_seq(),
            final(self).spec_solid_milestone_index() == old(self).spec_solid_milestone_index(),
            final(self).spec_snapshot_milestone_index() == old(self).spec_snapshot_milestone_index(),
            final(self).spec_last_milestone_index() == old(self).spec_last_milestone_index(),
    {
        let hash_copy = hash.clone();
        match self.find_milestone(index) {
            Some(i) => {
                let h = hash.clone();
                let elem = vstd::std_specs::vec::vec_index_mut(&mut self.milestones, i);
                *elem = (index, h);
                proof {
                    let s_new = self.milestones_seq();
                    let s_old = old(self).milestones_seq();
                    let ii = i as int;
                    assert(s_new == s_old.update(ii, s_new[ii]));
                    assert(forall|j: int|
                        0 <= j < s_new.len() ==> (#[trigger] s_new[j]).0 == s_old[j].0);
                    assert(ilist_unique(s_new));
                    lemma_ilist_at(s_new, ii);
                    assert(self.seps_seq() == old(self).seps_seq());
                    assert(self.approvers_seq() == old(self).approvers_seq());
                    assert(self.vertices_seq() == old(self).vertices_seq());
                    assert(self.contains_ms(index) && self.ms_hash_of(index) == hash@);
                    assert forall|x: u32| x != index && ilist_has(s_old, x) implies #[trigger]
                        ilist_get(s_new, x) == ilist_get(s_old, x) by {
                        let j = choose|j: int| 0 <= j < s_old.len() && (#[trigger] s_old[j]).0
                            == x;
                        lemma_ilist_at(s_old, j);
                        lemma_ilist_at(s_new, j);
                        assert(s_new[j] == s_old[j]);
                    }
                    assert forall|x: u32| x != index implies (ilist_has(s_new, x) <==> ilist_has(
                        s_old,
                        x,
                    )) by {
                        if ilist_has(s_new, x) {
                            let j = choose|j: int|
                                0 <= j < s_new.len() && (#[trigger] s_new[j]).0 == x;
                            assert(s_old[j].0 == x);
                        }
                        if ilist_has(s_old, x) {
                            let j = choose|j: int|
                                0 <= j < s_old.len() && (#[trigger] s_old[j]).0 == x;
                            assert(s_new[j].0 == x);
                        }
                    }
                }
            },
            None => {
                self.milestones.push((index, hash));
                proof {
                    let s_new = self.milestones_seq();
                    let s_old = old(self).milestones_seq();
                    let m = s_new.len() - 1;
                    assert(s_new[m].0 == index);
                    assert(forall|j: int| 0 <= j < m ==> (#[trigger] s_new[j]) == s_old[j]);
                    assert(ilist_unique(s_new));
                    lemma_ilist_at(s_new, m);
                    assert(self.seps_seq() == old(self).seps_seq());
                    assert(self.approvers_seq() == old(self).approvers_seq());
                    assert(self.vertices_seq() == old(self).vertices_seq());
                    assert(self.contains_ms(index) && self.ms_hash_of(index) == hash_copy@);
                    assert forall|x: u32| x != index && ilist_has(s_old, x) implies #[trigger]
                        ilist_get(s_new, x) == ilist_get(s_old, x) by {
                        let j = choose|j: int| 0 <= j < s_old.len() && (#[trigger] s_old[j]).0
                            == x;
                        lemma_ilist_at(s_old, j);
                        lemma_ilist_at(s_new, j);
                        assert(s_new[j] == s_old[j]);
                    }
                    assert forall|x: u32| x != index implies (ilist_has(s_new, x) <==> ilist_has(
                        s_old,
                        x,
                    )) by {
                        if ilist_has(s_new, x) {
                            let j = choose|j: int|
                                0 <= j < s_new.len() && (#[trigger] s_new[j]).0 == x;
                            if j < m {
                                assert(s_old[j].0 == x);
                            }
                        }
                        if ilist_has(s_old, x) {
                            let j = choose|j: int|
                                0 <= j < s_old.len() && (#[trigger] s_old[j]).0 == x;
                            assert(s_new[j].0 == x);
                        }
                    }
                }
            },
        }
        let ghost ms_mid = self.milestones_seq();
        let ghost contains_mid = self.contains_ms(index);
        let found = self.find_vertex(&hash_copy);
        match found {
            Some(i) => {
                let ghost old_vertices = self.vertices_seq();
                let elem = vstd::std_specs::vec::vec_index_mut(&mut self.vertices, i);
                elem.1.set_milestone();
                proof {
                    let s_new = self.vertices_seq();
                    let ii = i as int;
                    assert(s_new == old_vertices.update(ii, s_new[ii]));
                    assert(s_new[ii].0 == old_vertices[ii].0);
                    assert(forall|j: int|
                        0 <= j < s_new.len() ==> (#[trigger] s_new[j]).0@ == old_vertices[j].0@);
                    assert(alist_unique(s_new));
                    lemma_alist_same_keys(s_new, old_vertices);
                    lemma_alist_at(s_new, ii);
                    lemma_alist_at(old_vertices, ii);
                    assert forall|k: Seq<u8>|
                        k != hash_copy@ && alist_has(old_vertices, k) implies #[trigger] alist_get(
                        s_new,
                        k,
                    ) == alist_get(old_vertices, k) by {
                        let j = alist_index(old_vertices, k);
                        lemma_alist_at(old_vertices, j);
                        lemma_alist_at(s_new, j);
                        assert(s_new[j] == old_vertices[j]);
                    }
                    assert(self.milestones_seq() == ms_mid);
                    assert(self.seps_seq() == old(self).seps_seq());
                    assert(self.approvers_seq() == old(self).approvers_seq());
                    assert(self.wf());
                }
            },
            None => {
                proof {
                    assert(self.milestones_seq() == ms_mid);
                    assert(self.seps_seq() == old(self).seps_seq());
                    assert(self.approvers_seq() == old(self).approvers_seq());
                    assert(self.vertices_seq() == old(self).vertices_seq());
                    assert(self.wf());
                }
            },
        }
    }

    /// Forgets the milestone at `index`.
    pub fn remove_milestone(&mut self, index: u32)
        requires
            old(self).wf(),
        ensures
            final(self).wf(),
            !final(self).contains_ms(index),
            forall|x: u32| x != index ==> (final(self).contains_ms(x) <==> old(self).contains_ms(x)),
            forall|x: u32|
                x != index && old(self).contains_ms(x) ==> #[trigger] final(self).ms_hash_of(x)
                    == old(self).ms_hash_of(x),
            final(self).vertices_seq() == old(self).vertices_seq(),
            final(self).approvers_seq() == old(self).approvers_seq(),
            final(self).seps_seq() == old(self).seps_seq(),
            final(self).spec_solid_milestone_index() == old(self).spec_solid_milestone_index(),
            final(self).spec_snapshot_milestone_index() == old(self).spec_snapshot_milestone_index(),
            final(self).spec_last_milestone_index() == old(self).spec_last_milestone_index(),
    {
        match self.find_milestone(index) {
            Some(i) => {
                self.milestones.remove(i);
                proof {
                    let s_new = self.milestones_seq();
                    let s_old = old(self).milestones_seq();
                    let ii = i as int;
                    assert(s_new == s_old.remove(ii));
                    assert(forall|j: int| 0 <= j < ii ==> (#[trigger] s_new[j]) == s_old[j]);
                    assert(forall|j: int|
                        ii <= j < s_new.len() ==> (#[trigger] s_new[j]) == s_old[j + 1]);
                    assert(ilist_unique(s_new));
                    assert forall|x: u32| x != index && ilist_has(s_old, x) implies #[trigger]
                        ilist_get(s_new, x) == ilist_get(s_old, x) && ilist_has(s_new, x) by {
                        let j = choose|j: int| 0 <= j < s_old.len() && (#[trigger] s_old[j]).0
                            == x;
                        lemma_ilist_at(s_old, j);
                        if j < ii {
                            assert(s_new[j] == s_old[j]);
                            lemma_ilist_at(s_new, j);
                        } else {
                            assert(j != ii);
                            assert(s_new[j - 1] == s_old[j]);
                            lemma_ilist_at(s_new, j - 1);
                        }
                    }
                    assert forall|x: u32| x != index && ilist_has(s_old, x) implies #[trigger]
                        ilist_has(s_new, x) by {
                        let j = choose|j: int| 0 <= j < s_old.len() && (#[trigger] s_old[j]).0
                            == x;
                        if j < ii {
                            assert(s_new[j].0 == x);
                        } else {
                            assert(j != ii);
                            assert(s_new[j - 1].0 == x);
                        }
                    }
                    assert forall|x: u32| ilist_has(s_new, x) implies x != index && ilist_has(
                        s_old,
                        x,
                    ) by {
                        let j = choose|j: int| 0 <= j < s_new.len() && (#[trigger] s_new[j]).0
                            == x;
                        lemma_ilist_at(s_old, ii);
                        if j < ii {
                            assert(s_old[j].0 == x);
                            assert(s_old[j].0 != s_old[ii].0);
                        } else {
                            assert(s_old[j + 1].0 == x);
                            assert(s_old[ii].0 != s_old[j + 1].0);
                        }
                    }
                    assert(!self.contains_ms(index));
                    assert(self.seps_seq() == old(self).seps_seq());
                    assert(self.approvers_seq() == old(self).approvers_seq());
                    assert(self.vertices_seq() == old(self).vertices_seq());
                    assert(self.wf());
                }
            },
            None => {},
        }
    }

    /// The stored transaction of the milestone at `index`.
    pub fn get_milestone(&self, index: u32) -> (r: Option<Transaction>)
        requires
            self.wf(),
        ensures
            r is Some <==> self.contains_ms(index) && self.contains_tx(self.ms_hash_of(index)),
            r matches Some(t) ==> tx_eq(t, self.tx_of(self.ms_hash_of(index))),
    {
        match self.get_milestone_hash(index) {
            None => None,
            Some(hash) => self.get_transaction(&hash),
        }
    }

    /// The stored transaction of the most recently recorded last
    /// milestone index.
    pub fn get_latest_milestone(&self) -> (r: Option<Transaction>)
        requires
            self.wf(),
        ensures
            r is Some <==> self.contains_ms(self.spec_last_milestone_index()) && self.contains_tx(
                self.ms_hash_of(self.spec_last_milestone_index()),
            ),
            r matches Some(t) ==> tx_eq(
                t,
                self.tx_of(self.ms_hash_of(self.spec_last_milestone_index())),
            ),
    {
        self.get_milestone(self.last_milestone_index)
    }

    /// The hash recorded for milestone `index`.
    pub fn get_milestone_hash(&self, index: u32) -> (r: Option<crate::hash::Hash>)
        requires
            self.wf(),
        ensures
            r is Some <==> self.contains_ms(index),
            r matches Some(h) ==> h@ == self.ms_hash_of(index),
    {
        match self.find_milestone(index) {
            Some(i) => {
                proof {
                    lemma_ilist_at(self.milestones_seq(), i as int);
                }
                Some(self.milestones[i].1.clone())
            },
            None => None,
        }
    }

    /// Whether milestone `index` is recorded.
    pub fn contains_milestone(&self, index: u32) -> (r: bool)
        ensures
            r == self.contains_ms(index),
    {
        self.find_milestone(index).is_some()
    }

    /// The solid milestone index.
    pub fn get_solid_milestone_index(&self) -> (r: u32)
        ensures
            r == self.spec_solid_milestone_index(),
    {
        self.solid_milestone_index
    }

    /// Sets the solid milestone index.
    pub fn update_solid_milestone_index(&mut self, new_index: u32)
        ensures
            final(self).vertices_seq() == old(self).vertices_seq(),
            final(self).approvers_seq() == old(self).approvers_seq(),
            final(self).milestones_seq() == old(self).milestones_seq(),
            final(self).seps_seq() == old(self).seps_seq(),
            final(self).spec_solid_milestone_index() == new_index,
            final(self).spec_snapshot_milestone_index() == old(self).spec_snapshot_milestone_index(),
            final(self).spec_last_milestone_index() == old(self).spec_last_milestone_index(),
    {
        self.solid_milestone_index = new_index;
    }

    /// The snapshot milestone index.
    pub fn get_snapshot_milestone_index(&self) -> (r: u32)
        ensures
            r == self.spec_snapshot_milestone_index(),
    {
        self.snapshot_milestone_index
    }

    /// Sets the snapshot milestone index.
    pub fn update_snapshot_milestone_index(&mut self, new_index: u32)
        ensures
            final(self).vertices_seq() == old(self).vertices_seq(),
            final(self).approvers_seq() == old(self).approvers_seq(),
            final(self).milestones_seq() == old(self).milestones_seq(),
            final(self).seps_seq() == old(self).seps_seq(),
            final(self).spec_snapshot_milestone_index() == new_index,
            final(self).spec_solid_milestone_index() == old(self).spec_solid_milestone_index(),
            final(self).spec_last_milestone_index() == old(self).spec_last_milestone_index(),
    {
        self.snapshot_milestone_index = new_index;
    }

    /// The last milestone index.
    pub fn get_last_milestone_index(&self) -> (r: u32)
        ensures
            r == self.spec_last_milestone_index(),
    {
        self.last_milestone_index
    }

    /// Sets the last milestone index.
    pub fn update_last_milestone_index(&mut self, new_index: u32)
        ensures
            final(self).vertices_seq() == old(self).vertices_seq(),
            final(self).approvers_seq() == old(self).approvers_seq(),
            final(self).milestones_seq() == old(self).milestones_seq(),
            final(self).seps_seq() == old(self).seps_seq(),
            final(self).spec_last_milestone_index() == new_index,
            final(self).spec_solid_milestone_index() == old(self).spec_solid_milestone_index(),
            final(self).spec_snapshot_milestone_index() == old(self).spec_snapshot_milestone_index(),
    {
        self.last_milestone_index = new_index;
    }

    /// Adds `hash` to the set of solid entry points.
    pub fn add_solid_entry_point(&mut self, hash: crate::hash::Hash)
        requires
            old(self).wf(),
            hash.wf(),
        ensures
            final(self).wf(),
            forall|k: Seq<u8>| final(self).is_sep(k) <==> (old(self).is_sep(k) || k == hash@),
            final(self).vertices_seq() == old(self).vertices_seq(),
            final(self).approvers_seq() == old(self).approvers_seq(),
            final(self).milestones_seq() == old(self).milestones_seq(),
            final(self).spec_solid_milestone_index() == old(self).spec_solid_milestone_index(),
            final(self).spec_snapshot_milestone_index() == old(self).spec_snapshot_milestone_index(),
            final(self).spec_last_milestone_index() == old(self).spec_last_milestone_index(),
    {
        if !self.is_solid_entry_point(&hash) {
            let ghost hv = hash@;
            self.solid_entry_points.push(hash);
            proof {
                let s_new = self.seps_seq();
                let s_old = old(self).seps_seq();
                let m = s_new.len() - 1;
                assert(forall|j: int| 0 <= j < m ==> (#[trigger] s_new[j]) == s_old[j]);
                assert(s_new[m]@ == hv);
                assert forall|k: Seq<u8>| self.is_sep(k) <==> (old(self).is_sep(k) || k == hv) by {
                    if old(self).is_sep(k) {
                        let j = choose|j: int| 0 <= j < s_old.len() && (#[trigger] s_old[j])@ == k;
                        assert((self.seps_seq()[j])@ == k);
                    }
                    if k == hv {
                        assert((self.seps_seq()[m])@ == k);
                    }
                    if self.is_sep(k) {
                        let j = choose|j: int|
                            0 <= j < self.seps_seq().len() && (#[trigger] self.seps_seq()[j])@
                                == k;
                        if j < m {
                            assert((old(self).seps_seq()[j])@ == k);
                        } else {
                            assert(k == hv);
                        }
                    }
                }
                assert forall|a: int, b: int|
                    0 <= a < b < self.seps_seq().len() implies (#[trigger] self.seps_seq()[a])@
                        != (#[trigger] self.seps_seq()[b])@ by {
                    if b == m {
                        assert((old(self).seps_seq()[a])@ != hv);
                    } else {
                        assert((old(self).seps_seq()[a])@ != (old(self).seps_seq()[b])@);
                    }
                }
                assert(self.wf());
            }
        } else {
            proof {
                assert forall|k: Seq<u8>| self.is_sep(k) <==> (old(self).is_sep(k) || k
                    == hash@) by {}
            }
        }
    }

    /// Removes `hash` from the set of solid entry points.
    pub fn remove_solid_entry_point(&mut self, hash: crate::hash::Hash)
        requires
            old(self).wf(),
        ensures
            final(self).wf(),
            forall|k: Seq<u8>| final(self).is_sep(k) <==> (old(self).is_sep(k) && k != hash@),
            final(self).vertices_seq() == old(self).vertices_seq(),
            final(self).approvers_seq() == old(self).approvers_seq(),
            final(self).milestones_seq() == old(self).milestones_seq(),
            final(self).spec_solid_milestone_index() == old(self).spec_solid_milestone_index(),
            final(self).spec_snapshot_milestone_index() == old(self).spec_snapshot_milestone_index(),
            final(self).spec_last_milestone_index() == old(self).spec_last_milestone_index(),
    {
        let n = self.solid_entry_points.len();
        let mut i: usize = 0;
        while i < n
            invariant
                old(self).wf(),
                n == self.seps_seq().len(),
                i <= n,
                *self == *old(self),
                forall|j: int| 0 <= j < i ==> (#[trigger] old(self).seps_seq()[j])@ != hash@,
            decreases n - i,
        {
            if self.solid_entry_points[i] == hash {
                let ii = i;
                proof {
                    assert((old(self).seps_seq()[ii as int])@ == hash@);
                }
                self.solid_entry_points.remove(ii);
                proof {
                    let s_new = self.seps_seq();
                    let s_old = old(self).seps_seq();
                    assert(forall|j: int| 0 <= j < ii ==> (#[trigger] s_new[j]) == s_old[j]);
                    assert(forall|j: int|
                        ii <= j < s_new.len() ==> (#[trigger] s_new[j]) == s_old[j + 1]);
                    assert forall|k: Seq<u8>| self.is_sep(k) <==> (old(self).is_sep(k) && k
                        != hash@) by {
                        if old(self).is_sep(k) && k != hash@ {
                            let j = choose|j: int|
                                0 <= j < s_old.len() && (#[trigger] s_old[j])@ == k;
                            if j < ii as int {
                                assert((self.seps_seq()[j])@ == k);
                            } else {
                                assert(j != ii as int);
                                assert((self.seps_seq()[j - 1])@ == k);
                            }
                        }
                        if self.is_sep(k) {
                            let j = choose|j: int|
                                0 <= j < s_new.len() && (#[trigger] s_new[j])@ == k;
                            if j < ii as int {
                                assert((old(self).seps_seq()[j])@ == k);
                                assert((old(self).seps_seq()[j])@ != (old(self).seps_seq()[
                                ii as int])@);
                            } else {
                                assert((old(self).seps_seq()[j + 1])@ == k);
                                assert((old(self).seps_seq()[ii as int])@ != (old(self).seps_seq()[j + 1])@);
                            }
                        }
                    }
                    assert forall|a: int, b: int|
                        0 <= a < b < self.seps_seq().len() implies (
                        #[trigger] self.seps_seq()[a])@ != (#[trigger] self.seps_seq()[b])@ by {
                        let a2: int = if a < ii as int {
                            a
                        } else {
                            a + 1
                        };
                        let b2: int = if b < ii as int {
                            b
                        } else {
                            b + 1
                        };
                        assert((old(self).seps_seq()[a2])@ != (old(self).seps_seq()[b2])@);
                    }
                    assert(self.wf());
                }
                return ;
            }
            i += 1;
        }
        proof {
            assert forall|k: Seq<u8>| self.is_sep(k) implies (old(self).is_sep(k) && k
                != hash@) by {
                let j = choose|j: int|
                    0 <= j < self.seps_seq().len() && (#[trigger] self.seps_seq()[j])@ == k;
                assert((old(self).seps_seq()[j])@ == k);
                assert((old(self).seps_seq()[j])@ != hash@);
            }
        }
    }

    /// Whether `hash` is a solid entry point.
    pub fn is_solid_entry_point(&self, hash: &crate::hash::Hash) -> (r: bool)
        ensures
            r == self.is_sep(hash@),
    {
        let n = self.solid_entry_points.len();
        let mut i: usize = 0;
        while i < n
            invariant
                n == self.seps_seq().len(),
                i <= n,
                forall|j: int| 0 <= j < i ==> (#[trigger] self.seps_seq()[j])@ != hash@,
            decreases n - i,
        {
            if self.solid_entry_points[i] == *hash {
                proof {
                    assert(self.seps_seq()[i as int]@ == hash@);
                }
                return true;
            }
            i += 1;
        }
        false
    }

    /// The tangle is synced exactly when the solid milestone index equals
    /// the last milestone index.
    pub fn is_synced(&self) -> (r: bool)
        ensures
            r <==> self.spec_solid_milestone_index() == self.spec_last_milestone_index(),
    {
        self.get_solid_milestone_index() == self.get_last_milestone_index()
    }

    /// Number of stored vertices.
    pub fn size(&self) -> (r: usize)
        ensures
            r == self.vertices_seq().len(),
    {
        self.vertices.len()
    }

    /// Number of recorded approvers of `hash`.
    pub fn num_approvers(&self, hash: &crate::hash::Hash) -> (r: usize)
        requires
            self.wf(),
        ensures
            r == self.approvers_of(hash@).len(),
    {
        match self.find_approvers(hash) {
            Some(i) => {
                proof {
                    lemma_alist_at(self.approvers_seq(), i as int);
                }
                self.approvers[i].1.len()
            },
            None => 0,
        }
    }
}

/// The hashes of a walk result, in visit order.
pub open spec fn walk_hashes(r: Seq<(Transaction, crate::hash::Hash)>) -> Seq<Seq<u8>> {
    r.map_values(|p: (Transaction, crate::hash::Hash)| p.1@)
}

/// A sequence of distinct byte strings drawn from another sequence is no
/// longer than it.
proof fn lemma_distinct_in_seq(xs: Seq<Seq<u8>>, ys: Seq<Seq<u8>>)
    requires
        forall|i: int, j: int| 0 <= i < j < xs.len() ==> xs[i] != xs[j],
        forall|i: int| 0 <= i < xs.len() ==> ys.contains(#[trigger] xs[i]),
    ensures
        xs.len() <= ys.len(),
{
    broadcast use vstd::seq_lib::seq_to_set_is_finite;

    assert(xs.no_duplicates());
    xs.unique_seq_to_set();
    ys.lemma_cardinality_of_set();
    assert(xs.to_set() <= ys.to_set()) by {
        assert forall|x: Seq<u8>| xs.to_set().contains(x) implies ys.to_set().contains(x) by {
            assert(xs.contains(x));
            assert(ys.contains(x));
        }
    }
    vstd::set_lib::lemma_len_subset(xs.to_set(), ys.to_set());
}

impl Tangle {
    /// `h` is an approver of `prev` that a trunk walk may step to: it is
    /// stored, its trunk is `prev`, the filter accepts it, and the walk
    /// has not seen it yet.
    pub open spec fn approver_matches(
        &self,
        prev: Seq<u8>,
        h: Seq<u8>,
        filter: &TxFilter,
        seen: Seq<Seq<u8>>,
    ) -> bool {
        &&& self.contains_tx(h)
        &&& self.tx_of(h).trunk@ == prev
        &&& filter_matches(filter, &self.tx_of(h))
        &&& !seen.contains(h)
    }

    /// `h` is the first entry of the approver list of `prev` that the
    /// walk may step to.
    pub open spec fn is_first_matching_approver(
        &self,
        prev: Seq<u8>,
        h: Seq<u8>,
        filter: &TxFilter,
        seen: Seq<Seq<u8>>,
    ) -> bool {
        exists|idx: int|
            {
                &&& 0 <= idx < self.approvers_of(prev).len()
                &&& #[trigger] self.approvers_of(prev)[idx] == h
                &&& self.approver_matches(prev, h, filter, seen)
                &&& forall|j: int|
                    0 <= j < idx ==> !self.approver_matches(
                        prev,
                        self.approvers_of(prev)[j],
                        filter,
                        seen,
                    )
            }
    }

    /// No entry of the approver list of `prev` can be stepped to.
    pub open spec fn no_matching_approver(
        &self,
        prev: Seq<u8>,
        filter: &TxFilter,
        seen: Seq<Seq<u8>>,
    ) -> bool {
        forall|j: int|
            0 <= j < self.approvers_of(prev).len() ==> !self.approver_matches(
                prev,
                #[trigger] self.approvers_of(prev)[j],
                filter,
                seen,
            )
    }

    /// Whether a collected walk already holds hash `h`.
    fn walk_contains(collected: &Vec<(Transaction, crate::hash::Hash)>, h: &crate::hash::Hash)
        -> (r: bool)
        ensures
            r <==> walk_hashes(collected@).contains(h@),
    {
        let n = collected.len();
        let mut i: usize = 0;
        while i < n
            invariant
                n == collected@.len(),
                i <= n,
                forall|j: int| 0 <= j < i ==> walk_hashes(collected@)[j] != h@,
            decreases n - i,
        {
            if collected[i].1 == *h {
                proof {
                    assert(walk_hashes(collected@)[i as int] == h@);
                }
                return true;
            }
            i += 1;
        }
        proof {
            if walk_hashes(collected@).contains(h@) {
                let j = choose|j: int|
                    0 <= j < walk_hashes(collected@).len() && walk_hashes(collected@)[j] == h@;
            }
        }
        false
    }

    /// Finds the first approver of `current` that the walk may step to.
    fn next_trunk_approver(
        &self,
        current: &crate::hash::Hash,
        filter: &TxFilter,
        collected: &Vec<(Transaction, crate::hash::Hash)>,
    ) -> (r: Option<(Transaction, crate::hash::Hash)>)
        requires
            self.wf(),
        ensures
            r is None ==> self.no_matching_approver(current@, filter, walk_hashes(collected@)),
            r matches Some(p) ==> {
                &&& self.is_first_matching_approver(
                    current@,
                    p.1@,
                    filter,
                    walk_hashes(collected@),
                )
                &&& self.contains_tx(p.1@)
                &&& tx_eq(p.0, self.tx_of(p.1@))
                &&& p.1.wf()
            },
    {
        let ai = match self.find_approvers(current) {
            Some(ai) => ai,
            None => {
                return None;
            },
        };
        proof {
            lemma_alist_at(self.approvers_seq(), ai as int);
        }
        let list = &self.approvers[ai].1;
        let n = list.len();
        let mut j: usize = 0;
        while j < n
            invariant
                self.wf(),
                ai < self.approvers_seq().len(),
                self.approvers_seq()[ai as int].0@ == current@,
                list == self.approvers_seq()[ai as int].1,
                n == list@.len(),
                j <= n,
                self.approvers_of(current@) == list@.map_values(|x: crate::hash::Hash| x@),
                forall|j2: int|
                    0 <= j2 < j ==> !self.approver_matches(
                        current@,
                        self.approvers_of(current@)[j2],
                        filter,
                        walk_hashes(collected@),
                    ),
            decreases n - j,
        {
            let cand = &list[j];
            proof {
                assert(self.approvers_of(current@)[j as int] == cand@);
            }
            match self.find_vertex(cand) {
                Some(vi) => {
                    proof {
                        lemma_alist_at(self.vertices_seq(), vi as int);
                    }
                    let vtx = &self.vertices[vi].1;
                    if vtx.transaction.trunk == *current && filter.matches(&vtx.transaction)
                        && !Self::walk_contains(collected, cand) {
                        let tx = vtx.transaction.clone();
                        let h = cand.clone();
                        proof {
                            assert(self.vertices_seq()[vi as int].0.wf());
                        }
                        return Some((tx, h));
                    }
                },
                None => {},
            }
            j += 1;
        }
        None
    }

    /// Walks descendants from `start`, following only trunk edges.  Each
    /// step takes the first stored, unvisited approver of the current
    /// vertex whose trunk is the current vertex and whose transaction the
    /// filter accepts; the walk ends when no such approver exists.  The
    /// unvisited guard only matters for a store whose references loop; on
    /// an acyclic store it never triggers.
    pub fn trunk_walk_approvers(&self, start: &crate::hash::Hash, filter: &TxFilter) -> (r: Vec<
        (Transaction, crate::hash::Hash),
    >)
        requires
            self.wf(),
            start.wf(),
        ensures
            r@.len() == 0 <==> !(self.contains_tx(start@) && filter_matches(
                filter,
                &self.tx_of(start@),
            )),
            r@.len() > 0 ==> r@[0].1@ == start@,
            forall|i: int|
                0 <= i < r@.len() ==> {
                    &&& self.contains_tx((#[trigger] r@[i]).1@)
                    &&& tx_eq(r@[i].0, self.tx_of(r@[i].1@))
                    &&& filter_matches(filter, &r@[i].0)
                },
            forall|i: int, j: int| 0 <= i < j < r@.len() ==> r@[i].1@ != r@[j].1@,
            forall|i: int|
                1 <= i < r@.len() ==> self.is_first_matching_approver(
                    (#[trigger] r@[i - 1]).1@,
                    r@[i].1@,
                    filter,
                    walk_hashes(r@.subrange(0, i)),
                ),
            r@.len() > 0 ==> self.no_matching_approver(
                r@[r@.len() - 1].1@,
                filter,
                walk_hashes(r@),
            ),
    {
        let mut collected: Vec<(Transaction, crate::hash::Hash)> = Vec::new();
        let start_index = match self.find_vertex(start) {
            Some(i) => i,
            None => {
                return collected;
            },
        };
        proof {
            lemma_alist_at(self.vertices_seq(), start_index as int);
        }
        if !filter.matches(&self.vertices[start_index].1.transaction) {
            return collected;
        }
        let mut current: crate::hash::Hash = start.clone();
        collected.push((self.vertices[start_index].1.transaction.clone(), start.clone()));
        loop
            invariant
                self.wf(),
                collected@.len() >= 1,
                current@ == collected@[collected@.len() - 1].1@,
                collected@[0].1@ == start@,
                forall|i: int|
                    0 <= i < collected@.len() ==> {
                        &&& self.contains_tx((#[trigger] collected@[i]).1@)
                        &&& tx_eq(collected@[i].0, self.tx_of(collected@[i].1@))
                        &&& filter_matches(filter, &collected@[i].0)
                    },
                forall|i: int, j: int|
                    0 <= i < j < collected@.len() ==> collected@[i].1@ != collected@[j].1@,
                forall|i: int|
                    1 <= i < collected@.len() ==> self.is_first_matching_approver(
                        (#[trigger] collected@[i - 1]).1@,
                        collected@[i].1@,
                        filter,
                        walk_hashes(collected@.subrange(0, i)),
                    ),
            ensures
                self.no_matching_approver(current@, filter, walk_hashes(collected@)),
            decreases self.vertices_seq().len() + 1 - collected@.len(),
        {
            proof {
                assert forall|i: int|
                    0 <= i < walk_hashes(collected@).len() implies self.vertices_seq().map_values(
                    |p: (crate::hash::Hash, Vertex)| p.0@,
                ).contains(#[trigger] walk_hashes(collected@)[i]) by {
                    assert(self.contains_tx(collected@[i].1@));
                    let j = crate::alist::alist_index(self.vertices_seq(), collected@[i].1@);
                    assert(self.vertices_seq().map_values(
                        |p: (crate::hash::Hash, Vertex)| p.0@,
                    )[j] == collected@[i].1@);
                }
                lemma_distinct_in_seq(
                    walk_hashes(collected@),
                    self.vertices_seq().map_values(|p: (crate::hash::Hash, Vertex)| p.0@),
                );
            }
            match self.next_trunk_approver(&current, filter, &collected) {
                Some(p) => {
                    let ghost pre = collected@;
                    let h = p.1.clone();
                    collected.push(p);
                    current = h;
                    proof {
                        assert(collected@.subrange(0, pre.len() as int) =~= pre);
                        assert(walk_hashes(collected@.subrange(0, pre.len() as int)) =~=
                            walk_hashes(pre));
                        assert forall|i: int, j: int|
                            0 <= i < j < collected@.len() implies collected@[i].1@ != collected@[
                        j].1@ by {
                            if j == collected@.len() - 1 {
                                assert(!walk_hashes(pre).contains(collected@[j].1@));
                                assert(walk_hashes(pre)[i] == collected@[i].1@);
                            }
                        }
                        assert forall|i: int|
                            1 <= i < collected@.len() implies self.is_first_matching_approver(
                            (#[trigger] collected@[i - 1]).1@,
                            collected@[i].1@,
                            filter,
                            walk_hashes(collected@.subrange(0, i)),
                        ) by {
                            if i < collected@.len() - 1 {
                                assert(collected@.subrange(0, i) =~= pre.subrange(0, i));
                                assert(collected@[i - 1] == pre[i - 1] && collected@[i] == pre[i]);
                            }
                        }
                    }
                },
                None => {
                    break ;
                },
            }
        }
        collected
    }

    /// Walks ancestors from `start`, following only trunk edges, for as
    /// long as the visited transactions are stored and accepted by the
    /// filter.  The unvisited guard only matters for a store whose
    /// references loop; on an acyclic store it never triggers.
    pub fn trunk_walk_approvees(&self, start: &crate::hash::Hash, filter: &TxFilter) -> (r: Vec<
        (Transaction, crate::hash::Hash),
    >)
        requires
            self.wf(),
            start.wf(),
        ensures
            r@.len() == 0 <==> !(self.contains_tx(start@) && filter_matches(
                filter,
                &self.tx_of(start@),
            )),
            r@.len() > 0 ==> r@[0].1@ == start@,
            forall|i: int|
                0 <= i < r@.len() ==> {
                    &&& self.contains_tx((#[trigger] r@[i]).1@)
                    &&& tx_eq(r@[i].0, self.tx_of(r@[i].1@))
                    &&& filter_matches(filter, &r@[i].0)
                },
            forall|i: int, j: int| 0 <= i < j < r@.len() ==> r@[i].1@ != r@[j].1@,
            forall|i: int| 1 <= i < r@.len() ==> (#[trigger] r@[i]).1@ == r@[i - 1].0.trunk@,
            r@.len() > 0 ==> {
                let last = r@[r@.len() - 1];
                ||| !self.contains_tx(last.0.trunk@)
                ||| !filter_matches(filter, &self.tx_of(last.0.trunk@))
                ||| walk_hashes(r@).contains(last.0.trunk@)
            },
    {
        let mut collected: Vec<(Transaction, crate::hash::Hash)> = Vec::new();
        let start_index = match self.find_vertex(start) {
            Some(i) => i,
            None => {
                return collected;
            },
        };
        proof {
            lemma_alist_at(self.vertices_seq(), start_index as int);
        }
        if !filter.matches(&self.vertices[start_index].1.transaction) {
            return collected;
        }
        let mut current: crate::hash::Hash = start.clone();
        collected.push((self.vertices[start_index].1.transaction.clone(), start.clone()));
        loop
            invariant
                self.wf(),
                collected@.len() >= 1,
                current@ == collected@[collected@.len() - 1].1@,
                collected@[0].1@ == start@,
                forall|i: int|
                    0 <= i < collected@.len() ==> {
                        &&& self.contains_tx((#[trigger] collected@[i]).1@)
                        &&& tx_eq(collected@[i].0, self.tx_of(collected@[i].1@))
                        &&& filter_matches(filter, &collected@[i].0)
                    },
                forall|i: int, j: int|
                    0 <= i < j < collected@.len() ==> collected@[i].1@ != collected@[j].1@,
                forall|i: int|
                    1 <= i < collected@.len() ==> (#[trigger] collected@[i]).1@ == collected@[i
                        - 1].0.trunk@,
            ensures
                ({
                    let last = collected@[collected@.len() - 1];
                    ||| !self.contains_tx(last.0.trunk@)
                    ||| !filter_matches(filter, &self.tx_of(last.0.trunk@))
                    ||| walk_hashes(collected@).contains(last.0.trunk@)
                }),
            decreases self.vertices_seq().len() + 1 - collected@.len(),
        {
            proof {
                assert forall|i: int|
                    0 <= i < walk_hashes(collected@).len() implies self.vertices_seq().map_values(
                    |p: (crate::hash::Hash, Vertex)| p.0@,
                ).contains(#[trigger] walk_hashes(collected@)[i]) by {
                    assert(self.contains_tx(collected@[i].1@));
                    let j = crate::alist::alist_index(self.vertices_seq(), collected@[i].1@);
                    assert(self.vertices_seq().map_values(
                        |p: (crate::hash::Hash, Vertex)| p.0@,
                    )[j] == collected@[i].1@);
                }
                lemma_distinct_in_seq(
                    walk_hashes(collected@),
                    self.vertices_seq().map_values(|p: (crate::hash::Hash, Vertex)| p.0@),
                );
            }
            let last_tx_trunk = collected[collected.len() - 1].0.trunk.clone();
            let next_index = match self.find_vertex(&last_tx_trunk) {
                Some(i) => i,
                None => {
                    break ;
                },
            };
            proof {
                lemma_alist_at(self.vertices_seq(), next_index as int);
            }
            if !filter.matches(&self.vertices[next_index].1.transaction) {
                break ;
            }
            if Self::walk_contains(&collected, &last_tx_trunk) {
                break ;
            }
            let ghost pre = collected@;
            let tx = self.vertices[next_index].1.transaction.clone();
            collected.push((tx, last_tx_trunk));
            current = collected[collected.len() - 1].1.clone();
            proof {
                assert forall|i: int, j: int|
                    0 <= i < j < collected@.len() implies collected@[i].1@ != collected@[
                j].1@ by {
                    if j == collected@.len() - 1 {
                        assert(!walk_hashes(pre).contains(collected@[j].1@));
                        assert(walk_hashes(pre)[i] == collected@[i].1@);
                    }
                }
            }
        }
        collected
    }
}

/// The views of a sequence of hashes.
pub open spec fn hash_views(v: Seq<crate::hash::Hash>) -> Seq<Seq<u8>> {
    v.map_values(|x: crate::hash::Hash| x@)
}

/// The hashes of a visit list, in visit order.
pub open spec fn visit_hashes(r: Seq<(crate::hash::Hash, Transaction)>) -> Seq<Seq<u8>> {
    r.map_values(|p: (crate::hash::Hash, Transaction)| p.0@)
}

impl Tangle {
    /// The depth-first ancestor walk, step by step: pop the top hash;
    /// skip it if already analyzed; when stored, emit it and push its
    /// branch then its trunk (so the trunk is explored first); when
    /// absent, report it unless it is a solid entry point.  `fuel` bounds
    /// the steps; a run that would need more returns nothing.  This is
    /// the functional meaning of `walk_approvees_depth_first`.
    pub open spec fn approvee_walk_model(
        &self,
        stack: Seq<Seq<u8>>,
        analyzed: Seq<Seq<u8>>,
        vis: Seq<Seq<u8>>,
        mis: Seq<Seq<u8>>,
        fuel: nat,
    ) -> Option<(Seq<Seq<u8>>, Seq<Seq<u8>>)>
        decreases fuel,
    {
        if stack.len() == 0 {
            Some((vis, mis))
        } else if fuel == 0 {
            None
        } else {
            let h = stack.last();
            let rest = stack.drop_last();
            if analyzed.contains(h) {
                self.approvee_walk_model(rest, analyzed, vis, mis, (fuel - 1) as nat)
            } else if self.contains_tx(h) {
                self.approvee_walk_model(
                    rest.push(self.tx_of(h).branch@).push(self.tx_of(h).trunk@),
                    analyzed.push(h),
                    vis.push(h),
                    mis,
                    (fuel - 1) as nat,
                )
            } else if self.is_sep(h) {
                self.approvee_walk_model(rest, analyzed.push(h), vis, mis, (fuel - 1) as nat)
            } else {
                self.approvee_walk_model(
                    rest,
                    analyzed.push(h),
                    vis,
                    mis.push(h),
                    (fuel - 1) as nat,
                )
            }
        }
    }

    /// Law: the walk model is a function of the start state alone; any
    /// two fuels large enough to finish agree.
    pub proof fn lemma_approvee_walk_model_fuel(
        &self,
        stack: Seq<Seq<u8>>,
        analyzed: Seq<Seq<u8>>,
        vis: Seq<Seq<u8>>,
        mis: Seq<Seq<u8>>,
        f1: nat,
        f2: nat,
    )
        requires
            self.approvee_walk_model(stack, analyzed, vis, mis, f1) is Some,
            self.approvee_walk_model(stack, analyzed, vis, mis, f2) is Some,
        ensures
            self.approvee_walk_model(stack, analyzed, vis, mis, f1)
                == self.approvee_walk_model(stack, analyzed, vis, mis, f2),
        decreases f1,
    {
        if stack.len() > 0 {
            let h = stack.last();
            let rest = stack.drop_last();
            if analyzed.contains(h) {
                self.lemma_approvee_walk_model_fuel(
                    rest,
                    analyzed,
                    vis,
                    mis,
                    (f1 - 1) as nat,
                    (f2 - 1) as nat,
                );
            } else if self.contains_tx(h) {
                self.lemma_approvee_walk_model_fuel(
                    rest.push(self.tx_of(h).branch@).push(self.tx_of(h).trunk@),
                    analyzed.push(h),
                    vis.push(h),
                    mis,
                    (f1 - 1) as nat,
                    (f2 - 1) as nat,
                );
            } else if self.is_sep(h) {
                self.lemma_approvee_walk_model_fuel(
                    rest,
                    analyzed.push(h),
                    vis,
                    mis,
                    (f1 - 1) as nat,
                    (f2 - 1) as nat,
                );
            } else {
                self.lemma_approvee_walk_model_fuel(
                    rest,
                    analyzed.push(h),
                    vis,
                    mis.push(h),
                    (f1 - 1) as nat,
                    (f2 - 1) as nat,
                );
            }
        }
    }
}

impl Tangle {
    /// Every hash a depth-first walk from `root` can ever touch: the root
    /// itself, the stored hashes, and the trunk and branch of every
    /// stored transaction.
    pub open spec fn walk_candidates(&self, root: Seq<u8>) -> Seq<Seq<u8>> {
        seq![root] + self.vertices_seq().map_values(|p: (crate::hash::Hash, Vertex)| p.0@)
            + self.vertices_seq().map_values(
            |p: (crate::hash::Hash, Vertex)| p.1.transaction.trunk@,
        ) + self.vertices_seq().map_values(
            |p: (crate::hash::Hash, Vertex)| p.1.transaction.branch@,
        )
    }

    /// Whether a list of hashes holds `h`.
    fn hashes_contain(v: &Vec<crate::hash::Hash>, h: &crate::hash::Hash) -> (r: bool)
        ensures
            r <==> hash_views(v@).contains(h@),
    {
        let n = v.len();
        let mut i: usize = 0;
        while i < n
            invariant
                n == v@.len(),
                i <= n,
                forall|j: int| 0 <= j < i ==> hash_views(v@)[j] != h@,
            decreases n - i,
        {
            if v[i] == *h {
                proof {
                    assert(hash_views(v@)[i as int] == h@);
                }
                return true;
            }
            i += 1;
        }
        proof {
            if hash_views(v@).contains(h@) {
                let j = choose|j: int|
                    0 <= j < hash_views(v@).len() && hash_views(v@)[j] == h@;
            }
        }
        false
    }

    /// Walks ancestors depth first from `root`, trunk before branch,
    /// skipping hashes already analyzed.  Returns the transactions in
    /// visit order and the hashes that were referenced but are neither
    /// stored nor solid entry points.
    #[verifier::rlimit(100)]
    pub fn walk_approvees_depth_first(&self, root: &crate::hash::Hash) -> (r: (
        Vec<(crate::hash::Hash, Transaction)>,
        Vec<crate::hash::Hash>,
    ))
        requires
            self.wf(),
            root.wf(),
        ensures
            forall|l: int|
                0 <= l < r.0@.len() ==> self.contains_tx((#[trigger] r.0@[l]).0@) && tx_eq(
                    r.0@[l].1,
                    self.tx_of(r.0@[l].0@),
                ),
            forall|l1: int, l2: int| 0 <= l1 < l2 < r.0@.len() ==> r.0@[l1].0@ != r.0@[l2].0@,
            forall|m: int|
                0 <= m < r.1@.len() ==> !self.contains_tx((#[trigger] r.1@[m])@) && !self.is_sep(
                    r.1@[m]@,
                ),
            forall|m1: int, m2: int| 0 <= m1 < m2 < r.1@.len() ==> r.1@[m1]@ != r.1@[m2]@,
            r.0@.len() > 0 ==> r.0@[0].0@ == root@,
            self.contains_tx(root@) ==> r.0@.len() > 0,
            exists|fuel: nat|
                self.approvee_walk_model(
                    seq![root@],
                    Seq::<Seq<u8>>::empty(),
                    Seq::<Seq<u8>>::empty(),
                    Seq::<Seq<u8>>::empty(),
                    fuel,
                ) == Some((visit_hashes(r.0@), hash_views(r.1@))),
    {
        let ghost cand = self.walk_candidates(root@);
        let ghost nv = self.vertices_seq().len() as int;
        let mut visited: Vec<(crate::hash::Hash, Transaction)> = Vec::new();
        let mut missing: Vec<crate::hash::Hash> = Vec::new();
        let mut analyzed: Vec<crate::hash::Hash> = Vec::new();
        let mut stack: Vec<crate::hash::Hash> = Vec::new();
        stack.push(root.clone());
        let ghost mut iters: nat = 0;
        proof {
            assert(cand[0] == root@);
            assert(hash_views(stack@)[0] == root@);
            assert(hash_views(stack@) =~= seq![root@]);
            assert(hash_views(analyzed@) =~= Seq::<Seq<u8>>::empty());
            assert(visit_hashes(visited@) =~= Seq::<Seq<u8>>::empty());
            assert(hash_views(missing@) =~= Seq::<Seq<u8>>::empty());
        }
        while stack.len() > 0
            invariant
                self.wf(),
                root.wf(),
                cand == self.walk_candidates(root@),
                nv == self.vertices_seq().len(),
                cand.len() == 1 + 3 * nv,
                forall|i: int| 0 <= i < stack@.len() ==> cand.contains((#[trigger] stack@[i])@),
                forall|i: int| 0 <= i < analyzed@.len() ==> cand.contains((#[trigger] analyzed@[i])@),
                forall|i: int, j: int|
                    0 <= i < j < analyzed@.len() ==> (#[trigger] analyzed@[i])@ != (
                    #[trigger] analyzed@[j])@,
                forall|l: int|
                    0 <= l < visited@.len() ==> self.contains_tx((#[trigger] visited@[l]).0@)
                        && tx_eq(visited@[l].1, self.tx_of(visited@[l].0@)),
                forall|l: int|
                    0 <= l < visited@.len() ==> hash_views(analyzed@).contains(
                        (#[trigger] visited@[l]).0@,
                    ),
                forall|l1: int, l2: int|
                    0 <= l1 < l2 < visited@.len() ==> (#[trigger] visited@[l1]).0@ != (
                    #[trigger] visited@[l2]).0@,
                forall|m: int|
                    0 <= m < missing@.len() ==> !self.contains_tx((#[trigger] missing@[m])@)
                        && !self.is_sep(missing@[m]@),
                forall|m: int|
                    0 <= m < missing@.len() ==> hash_views(analyzed@).contains(
                        (#[trigger] missing@[m])@,
                    ),
                forall|m1: int, m2: int|
                    0 <= m1 < m2 < missing@.len() ==> (#[trigger] missing@[m1])@ != (
                    #[trigger] missing@[m2])@,
                visited@.len() > 0 ==> visited@[0].0@ == root@,
                visited@.len() == 0 ==> forall|i: int|
                    0 <= i < stack@.len() ==> (#[trigger] stack@[i])@ == root@,
                forall|a: int|
                    0 <= a < analyzed@.len() && self.contains_tx((#[trigger] analyzed@[a])@)
                        ==> visit_hashes(visited@).contains(analyzed@[a]@),
                hash_views(analyzed@).contains(root@) || hash_views(stack@).contains(root@),
                forall|f: nat|
                    f >= iters ==> #[trigger] self.approvee_walk_model(
                        seq![root@],
                        Seq::<Seq<u8>>::empty(),
                        Seq::<Seq<u8>>::empty(),
                        Seq::<Seq<u8>>::empty(),
                        f,
                    ) == self.approvee_walk_model(
                        hash_views(stack@),
                        hash_views(analyzed@),
                        visit_hashes(visited@),
                        hash_views(missing@),
                        (f - iters) as nat,
                    ),
            decreases 1 + 3 * nv - analyzed@.len(), stack@.len(),
        {
            let ghost stack_pre = stack@;
            let ghost analyzed_pre = analyzed@;
            let ghost visited_pre_views = visit_hashes(visited@);
            let ghost missing_pre_views = hash_views(missing@);
            let ghost old_iters = iters;
            proof {
                lemma_distinct_in_seq(hash_views(analyzed@), cand);
            }
            let h = match stack.pop() {
                Some(h) => h,
                None => {
                    proof {
                        assert(false);
                    }
                    root.clone()
                },
            };
            proof {
                assert(stack_pre == stack@.push(h));
                assert(cand.contains(h@));
            }
            if Self::hashes_contain(&analyzed, &h) {
                proof {
                    if hash_views(stack_pre).contains(root@) {
                        let j = choose|j: int|
                            0 <= j < stack_pre.len() && hash_views(stack_pre)[j] == root@;
                        if j < stack_pre.len() - 1 {
                            assert(hash_views(stack@)[j] == root@);
                        } else {
                            assert(h@ == root@);
                        }
                    }
                    iters = old_iters + 1;
                    assert forall|f: nat| f >= iters implies #[trigger] self.approvee_walk_model(
                        seq![root@],
                        Seq::<Seq<u8>>::empty(),
                        Seq::<Seq<u8>>::empty(),
                        Seq::<Seq<u8>>::empty(),
                        f,
                    ) == self.approvee_walk_model(
                        hash_views(stack@),
                        hash_views(analyzed@),
                        visit_hashes(visited@),
                        hash_views(missing@),
                        (f - iters) as nat,
                    ) by {
                        let g = (f - old_iters) as nat;
                        assert(self.approvee_walk_model(
                            seq![root@],
                            Seq::<Seq<u8>>::empty(),
                            Seq::<Seq<u8>>::empty(),
                            Seq::<Seq<u8>>::empty(),
                            f,
                        ) == self.approvee_walk_model(
                            hash_views(stack_pre),
                            hash_views(analyzed_pre),
                            visited_pre_views,
                            missing_pre_views,
                            g,
                        ));
                        assert(hash_views(stack_pre).last() == h@);
                        assert(hash_views(stack_pre).drop_last() =~= hash_views(stack@));
                        assert(hash_views(analyzed_pre).contains(h@));
                        assert(self.approvee_walk_model(
                            hash_views(stack_pre),
                            hash_views(analyzed_pre),
                            visited_pre_views,
                            missing_pre_views,
                            g,
                        ) == self.approvee_walk_model(
                            hash_views(stack@),
                            hash_views(analyzed@),
                            visit_hashes(visited@),
                            hash_views(missing@),
                            (g - 1) as nat,
                        ));
                    }
                }
                continue ;
            }
            match self.find_vertex(&h) {
                Some(vi) => {
                    proof {
                        lemma_alist_at(self.vertices_seq(), vi as int);
                    }
                    let tx = self.vertices[vi].1.transaction.clone();
                    let ghost visited_pre = visited@;
                    let ghost was_empty = visited@.len() == 0;
                    proof {
                        if was_empty {
                            assert(stack_pre[stack_pre.len() - 1]@ == root@);
                            assert(h@ == root@);
                        }
                    }
                    visited.push((h.clone(), tx));
                    let trunk = self.vertices[vi].1.transaction.trunk.clone();
                    let branch = self.vertices[vi].1.transaction.branch.clone();
                    stack.push(branch);
                    stack.push(trunk);
                    analyzed.push(h);
                    proof {
                        let vii = vi as int;
                        assert(analyzed@ == analyzed_pre.push(analyzed@.last()));
                        assert(analyzed@.last()@ == visited@.last().0@);
                        assert(cand[1 + nv + vii] == self.vertices_seq()[vii].1.transaction.trunk@);
                        assert(cand[1 + 2 * nv + vii] == self.vertices_seq()[
                        vii].1.transaction.branch@);
                        assert(cand.contains(cand[1 + nv + vii]));
                        assert(cand.contains(cand[1 + 2 * nv + vii]));
                        assert forall|i: int| 0 <= i < analyzed@.len() implies cand.contains(
                            (#[trigger] analyzed@[i])@,
                        ) by {
                            if i < analyzed_pre.len() {
                                assert(analyzed@[i] == analyzed_pre[i]);
                            }
                        }
                        assert forall|i: int, j: int|
                            0 <= i < j < analyzed@.len() implies (#[trigger] analyzed@[i])@ != (
                        #[trigger] analyzed@[j])@ by {
                            if j == analyzed@.len() - 1 {
                                assert(!hash_views(analyzed_pre).contains(h@));
                                assert(hash_views(analyzed_pre)[i] == analyzed@[i]@);
                            }
                        }
                        assert forall|l: int| 0 <= l < visited@.len() implies hash_views(
                            analyzed@,
                        ).contains((#[trigger] visited@[l]).0@) by {
                            if l < visited_pre.len() {
                                let a = choose|a: int|
                                    0 <= a < analyzed_pre.len() && hash_views(analyzed_pre)[a]
                                        == visited_pre[l].0@;
                                assert(hash_views(analyzed@)[a] == visited@[l].0@);
                            } else {
                                assert(hash_views(analyzed@)[analyzed@.len() - 1] == visited@[
                                l].0@);
                            }
                        }
                        assert forall|m: int| 0 <= m < missing@.len() implies hash_views(
                            analyzed@,
                        ).contains((#[trigger] missing@[m])@) by {
                            let a = choose|a: int|
                                0 <= a < analyzed_pre.len() && hash_views(analyzed_pre)[a]
                                    == missing@[m]@;
                            assert(hash_views(analyzed@)[a] == missing@[m]@);
                        }
                        assert forall|l1: int, l2: int|
                            0 <= l1 < l2 < visited@.len() implies (#[trigger] visited@[l1]).0@
                            != (#[trigger] visited@[l2]).0@ by {
                            if l2 == visited@.len() - 1 {
                                let a = choose|a: int|
                                    0 <= a < analyzed_pre.len() && hash_views(analyzed_pre)[a]
                                        == visited_pre[l1].0@;
                                assert(analyzed_pre[a]@ == visited@[l1].0@);
                                assert(!hash_views(analyzed_pre).contains(h@));
                            }
                        }
                        assert forall|a: int|
                            0 <= a < analyzed@.len() && self.contains_tx(
                                (#[trigger] analyzed@[a])@,
                            ) implies visit_hashes(visited@).contains(analyzed@[a]@) by {
                            if a < analyzed_pre.len() {
                                let l = choose|l: int|
                                    0 <= l < visit_hashes(visited_pre).len() && visit_hashes(
                                        visited_pre,
                                    )[l] == analyzed_pre[a]@;
                                assert(visit_hashes(visited@)[l] == analyzed@[a]@);
                            } else {
                                assert(visit_hashes(visited@)[visited@.len() - 1] == analyzed@[
                                a]@);
                            }
                        }
                        if !hash_views(analyzed@).contains(root@) {
                            assert(hash_views(analyzed@)[analyzed@.len() - 1] == h@);
                            if hash_views(analyzed_pre).contains(root@) {
                                let a = choose|a: int|
                                    0 <= a < analyzed_pre.len() && hash_views(analyzed_pre)[a]
                                        == root@;
                                assert(hash_views(analyzed@)[a] == root@);
                            }
                            assert(hash_views(stack_pre).contains(root@));
                            assert(h@ != root@);
                            let j = choose|j: int|
                                0 <= j < stack_pre.len() && hash_views(stack_pre)[j] == root@;
                            assert(j < stack_pre.len() - 1);
                            assert(stack@[j] == stack_pre[j]);
                            assert(hash_views(stack@)[j] == root@);
                        }
                        lemma_distinct_in_seq(hash_views(analyzed@), cand);
                        iters = old_iters + 1;
                        assert forall|f: nat| f >= iters implies #[trigger]
                            self.approvee_walk_model(
                            seq![root@],
                            Seq::<Seq<u8>>::empty(),
                            Seq::<Seq<u8>>::empty(),
                            Seq::<Seq<u8>>::empty(),
                            f,
                        ) == self.approvee_walk_model(
                            hash_views(stack@),
                            hash_views(analyzed@),
                            visit_hashes(visited@),
                            hash_views(missing@),
                            (f - iters) as nat,
                        ) by {
                            let g = (f - old_iters) as nat;
                            assert(self.approvee_walk_model(
                                seq![root@],
                                Seq::<Seq<u8>>::empty(),
                                Seq::<Seq<u8>>::empty(),
                                Seq::<Seq<u8>>::empty(),
                                f,
                            ) == self.approvee_walk_model(
                                hash_views(stack_pre),
                                hash_views(analyzed_pre),
                                visited_pre_views,
                                missing_pre_views,
                                g,
                            ));
                            assert(hash_views(stack_pre).last() == h@);
                            assert(!hash_views(analyzed_pre).contains(h@));
                            assert(self.contains_tx(h@));
                            assert(self.tx_of(h@) == self.vertices_seq()[vii].1.transaction);
                            assert(hash_views(stack@) =~= hash_views(stack_pre).drop_last().push(
                                self.tx_of(h@).branch@,
                            ).push(self.tx_of(h@).trunk@));
                            assert(hash_views(analyzed@) =~= hash_views(analyzed_pre).push(h@));
                            assert(visit_hashes(visited@) =~= visited_pre_views.push(h@));
                            assert(hash_views(missing@) == missing_pre_views);
                            assert(self.approvee_walk_model(
                                hash_views(stack_pre),
                                hash_views(analyzed_pre),
                                visited_pre_views,
                                missing_pre_views,
                                g,
                            ) == self.approvee_walk_model(
                                hash_views(stack@),
                                hash_views(analyzed@),
                                visit_hashes(visited@),
                                hash_views(missing@),
                                (g - 1) as nat,
                            ));
                        }
                    }
                },
                None => {
                    let sep = self.is_solid_entry_point(&h);
                    if !sep {
                        missing.push(h.clone());
                    }
                    analyzed.push(h);
                    proof {
                        assert(analyzed@ == analyzed_pre.push(analyzed@.last()));
                        assert forall|i: int| 0 <= i < analyzed@.len() implies cand.contains(
                            (#[trigger] analyzed@[i])@,
                        ) by {
                            if i < analyzed_pre.len() {
                                assert(analyzed@[i] == analyzed_pre[i]);
                            }
                        }
                        assert forall|i: int, j: int|
                            0 <= i < j < analyzed@.len() implies (#[trigger] analyzed@[i])@ != (
                        #[trigger] analyzed@[j])@ by {
                            if j == analyzed@.len() - 1 {
                                assert(!hash_views(analyzed_pre).contains(h@));
                                assert(hash_views(analyzed_pre)[i] == analyzed@[i]@);
                            }
                        }
                        assert forall|l: int| 0 <= l < visited@.len() implies hash_views(
                            analyzed@,
                        ).contains((#[trigger] visited@[l]).0@) by {
                            let a = choose|a: int|
                                0 <= a < analyzed_pre.len() && hash_views(analyzed_pre)[a]
                                    == visited@[l].0@;
                            assert(hash_views(analyzed@)[a] == visited@[l].0@);
                        }
                        assert forall|m: int| 0 <= m < missing@.len() implies hash_views(
                            analyzed@,
                        ).contains((#[trigger] missing@[m])@) by {
                            if m < missing_pre_views.len() {
                                let a = choose|a: int|
                                    0 <= a < analyzed_pre.len() && hash_views(analyzed_pre)[a]
                                        == missing@[m]@;
                                assert(hash_views(analyzed@)[a] == missing@[m]@);
                            } else {
                                assert(missing@[m]@ == h@);
                                assert(hash_views(analyzed@)[analyzed@.len() - 1] == h@);
                            }
                        }
                        assert forall|m1: int, m2: int|
                            0 <= m1 < m2 < missing@.len() implies (#[trigger] missing@[m1])@
                            != (#[trigger] missing@[m2])@ by {
                            if m2 == missing@.len() - 1 && missing@.len() > missing_pre_views.len() {
                                let a = choose|a: int|
                                    0 <= a < analyzed_pre.len() && hash_views(analyzed_pre)[a]
                                        == missing@[m1]@;
                                assert(!hash_views(analyzed_pre).contains(h@));
                                assert(missing@[m2]@ == h@);
                            }
                        }
                        assert forall|a: int|
                            0 <= a < analyzed@.len() && self.contains_tx(
                                (#[trigger] analyzed@[a])@,
                            ) implies visit_hashes(visited@).contains(analyzed@[a]@) by {
                            assert(a < analyzed_pre.len());
                        }
                        if !hash_views(analyzed@).contains(root@) {
                            assert(hash_views(analyzed@)[analyzed@.len() - 1] == h@);
                            if hash_views(analyzed_pre).contains(root@) {
                                let a = choose|a: int|
                                    0 <= a < analyzed_pre.len() && hash_views(analyzed_pre)[a]
                                        == root@;
                                assert(hash_views(analyzed@)[a] == root@);
                            }
                            assert(hash_views(stack_pre).contains(root@));
                            assert(h@ != root@);
                            let j = choose|j: int|
                                0 <= j < stack_pre.len() && hash_views(stack_pre)[j] == root@;
                            assert(j < stack_pre.len() - 1);
                            assert(hash_views(stack@)[j] == root@);
                        }
                        lemma_distinct_in_seq(hash_views(analyzed@), cand);
                        iters = old_iters + 1;
                        assert forall|f: nat| f >= iters implies #[trigger]
                            self.approvee_walk_model(
                            seq![root@],
                            Seq::<Seq<u8>>::empty(),
                            Seq::<Seq<u8>>::empty(),
                            Seq::<Seq<u8>>::empty(),
                            f,
                        ) == self.approvee_walk_model(
                            hash_views(stack@),
                            hash_views(analyzed@),
                            visit_hashes(visited@),
                            hash_views(missing@),
                            (f - iters) as nat,
                        ) by {
                            let g = (f - old_iters) as nat;
                            assert(self.approvee_walk_model(
                                seq![root@],
                                Seq::<Seq<u8>>::empty(),
                                Seq::<Seq<u8>>::empty(),
                                Seq::<Seq<u8>>::empty(),
                                f,
                            ) == self.approvee_walk_model(
                                hash_views(stack_pre),
                                hash_views(analyzed_pre),
                                visited_pre_views,
                                missing_pre_views,
                                g,
                            ));
                            assert(hash_views(stack_pre).last() == h@);
                            assert(hash_views(stack_pre).drop_last() =~= hash_views(stack@));
                            assert(!hash_views(analyzed_pre).contains(h@));
                            assert(!self.contains_tx(h@));
                            assert(hash_views(analyzed@) =~= hash_views(analyzed_pre).push(h@));
                            assert(visit_hashes(visited@) == visited_pre_views);
                            if sep {
                                assert(self.is_sep(h@));
                                assert(hash_views(missing@) == missing_pre_views);
                            } else {
                                assert(!self.is_sep(h@));
                                assert(hash_views(missing@) =~= missing_pre_views.push(h@));
                            }
                            assert(self.approvee_walk_model(
                                hash_views(stack_pre),
                                hash_views(analyzed_pre),
                                visited_pre_views,
                                missing_pre_views,
                                g,
                            ) == self.approvee_walk_model(
                                hash_views(stack@),
                                hash_views(analyzed@),
                                visit_hashes(visited@),
                                hash_views(missing@),
                                (g - 1) as nat,
                            ));
                        }
                    }
                },
            }
        }
        proof {
            if self.contains_tx(root@) {
                assert(hash_views(stack@).len() == 0);
                assert(hash_views(analyzed@).contains(root@));
                let a = choose|a: int|
                    0 <= a < analyzed@.len() && hash_views(analyzed@)[a] == root@;
                assert(analyzed@[a]@ == root@);
                assert(visit_hashes(visited@).contains(root@));
                let l = choose|l: int|
                    0 <= l < visit_hashes(visited@).len() && visit_hashes(visited@)[l] == root@;
            }
            assert(hash_views(stack@).len() == 0);
            assert(self.approvee_walk_model(
                hash_views(stack@),
                hash_views(analyzed@),
                visit_hashes(visited@),
                hash_views(missing@),
                0,
            ) == Some((visit_hashes(visited@), hash_views(missing@))));
            assert(self.approvee_walk_model(
                seq![root@],
                Seq::<Seq<u8>>::empty(),
                Seq::<Seq<u8>>::empty(),
                Seq::<Seq<u8>>::empty(),
                iters,
            ) == Some((visit_hashes(visited@), hash_views(missing@))));
        }
        (visited, missing)
    }
}

impl Tangle {
    /// The post-order approver walk, step by step: look at the top hash;
    /// when absent, report it unless it is a solid entry point and pop it;
    /// when both its predecessors are analyzed, emit and pop it; otherwise
    /// descend into the unanalyzed trunk first, then the branch, abandoning
    /// the vertex instead when that predecessor already lies on the path
    /// (a reference cycle).  `fuel` bounds the steps; a run that would
    /// need more returns nothing.  This is the functional meaning of
    /// `walk_approvers_post_order_dfs`.
    pub open spec fn approver_walk_model(
        &self,
        stack: Seq<Seq<u8>>,
        analyzed: Seq<Seq<u8>>,
        vis: Seq<Seq<u8>>,
        mis: Seq<Seq<u8>>,
        skp: Seq<Seq<u8>>,
        fuel: nat,
    ) -> Option<(Seq<Seq<u8>>, Seq<Seq<u8>>, Seq<Seq<u8>>)>
        decreases fuel,
    {
        if stack.len() == 0 {
            Some((vis, mis, skp))
        } else if fuel == 0 {
            None
        } else {
            let h = stack.last();
            let rest = stack.drop_last();
            if !self.contains_tx(h) {
                if self.is_sep(h) {
                    self.approver_walk_model(rest, analyzed.push(h), vis, mis, skp, (fuel - 1) as nat)
                } else {
                    self.approver_walk_model(
                        rest,
                        analyzed.push(h),
                        vis,
                        mis.push(h),
                        skp,
                        (fuel - 1) as nat,
                    )
                }
            } else {
                let tr = self.tx_of(h).trunk@;
                let br = self.tx_of(h).branch@;
                if analyzed.contains(tr) && analyzed.contains(br) {
                    self.approver_walk_model(
                        rest,
                        analyzed.push(h),
                        vis.push(h),
                        mis,
                        skp,
                        (fuel - 1) as nat,
                    )
                } else if !analyzed.contains(tr) {
                    if stack.contains(tr) {
                        self.approver_walk_model(
                            rest,
                            analyzed.push(h),
                            vis,
                            mis,
                            skp.push(h),
                            (fuel - 1) as nat,
                        )
                    } else {
                        self.approver_walk_model(
                            stack.push(tr),
                            analyzed,
                            vis,
                            mis,
                            skp,
                            (fuel - 1) as nat,
                        )
                    }
                } else {
                    if stack.contains(br) {
                        self.approver_walk_model(
                            rest,
                            analyzed.push(h),
                            vis,
                            mis,
                            skp.push(h),
                            (fuel - 1) as nat,
                        )
                    } else {
                        self.approver_walk_model(
                            stack.push(br),
                            analyzed,
                            vis,
                            mis,
                            skp,
                            (fuel - 1) as nat,
                        )
                    }
                }
            }
        }
    }

    /// Law: the post-order walk model is a function of the start state
    /// alone; any two fuels large enough to finish agree.
    pub proof fn lemma_approver_walk_model_fuel(
        &self,
        stack: Seq<Seq<u8>>,
        analyzed: Seq<Seq<u8>>,
        vis: Seq<Seq<u8>>,
        mis: Seq<Seq<u8>>,
        skp: Seq<Seq<u8>>,
        f1: nat,
        f2: nat,
    )
        requires
            self.approver_walk_model(stack, analyzed, vis, mis, skp, f1) is Some,
            self.approver_walk_model(stack, analyzed, vis, mis, skp, f2) is Some,
        ensures
            self.approver_walk_model(stack, analyzed, vis, mis, skp, f1)
                == self.approver_walk_model(stack, analyzed, vis, mis, skp, f2),
        decreases f1,
    {
        if stack.len() > 0 {
            let h = stack.last();
            let rest = stack.drop_last();
            let g1 = (f1 - 1) as nat;
            let g2 = (f2 - 1) as nat;
            if !self.contains_tx(h) {
                if self.is_sep(h) {
                    self.lemma_approver_walk_model_fuel(rest, analyzed.push(h), vis, mis, skp, g1, g2);
                } else {
                    self.lemma_approver_walk_model_fuel(
                        rest,
                        analyzed.push(h),
                        vis,
                        mis.push(h),
                        skp,
                        g1,
                        g2,
                    );
                }
            } else {
                let tr = self.tx_of(h).trunk@;
                let br = self.tx_of(h).branch@;
                if analyzed.contains(tr) && analyzed.contains(br) {
                    self.lemma_approver_walk_model_fuel(
                        rest,
                        analyzed.push(h),
                        vis.push(h),
                        mis,
                        skp,
                        g1,
                        g2,
                    );
                } else if !analyzed.contains(tr) {
                    if stack.contains(tr) {
                        self.lemma_approver_walk_model_fuel(
                            rest,
                            analyzed.push(h),
                            vis,
                            mis,
                            skp.push(h),
                            g1,
                            g2,
                        );
                    } else {
                        self.lemma_approver_walk_model_fuel(
                            stack.push(tr),
                            analyzed,
                            vis,
                            mis,
                            skp,
                            g1,
                            g2,
                        );
                    }
                } else {
                    if stack.contains(br) {
                        self.lemma_approver_walk_model_fuel(
                            rest,
                            analyzed.push(h),
                            vis,
                            mis,
                            skp.push(h),
                            g1,
                            g2,
                        );
                    } else {
                        self.lemma_approver_walk_model_fuel(
                            stack.push(br),
                            analyzed,
                            vis,
                            mis,
                            skp,
                            g1,
                            g2,
                        );
                    }
                }
            }
        }
    }
}

impl Tangle {
    /// The post-order step relation: every predecessor of an emitted
    /// vertex was dealt with before it, by being emitted earlier, by not
    /// being stored, or by being abandoned on a reference cycle.
    pub open spec fn predecessor_done(
        &self,
        visited: Seq<(crate::hash::Hash, Transaction)>,
        l: int,
        x: Seq<u8>,
        skipped: Seq<crate::hash::Hash>,
    ) -> bool {
        ||| exists|l2: int| 0 <= l2 < l && (#[trigger] visited[l2]).0@ == x
        ||| !self.contains_tx(x)
        ||| hash_views(skipped).contains(x)
    }

    /// Walks ancestors from `root` and emits every vertex after both of
    /// its predecessors, trunk explored before branch.  Returns the
    /// emitted transactions in post order, the hashes that were referenced
    /// but are neither stored nor solid entry points, and the vertices
    /// abandoned because their references loop; a well-formed store yields
    /// none of the latter.
    #[verifier::rlimit(100)]
    pub fn walk_approvers_post_order_dfs(&self, root: &crate::hash::Hash) -> (r: (
        Vec<(crate::hash::Hash, Transaction)>,
        Vec<crate::hash::Hash>,
        Vec<crate::hash::Hash>,
    ))
        requires
            self.wf(),
            root.wf(),
        ensures
            forall|l: int|
                0 <= l < r.0@.len() ==> self.contains_tx((#[trigger] r.0@[l]).0@) && tx_eq(
                    r.0@[l].1,
                    self.tx_of(r.0@[l].0@),
                ),
            forall|l1: int, l2: int| 0 <= l1 < l2 < r.0@.len() ==> r.0@[l1].0@ != r.0@[l2].0@,
            forall|m: int|
                0 <= m < r.1@.len() ==> !self.contains_tx((#[trigger] r.1@[m])@) && !self.is_sep(
                    r.1@[m]@,
                ),
            forall|m1: int, m2: int| 0 <= m1 < m2 < r.1@.len() ==> r.1@[m1]@ != r.1@[m2]@,
            forall|l: int|
                0 <= l < r.0@.len() ==> self.predecessor_done(
                    r.0@,
                    l,
                    self.tx_of((#[trigger] r.0@[l]).0@).trunk@,
                    r.2@,
                ) && self.predecessor_done(r.0@, l, self.tx_of(r.0@[l].0@).branch@, r.2@),
            self.contains_tx(root@) ==> (r.0@.len() > 0 && r.0@[r.0@.len() - 1].0@ == root@)
                || hash_views(r.2@).contains(root@),
            !self.contains_tx(root@) ==> r.0@.len() == 0,
            exists|fuel: nat|
                self.approver_walk_model(
                    seq![root@],
                    Seq::<Seq<u8>>::empty(),
                    Seq::<Seq<u8>>::empty(),
                    Seq::<Seq<u8>>::empty(),
                    Seq::<Seq<u8>>::empty(),
                    fuel,
                ) == Some((visit_hashes(r.0@), hash_views(r.1@), hash_views(r.2@))),
    {
        let ghost cand = self.walk_candidates(root@);
        let ghost nv = self.vertices_seq().len() as int;
        let mut visited: Vec<(crate::hash::Hash, Transaction)> = Vec::new();
        let mut missing: Vec<crate::hash::Hash> = Vec::new();
        let mut skipped: Vec<crate::hash::Hash> = Vec::new();
        let mut analyzed: Vec<crate::hash::Hash> = Vec::new();
        let mut stack: Vec<crate::hash::Hash> = Vec::new();
        stack.push(root.clone());
        let ghost mut iters: nat = 0;
        proof {
            assert(cand[0] == root@);
            assert(hash_views(stack@)[0] == root@);
            assert(hash_views(stack@) =~= seq![root@]);
            assert(hash_views(analyzed@) =~= Seq::<Seq<u8>>::empty());
            assert(visit_hashes(visited@) =~= Seq::<Seq<u8>>::empty());
            assert(hash_views(missing@) =~= Seq::<Seq<u8>>::empty());
            assert(hash_views(skipped@) =~= Seq::<Seq<u8>>::empty());
        }
        while stack.len() > 0
            invariant
                self.wf(),
                root.wf(),
                cand == self.walk_candidates(root@),
                nv == self.vertices_seq().len(),
                cand.len() == 1 + 3 * nv,
                forall|i: int| 0 <= i < stack@.len() ==> cand.contains((#[trigger] stack@[i])@),
                forall|i: int, j: int|
                    0 <= i < j < stack@.len() ==> (#[trigger] stack@[i])@ != (
                    #[trigger] stack@[j])@,
                forall|i: int|
                    0 <= i < stack@.len() ==> !hash_views(analyzed@).contains(
                        (#[trigger] stack@[i])@,
                    ),
                stack@.len() > 0 ==> stack@[0]@ == root@,
                stack@.len() > 1 ==> self.contains_tx(root@),
                visited@.len() > 0 ==> self.contains_tx(root@),
                forall|i: int| 0 <= i < analyzed@.len() ==> cand.contains((#[trigger] analyzed@[i])@),
                forall|i: int, j: int|
                    0 <= i < j < analyzed@.len() ==> (#[trigger] analyzed@[i])@ != (
                    #[trigger] analyzed@[j])@,
                forall|l: int|
                    0 <= l < visited@.len() ==> self.contains_tx((#[trigger] visited@[l]).0@)
                        && tx_eq(visited@[l].1, self.tx_of(visited@[l].0@)),
                forall|l: int|
                    0 <= l < visited@.len() ==> hash_views(analyzed@).contains(
                        (#[trigger] visited@[l]).0@,
                    ),
                forall|l1: int, l2: int|
                    0 <= l1 < l2 < visited@.len() ==> (#[trigger] visited@[l1]).0@ != (
                    #[trigger] visited@[l2]).0@,
                forall|m: int|
                    0 <= m < missing@.len() ==> !self.contains_tx((#[trigger] missing@[m])@)
                        && !self.is_sep(missing@[m]@),
                forall|m: int|
                    0 <= m < missing@.len() ==> hash_views(analyzed@).contains(
                        (#[trigger] missing@[m])@,
                    ),
                forall|m1: int, m2: int|
                    0 <= m1 < m2 < missing@.len() ==> (#[trigger] missing@[m1])@ != (
                    #[trigger] missing@[m2])@,
                forall|l: int|
                    0 <= l < visited@.len() ==> self.predecessor_done(
                        visited@,
                        l,
                        self.tx_of((#[trigger] visited@[l]).0@).trunk@,
                        skipped@,
                    ) && self.predecessor_done(
                        visited@,
                        l,
                        self.tx_of(visited@[l].0@).branch@,
                        skipped@,
                    ),
                forall|a: int|
                    0 <= a < analyzed@.len() ==> visit_hashes(visited@).contains(
                        (#[trigger] analyzed@[a])@,
                    ) || !self.contains_tx(analyzed@[a]@) || hash_views(skipped@).contains(
                        analyzed@[a]@,
                    ),
                hash_views(analyzed@).contains(root@) ==> stack@.len() == 0 && ((visited@.len()
                    > 0 && visited@[visited@.len() - 1].0@ == root@) || !self.contains_tx(root@)
                    || hash_views(skipped@).contains(root@)),
                hash_views(analyzed@).contains(root@) || (stack@.len() > 0 && stack@[0]@ == root@),
                forall|f: nat|
                    f >= iters ==> #[trigger] self.approver_walk_model(
                        seq![root@],
                        Seq::<Seq<u8>>::empty(),
                        Seq::<Seq<u8>>::empty(),
                        Seq::<Seq<u8>>::empty(),
                        Seq::<Seq<u8>>::empty(),
                        f,
                    ) == self.approver_walk_model(
                        hash_views(stack@),
                        hash_views(analyzed@),
                        visit_hashes(visited@),
                        hash_views(missing@),
                        hash_views(skipped@),
                        (f - iters) as nat,
                    ),
            decreases 1 + 3 * nv - analyzed@.len(), 2 + 3 * nv - stack@.len(),
        {
            proof {
                lemma_distinct_in_seq(hash_views(analyzed@), cand);
                lemma_distinct_in_seq(hash_views(stack@), cand);
            }
            let ghost stack_pre = stack@;
            let ghost analyzed_pre = analyzed@;
            let ghost skipped_pre = skipped@;
            let ghost visited_pre = visited@;
            let ghost missing_pre = missing@;
            let ghost old_iters = iters;
            let top = stack.len() - 1;
            let h = stack[top].clone();
            let found = self.find_vertex(&h);
            match found {
                None => {
                    let sep = self.is_solid_entry_point(&h);
                    if !sep {
                        missing.push(h.clone());
                    }
                    analyzed.push(h);
                    stack.pop();
                    proof {
                        assert(analyzed@ == analyzed_pre.push(analyzed@.last()));
                        assert(analyzed@.last()@ == stack_pre[top as int]@);
                        assert(hash_views(analyzed@)[analyzed@.len() - 1] == stack_pre[
                        top as int]@);
                        assert forall|i: int| 0 <= i < analyzed@.len() implies cand.contains(
                            (#[trigger] analyzed@[i])@,
                        ) by {
                            if i < analyzed_pre.len() {
                                assert(analyzed@[i] == analyzed_pre[i]);
                            } else {
                                assert(cand.contains(stack_pre[top as int]@));
                            }
                        }
                        assert forall|i: int, j: int|
                            0 <= i < j < analyzed@.len() implies (#[trigger] analyzed@[i])@ != (
                        #[trigger] analyzed@[j])@ by {
                            if j == analyzed@.len() - 1 {
                                assert(!hash_views(analyzed_pre).contains(analyzed@[j]@));
                                assert(hash_views(analyzed_pre)[i] == analyzed@[i]@);
                            }
                        }
                        assert forall|i: int| 0 <= i < stack@.len() implies !hash_views(
                            analyzed@,
                        ).contains((#[trigger] stack@[i])@) by {
                            assert(stack@[i] == stack_pre[i]);
                            if hash_views(analyzed@).contains(stack@[i]@) {
                                let a = choose|a: int|
                                    0 <= a < analyzed@.len() && hash_views(analyzed@)[a]
                                        == stack@[i]@;
                                if a < analyzed_pre.len() {
                                    assert(hash_views(analyzed_pre)[a] == stack@[i]@);
                                } else {
                                    assert(stack_pre[i]@ == stack_pre[top as int]@);
                                }
                            }
                        }
                        assert forall|l: int| 0 <= l < visited@.len() implies hash_views(
                            analyzed@,
                        ).contains((#[trigger] visited@[l]).0@) by {
                            let a = choose|a: int|
                                0 <= a < analyzed_pre.len() && hash_views(analyzed_pre)[a]
                                    == visited@[l].0@;
                            assert(hash_views(analyzed@)[a] == visited@[l].0@);
                        }
                        assert forall|m: int| 0 <= m < missing@.len() implies hash_views(
                            analyzed@,
                        ).contains((#[trigger] missing@[m])@) by {
                            if m < missing_pre.len() {
                                let a = choose|a: int|
                                    0 <= a < analyzed_pre.len() && hash_views(analyzed_pre)[a]
                                        == missing@[m]@;
                                assert(hash_views(analyzed@)[a] == missing@[m]@);
                            } else {
                                assert(missing@[m]@ == h@);
                                assert(hash_views(analyzed@)[analyzed@.len() - 1] == h@);
                            }
                        }
                        assert forall|m1: int, m2: int|
                            0 <= m1 < m2 < missing@.len() implies (#[trigger] missing@[m1])@
                            != (#[trigger] missing@[m2])@ by {
                            if m2 == missing@.len() - 1 && missing@.len() > missing_pre.len() {
                                let a = choose|a: int|
                                    0 <= a < analyzed_pre.len() && hash_views(analyzed_pre)[a]
                                        == missing@[m1]@;
                                assert(!hash_views(analyzed_pre).contains(h@));
                                assert(missing@[m2]@ == h@);
                            }
                        }
                        assert forall|a: int| 0 <= a < analyzed@.len() implies visit_hashes(
                            visited@,
                        ).contains((#[trigger] analyzed@[a])@) || !self.contains_tx(analyzed@[a]@)
                            || hash_views(skipped@).contains(analyzed@[a]@) by {
                            if a < analyzed_pre.len() {
                                assert(analyzed@[a] == analyzed_pre[a]);
                            }
                        }
                        if hash_views(analyzed@).contains(root@) && stack@.len() > 0 {
                            let a = choose|a: int|
                                0 <= a < analyzed@.len() && hash_views(analyzed@)[a] == root@;
                            if a < analyzed_pre.len() {
                                assert(hash_views(analyzed_pre)[a] == root@);
                            } else {
                                assert(stack_pre[top as int]@ == root@);
                                assert(stack_pre[0]@ == root@);
                                assert(top as int == 0);
                            }
                        }
                        lemma_distinct_in_seq(hash_views(analyzed@), cand);
                        iters = old_iters + 1;
                        assert forall|f: nat| f >= iters implies #[trigger] self.approver_walk_model(
                            seq![root@],
                            Seq::<Seq<u8>>::empty(),
                            Seq::<Seq<u8>>::empty(),
                            Seq::<Seq<u8>>::empty(),
                            Seq::<Seq<u8>>::empty(),
                            f,
                        ) == self.approver_walk_model(
                            hash_views(stack@),
                            hash_views(analyzed@),
                            visit_hashes(visited@),
                            hash_views(missing@),
                            hash_views(skipped@),
                            (f - iters) as nat,
                        ) by {
                            let g = (f - old_iters) as nat;
                            assert(self.approver_walk_model(
                                seq![root@],
                                Seq::<Seq<u8>>::empty(),
                                Seq::<Seq<u8>>::empty(),
                                Seq::<Seq<u8>>::empty(),
                                Seq::<Seq<u8>>::empty(),
                                f,
                            ) == self.approver_walk_model(
                                hash_views(stack_pre),
                                hash_views(analyzed_pre),
                                visit_hashes(visited_pre),
                                hash_views(missing_pre),
                                hash_views(skipped_pre),
                                g,
                            ));
                            assert(h@ == stack_pre[top as int]@);
                            assert(hash_views(stack_pre).last() == h@);
                            assert(!self.contains_tx(h@));
                            if sep {
                                assert(self.is_sep(h@));
                            } else {
                                assert(!self.is_sep(h@));
                            }
                            assert(hash_views(stack@) =~= hash_views(stack_pre).drop_last());
                            assert(hash_views(analyzed@) =~= hash_views(analyzed_pre).push(h@));
                            assert(visit_hashes(visited@) == visit_hashes(visited_pre));
                            if sep {
                                assert(hash_views(missing@) == hash_views(missing_pre));
                            } else {
                                assert(hash_views(missing@) =~= hash_views(missing_pre).push(h@));
                            }
                            assert(hash_views(skipped@) == hash_views(skipped_pre));
                            assert(self.approver_walk_model(
                                hash_views(stack_pre),
                                hash_views(analyzed_pre),
                                visit_hashes(visited_pre),
                                hash_views(missing_pre),
                                hash_views(skipped_pre),
                                g,
                            ) == self.approver_walk_model(
                                hash_views(stack@),
                                hash_views(analyzed@),
                                visit_hashes(visited@),
                                hash_views(missing@),
                                hash_views(skipped@),
                                (g - 1) as nat,
                            ));
                        }
                    }
                },
                Some(vi) => {
                    proof {
                        lemma_alist_at(self.vertices_seq(), vi as int);
                    }
                    let trunk = self.vertices[vi].1.transaction.trunk.clone();
                    let branch = self.vertices[vi].1.transaction.branch.clone();
                    let t_analyzed = Self::hashes_contain(&analyzed, &trunk);
                    let b_analyzed = Self::hashes_contain(&analyzed, &branch);
                    if t_analyzed && b_analyzed {
                        let tx = self.vertices[vi].1.transaction.clone();
                        visited.push((h.clone(), tx));
                        analyzed.push(h);
                        stack.pop();
                        proof {
                            assert(analyzed@ == analyzed_pre.push(analyzed@.last()));
                            assert(analyzed@.last()@ == stack_pre[top as int]@);
                            assert(hash_views(analyzed@)[analyzed@.len() - 1] == stack_pre[
                            top as int]@);
                            assert(visited@ == visited_pre.push(visited@.last()));
                            assert(visited@.last().0@ == stack_pre[top as int]@);
                            assert(visit_hashes(visited@)[visited@.len() - 1] == visited@.last().0@);
                            assert forall|i: int| 0 <= i < analyzed@.len() implies cand.contains(
                                (#[trigger] analyzed@[i])@,
                            ) by {
                                if i < analyzed_pre.len() {
                                    assert(analyzed@[i] == analyzed_pre[i]);
                                } else {
                                    assert(cand.contains(stack_pre[top as int]@));
                                }
                            }
                            assert forall|i: int, j: int|
                                0 <= i < j < analyzed@.len() implies (#[trigger] analyzed@[i])@
                                != (#[trigger] analyzed@[j])@ by {
                                if j == analyzed@.len() - 1 {
                                    assert(!hash_views(analyzed_pre).contains(analyzed@[j]@));
                                    assert(hash_views(analyzed_pre)[i] == analyzed@[i]@);
                                }
                            }
                            assert forall|i: int| 0 <= i < stack@.len() implies !hash_views(
                                analyzed@,
                            ).contains((#[trigger] stack@[i])@) by {
                                assert(stack@[i] == stack_pre[i]);
                                if hash_views(analyzed@).contains(stack@[i]@) {
                                    let a = choose|a: int|
                                        0 <= a < analyzed@.len() && hash_views(analyzed@)[a]
                                            == stack@[i]@;
                                    if a < analyzed_pre.len() {
                                        assert(hash_views(analyzed_pre)[a] == stack@[i]@);
                                    } else {
                                        assert(stack_pre[i]@ == stack_pre[top as int]@);
                                    }
                                }
                            }
                            assert forall|l: int| 0 <= l < visited@.len() implies hash_views(
                                analyzed@,
                            ).contains((#[trigger] visited@[l]).0@) by {
                                if l < visited_pre.len() {
                                    let a = choose|a: int|
                                        0 <= a < analyzed_pre.len() && hash_views(analyzed_pre)[a]
                                            == visited_pre[l].0@;
                                    assert(hash_views(analyzed@)[a] == visited@[l].0@);
                                } else {
                                    assert(hash_views(analyzed@)[analyzed@.len() - 1]
                                        == visited@[l].0@);
                                }
                            }
                            assert forall|m: int| 0 <= m < missing@.len() implies hash_views(
                                analyzed@,
                            ).contains((#[trigger] missing@[m])@) by {
                                let a = choose|a: int|
                                    0 <= a < analyzed_pre.len() && hash_views(analyzed_pre)[a]
                                        == missing@[m]@;
                                assert(hash_views(analyzed@)[a] == missing@[m]@);
                            }
                            assert forall|l1: int, l2: int|
                                0 <= l1 < l2 < visited@.len() implies (#[trigger] visited@[
                            l1]).0@ != (#[trigger] visited@[l2]).0@ by {
                                if l2 == visited@.len() - 1 {
                                    let a = choose|a: int|
                                        0 <= a < analyzed_pre.len() && hash_views(analyzed_pre)[a]
                                            == visited_pre[l1].0@;
                                    assert(analyzed_pre[a]@ == visited@[l1].0@);
                                    assert(!hash_views(analyzed_pre).contains(visited@[l2].0@));
                                }
                            }
                            assert forall|l: int|
                                0 <= l < visited@.len() implies self.predecessor_done(
                                visited@,
                                l,
                                self.tx_of((#[trigger] visited@[l]).0@).trunk@,
                                skipped@,
                            ) && self.predecessor_done(
                                visited@,
                                l,
                                self.tx_of(visited@[l].0@).branch@,
                                skipped@,
                            ) by {
                                if l < visited_pre.len() {
                                    assert(visited@[l] == visited_pre[l]);
                                    assert forall|x: Seq<u8>|
                                        self.predecessor_done(
                                            visited_pre,
                                            l,
                                            x,
                                            skipped@,
                                        ) implies self.predecessor_done(
                                        visited@,
                                        l,
                                        x,
                                        skipped@,
                                    ) by {
                                        if exists|l2: int|
                                            0 <= l2 < l && (#[trigger] visited_pre[l2]).0@ == x {
                                            let l2 = choose|l2: int|
                                                0 <= l2 < l && (#[trigger] visited_pre[l2]).0@
                                                    == x;
                                            assert(visited@[l2].0@ == x);
                                        }
                                    }
                                } else {
                                    let t = self.tx_of(visited@[l].0@).trunk@;
                                    let b = self.tx_of(visited@[l].0@).branch@;
                                    assert(hash_views(analyzed_pre).contains(t));
                                    assert(hash_views(analyzed_pre).contains(b));
                                    assert forall|x: Seq<u8>|
                                        hash_views(analyzed_pre).contains(
                                            x,
                                        ) implies self.predecessor_done(
                                        visited@,
                                        l,
                                        x,
                                        skipped@,
                                    ) by {
                                        let a = choose|a: int|
                                            0 <= a < analyzed_pre.len() && hash_views(
                                                analyzed_pre,
                                            )[a] == x;
                                        if visit_hashes(visited_pre).contains(x) {
                                            let l2 = choose|l2: int|
                                                0 <= l2 < visit_hashes(visited_pre).len()
                                                    && visit_hashes(visited_pre)[l2] == x;
                                            assert(visited@[l2].0@ == x);
                                        }
                                    }
                                }
                            }
                            assert forall|a: int|
                                0 <= a < analyzed@.len() implies visit_hashes(visited@).contains(
                                (#[trigger] analyzed@[a])@,
                            ) || !self.contains_tx(analyzed@[a]@) || hash_views(
                                skipped@,
                            ).contains(analyzed@[a]@) by {
                                if a < analyzed_pre.len() {
                                    assert(analyzed@[a] == analyzed_pre[a]);
                                    if visit_hashes(visited_pre).contains(analyzed@[a]@) {
                                        let l2 = choose|l2: int|
                                            0 <= l2 < visit_hashes(visited_pre).len()
                                                && visit_hashes(visited_pre)[l2] == analyzed@[a]@;
                                        assert(visit_hashes(visited@)[l2] == analyzed@[a]@);
                                    }
                                } else {
                                    assert(visit_hashes(visited@)[visited@.len() - 1]
                                        == analyzed@[a]@);
                                }
                            }
                            if hash_views(analyzed@).contains(root@) {
                                let a = choose|a: int|
                                    0 <= a < analyzed@.len() && hash_views(analyzed@)[a] == root@;
                                if a < analyzed_pre.len() {
                                    assert(hash_views(analyzed_pre)[a] == root@);
                                    assert(false);
                                } else {
                                    assert(stack_pre[top as int]@ == root@);
                                    assert(stack_pre[0]@ == root@);
                                    assert(top as int == 0);
                                    assert(visited@[visited@.len() - 1].0@ == root@);
                                }
                            }
                            lemma_distinct_in_seq(hash_views(analyzed@), cand);
                            iters = old_iters + 1;
                            assert forall|f: nat| f >= iters implies #[trigger] self.approver_walk_model(
                                seq![root@],
                                Seq::<Seq<u8>>::empty(),
                                Seq::<Seq<u8>>::empty(),
                                Seq::<Seq<u8>>::empty(),
                                Seq::<Seq<u8>>::empty(),
                                f,
                            ) == self.approver_walk_model(
                                hash_views(stack@),
                                hash_views(analyzed@),
                                visit_hashes(visited@),
                                hash_views(missing@),
                                hash_views(skipped@),
                                (f - iters) as nat,
                            ) by {
                                let g = (f - old_iters) as nat;
                                assert(self.approver_walk_model(
                                    seq![root@],
                                    Seq::<Seq<u8>>::empty(),
                                    Seq::<Seq<u8>>::empty(),
                                    Seq::<Seq<u8>>::empty(),
                                    Seq::<Seq<u8>>::empty(),
                                    f,
                                ) == self.approver_walk_model(
                                    hash_views(stack_pre),
                                    hash_views(analyzed_pre),
                                    visit_hashes(visited_pre),
                                    hash_views(missing_pre),
                                    hash_views(skipped_pre),
                                    g,
                                ));
                                assert(h@ == stack_pre[top as int]@);
                                assert(hash_views(stack_pre).last() == h@);
                                assert(self.contains_tx(h@));
                                assert(self.tx_of(h@) == self.vertices_seq()[vi as int].1.transaction);
                                assert(hash_views(analyzed_pre).contains(self.tx_of(h@).trunk@));
                                assert(hash_views(analyzed_pre).contains(self.tx_of(h@).branch@));
                                assert(hash_views(stack@) =~= hash_views(stack_pre).drop_last());
                                assert(hash_views(analyzed@) =~= hash_views(analyzed_pre).push(h@));
                                assert(visit_hashes(visited@) =~= visit_hashes(visited_pre).push(h@));
                                assert(hash_views(missing@) == hash_views(missing_pre));
                                assert(hash_views(skipped@) == hash_views(skipped_pre));
                                assert(self.approver_walk_model(
                                    hash_views(stack_pre),
                                    hash_views(analyzed_pre),
                                    visit_hashes(visited_pre),
                                    hash_views(missing_pre),
                                    hash_views(skipped_pre),
                                    g,
                                ) == self.approver_walk_model(
                                    hash_views(stack@),
                                    hash_views(analyzed@),
                                    visit_hashes(visited@),
                                    hash_views(missing@),
                                    hash_views(skipped@),
                                    (g - 1) as nat,
                                ));
                            }
                        }
                    } else if !t_analyzed {
                        if Self::hashes_contain(&stack, &trunk) {
                            // the child is on the walk's own path: a
                            // reference cycle, abandon this vertex
                            skipped.push(h.clone());
                            analyzed.push(h);
                            stack.pop();
                            proof {
                                assert(analyzed@ == analyzed_pre.push(analyzed@.last()));
                                assert(analyzed@.last()@ == stack_pre[top as int]@);
                                assert(hash_views(analyzed@)[analyzed@.len() - 1] == stack_pre[
                                top as int]@);
                                assert(skipped@ == skipped_pre.push(skipped@.last()));
                                assert(hash_views(skipped@)[skipped@.len() - 1] == stack_pre[
                                top as int]@);
                                assert forall|i: int|
                                    0 <= i < analyzed@.len() implies cand.contains(
                                    (#[trigger] analyzed@[i])@,
                                ) by {
                                    if i < analyzed_pre.len() {
                                        assert(analyzed@[i] == analyzed_pre[i]);
                                    } else {
                                        assert(cand.contains(stack_pre[top as int]@));
                                    }
                                }
                                assert forall|i: int, j: int|
                                    0 <= i < j < analyzed@.len() implies (#[trigger] analyzed@[
                                i])@ != (#[trigger] analyzed@[j])@ by {
                                    if j == analyzed@.len() - 1 {
                                        assert(!hash_views(analyzed_pre).contains(analyzed@[j]@));
                                        assert(hash_views(analyzed_pre)[i] == analyzed@[i]@);
                                    }
                                }
                                assert forall|i: int| 0 <= i < stack@.len() implies !hash_views(
                                    analyzed@,
                                ).contains((#[trigger] stack@[i])@) by {
                                    assert(stack@[i] == stack_pre[i]);
                                    if hash_views(analyzed@).contains(stack@[i]@) {
                                        let a = choose|a: int|
                                            0 <= a < analyzed@.len() && hash_views(analyzed@)[a]
                                                == stack@[i]@;
                                        if a < analyzed_pre.len() {
                                            assert(hash_views(analyzed_pre)[a] == stack@[i]@);
                                        } else {
                                            assert(stack_pre[i]@ == stack_pre[top as int]@);
                                        }
                                    }
                                }
                                assert forall|l: int| 0 <= l < visited@.len() implies hash_views(
                                    analyzed@,
                                ).contains((#[trigger] visited@[l]).0@) by {
                                    let a = choose|a: int|
                                        0 <= a < analyzed_pre.len() && hash_views(analyzed_pre)[a]
                                            == visited@[l].0@;
                                    assert(hash_views(analyzed@)[a] == visited@[l].0@);
                                }
                                assert forall|m: int| 0 <= m < missing@.len() implies hash_views(
                                    analyzed@,
                                ).contains((#[trigger] missing@[m])@) by {
                                    let a = choose|a: int|
                                        0 <= a < analyzed_pre.len() && hash_views(analyzed_pre)[a]
                                            == missing@[m]@;
                                    assert(hash_views(analyzed@)[a] == missing@[m]@);
                                }
                                assert forall|l: int|
                                    0 <= l < visited@.len() implies self.predecessor_done(
                                    visited@,
                                    l,
                                    self.tx_of((#[trigger] visited@[l]).0@).trunk@,
                                    skipped@,
                                ) && self.predecessor_done(
                                    visited@,
                                    l,
                                    self.tx_of(visited@[l].0@).branch@,
                                    skipped@,
                                ) by {
                                    assert forall|x: Seq<u8>|
                                        self.predecessor_done(
                                            visited@,
                                            l,
                                            x,
                                            skipped_pre,
                                        ) implies self.predecessor_done(
                                        visited@,
                                        l,
                                        x,
                                        skipped@,
                                    ) by {
                                        if hash_views(skipped_pre).contains(x) {
                                            let m2 = choose|m2: int|
                                                0 <= m2 < skipped_pre.len() && hash_views(
                                                    skipped_pre,
                                                )[m2] == x;
                                            assert(hash_views(skipped@)[m2] == x);
                                        }
                                    }
                                }
                                assert forall|a: int|
                                    0 <= a < analyzed@.len() implies visit_hashes(
                                    visited@,
                                ).contains((#[trigger] analyzed@[a])@) || !self.contains_tx(
                                    analyzed@[a]@,
                                ) || hash_views(skipped@).contains(analyzed@[a]@) by {
                                    if a < analyzed_pre.len() {
                                        assert(analyzed@[a] == analyzed_pre[a]);
                                        if hash_views(skipped_pre).contains(analyzed@[a]@) {
                                            let m2 = choose|m2: int|
                                                0 <= m2 < skipped_pre.len() && hash_views(
                                                    skipped_pre,
                                                )[m2] == analyzed@[a]@;
                                            assert(hash_views(skipped@)[m2] == analyzed@[a]@);
                                        }
                                    } else {
                                        assert(hash_views(skipped@)[skipped@.len() - 1]
                                            == analyzed@[a]@);
                                    }
                                }
                                if hash_views(analyzed@).contains(root@) {
                                    let a = choose|a: int|
                                        0 <= a < analyzed@.len() && hash_views(analyzed@)[a]
                                            == root@;
                                    if a < analyzed_pre.len() {
                                        assert(hash_views(analyzed_pre)[a] == root@);
                                        assert(false);
                                    } else {
                                        assert(stack_pre[top as int]@ == root@);
                                        assert(stack_pre[0]@ == root@);
                                        assert(top as int == 0);
                                        assert(hash_views(skipped@).contains(root@));
                                    }
                                }
                                lemma_distinct_in_seq(hash_views(analyzed@), cand);
                                iters = old_iters + 1;
                                assert forall|f: nat| f >= iters implies #[trigger] self.approver_walk_model(
                                    seq![root@],
                                    Seq::<Seq<u8>>::empty(),
                                    Seq::<Seq<u8>>::empty(),
                                    Seq::<Seq<u8>>::empty(),
                                    Seq::<Seq<u8>>::empty(),
                                    f,
                                ) == self.approver_walk_model(
                                    hash_views(stack@),
                                    hash_views(analyzed@),
                                    visit_hashes(visited@),
                                    hash_views(missing@),
                                    hash_views(skipped@),
                                    (f - iters) as nat,
                                ) by {
                                    let g = (f - old_iters) as nat;
                                    assert(self.approver_walk_model(
                                        seq![root@],
                                        Seq::<Seq<u8>>::empty(),
                                        Seq::<Seq<u8>>::empty(),
                                        Seq::<Seq<u8>>::empty(),
                                        Seq::<Seq<u8>>::empty(),
                                        f,
                                    ) == self.approver_walk_model(
                                        hash_views(stack_pre),
                                        hash_views(analyzed_pre),
                                        visit_hashes(visited_pre),
                                        hash_views(missing_pre),
                                        hash_views(skipped_pre),
                                        g,
                                    ));
                                    assert(h@ == stack_pre[top as int]@);
                                    assert(hash_views(stack_pre).last() == h@);
                                    assert(self.contains_tx(h@));
                                    assert(self.tx_of(h@) == self.vertices_seq()[vi as int].1.transaction);
                                    assert(!hash_views(analyzed_pre).contains(self.tx_of(h@).trunk@));
                                    assert(hash_views(stack_pre).contains(self.tx_of(h@).trunk@));
                                    assert(hash_views(stack@) =~= hash_views(stack_pre).drop_last());
                                    assert(hash_views(analyzed@) =~= hash_views(analyzed_pre).push(h@));
                                    assert(visit_hashes(visited@) == visit_hashes(visited_pre));
                                    assert(hash_views(missing@) == hash_views(missing_pre));
                                    assert(hash_views(skipped@) =~= hash_views(skipped_pre).push(h@));
                                    assert(self.approver_walk_model(
                                        hash_views(stack_pre),
                                        hash_views(analyzed_pre),
                                        visit_hashes(visited_pre),
                                        hash_views(missing_pre),
                                        hash_views(skipped_pre),
                                        g,
                                    ) == self.approver_walk_model(
                                        hash_views(stack@),
                                        hash_views(analyzed@),
                                        visit_hashes(visited@),
                                        hash_views(missing@),
                                        hash_views(skipped@),
                                        (g - 1) as nat,
                                    ));
                                }
                            }
                        } else {
                            stack.push(trunk);
                            proof {
                                let vii = vi as int;
                                assert(cand[1 + nv + vii] == self.vertices_seq()[
                                vii].1.transaction.trunk@);
                                assert(cand.contains(cand[1 + nv + vii]));
                                assert(stack@ == stack_pre.push(stack@.last()));
                                assert forall|i: int, j: int|
                                    0 <= i < j < stack@.len() implies (#[trigger] stack@[i])@
                                    != (#[trigger] stack@[j])@ by {
                                    if j == stack@.len() - 1 {
                                        assert(!hash_views(stack_pre).contains(stack@[j]@));
                                        assert(hash_views(stack_pre)[i] == stack@[i]@);
                                    }
                                }
                                lemma_distinct_in_seq(hash_views(stack@), cand);
                                iters = old_iters + 1;
                                assert forall|f: nat| f >= iters implies #[trigger] self.approver_walk_model(
                                    seq![root@],
                                    Seq::<Seq<u8>>::empty(),
                                    Seq::<Seq<u8>>::empty(),
                                    Seq::<Seq<u8>>::empty(),
                                    Seq::<Seq<u8>>::empty(),
                                    f,
                                ) == self.approver_walk_model(
                                    hash_views(stack@),
                                    hash_views(analyzed@),
                                    visit_hashes(visited@),
                                    hash_views(missing@),
                                    hash_views(skipped@),
                                    (f - iters) as nat,
                                ) by {
                                    let g = (f - old_iters) as nat;
                                    assert(self.approver_walk_model(
                                        seq![root@],
                                        Seq::<Seq<u8>>::empty(),
                                        Seq::<Seq<u8>>::empty(),
                                        Seq::<Seq<u8>>::empty(),
                                        Seq::<Seq<u8>>::empty(),
                                        f,
                                    ) == self.approver_walk_model(
                                        hash_views(stack_pre),
                                        hash_views(analyzed_pre),
                                        visit_hashes(visited_pre),
                                        hash_views(missing_pre),
                                        hash_views(skipped_pre),
                                        g,
                                    ));
                                    assert(h@ == stack_pre[top as int]@);
                                    assert(hash_views(stack_pre).last() == h@);
                                    assert(self.contains_tx(h@));
                                    assert(self.tx_of(h@) == self.vertices_seq()[vi as int].1.transaction);
                                    assert(!hash_views(analyzed_pre).contains(self.tx_of(h@).trunk@));
                                    assert(!hash_views(stack_pre).contains(self.tx_of(h@).trunk@));
                                    assert(hash_views(stack@) =~= hash_views(stack_pre).push(self.tx_of(h@).trunk@));
                                    assert(hash_views(analyzed@) == hash_views(analyzed_pre));
                                    assert(visit_hashes(visited@) == visit_hashes(visited_pre));
                                    assert(hash_views(missing@) == hash_views(missing_pre));
                                    assert(hash_views(skipped@) == hash_views(skipped_pre));
                                    assert(self.approver_walk_model(
                                        hash_views(stack_pre),
                                        hash_views(analyzed_pre),
                                        visit_hashes(visited_pre),
                                        hash_views(missing_pre),
                                        hash_views(skipped_pre),
                                        g,
                                    ) == self.approver_walk_model(
                                        hash_views(stack@),
                                        hash_views(analyzed@),
                                        visit_hashes(visited@),
                                        hash_views(missing@),
                                        hash_views(skipped@),
                                        (g - 1) as nat,
                                    ));
                                }
                            }
                        }
                    } else {
                        if Self::hashes_contain(&stack, &branch) {
                            // the child is on the walk's own path: a
                            // reference cycle, abandon this vertex
                            skipped.push(h.clone());
                            analyzed.push(h);
                            stack.pop();
                            proof {
                                assert(analyzed@ == analyzed_pre.push(analyzed@.last()));
                                assert(analyzed@.last()@ == stack_pre[top as int]@);
                                assert(hash_views(analyzed@)[analyzed@.len() - 1] == stack_pre[
                                top as int]@);
                                assert(skipped@ == skipped_pre.push(skipped@.last()));
                                assert(hash_views(skipped@)[skipped@.len() - 1] == stack_pre[
                                top as int]@);
                                assert forall|i: int|
                                    0 <= i < analyzed@.len() implies cand.contains(
                                    (#[trigger] analyzed@[i])@,
                                ) by {
                                    if i < analyzed_pre.len() {
                                        assert(analyzed@[i] == analyzed_pre[i]);
                                    } else {
                                        assert(cand.contains(stack_pre[top as int]@));
                                    }
                                }
                                assert forall|i: int, j: int|
                                    0 <= i < j < analyzed@.len() implies (#[trigger] analyzed@[
                                i])@ != (#[trigger] analyzed@[j])@ by {
                                    if j == analyzed@.len() - 1 {
                                        assert(!hash_views(analyzed_pre).contains(analyzed@[j]@));
                                        assert(hash_views(analyzed_pre)[i] == analyzed@[i]@);
                                    }
                                }
                                assert forall|i: int| 0 <= i < stack@.len() implies !hash_views(
                                    analyzed@,
                                ).contains((#[trigger] stack@[i])@) by {
                                    assert(stack@[i] == stack_pre[i]);
                                    if hash_views(analyzed@).contains(stack@[i]@) {
                                        let a = choose|a: int|
                                            0 <= a < analyzed@.len() && hash_views(analyzed@)[a]
                                                == stack@[i]@;
                                        if a < analyzed_pre.len() {
                                            assert(hash_views(analyzed_pre)[a] == stack@[i]@);
                                        } else {
                                            assert(stack_pre[i]@ == stack_pre[top as int]@);
                                        }
                                    }
                                }
                                assert forall|l: int| 0 <= l < visited@.len() implies hash_views(
                                    analyzed@,
                                ).contains((#[trigger] visited@[l]).0@) by {
                                    let a = choose|a: int|
                                        0 <= a < analyzed_pre.len() && hash_views(analyzed_pre)[a]
                                            == visited@[l].0@;
                                    assert(hash_views(analyzed@)[a] == visited@[l].0@);
                                }
                                assert forall|m: int| 0 <= m < missing@.len() implies hash_views(
                                    analyzed@,
                                ).contains((#[trigger] missing@[m])@) by {
                                    let a = choose|a: int|
                                        0 <= a < analyzed_pre.len() && hash_views(analyzed_pre)[a]
                                            == missing@[m]@;
                                    assert(hash_views(analyzed@)[a] == missing@[m]@);
                                }
                                assert forall|l: int|
                                    0 <= l < visited@.len() implies self.predecessor_done(
                                    visited@,
                                    l,
                                    self.tx_of((#[trigger] visited@[l]).0@).trunk@,
                                    skipped@,
                                ) && self.predecessor_done(
                                    visited@,
                                    l,
                                    self.tx_of(visited@[l].0@).branch@,
                                    skipped@,
                                ) by {
                                    assert forall|x: Seq<u8>|
                                        self.predecessor_done(
                                            visited@,
                                            l,
                                            x,
                                            skipped_pre,
                                        ) implies self.predecessor_done(
                                        visited@,
                                        l,
                                        x,
                                        skipped@,
                                    ) by {
                                        if hash_views(skipped_pre).contains(x) {
                                            let m2 = choose|m2: int|
                                                0 <= m2 < skipped_pre.len() && hash_views(
                                                    skipped_pre,
                                                )[m2] == x;
                                            assert(hash_views(skipped@)[m2] == x);
                                        }
                                    }
                                }
                                assert forall|a: int|
                                    0 <= a < analyzed@.len() implies visit_hashes(
                                    visited@,
                                ).contains((#[trigger] analyzed@[a])@) || !self.contains_tx(
                                    analyzed@[a]@,
                                ) || hash_views(skipped@).contains(analyzed@[a]@) by {
                                    if a < analyzed_pre.len() {
                                        assert(analyzed@[a] == analyzed_pre[a]);
                                        if hash_views(skipped_pre).contains(analyzed@[a]@) {
                                            let m2 = choose|m2: int|
                                                0 <= m2 < skipped_pre.len() && hash_views(
                                                    skipped_pre,
                                                )[m2] == analyzed@[a]@;
                                            assert(hash_views(skipped@)[m2] == analyzed@[a]@);
                                        }
                                    } else {
                                        assert(hash_views(skipped@)[skipped@.len() - 1]
                                            == analyzed@[a]@);
                                    }
                                }
                                if hash_views(analyzed@).contains(root@) {
                                    let a = choose|a: int|
                                        0 <= a < analyzed@.len() && hash_views(analyzed@)[a]
                                            == root@;
                                    if a < analyzed_pre.len() {
                                        assert(hash_views(analyzed_pre)[a] == root@);
                                        assert(false);
                                    } else {
                                        assert(stack_pre[top as int]@ == root@);
                                        assert(stack_pre[0]@ == root@);
                                        assert(top as int == 0);
                                        assert(hash_views(skipped@).contains(root@));
                                    }
                                }
                                lemma_distinct_in_seq(hash_views(analyzed@), cand);
                                iters = old_iters + 1;
                                assert forall|f: nat| f >= iters implies #[trigger] self.approver_walk_model(
                                    seq![root@],
                                    Seq::<Seq<u8>>::empty(),
                                    Seq::<Seq<u8>>::empty(),
                                    Seq::<Seq<u8>>::empty(),
                                    Seq::<Seq<u8>>::empty(),
                                    f,
                                ) == self.approver_walk_model(
                                    hash_views(stack@),
                                    hash_views(analyzed@),
                                    visit_hashes(visited@),
                                    hash_views(missing@),
                                    hash_views(skipped@),
                                    (f - iters) as nat,
                                ) by {
                                    let g = (f - old_iters) as nat;
                                    assert(self.approver_walk_model(
                                        seq![root@],
                                        Seq::<Seq<u8>>::empty(),
                                        Seq::<Seq<u8>>::empty(),
                                        Seq::<Seq<u8>>::empty(),
                                        Seq::<Seq<u8>>::empty(),
                                        f,
                                    ) == self.approver_walk_model(
                                        hash_views(stack_pre),
                                        hash_views(analyzed_pre),
                                        visit_hashes(visited_pre),
                                        hash_views(missing_pre),
                                        hash_views(skipped_pre),
                                        g,
                                    ));
                                    assert(h@ == stack_pre[top as int]@);
                                    assert(hash_views(stack_pre).last() == h@);
                                    assert(self.contains_tx(h@));
                                    assert(self.tx_of(h@) == self.vertices_seq()[vi as int].1.transaction);
                                    assert(hash_views(analyzed_pre).contains(self.tx_of(h@).trunk@));
                                    assert(!hash_views(analyzed_pre).contains(self.tx_of(h@).branch@));
                                    assert(hash_views(stack_pre).contains(self.tx_of(h@).branch@));
                                    assert(hash_views(stack@) =~= hash_views(stack_pre).drop_last());
                                    assert(hash_views(analyzed@) =~= hash_views(analyzed_pre).push(h@));
                                    assert(visit_hashes(visited@) == visit_hashes(visited_pre));
                                    assert(hash_views(missing@) == hash_views(missing_pre));
                                    assert(hash_views(skipped@) =~= hash_views(skipped_pre).push(h@));
                                    assert(self.approver_walk_model(
                                        hash_views(stack_pre),
                                        hash_views(analyzed_pre),
                                        visit_hashes(visited_pre),
                                        hash_views(missing_pre),
                                        hash_views(skipped_pre),
                                        g,
                                    ) == self.approver_walk_model(
                                        hash_views(stack@),
                                        hash_views(analyzed@),
                                        visit_hashes(visited@),
                                        hash_views(missing@),
                                        hash_views(skipped@),
                                        (g - 1) as nat,
                                    ));
                                }
                            }
                        } else {
                            stack.push(branch);
                            proof {
                                let vii = vi as int;
                                assert(cand[1 + 2 * nv + vii] == self.vertices_seq()[
                                vii].1.transaction.branch@);
                                assert(cand.contains(cand[1 + 2 * nv + vii]));
                                assert(stack@ == stack_pre.push(stack@.last()));
                                assert forall|i: int, j: int|
                                    0 <= i < j < stack@.len() implies (#[trigger] stack@[i])@
                                    != (#[trigger] stack@[j])@ by {
                                    if j == stack@.len() - 1 {
                                        assert(!hash_views(stack_pre).contains(stack@[j]@));
                                        assert(hash_views(stack_pre)[i] == stack@[i]@);
                                    }
                                }
                                lemma_distinct_in_seq(hash_views(stack@), cand);
                                iters = old_iters + 1;
                                assert forall|f: nat| f >= iters implies #[trigger] self.approver_walk_model(
                                    seq![root@],
                                    Seq::<Seq<u8>>::empty(),
                                    Seq::<Seq<u8>>::empty(),
                                    Seq::<Seq<u8>>::empty(),
                                    Seq::<Seq<u8>>::empty(),
                                    f,
                                ) == self.approver_walk_model(
                                    hash_views(stack@),
                                    hash_views(analyzed@),
                                    visit_hashes(visited@),
                                    hash_views(missing@),
                                    hash_views(skipped@),
                                    (f - iters) as nat,
                                ) by {
                                    let g = (f - old_iters) as nat;
                                    assert(self.approver_walk_model(
                                        seq![root@],
                                        Seq::<Seq<u8>>::empty(),
                                        Seq::<Seq<u8>>::empty(),
                                        Seq::<Seq<u8>>::empty(),
                                        Seq::<Seq<u8>>::empty(),
                                        f,
                                    ) == self.approver_walk_model(
                                        hash_views(stack_pre),
                                        hash_views(analyzed_pre),
                                        visit_hashes(visited_pre),
                                        hash_views(missing_pre),
                                        hash_views(skipped_pre),
                                        g,
                                    ));
                                    assert(h@ == stack_pre[top as int]@);
                                    assert(hash_views(stack_pre).last() == h@);
                                    assert(self.contains_tx(h@));
                                    assert(self.tx_of(h@) == self.vertices_seq()[vi as int].1.transaction);
                                    assert(hash_views(analyzed_pre).contains(self.tx_of(h@).trunk@));
                                    assert(!hash_views(analyzed_pre).contains(self.tx_of(h@).branch@));
                                    assert(!hash_views(stack_pre).contains(self.tx_of(h@).branch@));
                                    assert(hash_views(stack@) =~= hash_views(stack_pre).push(self.tx_of(h@).branch@));
                                    assert(hash_views(analyzed@) == hash_views(analyzed_pre));
                                    assert(visit_hashes(visited@) == visit_hashes(visited_pre));
                                    assert(hash_views(missing@) == hash_views(missing_pre));
                                    assert(hash_views(skipped@) == hash_views(skipped_pre));
                                    assert(self.approver_walk_model(
                                        hash_views(stack_pre),
                                        hash_views(analyzed_pre),
                                        visit_hashes(visited_pre),
                                        hash_views(missing_pre),
                                        hash_views(skipped_pre),
                                        g,
                                    ) == self.approver_walk_model(
                                        hash_views(stack@),
                                        hash_views(analyzed@),
                                        visit_hashes(visited@),
                                        hash_views(missing@),
                                        hash_views(skipped@),
                                        (g - 1) as nat,
                                    ));
                                }
                            }
                        }
                    }
                },
            }
        }
        proof {
            if self.contains_tx(root@) {
                assert(hash_views(analyzed@).contains(root@));
            }
            if !self.contains_tx(root@) && visited@.len() > 0 {
                assert(false);
            }
            assert(hash_views(stack@).len() == 0);
            assert(self.approver_walk_model(
                hash_views(stack@),
                hash_views(analyzed@),
                visit_hashes(visited@),
                hash_views(missing@),
                hash_views(skipped@),
                0,
            ) == Some((visit_hashes(visited@), hash_views(missing@), hash_views(skipped@))));
            assert(self.approver_walk_model(
                seq![root@],
                Seq::<Seq<u8>>::empty(),
                Seq::<Seq<u8>>::empty(),
                Seq::<Seq<u8>>::empty(),
                Seq::<Seq<u8>>::empty(),
                iters,
            ) == Some((visit_hashes(visited@), hash_views(missing@), hash_views(skipped@))));
        }
        (visited, missing, skipped)
    }
}

} // verus!
