//! The prefix-set aggregator: it gathers the writes of the incoming diffs,
//! keeps for each path the write that arrived last, and hands them out in
//! batches.

use crate::engine::changes::ChangeSet;
use crate::engine::model::{compose, Changes};
use crate::engine::prefix_set::PrefixSet;
use vstd::prelude::*;

verus! {

/// The writes that arrived since the last batch, and every path written
/// since the task began.
pub struct PrefixSetAggregator {
    pending: ChangeSet,
    dirty: PrefixSet,
    threshold: usize,
}

impl PrefixSetAggregator {
    /// The writes gathered since the last batch: for each path, the last.
    pub closed spec fn pending(&self) -> Changes {
        self.pending@
    }

    /// How many paths the pending writes cover.
    pub open spec fn pending_count(&self) -> nat {
        self.pending().dom().len()
    }

    /// Every path written since the task began.
    pub closed spec fn dirty(&self) -> Set<Seq<u8>> {
        self.dirty@
    }

    /// The number of pending paths from which a batch is due. With zero,
    /// every diff that writes anything makes a batch of its own.
    pub closed spec fn threshold(&self) -> usize {
        self.threshold
    }

    /// The parts are in order.
    pub closed spec fn wf(&self) -> bool {
        self.pending.wf() && self.dirty.wf()
    }

    /// No pending paths means no pending writes, and the other way round.
    pub proof fn lemma_count(&self)
        requires
            self.wf(),
        ensures
            self.pending().dom().finite(),
            self.pending_count() == 0 <==> self.pending() == Map::<
                Seq<u8>,
                Option<Seq<u8>>,
            >::empty(),
            forall|k: Seq<u8>| #[trigger]
                self.pending().contains_key(k) ==> crate::engine::model::is_path(k),
    {
        self.pending.lemma_paths();
        if self.pending_count() == 0 {
            assert forall|k: Seq<u8>| !self.pending().contains_key(k) by {
                if self.pending().contains_key(k) {
                    let i = choose|i: int|
                        0 <= i < self.pending.paths().len() && #[trigger] self.pending.paths()[i]
                            == k;
                }
            }
            assert(self.pending() =~= Map::<Seq<u8>, Option<Seq<u8>>>::empty());
        } else {
            assert(self.pending().contains_key(self.pending.paths()[0]));
        }
    }

    /// An aggregator without writes.
    pub fn new(threshold: usize) -> (a: PrefixSetAggregator)
        ensures
            a.wf(),
            a.pending() == Map::<Seq<u8>, Option<Seq<u8>>>::empty(),
            a.pending_count() == 0,
            a.dirty() == Set::<Seq<u8>>::empty(),
            a.threshold() == threshold,
    {
        PrefixSetAggregator { pending: ChangeSet::new(), dirty: PrefixSet::new(), threshold }
    }

    /// Takes in the writes of one diff: each stands over an earlier write of
    /// the same path, and its path is marked dirty.
    pub fn absorb(&mut self, changes: &ChangeSet)
        requires
            old(self).wf(),
            changes.wf(),
        ensures
            final(self).wf(),
            final(self).pending() == compose(old(self).pending(), changes@),
            final(self).dirty() == old(self).dirty().union(changes@.dom()),
            final(self).threshold() == old(self).threshold(),
    {
        self.pending.absorb(changes);
        self.dirty.mark_all(changes);
    }

    /// Whether a batch is due: there are pending writes, on at least as
    /// many paths as the threshold asks for.
    pub fn is_due(&self) -> (r: bool)
        requires
            self.wf(),
        ensures
            r == (self.pending_count() > 0 && self.pending_count() >= self.threshold()),
    {
        proof {
            self.pending.lemma_paths();
        }
        let n = self.pending.len();
        n > 0 && n >= self.threshold
    }

    /// On how many paths writes are pending.
    pub fn pending_paths(&self) -> (n: usize)
        requires
            self.wf(),
        ensures
            n == self.pending_count(),
    {
        self.pending.len()
    }

    /// Whether there are pending writes.
    pub fn has_pending(&self) -> (r: bool)
        requires
            self.wf(),
        ensures
            r == (self.pending_count() > 0),
    {
        proof {
            self.pending.lemma_paths();
        }
        self.pending.len() > 0
    }

    /// Hands out the pending writes as a batch; none are pending after.
    pub fn take_batch(&mut self) -> (batch: ChangeSet)
        requires
            old(self).wf(),
        ensures
            final(self).wf(),
            batch.wf(),
            batch@ == old(self).pending(),
            batch.paths().len() == old(self).pending_count(),
            final(self).pending() == Map::<Seq<u8>, Option<Seq<u8>>>::empty(),
            final(self).pending_count() == 0,
            final(self).dirty() == old(self).dirty(),
            final(self).threshold() == old(self).threshold(),
    {
        let mut batch = ChangeSet::new();
        std::mem::swap(&mut self.pending, &mut batch);
        proof {
            batch.lemma_paths();
        }
        batch
    }

    /// Whether `path` was written since the task began.
    pub fn is_dirty(&self, path: &Vec<u8>) -> (r: bool)
        requires
            self.wf(),
        ensures
            r == self.dirty().contains(path@),
    {
        self.dirty.contains(path)
    }

    /// Whether a path at or below `p` was written since the task began.
    pub fn covers(&self, p: &Vec<u8>) -> (r: bool)
        requires
            self.wf(),
        ensures
            r == (exists|k: Seq<u8>| self.dirty().contains(k) && p@.is_prefix_of(k)),
    {
        self.dirty.covers(p)
    }
}

} // verus!
