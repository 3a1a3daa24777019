//! The task: it takes in the writes of the diffs while they arrive, and
//! hands out the root once its ingress is closed.

use crate::engine::aggregator::PrefixSetAggregator;
use crate::engine::changes::ChangeSet;
use crate::engine::diff::{changes_of, StateDiff};
use crate::engine::error::TaskError;
use crate::engine::merge::{merge, on_spine};
use crate::engine::model::{
    agree_under, apply, apply_all, compose, compose_all, digest, is_path,
    lemma_apply_all_is_compose_all, lemma_apply_compose, lemma_prefix_is_path,
    lemma_prefix_transitive, lemma_subtree_is_local, lemma_touches_compose, root_of, touches,
    Changes, Leaves,
};
use crate::engine::node::Node;
use crate::engine::rebuild::{dirty_under, present, writes_paths};
use crate::engine::store::{root_digest, SnapshotView, TrieOverlay};
use crate::engine::worker::compute_update;
use vstd::prelude::*;

verus! {

/// Where a task stands.
#[derive(Clone, Copy, Debug, PartialEq, Eq, Structural)]
pub enum TaskState {
    /// Set up, not started.
    Created,
    /// Started: it takes in writes.
    Running,
    /// It has handed out its result.
    Completed,
    /// It has failed.
    Failed,
    /// The caller has abandoned it.
    Cancelled,
}

/// The terminal value of a task: the root, and the overlay to persist.
pub struct RootResult {
    /// The root of the state after all the writes.
    pub root: Vec<u8>,
    /// The recomputed nodes.
    pub overlay: TrieOverlay,
}

/// What a task is set up with.
pub struct StateRootConfig {
    snapshot: SnapshotView,
    seed: TrieOverlay,
    threshold: usize,
}

impl StateRootConfig {
    /// The snapshot that the task reads.
    pub closed spec fn snapshot(&self) -> SnapshotView {
        self.snapshot
    }

    /// The overlay that the task starts from.
    pub closed spec fn seed(&self) -> TrieOverlay {
        self.seed
    }

    /// The number of pending paths from which a batch is due.
    pub closed spec fn threshold(&self) -> usize {
        self.threshold
    }

    /// The seed lies over the snapshot.
    pub open spec fn wf(&self) -> bool {
        &&& self.snapshot().wf()
        &&& self.seed().wf()
        &&& self.seed().based_on(&self.snapshot())
    }

    /// A task over `snapshot` that starts without recomputed nodes.
    pub fn new(snapshot: SnapshotView, threshold: usize) -> (c: StateRootConfig)
        requires
            snapshot.wf(),
        ensures
            c.wf(),
            c.snapshot() == snapshot,
            c.seed().state() == snapshot.state(),
            forall|p: Seq<u8>| !c.seed().holds(p),
            c.threshold() == threshold,
    {
        let seed = TrieOverlay::empty_for(&snapshot);
        StateRootConfig { snapshot, seed, threshold }
    }

    /// A task over `snapshot` that starts from the overlay `seed` of an
    /// earlier computation over the same snapshot.
    pub fn with_seed(snapshot: SnapshotView, seed: TrieOverlay, threshold: usize) -> (c:
        StateRootConfig)
        requires
            snapshot.wf(),
            seed.wf(),
            seed.based_on(&snapshot),
        ensures
            c.wf(),
            c.snapshot() == snapshot,
            c.seed() == seed,
            c.threshold() == threshold,
    {
        StateRootConfig { snapshot, seed, threshold }
    }
}

/// The writes that each set of a list stands for.
pub open spec fn writes_of_each(v: Seq<ChangeSet>) -> Seq<Changes> {
    v.map_values(|c: ChangeSet| c@)
}

/// The ingress adapter: the executor hands it each diff, and it queues the
/// diff's writes for the task. It does no trie work.
pub struct StateHook {
    outbox: Vec<ChangeSet>,
}

impl StateHook {
    /// The writes queued and not yet taken, oldest first.
    pub closed spec fn queued(&self) -> Seq<Changes> {
        writes_of_each(self.outbox@)
    }

    /// Every queued set of writes is in order.
    pub closed spec fn wf(&self) -> bool {
        forall|i: int| 0 <= i < self.outbox@.len() ==> (#[trigger] self.outbox@[i]).wf()
    }

    /// A hook with nothing queued.
    pub fn new() -> (h: StateHook)
        ensures
            h.wf(),
            h.queued().len() == 0,
    {
        StateHook { outbox: Vec::new() }
    }

    /// Takes in one diff: its writes, keyed by hashed path, are queued.
    pub fn on_state(&mut self, diff: &StateDiff)
        requires
            old(self).wf(),
        ensures
            final(self).wf(),
            final(self).queued() == old(self).queued().push(changes_of(diff.accounts@)),
    {
        let changes = diff.to_changes();
        self.outbox.push(changes);
        assert(self.queued() =~= old(self).queued().push(changes_of(diff.accounts@)));
    }

    /// Hands out what is queued, oldest first; nothing is queued after.
    pub fn take(&mut self) -> (out: Vec<ChangeSet>)
        requires
            old(self).wf(),
        ensures
            final(self).wf(),
            final(self).queued().len() == 0,
            writes_of_each(out@) == old(self).queued(),
            forall|i: int| 0 <= i < out@.len() ==> (#[trigger] out@[i]).wf(),
    {
        let mut out: Vec<ChangeSet> = Vec::new();
        std::mem::swap(&mut self.outbox, &mut out);
        out
    }
}

/// A task that is set up and not started.
pub struct StateRootTask {
    config: StateRootConfig,
}

/// Why a running task failed: the snapshot was withdrawn, or else a node
/// that the writes need was missing.
pub open spec fn failure_explained(e: TaskError, available: bool, blocked: bool) -> bool {
    if available {
        e == TaskError::NodeIntegrityError && blocked
    } else {
        e == TaskError::SnapshotUnavailable
    }
}

/// The task failed, and for the reason that `failure_explained` allows.
pub open spec fn explained(failure: Option<TaskError>, available: bool, blocked: bool) -> bool {
    failure is Some && failure_explained(failure->0, available, blocked)
}

/// The node at `p` cannot be had: its subtree held something in the state
/// `start`, and neither the seed, whose paths are `seed`, nor the snapshot,
/// whose paths are `held`, has the node.
pub open spec fn stuck(start: Leaves, seed: Set<Seq<u8>>, held: Set<Seq<u8>>, p: Seq<u8>) -> bool {
    &&& !seed.contains(p)
    &&& !held.contains(p)
    &&& digest(start, p) is Some
}

/// The writes need a node that cannot be had.
pub open spec fn blocked_by(
    start: Leaves,
    seed: Set<Seq<u8>>,
    held: Set<Seq<u8>>,
    writes: Changes,
) -> bool {
    exists|p: Seq<u8>| touches(writes, p) && #[trigger] stuck(start, seed, held, p)
}

/// `res` is the terminal value of the task behind `h`: the root of the state
/// that the task aims at, and an overlay that stands for that state and holds
/// the nodes that the task started with and those of every dirty path.
pub open spec fn is_result_of(res: &RootResult, h: &TaskHandle) -> bool {
    &&& res.root@ == root_of(h.target())
    &&& res.root@.len() == 32
    &&& res.overlay.wf()
    &&& res.overlay.state() == h.target()
    &&& forall|p: Seq<u8>|
        #[trigger] res.overlay.holds(p) <==> (h.seed_paths().contains(p) || touches(
            compose_all(h.received()),
            p,
        ))
}

/// A batch is due: writes are pending, on at least `threshold` paths.
pub open spec fn due(pending: Changes, threshold: usize) -> bool {
    pending.dom().len() > 0 && pending.dom().len() >= threshold
}

/// What a handle shows of its task.
pub struct TaskView {
    /// Where the task stands.
    pub state: TaskState,
    /// Why it failed, if it did.
    pub failure: Option<TaskError>,
    /// The sets of writes taken in, in order.
    pub received: Seq<Changes>,
    /// The writes taken in and not yet merged.
    pub pending: Changes,
}

/// What a task is set up with, as far as its course depends on it.
pub struct Setup {
    /// The state that the task starts from.
    pub start: Leaves,
    /// The paths of the nodes that it starts with.
    pub seed: Set<Seq<u8>>,
    /// The paths of the nodes that its snapshot holds.
    pub held: Set<Seq<u8>>,
    /// Whether its snapshot can be read.
    pub available: bool,
    /// The number of pending paths from which a batch is due.
    pub threshold: usize,
}

/// The task after one more set of writes has been handed to it. A task
/// that runs with its ingress open takes the writes in. Where a batch is due
/// then, the pending writes are merged, and the task fails where its snapshot
/// is withdrawn or a node is missing that the writes need. Any other task
/// drops the writes.
pub open spec fn delivered(v: TaskView, closed: bool, changes: Changes, s: Setup) -> TaskView {
    if v.state == TaskState::Running && !closed {
        let received = v.received.push(changes);
        let pending = compose(v.pending, changes);
        if !due(pending, s.threshold) {
            TaskView { state: v.state, failure: v.failure, received, pending }
        } else if s.available && !blocked_by(s.start, s.seed, s.held, compose_all(received)) {
            TaskView { state: v.state, failure: v.failure, received, pending: Map::empty() }
        } else {
            TaskView {
                state: TaskState::Failed,
                failure: Some(
                    if s.available {
                        TaskError::NodeIntegrityError
                    } else {
                        TaskError::SnapshotUnavailable
                    },
                ),
                received,
                pending: Map::empty(),
            }
        }
    } else {
        v
    }
}

/// The task after each set of writes of `all` has been handed to it, in
/// order.
pub open spec fn delivered_all(v: TaskView, closed: bool, all: Seq<Changes>, s: Setup) -> TaskView
    decreases all.len(),
{
    if all.len() == 0 {
        v
    } else {
        delivered(delivered_all(v, closed, all.drop_last(), s), closed, all.last(), s)
    }
}

/// The handle of a started task.
pub struct TaskHandle {
    snapshot: SnapshotView,
    overlay: TrieOverlay,
    aggregator: PrefixSetAggregator,
    closed: bool,
    state: TaskState,
    error: Option<TaskError>,
    consumed: bool,
    start: Ghost<Leaves>,
    base: Ghost<Leaves>,
    seed_paths: Ghost<Set<Seq<u8>>>,
    snap_paths: Ghost<Set<Seq<u8>>>,
    received: Ghost<Seq<Changes>>,
    merged: Ghost<Changes>,
    available: Ghost<bool>,
    complete: Ghost<bool>,
}

impl TaskHandle {
    /// Where the task stands.
    pub closed spec fn state(&self) -> TaskState {
        self.state
    }

    /// Whether the ingress is closed: no more writes will come.
    pub closed spec fn is_closed(&self) -> bool {
        self.closed
    }

    /// Whether the terminal value was handed out.
    pub closed spec fn consumed(&self) -> bool {
        self.consumed
    }

    /// Why the task failed, if it did.
    pub closed spec fn failure(&self) -> Option<TaskError> {
        self.error
    }

    /// The state that the task started from.
    pub closed spec fn start(&self) -> Leaves {
        self.start@
    }

    /// The paths of the nodes that the task started with.
    pub closed spec fn seed_paths(&self) -> Set<Seq<u8>> {
        self.seed_paths@
    }

    /// The paths of the nodes that the task's snapshot held when the task
    /// started.
    pub closed spec fn snapshot_paths(&self) -> Set<Seq<u8>> {
        self.snap_paths@
    }

    /// The sets of writes taken in so far, in order.
    pub closed spec fn received(&self) -> Seq<Changes> {
        self.received@
    }

    /// Whether the task's snapshot could be read when the task started.
    pub closed spec fn snapshot_available(&self) -> bool {
        self.available@
    }

    /// Whether the task's snapshot lacked no node when the task started.
    pub closed spec fn snapshot_complete(&self) -> bool {
        self.complete@
    }

    /// The writes taken in and not yet merged: for each path, the last.
    pub closed spec fn pending(&self) -> Changes {
        self.aggregator.pending()
    }

    /// The number of pending paths from which a batch is due.
    pub closed spec fn threshold(&self) -> usize {
        self.aggregator.threshold()
    }

    /// What the handle shows of its task.
    pub open spec fn view(&self) -> TaskView {
        TaskView {
            state: self.state(),
            failure: self.failure(),
            received: self.received(),
            pending: self.pending(),
        }
    }

    /// What the task was set up with.
    pub open spec fn setup(&self) -> Setup {
        Setup {
            start: self.start(),
            seed: self.seed_paths(),
            held: self.snapshot_paths(),
            available: self.snapshot_available(),
            threshold: self.threshold(),
        }
    }

    /// The state after all the writes taken in so far.
    pub open spec fn target(&self) -> Leaves {
        apply_all(self.start(), self.received())
    }

    /// The writes taken in so far need a node that cannot be had: one whose
    /// subtree held something when the task started, and which neither the
    /// seed nor the snapshot has.
    pub open spec fn blocked(&self) -> bool {
        blocked_by(
            self.start(),
            self.seed_paths(),
            self.snapshot_paths(),
            compose_all(self.received()),
        )
    }

    /// Whether the handle still holds the node at `p`, in its snapshot or in
    /// its overlay.
    pub closed spec fn retains(&self, p: Seq<u8>) -> bool {
        self.snapshot.holds(p) || self.overlay.holds(p)
    }

    /// The handle was set up like `other`: the same start, seed and
    /// snapshot.
    pub open spec fn same_setup(&self, other: &TaskHandle) -> bool {
        &&& self.start() == other.start()
        &&& self.seed_paths() == other.seed_paths()
        &&& self.snapshot_paths() == other.snapshot_paths()
        &&& self.snapshot_available() == other.snapshot_available()
        &&& self.snapshot_complete() == other.snapshot_complete()
    }

    /// What holds of the task's setup, whatever its state.
    closed spec fn setup_ok(&self) -> bool {
        &&& forall|p: Seq<u8>|
            !(#[trigger] self.seed_paths@.contains(p)) ==> agree_under(self.start@, self.base@, p)
        &&& self.complete@ ==> forall|p: Seq<u8>|
            is_path(p) && #[trigger] digest(self.base@, p) is Some ==> self.snap_paths@.contains(p)
        &&& writes_paths(compose_all(self.received@))
    }

    /// The parts of the handle fit its state.
    pub closed spec fn wf(&self) -> bool {
        &&& self.setup_ok()
        &&& match self.state {
            TaskState::Created => false,
            TaskState::Running => {
                &&& self.snapshot.wf()
                &&& self.overlay.wf()
                &&& self.overlay.based_on(&self.snapshot)
                &&& self.aggregator.wf()
                &&& self.snapshot.state() == self.base@
                &&& self.available@ == self.snapshot.available()
                &&& forall|p: Seq<u8>|
                    #[trigger] self.snapshot.holds(p) == self.snap_paths@.contains(p)
                &&& self.overlay.state() == apply(self.start@, self.merged@)
                &&& compose(self.merged@, self.aggregator.pending()) == compose_all(self.received@)
                &&& forall|p: Seq<u8>|
                    #[trigger] self.overlay.holds(p) <==> (self.seed_paths@.contains(p) || touches(
                        self.merged@,
                        p,
                    ))
                &&& forall|p: Seq<u8>|
                    touches(self.merged@, p) ==> !(#[trigger] stuck(
                        self.start@,
                        self.seed_paths@,
                        self.snap_paths@,
                        p,
                    ))
                &&& self.aggregator.dirty() == compose_all(self.received@).dom()
                &&& !self.consumed
                &&& self.error is None
            },
            TaskState::Completed => self.consumed && self.error is None,
            TaskState::Failed => {
                &&& self.error is Some
                &&& self.error->0.is_fatal_spec()
                &&& self.error->0 == TaskError::SnapshotUnavailable ==> !self.available@
                &&& self.error->0 == TaskError::NodeIntegrityError ==> self.available@
                    && blocked_by(
                    self.start@,
                    self.seed_paths@,
                    self.snap_paths@,
                    compose_all(self.received@),
                )
            },
            TaskState::Cancelled => self.error is None,
        }
    }

    /// What the invariant says of the states.
    pub proof fn lemma_states(&self)
        requires
            self.wf(),
        ensures
            self.state() == TaskState::Failed <==> self.failure() is Some,
            self.state() == TaskState::Completed ==> self.consumed(),
            self.state() == TaskState::Running ==> !self.consumed(),
            self.state() != TaskState::Created,
            self.failure() == Some(TaskError::SnapshotUnavailable) ==> !self.snapshot_available(),
            self.failure() == Some(TaskError::NodeIntegrityError) ==> self.snapshot_available()
                && self.blocked(),
            self.failure() is Some ==> self.failure()->0.is_fatal_spec(),
    {
    }

    /// With a complete snapshot no node is ever missing.
    pub proof fn lemma_complete_never_blocks(&self)
        requires
            self.wf(),
            self.snapshot_complete(),
        ensures
            !self.blocked(),
    {
        if self.blocked() {
            let p = choose|p: Seq<u8>|
                touches(compose_all(self.received()), p) && #[trigger] stuck(self.start@, self.seed_paths@, self.snap_paths@, p);
            let k = choose|k: Seq<u8>|
                compose_all(self.received()).contains_key(k) && p.is_prefix_of(k);
            lemma_prefix_is_path(p, k);
            assert(!self.seed_paths@.contains(p));
            lemma_subtree_is_local(self.start@, self.base@, p);
        }
    }

    /// Where the task stands.
    pub fn current_state(&self) -> (s: TaskState)
        ensures
            s == self.state(),
    {
        self.state
    }

    /// Whether `path` was written since the task began: whether it is in
    /// the set of dirty prefixes, which holds every path written by a diff
    /// that the running task has taken in.
    pub fn is_dirty(&self, path: &Vec<u8>) -> (r: bool)
        requires
            self.wf(),
        ensures
            self.state() == TaskState::Running ==> r == compose_all(self.received()).dom().contains(
                path@,
            ),
    {
        match self.state {
            TaskState::Running => self.aggregator.is_dirty(path),
            _ => false,
        }
    }

    /// On how many paths writes are pending: taken in and not yet merged.
    pub fn pending_paths(&self) -> (n: usize)
        requires
            self.wf(),
        ensures
            self.state() == TaskState::Running ==> n == self.pending().dom().len(),
    {
        match self.state {
            TaskState::Running => self.aggregator.pending_paths(),
            _ => 0,
        }
    }

    /// Whether the ingress is closed.
    pub fn ingress_closed(&self) -> (r: bool)
        ensures
            r == self.is_closed(),
    {
        self.closed
    }

    /// Marks a running task as failed.
    fn set_failed(&mut self, e: TaskError)
        requires
            old(self).setup_ok(),
            old(self).state == TaskState::Running,
            e.is_fatal_spec(),
            e == TaskError::SnapshotUnavailable ==> !old(self).available@,
            e == TaskError::NodeIntegrityError ==> old(self).available@ && old(self).blocked(),
        ensures
            final(self).wf(),
            final(self).state() == TaskState::Failed,
            final(self).failure() == Some(e),
            final(self).consumed() == old(self).consumed(),
            final(self).is_closed() == old(self).is_closed(),
            final(self).received() == old(self).received(),
            final(self).threshold() == old(self).threshold(),
            final(self).pending() == old(self).pending(),
            final(self).same_setup(old(self)),
    {
        self.state = TaskState::Failed;
        self.error = Some(e);
    }

    /// A node that is missing for the computation is stuck.
    proof fn lemma_missing_is_stuck(&self, q: Seq<u8>)
        requires
            self.wf(),
            self.state == TaskState::Running,
            digest(self.overlay.state(), q) is Some,
            !present(&self.snapshot, &self.overlay, q),
        ensures
            stuck(self.start@, self.seed_paths@, self.snap_paths@, q),
    {
        self.overlay.lemma_wf();
        assert(!self.seed_paths@.contains(q));
        lemma_subtree_is_local(self.overlay.state(), self.base@, q);
        lemma_subtree_is_local(self.start@, self.base@, q);
    }

    /// Sends the pending writes to a worker and merges what comes back.
    fn dispatch(&mut self)
        requires
            old(self).wf(),
            old(self).state() == TaskState::Running,
        ensures
            final(self).wf(),
            final(self).is_closed() == old(self).is_closed(),
            final(self).consumed() == old(self).consumed(),
            final(self).received() == old(self).received(),
            final(self).same_setup(old(self)),
            final(self).state() == TaskState::Running || final(self).state() == TaskState::Failed,
            final(self).threshold() == old(self).threshold(),
            final(self).state() == TaskState::Running ==> final(self).aggregator.pending_count()
                == 0 && final(self).snapshot == old(self).snapshot && final(self).pending() == Map::<
                Seq<u8>,
                Option<Seq<u8>>,
            >::empty(),
            final(self).state() == TaskState::Running && old(self).aggregator.pending_count() > 0
                ==> old(self).snapshot_available() && !old(self).blocked(),
            final(self).state() == TaskState::Failed ==> final(self).pending() == Map::<
                Seq<u8>,
                Option<Seq<u8>>,
            >::empty(),
            final(self).state() == TaskState::Failed ==> explained(
                final(self).failure(),
                old(self).snapshot_available(),
                old(self).blocked(),
            ),
    {
        let ghost l = self.overlay.state();
        let ghost pending = self.aggregator.pending();
        let ghost merged = self.merged@;
        let ghost all = compose_all(self.received@);
        let ghost none = Map::<Seq<u8>, Option<Seq<u8>>>::empty();
        proof {
            self.aggregator.lemma_count();
        }
        let batch = self.aggregator.take_batch();
        if batch.len() == 0 {
            proof {
                assert(pending =~= none);
            }
            return ;
        }
        match compute_update(&self.snapshot, &self.overlay, &batch) {
            Err(e) => {
                proof {
                    if self.snapshot.available() {
                        let top = Seq::<u8>::empty();
                        let q = choose|q: Seq<u8>|
                            #![trigger dirty_under(pending, top, q)]
                            dirty_under(pending, top, q) && digest(l, q) is Some && !present(
                                &self.snapshot,
                                &self.overlay,
                                q,
                            );
                        old(self).lemma_missing_is_stuck(q);
                        lemma_touches_compose(merged, pending, q);
                        assert(stuck(old(self).start@, old(self).seed_paths@, old(self).snap_paths@, q));
                        assert(stuck(self.start@, self.seed_paths@, self.snap_paths@, q));
                    }
                }
                self.set_failed(e);
            },
            Ok(update) => {
                let ghost before = self.overlay;
                let ghost prefix = update.prefix();
                proof {
                    update.lemma_wf();
                }
                match merge(&mut self.overlay, &self.snapshot, update) {
                    Err(e) => {
                        proof {
                            if self.snapshot.available() {
                                let a = choose|a: Seq<u8>|
                                    #![trigger on_spine(prefix, 0, a)]
                                    on_spine(prefix, 0, a) && digest(l, a) is Some && !present(
                                        &self.snapshot,
                                        &before,
                                        a,
                                    );
                                old(self).lemma_missing_is_stuck(a);
                                let k = choose|k: Seq<u8>|
                                    pending.contains_key(k) && prefix.is_prefix_of(k);
                                lemma_prefix_transitive(a, prefix, k);
                                lemma_touches_compose(merged, pending, a);
                                assert(stuck(self.start@, self.seed_paths@, self.snap_paths@, a));
                            }
                        }
                        self.set_failed(e);
                    },
                    Ok(_) => {
                        self.merged = Ghost(compose(merged, pending));
                        proof {
                            let merged2 = compose(merged, pending);
                            assert(merged2 == all);
                            lemma_apply_compose(self.start@, merged, pending);
                            assert(compose(merged2, none) =~= merged2);
                            assert forall|p: Seq<u8>|
                                #[trigger] self.overlay.holds(p) <==> (self.seed_paths@.contains(p)
                                    || touches(merged2, p)) by {
                                lemma_touches_compose(merged, pending, p);
                                assert(before.holds(p) <==> (self.seed_paths@.contains(p)
                                    || touches(merged, p)));
                            }
                            assert forall|p: Seq<u8>| touches(merged2, p) implies !(
                            #[trigger] stuck(self.start@, self.seed_paths@, self.snap_paths@, p)) by {
                                lemma_touches_compose(merged, pending, p);
                                if touches(merged, p) {
                                    assert(!stuck(old(self).start@, old(self).seed_paths@, old(self).snap_paths@, p));
                                } else {
                                    let top = Seq::<u8>::empty();
                                    assert(top.is_prefix_of(p));
                                    assert(dirty_under(pending, top, p));
                                    if stuck(old(self).start@, old(self).seed_paths@, old(self).snap_paths@, p) {
                                        assert(!before.holds(p));
                                        before.lemma_wf();
                                        lemma_subtree_is_local(l, self.base@, p);
                                        lemma_subtree_is_local(self.start@, self.base@, p);
                                        assert(digest(l, p) is Some);
                                        assert(present(&self.snapshot, &before, p));
                                    }
                                }
                            }
                            assert(!old(self).blocked()) by {
                                if old(self).blocked() {
                                    let p = choose|p: Seq<u8>|
                                        touches(all, p) && #[trigger] stuck(
                                            self.start@,
                                            self.seed_paths@,
                                            self.snap_paths@,
                                            p,
                                        );
                                    assert(touches(merged2, p));
                                }
                            }
                        }
                    },
                }
            },
        }
    }

    /// Takes in the writes of one diff. Where enough are pending, a batch
    /// is computed and merged. Writes that arrive after the ingress was
    /// closed, or after the task has ended, are dropped.
    pub fn deliver(&mut self, changes: ChangeSet)
        requires
            old(self).wf(),
            changes.wf(),
        ensures
            final(self).wf(),
            final(self).is_closed() == old(self).is_closed(),
            final(self).consumed() == old(self).consumed(),
            final(self).same_setup(old(self)),
            final(self).threshold() == old(self).threshold(),
            final(self).view() == delivered(
                old(self).view(),
                old(self).is_closed(),
                changes@,
                old(self).setup(),
            ),
    {
        if self.state != TaskState::Running || self.closed {
            return ;
        }
        let ghost pending = self.aggregator.pending();
        let ghost before = self.received@;
        proof {
            changes.lemma_paths();
        }
        self.aggregator.absorb(&changes);
        self.received = Ghost(before.push(changes@));
        proof {
            let now = self.received@;
            assert(now.drop_last() == before);
            assert(now.last() == changes@);
            assert(compose_all(now) == compose(compose_all(before), changes@));
            assert(compose(self.merged@, compose(pending, changes@)) =~= compose(
                compose(self.merged@, pending),
                changes@,
            ));
            assert(self.aggregator.dirty() =~= compose_all(now).dom());
            assert forall|p: Seq<u8>| touches(self.merged@, p) implies !(#[trigger] stuck(self.start@, self.seed_paths@, self.snap_paths@, p)) by {
                assert(!stuck(old(self).start@, old(self).seed_paths@, old(self).snap_paths@, p));
            }
        }
        if self.aggregator.is_due() {
            self.dispatch();
        }
    }

    /// Takes in everything that `hook` has queued, oldest first.
    pub fn deliver_all(&mut self, hook: &mut StateHook)
        requires
            old(self).wf(),
            old(hook).wf(),
        ensures
            final(self).wf(),
            final(hook).wf(),
            final(hook).queued().len() == 0,
            final(self).is_closed() == old(self).is_closed(),
            final(self).consumed() == old(self).consumed(),
            final(self).same_setup(old(self)),
            final(self).threshold() == old(self).threshold(),
            final(self).view() == delivered_all(
                old(self).view(),
                old(self).is_closed(),
                old(hook).queued(),
                old(self).setup(),
            ),
            final(self).state() == TaskState::Running ==> old(self).state() == TaskState::Running
                && final(self).received() == if old(self).is_closed() {
                old(self).received()
            } else {
                old(self).received() + old(hook).queued()
            },
            final(self).state() != old(self).state() ==> old(self).state() == TaskState::Running
                && final(self).state() == TaskState::Failed && explained(
                final(self).failure(),
                old(self).snapshot_available(),
                final(self).blocked(),
            ),
            final(self).state() == old(self).state() && final(self).state() != TaskState::Running
                ==> final(self).failure() == old(self).failure() && final(self).received() == old(
                self,
            ).received(),
    {
        let mut queue = hook.take();
        let ghost all = writes_of_each(queue@);
        let n = queue.len();
        let mut i: usize = 0;
        // The queue is emptied from its end, so it is turned round first.
        let mut stack: Vec<ChangeSet> = Vec::new();
        while queue.len() > 0
            invariant
                queue@.len() + stack@.len() == n,
                all.len() == n,
                forall|j: int| 0 <= j < queue@.len() ==> (#[trigger] queue@[j]).wf(),
                forall|j: int| 0 <= j < queue@.len() ==> (#[trigger] queue@[j])@ == all[j],
                forall|j: int| 0 <= j < stack@.len() ==> (#[trigger] stack@[j]).wf(),
                forall|j: int| 0 <= j < stack@.len() ==> (#[trigger] stack@[j])@ == all[n - 1 - j],
            decreases queue.len(),
        {
            let c = queue.pop().unwrap();
            stack.push(c);
        }
        proof {
            assert(old(self).received() + all.take(0) =~= old(self).received());
        }
        while i < n
            invariant
                i <= n,
                all.len() == n,
                all == old(hook).queued(),
                stack@.len() == n - i,
                forall|j: int| 0 <= j < stack@.len() ==> (#[trigger] stack@[j]).wf(),
                forall|j: int| 0 <= j < stack@.len() ==> (#[trigger] stack@[j])@ == all[n - 1 - j],
                self.wf(),
                self.is_closed() == old(self).is_closed(),
                self.consumed() == old(self).consumed(),
                self.same_setup(old(self)),
                self.threshold() == old(self).threshold(),
                self.view() == delivered_all(
                    old(self).view(),
                    old(self).is_closed(),
                    all.take(i as int),
                    old(self).setup(),
                ),
                self.state() == TaskState::Running ==> old(self).state() == TaskState::Running
                    && self.received() == if old(self).is_closed() {
                    old(self).received()
                } else {
                    old(self).received() + all.take(i as int)
                },
                self.state() != old(self).state() ==> old(self).state() == TaskState::Running
                    && self.state() == TaskState::Failed && explained(
                    self.failure(),
                    old(self).snapshot_available(),
                    self.blocked(),
                ),
                self.state() == old(self).state() && self.state() != TaskState::Running
                    ==> self.failure() == old(self).failure() && self.received() == old(
                    self,
                ).received(),
            decreases n - i,
        {
            let c = stack.pop().unwrap();
            assert(c@ == all[i as int]);
            let ghost mid = *self;
            self.deliver(c);
            proof {
                assert(all.take(i + 1) == all.take(i as int).push(all[i as int]));
                assert(all.take(i + 1).drop_last() =~= all.take(i as int));
                assert(mid.setup() == old(self).setup());
                if self.state() == TaskState::Running && !old(self).is_closed() {
                    assert(self.received() =~= old(self).received() + all.take(i + 1));
                }
                if mid.state() != TaskState::Running {
                    assert(self.received() == mid.received());
                    assert(self.blocked() == mid.blocked());
                }
            }
            i += 1;
        }
        proof {
            assert(all.take(n as int) == all);
        }
    }

    /// Closes the ingress: the hook was dropped, no more writes will come.
    pub fn close(&mut self)
        requires
            old(self).wf(),
        ensures
            final(self).wf(),
            final(self).is_closed(),
            final(self).state() == old(self).state(),
            final(self).failure() == old(self).failure(),
            final(self).consumed() == old(self).consumed(),
            final(self).received() == old(self).received(),
            final(self).same_setup(old(self)),
    {
        self.closed = true;
    }

    /// Abandons the task: a running task is cancelled, its snapshot is let
    /// go and what it has computed is discarded. A task that has ended stays
    /// as it is.
    pub fn cancel(&mut self)
        requires
            old(self).wf(),
        ensures
            final(self).wf(),
            final(self).state() == if old(self).state() == TaskState::Running {
                TaskState::Cancelled
            } else {
                old(self).state()
            },
            final(self).failure() == old(self).failure(),
            final(self).consumed() == old(self).consumed(),
            final(self).is_closed() == old(self).is_closed(),
            final(self).received() == old(self).received(),
            final(self).same_setup(old(self)),
            old(self).state() == TaskState::Running ==> forall|p: Seq<u8>| !final(self).retains(p),
    {
        if self.state == TaskState::Running {
            self.state = TaskState::Cancelled;
            self.snapshot = SnapshotView::empty();
            self.overlay = TrieOverlay::empty_for(&self.snapshot);
            self.aggregator = PrefixSetAggregator::new(0);
        }
    }

    /// Reports that a channel of the machinery around the task closed before
    /// its work was done: a running task fails with
    /// `ChannelClosedPrematurely`, and nothing changes otherwise.
    pub fn abort(&mut self)
        requires
            old(self).wf(),
        ensures
            final(self).wf(),
            final(self).consumed() == old(self).consumed(),
            final(self).is_closed() == old(self).is_closed(),
            final(self).received() == old(self).received(),
            final(self).same_setup(old(self)),
            if old(self).state() == TaskState::Running {
                final(self).state() == TaskState::Failed && final(self).failure() == Some(
                    TaskError::ChannelClosedPrematurely,
                )
            } else {
                final(self).state() == old(self).state() && final(self).failure() == old(
                    self,
                ).failure()
            },
    {
        if self.state == TaskState::Running {
            self.set_failed(TaskError::ChannelClosedPrematurely);
        }
    }

    /// The last pass of a running task: the pending writes are flushed and
    /// the root is resolved.
    fn finish(&mut self) -> (r: Result<RootResult, TaskError>)
        requires
            old(self).wf(),
            old(self).state() == TaskState::Running,
        ensures
            final(self).wf(),
            final(self).consumed(),
            final(self).is_closed() == old(self).is_closed(),
            final(self).received() == old(self).received(),
            final(self).same_setup(old(self)),
            match r {
                Ok(res) => {
                    &&& final(self).state() == TaskState::Completed
                    &&& old(self).snapshot_available()
                    &&& !old(self).blocked()
                    &&& is_result_of(&res, old(self))
                },
                Err(e) => {
                    &&& final(self).state() == TaskState::Failed
                    &&& final(self).failure() == Some(e)
                    &&& failure_explained(e, old(self).snapshot_available(), old(self).blocked())
                },
            },
    {
        if !self.snapshot.is_available() {
            self.set_failed(TaskError::SnapshotUnavailable);
            self.consumed = true;
            return Err(TaskError::SnapshotUnavailable);
        }
        self.dispatch();
        if self.state != TaskState::Running {
            self.consumed = true;
            return Err(self.error.unwrap());
        }
        proof {
            self.aggregator.lemma_count();
            let none = Map::<Seq<u8>, Option<Seq<u8>>>::empty();
            assert(compose(self.merged@, none) =~= self.merged@);
            lemma_apply_all_is_compose_all(self.start@, self.received@);
            assert(!self.blocked()) by {
                if self.blocked() {
                    let p = choose|p: Seq<u8>|
                        touches(compose_all(self.received()), p) && #[trigger] stuck(self.start@, self.seed_paths@, self.snap_paths@, p);
                    assert(touches(self.merged@, p));
                }
            }
        }
        let root = match root_digest(&self.snapshot, &self.overlay) {
            Some(h) => h,
            None => Node::empty().hash(),
        };
        let mut overlay = TrieOverlay::empty_for(&self.snapshot);
        std::mem::swap(&mut self.overlay, &mut overlay);
        self.state = TaskState::Completed;
        self.consumed = true;
        self.snapshot = SnapshotView::empty();
        Ok(RootResult { root, overlay })
    }

    /// Waits for the terminal value. A running task whose ingress is closed
    /// makes its last pass and hands out the root with the overlay, or the
    /// error that ended it. The value is handed out once: a second wait
    /// fails with `AlreadyConsumed`, a wait on a cancelled task with
    /// `Cancelled`.
    pub fn wait_for_result(&mut self) -> (r: Result<RootResult, TaskError>)
        requires
            old(self).wf(),
            old(self).is_closed() || old(self).state() != TaskState::Running,
        ensures
            final(self).wf(),
            final(self).is_closed() == old(self).is_closed(),
            final(self).received() == old(self).received(),
            final(self).same_setup(old(self)),
            match old(self).state() {
                TaskState::Created => false,
                TaskState::Cancelled => r == Err::<RootResult, TaskError>(TaskError::Cancelled)
                    && final(self).state() == TaskState::Cancelled,
                TaskState::Completed => r == Err::<RootResult, TaskError>(
                    TaskError::AlreadyConsumed,
                ) && final(self).state() == TaskState::Completed,
                TaskState::Failed => {
                    &&& final(self).state() == TaskState::Failed
                    &&& final(self).failure() == old(self).failure()
                    &&& final(self).consumed()
                    &&& r == Err::<RootResult, TaskError>(
                        if old(self).consumed() {
                            TaskError::AlreadyConsumed
                        } else {
                            old(self).failure()->0
                        },
                    )
                },
                TaskState::Running => {
                    &&& final(self).consumed()
                    &&& match r {
                        Ok(res) => {
                            &&& final(self).state() == TaskState::Completed
                            &&& old(self).snapshot_available()
                            &&& !old(self).blocked()
                            &&& is_result_of(&res, old(self))
                        },
                        Err(e) => {
                            &&& final(self).state() == TaskState::Failed
                            &&& final(self).failure() == Some(e)
                            &&& failure_explained(
                                e,
                                old(self).snapshot_available(),
                                old(self).blocked(),
                            )
                        },
                    }
                },
            },
    {
        match self.state {
            TaskState::Cancelled => Err(TaskError::Cancelled),
            TaskState::Completed => Err(TaskError::AlreadyConsumed),
            TaskState::Failed => {
                if self.consumed {
                    Err(TaskError::AlreadyConsumed)
                } else {
                    self.consumed = true;
                    Err(self.error.unwrap())
                }
            },
            TaskState::Running => self.finish(),
            TaskState::Created => Err(TaskError::ChannelClosedPrematurely),
        }
    }

    /// The terminal value, if the task has reached it: `None` while the
    /// task runs and its ingress is open. Like a wait, it hands the value out
    /// once.
    pub fn poll(&mut self) -> (r: Option<Result<RootResult, TaskError>>)
        requires
            old(self).wf(),
        ensures
            final(self).wf(),
            final(self).is_closed() == old(self).is_closed(),
            final(self).received() == old(self).received(),
            final(self).same_setup(old(self)),
            r is None <==> old(self).state() == TaskState::Running && !old(self).is_closed(),
            r is None ==> final(self).state() == old(self).state() && final(self).consumed() == old(
                self,
            ).consumed(),
            r matches Some(Ok(res)) ==> {
                &&& old(self).state() == TaskState::Running
                &&& final(self).state() == TaskState::Completed
                &&& old(self).snapshot_available()
                &&& !old(self).blocked()
                &&& is_result_of(&res, old(self))
            },
            r matches Some(Err(e)) ==> match old(self).state() {
                TaskState::Created => false,
                TaskState::Cancelled => e == TaskError::Cancelled,
                TaskState::Completed => e == TaskError::AlreadyConsumed,
                TaskState::Failed => e == if old(self).consumed() {
                    TaskError::AlreadyConsumed
                } else {
                    old(self).failure()->0
                },
                TaskState::Running => final(self).failure() == Some(e) && failure_explained(
                    e,
                    old(self).snapshot_available(),
                    old(self).blocked(),
                ),
            },
    {
        if self.state == TaskState::Running && !self.closed {
            None
        } else {
            Some(self.wait_for_result())
        }
    }
}

impl StateRootTask {
    /// What the task is set up with.
    pub closed spec fn config(&self) -> StateRootConfig {
        self.config
    }

    /// Sets up a task.
    pub fn new(config: StateRootConfig) -> (t: StateRootTask)
        ensures
            t.config() == config,
    {
        StateRootTask { config }
    }

    /// Where the task stands: it is set up and not started.
    pub fn current_state(&self) -> (s: TaskState)
        ensures
            s == TaskState::Created,
    {
        TaskState::Created
    }

    /// A hook for the executor, with nothing queued.
    pub fn state_hook(&self) -> (h: StateHook)
        ensures
            h.wf(),
            h.queued().len() == 0,
    {
        StateHook::new()
    }

    /// Starts the task.
    pub fn spawn(self) -> (h: TaskHandle)
        requires
            self.config().wf(),
        ensures
            h.wf(),
            h.state() == TaskState::Running,
            !h.is_closed(),
            !h.consumed(),
            h.failure() is None,
            h.received().len() == 0,
            h.pending() == Map::<Seq<u8>, Option<Seq<u8>>>::empty(),
            h.threshold() == self.config().threshold(),
            h.start() == self.config().seed().state(),
            forall|p: Seq<u8>| h.seed_paths().contains(p) == self.config().seed().holds(p),
            forall|p: Seq<u8>|
                h.snapshot_paths().contains(p) == self.config().snapshot().holds(p),
            h.snapshot_available() == self.config().snapshot().available(),
            h.snapshot_complete() == self.config().snapshot().complete(),
    {
        let config = self.config;
        let ghost seed = config.seed;
        let ghost start = config.seed.state();
        let ghost paths = Set::new(|p: Seq<u8>| seed.holds(p));
        let ghost snapshot = config.snapshot;
        let ghost held = Set::new(|p: Seq<u8>| snapshot.holds(p));
        let ghost available = config.snapshot.available();
        let ghost complete = config.snapshot.complete();
        proof {
            seed.lemma_wf();
        }
        let h = TaskHandle {
            snapshot: config.snapshot,
            overlay: config.seed,
            aggregator: PrefixSetAggregator::new(config.threshold),
            closed: false,
            state: TaskState::Running,
            error: None,
            consumed: false,
            start: Ghost(start),
            base: Ghost(snapshot.state()),
            seed_paths: Ghost(paths),
            snap_paths: Ghost(held),
            received: Ghost(Seq::empty()),
            merged: Ghost(Map::empty()),
            available: Ghost(available),
            complete: Ghost(complete),
        };
        proof {
            let none = Map::<Seq<u8>, Option<Seq<u8>>>::empty();
            assert(apply(start, none) =~= start);
            assert(compose_all(Seq::<Changes>::empty()) == none);
            assert(compose(none, none) =~= none);
            assert(h.aggregator.dirty() =~= compose_all(h.received@).dom());
            assert forall|p: Seq<u8>| !touches(none, p) by {
            }
        }
        h
    }
}

} // verus!
