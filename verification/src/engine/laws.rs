//! What holds of the engine as a whole.

use crate::engine::diff::{changes_of, StateDiff};
use crate::engine::merge::merged_from;
use crate::engine::model::{
    apply, apply_all, compose_all, lemma_apply_all_is_compose_all, lemma_prefixes_are_comparable,
    lemma_value_after, root_of, touches, value_at, Changes, Leaves,
};
use crate::engine::reference::ReferenceState;
use crate::engine::store::TrieOverlay;
use crate::engine::task::{is_result_of, RootResult, TaskHandle};
use crate::engine::worker::{lemma_update_is_local, PartialUpdate};
use vstd::prelude::*;

verus! {

/// The writes of each diff, in order.
pub open spec fn diff_writes(diffs: Seq<StateDiff>) -> Seq<Changes> {
    diffs.map_values(|d: StateDiff| changes_of(d.accounts@))
}

/// The state after the diffs, applied one by one to the state `l`: what the
/// reference computes.
pub open spec fn state_after(l: Leaves, diffs: Seq<StateDiff>) -> Leaves
    decreases diffs.len(),
{
    if diffs.len() == 0 {
        l
    } else {
        apply(state_after(l, diffs.drop_last()), changes_of(diffs.last().accounts@))
    }
}

/// The state that a task aims at, having taken in the writes of the diffs,
/// is the state that the reference reaches by applying the diffs one by one.
pub proof fn lemma_target_is_reference_state(l: Leaves, diffs: Seq<StateDiff>)
    ensures
        apply_all(l, diff_writes(diffs)) == state_after(l, diffs),
    decreases diffs.len(),
{
    if diffs.len() > 0 {
        lemma_target_is_reference_state(l, diffs.drop_last());
        assert(diff_writes(diffs).drop_last() == diff_writes(diffs.drop_last()));
    }
}

/// For every sequence of diffs applied to an empty trie, the root that the
/// engine hands out, the root of the state it aims at, is the root that the
/// reference computes from the state it has reached.
pub proof fn lemma_engine_root_is_reference_root(diffs: Seq<StateDiff>)
    ensures
        root_of(apply_all(Map::<Seq<u8>, Seq<u8>>::empty(), diff_writes(diffs))) == root_of(
            state_after(Map::<Seq<u8>, Seq<u8>>::empty(), diffs),
        ),
{
    lemma_target_is_reference_state(Map::<Seq<u8>, Seq<u8>>::empty(), diffs);
}

/// A task that started from the empty state and took in the writes of the
/// diffs hands out the root of the state that the reference has reached by
/// applying the same diffs.
pub proof fn lemma_task_matches_reference(
    h: TaskHandle,
    res: RootResult,
    reference: ReferenceState,
    diffs: Seq<StateDiff>,
)
    requires
        h.start() == Map::<Seq<u8>, Seq<u8>>::empty(),
        h.received() == diff_writes(diffs),
        is_result_of(&res, &h),
        reference@ == state_after(Map::<Seq<u8>, Seq<u8>>::empty(), diffs),
    ensures
        res.root@ == root_of(reference@),
{
    lemma_target_is_reference_state(Map::<Seq<u8>, Seq<u8>>::empty(), diffs);
}

/// How the writes are cut into diffs does not matter: two sequences of
/// writes with the same last write for each path lead to the same state, the
/// same root and the same dirty paths.
pub proof fn lemma_chunking_is_irrelevant(l: Leaves, fine: Seq<Changes>, coarse: Seq<Changes>)
    requires
        compose_all(fine) == compose_all(coarse),
    ensures
        apply_all(l, fine) == apply_all(l, coarse),
        root_of(apply_all(l, fine)) == root_of(apply_all(l, coarse)),
        forall|p: Seq<u8>| touches(compose_all(fine), p) == touches(compose_all(coarse), p),
{
    lemma_apply_all_is_compose_all(l, fine);
    lemma_apply_all_is_compose_all(l, coarse);
}

/// One diff that holds the last write of each path of a sequence of diffs
/// leads to the same state as the sequence.
pub proof fn lemma_aggregate_diff(l: Leaves, fine: Seq<StateDiff>, aggregate: StateDiff)
    requires
        changes_of(aggregate.accounts@) == compose_all(diff_writes(fine)),
    ensures
        state_after(l, seq![aggregate]) == state_after(l, fine),
{
    let one = seq![aggregate];
    lemma_target_is_reference_state(l, fine);
    lemma_target_is_reference_state(l, one);
    assert(compose_all(diff_writes(one)) =~= changes_of(aggregate.accounts@)) by {
        assert(diff_writes(one).drop_last() =~= Seq::<Changes>::empty());
        assert(diff_writes(one).last() == changes_of(aggregate.accounts@));
        assert(compose_all(Seq::<Changes>::empty()) == Map::<Seq<u8>, Option<Seq<u8>>>::empty());
    }
    lemma_chunking_is_irrelevant(l, diff_writes(fine), diff_writes(one));
}

/// Two overlays that stand for the same state and hold the same paths hold
/// the same nodes.
pub proof fn lemma_overlays_agree(a: TrieOverlay, b: TrieOverlay)
    requires
        a.wf(),
        b.wf(),
        a.state() == b.state(),
        forall|p: Seq<u8>| a.holds(p) == b.holds(p),
    ensures
        forall|p: Seq<u8>| #[trigger] a.holds(p) ==> a.node(p)@ == b.node(p)@,
{
    a.lemma_wf();
    b.lemma_wf();
    assert forall|p: Seq<u8>| #[trigger] a.holds(p) implies a.node(p)@ == b.node(p)@ by {
        assert(b.holds(p));
    }
}

/// Two tasks that start alike and take in writes with the same last write
/// for each path hand out the same result: the same root, and overlays that
/// agree path by path and node by node.
pub proof fn lemma_same_writes_same_result(
    h1: TaskHandle,
    r1: RootResult,
    h2: TaskHandle,
    r2: RootResult,
)
    requires
        h1.start() == h2.start(),
        h1.seed_paths() == h2.seed_paths(),
        compose_all(h1.received()) == compose_all(h2.received()),
        is_result_of(&r1, &h1),
        is_result_of(&r2, &h2),
    ensures
        r1.root@ == r2.root@,
        r1.overlay.state() == r2.overlay.state(),
        forall|p: Seq<u8>| r1.overlay.holds(p) == r2.overlay.holds(p),
        forall|p: Seq<u8>| #[trigger] r1.overlay.holds(p) ==> r1.overlay.node(p)@ == r2.overlay.node(
            p,
        )@,
{
    lemma_chunking_is_irrelevant(h1.start(), h1.received(), h2.received());
    lemma_overlays_agree(r1.overlay, r2.overlay);
}

/// Writes in subtrees that do not overlap do not meet: no path is written
/// by both.
pub proof fn lemma_disjoint_subtrees(c1: Changes, q1: Seq<u8>, c2: Changes, q2: Seq<u8>)
    requires
        forall|k: Seq<u8>| #[trigger] c1.contains_key(k) ==> q1.is_prefix_of(k),
        forall|k: Seq<u8>| #[trigger] c2.contains_key(k) ==> q2.is_prefix_of(k),
        !q1.is_prefix_of(q2),
        !q2.is_prefix_of(q1),
    ensures
        forall|k: Seq<u8>| q2.is_prefix_of(k) ==> !c1.contains_key(k),
        forall|k: Seq<u8>| q1.is_prefix_of(k) ==> !c2.contains_key(k),
{
    assert forall|k: Seq<u8>| q2.is_prefix_of(k) implies !c1.contains_key(k) by {
        if c1.contains_key(k) {
            lemma_prefixes_are_comparable(q1, q2, k);
        }
    }
    assert forall|k: Seq<u8>| q1.is_prefix_of(k) implies !c2.contains_key(k) by {
        if c2.contains_key(k) {
            lemma_prefixes_are_comparable(q1, q2, k);
        }
    }
}

/// Merges of disjoint subtrees commute. Two updates were computed over the
/// same overlay, for subtrees that do not overlap. Then either may be merged
/// first: the other is still right for the overlay that results, and both
/// orders end in the same overlay, path by path and node by node.
pub proof fn lemma_disjoint_merges_commute(
    start: TrieOverlay,
    u1: PartialUpdate,
    u2: PartialUpdate,
    mid1: TrieOverlay,
    end1: TrieOverlay,
    mid2: TrieOverlay,
    end2: TrieOverlay,
)
    requires
        start.wf(),
        u1.wf(),
        u2.wf(),
        u1.valid_for(start.state()),
        u2.valid_for(start.state()),
        !u1.prefix().is_prefix_of(u2.prefix()),
        !u2.prefix().is_prefix_of(u1.prefix()),
        merged_from(&mid1, &start, u1.writes()),
        merged_from(&end1, &mid1, u2.writes()),
        merged_from(&mid2, &start, u2.writes()),
        merged_from(&end2, &mid2, u1.writes()),
    ensures
        u2.valid_for(mid1.state()),
        u1.valid_for(mid2.state()),
        end1.state() == end2.state(),
        forall|p: Seq<u8>| end1.holds(p) == end2.holds(p),
        forall|p: Seq<u8>| #[trigger] end1.holds(p) ==> end1.node(p)@ == end2.node(p)@,
{
    let l = start.state();
    let c1 = u1.writes();
    let c2 = u2.writes();
    u1.lemma_wf();
    u2.lemma_wf();
    lemma_disjoint_subtrees(c1, u1.prefix(), c2, u2.prefix());
    assert forall|k: Seq<u8>| u2.prefix().is_prefix_of(k) implies value_at(l, k) == value_at(
        apply(l, c1),
        k,
    ) by {
        lemma_value_after(l, c1, k);
    }
    lemma_update_is_local(u2, l, apply(l, c1));
    assert forall|k: Seq<u8>| u1.prefix().is_prefix_of(k) implies value_at(l, k) == value_at(
        apply(l, c2),
        k,
    ) by {
        lemma_value_after(l, c2, k);
    }
    lemma_update_is_local(u1, l, apply(l, c2));
    assert(apply(apply(l, c1), c2) =~= apply(apply(l, c2), c1)) by {
        assert forall|k: Seq<u8>| !(c1.contains_key(k) && c2.contains_key(k)) by {
            if c1.contains_key(k) && c2.contains_key(k) {
                assert(u2.prefix().is_prefix_of(k));
            }
        }
    }
    assert forall|p: Seq<u8>| end1.holds(p) == end2.holds(p) by {
        assert(mid1.holds(p) == (start.holds(p) || touches(c1, p)));
        assert(mid2.holds(p) == (start.holds(p) || touches(c2, p)));
    }
    lemma_overlays_agree(end1, end2);
}

} // verus!
