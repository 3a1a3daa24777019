//! The sparse recomputation: of the subtree at a dirty path, only the
//! branches that a write touches are rebuilt; every other subtree keeps the
//! digest that the node above it records.

use crate::engine::bytes::copy_bytes;
use crate::engine::changes::ChangeSet;
use crate::engine::error::TaskError;
use crate::engine::model::{
    apply, children_at, digest, is_path, lemma_child_on_the_way,
    lemma_prefix_is_path, lemma_prefix_transitive, lemma_untouched_is_unchanged,
    lemma_value_after, max_depth, no_children, node_at, touches, value_at, Changes,
    Leaves,
};
use crate::engine::node::{bytes_of, copy_option, Node};
use crate::engine::pathmap::PathMap;
use crate::engine::store::{lookup, SnapshotView, TrieOverlay};
use vstd::prelude::*;

verus! {

/// `q` lies at or below `p`, and a write touches its subtree.
pub open spec fn dirty_under(c: Changes, p: Seq<u8>, q: Seq<u8>) -> bool {
    p.is_prefix_of(q) && touches(c, q)
}

/// `q` lies below one of the first `i` children of `p`, and a write touches
/// its subtree.
pub open spec fn dirty_below(c: Changes, p: Seq<u8>, i: int, q: Seq<u8>) -> bool {
    p.is_prefix_of(q) && q.len() > p.len() && q[p.len() as int] < i && touches(c, q)
}

/// Every written path stands for a node.
pub open spec fn writes_paths(c: Changes) -> bool {
    forall|k: Seq<u8>| #[trigger] c.contains_key(k) ==> is_path(k)
}

/// The computation sees a node at `q`: in the overlay, or else in the
/// snapshot.
pub open spec fn present(snapshot: &SnapshotView, overlay: &TrieOverlay, q: Seq<u8>) -> bool {
    overlay.holds(q) || snapshot.holds(q)
}

/// A node that the recomputation of the subtree at `p` needs is missing: its
/// subtree is dirty and holds something, and neither the overlay nor the
/// snapshot has the node.
pub open spec fn missing_under(
    snapshot: &SnapshotView,
    overlay: &TrieOverlay,
    c: Changes,
    p: Seq<u8>,
) -> bool {
    exists|q: Seq<u8>|
        #![trigger dirty_under(c, p, q)]
        dirty_under(c, p, q) && digest(overlay.state(), q) is Some && !present(
            snapshot,
            overlay,
            q,
        )
}

/// `after` is `before` with the node of the state `l2` at each dirty path at
/// or below `p`.
pub open spec fn grown_under(
    before: Map<Seq<u8>, Node>,
    after: Map<Seq<u8>, Node>,
    l2: Leaves,
    c: Changes,
    p: Seq<u8>,
) -> bool {
    &&& forall|q: Seq<u8>| #[trigger]
        after.contains_key(q) <==> (before.contains_key(q) || dirty_under(c, p, q))
    &&& forall|q: Seq<u8>|
        dirty_under(c, p, q) ==> (#[trigger] after[q]).wf() && after[q]@ == node_at(l2, q)
    &&& forall|q: Seq<u8>|
        before.contains_key(q) && !dirty_under(c, p, q) ==> #[trigger] after[q] == before[q]
}

/// `after` is `before` with the node of the state `l2` at each dirty path
/// below one of the first `i` children of `p`.
pub open spec fn grown_below(
    before: Map<Seq<u8>, Node>,
    after: Map<Seq<u8>, Node>,
    l2: Leaves,
    c: Changes,
    p: Seq<u8>,
    i: int,
) -> bool {
    &&& forall|q: Seq<u8>| #[trigger]
        after.contains_key(q) <==> (before.contains_key(q) || dirty_below(c, p, i, q))
    &&& forall|q: Seq<u8>|
        dirty_below(c, p, i, q) ==> (#[trigger] after[q]).wf() && after[q]@ == node_at(l2, q)
    &&& forall|q: Seq<u8>|
        before.contains_key(q) && !dirty_below(c, p, i, q) ==> #[trigger] after[q] == before[q]
}

/// What is dirty below the first `i + 1` children is what is dirty below the
/// first `i`, and what is dirty at or below child `i`.
pub proof fn lemma_dirty_step(c: Changes, p: Seq<u8>, i: int, q: Seq<u8>)
    requires
        0 <= i < 16,
    ensures
        dirty_below(c, p, i + 1, q) <==> (dirty_below(c, p, i, q) || dirty_under(
            c,
            p.push(i as u8),
            q,
        )),
        dirty_under(c, p.push(i as u8), q) ==> !dirty_below(c, p, i, q),
{
    let child = p.push(i as u8);
    if dirty_under(c, child, q) {
        assert(p.is_prefix_of(child)) by {
            assert(p =~= child.subrange(0, p.len() as int));
        }
        lemma_prefix_transitive(p, child, q);
        assert(q[p.len() as int] == child.subrange(0, child.len() as int)[p.len() as int]) by {
            assert(child =~= q.subrange(0, child.len() as int));
        }
        assert(q[p.len() as int] == i);
    }
    if dirty_below(c, p, i + 1, q) && !dirty_below(c, p, i, q) {
        assert(q[p.len() as int] == i);
        lemma_child_on_the_way(p, q);
        assert(p.push(q[p.len() as int]) == child);
    }
}

/// What is dirty at or below `p` is `p` itself and what is dirty below its
/// sixteen children.
pub proof fn lemma_dirty_all(c: Changes, p: Seq<u8>, q: Seq<u8>)
    requires
        writes_paths(c),
        touches(c, p),
    ensures
        dirty_under(c, p, q) <==> (q == p || dirty_below(c, p, 16, q)),
{
    if dirty_under(c, p, q) && q != p {
        assert(q.len() > p.len()) by {
            if q.len() == p.len() {
                assert(p =~= q);
            }
        }
        let k = choose|k: Seq<u8>| c.contains_key(k) && q.is_prefix_of(k);
        lemma_prefix_is_path(q, k);
        assert(q[p.len() as int] < 16);
    }
    if q == p {
        assert(p.is_prefix_of(p));
    }
}

/// Nothing is dirty at or below a path that no write touches.
pub proof fn lemma_clean_subtree(c: Changes, p: Seq<u8>, q: Seq<u8>)
    requires
        !touches(c, p),
    ensures
        !dirty_under(c, p, q),
{
    if dirty_under(c, p, q) {
        let k = choose|k: Seq<u8>| c.contains_key(k) && q.is_prefix_of(k);
        lemma_prefix_transitive(p, q, k);
    }
}

/// Below a path of full length nothing else is dirty.
pub proof fn lemma_dirty_at_full_depth(c: Changes, p: Seq<u8>, q: Seq<u8>)
    requires
        writes_paths(c),
        p.len() >= max_depth(),
        dirty_under(c, p, q),
    ensures
        q == p,
{
    let k = choose|k: Seq<u8>| c.contains_key(k) && q.is_prefix_of(k);
    lemma_prefix_is_path(q, k);
    assert(p =~= q);
}

/// Recomputes the subtree at `path` after the writes of `changes`, and puts
/// the node of every dirty path at or below `path` into `out`. `expected` is
/// the digest of the subtree before the writes, as the node above records
/// it. Fails where a node that is needed is missing.
pub fn rebuild(
    snapshot: &SnapshotView,
    overlay: &TrieOverlay,
    changes: &ChangeSet,
    path: &mut Vec<u8>,
    expected: &Option<Vec<u8>>,
    out: &mut PathMap<Node>,
) -> (r: Result<Option<Vec<u8>>, TaskError>)
    requires
        snapshot.wf(),
        snapshot.available(),
        overlay.wf(),
        overlay.based_on(snapshot),
        changes.wf(),
        is_path(old(path)@),
        touches(changes@, old(path)@),
        bytes_of(*expected) == digest(overlay.state(), old(path)@),
        old(out).wf(),
    ensures
        final(path)@ == old(path)@,
        final(out).wf(),
        match r {
            Ok(d) => {
                &&& bytes_of(d) == digest(apply(overlay.state(), changes@), old(path)@)
                &&& grown_under(
                    old(out).map(),
                    final(out).map(),
                    apply(overlay.state(), changes@),
                    changes@,
                    old(path)@,
                )
                &&& !missing_under(snapshot, overlay, changes@, old(path)@)
            },
            Err(e) => e == TaskError::NodeIntegrityError && missing_under(
                snapshot,
                overlay,
                changes@,
                old(path)@,
            ),
        },
    decreases max_depth() - old(path)@.len(),
{
    let ghost p = path@;
    let ghost l = overlay.state();
    let ghost c = changes@;
    let ghost l2 = apply(l, c);
    proof {
        changes.lemma_paths();
        assert(p.is_prefix_of(p));
        assert(dirty_under(c, p, p));
    }
    let mut node: Node = match expected {
        None => Node::empty(),
        Some(_) => {
            match lookup(snapshot, overlay, path) {
                Some(n) => n.copy(),
                None => {
                    return Err(TaskError::NodeIntegrityError);
                },
            }
        },
    };
    assert(node@ == node_at(l, p));
    match changes.get(path) {
        Some(w) => {
            node.value = copy_option(w);
        },
        None => {},
    }
    proof {
        lemma_value_after(l, c, p);
    }
    assert(node@.value == value_at(l2, p));
    assert(node@.children == children_at(l, p));
    if path.len() < 128 {
        let mut i: u8 = 0;
        while i < 16
            invariant
                i <= 16,
                path@ == p,
                p == old(path)@,
                p.len() < max_depth(),
                is_path(p),
                node.wf(),
                snapshot.wf(),
                snapshot.available(),
                overlay.wf(),
                overlay.based_on(snapshot),
                changes.wf(),
                writes_paths(c),
                touches(c, p),
                l == overlay.state(),
                c == changes@,
                l2 == apply(l, c),
                out.wf(),
                node@.value == value_at(l2, p),
                forall|j: int| 0 <= j < i ==> #[trigger] node@.children[j] == children_at(l2, p)[j],
                forall|j: int| i <= j < 16 ==> #[trigger] node@.children[j] == children_at(l, p)[j],
                grown_below(old(out).map(), out.map(), l2, c, p, i as int),
                forall|q: Seq<u8>|
                    #![trigger dirty_below(c, p, i as int, q)]
                    dirty_below(c, p, i as int, q) && digest(l, q) is Some ==> present(
                        snapshot,
                        overlay,
                        q,
                    ),
            decreases 16 - i,
        {
            let ghost child = p.push(i);
            let ghost out_before = out.map();
            path.push(i);
            assert(path@ == child);
            assert(is_path(child));
            if changes.touches(path) {
                let below = copy_option(&node.children[i as usize]);
                assert(bytes_of(below) == digest(l, child)) by {
                    assert(node@.children[i as int] == children_at(l, p)[i as int]);
                }
                match rebuild(snapshot, overlay, changes, path, &below, out) {
                    Ok(d) => {
                        let ghost kept = node@.children;
                        node.children.set(i as usize, d);
                        assert(node@.children =~= kept.update(i as int, bytes_of(d)));
                        assert(children_at(l2, p)[i as int] == digest(l2, child));
                        proof {
                            assert forall|q: Seq<u8>|
                                #![trigger dirty_below(c, p, i + 1, q)]
                                dirty_below(c, p, i + 1, q) && digest(l, q) is Some implies present(
                                snapshot,
                                overlay,
                                q,
                            ) by {
                                lemma_dirty_step(c, p, i as int, q);
                                if dirty_under(c, child, q) {
                                    assert(!missing_under(snapshot, overlay, c, child));
                                } else {
                                    assert(dirty_below(c, p, i as int, q));
                                }
                            }
                        }
                    },
                    Err(e) => {
                        let _ = path.pop();
                        proof {
                            let q = choose|q: Seq<u8>|
                                #![trigger dirty_under(c, child, q)]
                                dirty_under(c, child, q) && digest(overlay.state(), q) is Some
                                    && !present(snapshot, overlay, q);
                            lemma_dirty_step(c, p, i as int, q);
                            assert(dirty_under(c, p, q));
                            assert(path@ =~= p);
                        }
                        return Err(e);
                    },
                }
            } else {
                proof {
                    lemma_untouched_is_unchanged(l, c, child);
                    assert(children_at(l2, p)[i as int] == digest(l2, child));
                    assert(children_at(l, p)[i as int] == digest(l, child));
                    assert forall|q: Seq<u8>|
                        #![trigger dirty_below(c, p, i + 1, q)]
                        dirty_below(c, p, i + 1, q) && digest(l, q) is Some implies present(
                        snapshot,
                        overlay,
                        q,
                    ) by {
                        lemma_dirty_step(c, p, i as int, q);
                        lemma_clean_subtree(c, child, q);
                        assert(dirty_below(c, p, i as int, q));
                    }
                }
            }
            let _ = path.pop();
            assert(path@ =~= p);
            proof {
                let now = out.map();
                assert forall|q: Seq<u8>| #[trigger]
                    now.contains_key(q) <==> (old(out).map().contains_key(q) || dirty_below(
                        c,
                        p,
                        i + 1,
                        q,
                    )) by {
                    lemma_dirty_step(c, p, i as int, q);
                    if !touches(c, child) {
                        lemma_clean_subtree(c, child, q);
                    }
                    assert(out_before.contains_key(q) <==> (old(out).map().contains_key(q)
                        || dirty_below(c, p, i as int, q)));
                }
                assert forall|q: Seq<u8>| dirty_below(c, p, i + 1, q) implies (
                #[trigger] now[q]).wf() && now[q]@ == node_at(l2, q) by {
                    lemma_dirty_step(c, p, i as int, q);
                    if !touches(c, child) {
                        lemma_clean_subtree(c, child, q);
                    }
                    if dirty_under(c, child, q) {
                    } else {
                        assert(dirty_below(c, p, i as int, q));
                        assert(out_before.contains_key(q));
                        assert(now[q] == out_before[q]);
                    }
                }
                assert forall|q: Seq<u8>|
                    old(out).map().contains_key(q) && !dirty_below(
                        c,
                        p,
                        i + 1,
                        q,
                    ) implies #[trigger] now[q] == old(out).map()[q] by {
                    lemma_dirty_step(c, p, i as int, q);
                    if !touches(c, child) {
                        lemma_clean_subtree(c, child, q);
                    }
                    assert(out_before.contains_key(q));
                    assert(out_before[q] == old(out).map()[q]);
                    assert(now[q] == out_before[q]);
                }
            }
            i += 1;
        }
        assert(node@.children =~= children_at(l2, p));
    } else {
        assert(children_at(l, p) == no_children());
        assert(children_at(l2, p) == no_children());
    }
    assert(node@ == node_at(l2, p));
    let d = node.digest();
    let ghost out_before = out.map();
    out.insert(copy_bytes(path), node);
    proof {
        let now = out.map();
        assert forall|q: Seq<u8>| #[trigger]
            now.contains_key(q) <==> (old(out).map().contains_key(q) || dirty_under(c, p, q)) by {
            lemma_dirty_all(c, p, q);
            if p.len() >= max_depth() && dirty_under(c, p, q) {
                lemma_dirty_at_full_depth(c, p, q);
            }
            if p.len() < max_depth() {
                assert(out_before.contains_key(q) <==> (old(out).map().contains_key(q)
                    || dirty_below(c, p, 16, q)));
            }
        }
        assert forall|q: Seq<u8>| dirty_under(c, p, q) implies (#[trigger] now[q]).wf() && now[q]@
            == node_at(l2, q) by {
            lemma_dirty_all(c, p, q);
            if p.len() >= max_depth() {
                lemma_dirty_at_full_depth(c, p, q);
            }
            if q != p {
                assert(dirty_below(c, p, 16, q));
                assert(now[q] == out_before[q]);
            }
        }
        assert forall|q: Seq<u8>|
            old(out).map().contains_key(q) && !dirty_under(c, p, q) implies #[trigger] now[q]
            == old(out).map()[q] by {
            lemma_dirty_all(c, p, q);
            assert(q != p);
            assert(now[q] == out_before[q]);
            if p.len() < max_depth() {
                assert(!dirty_below(c, p, 16, q));
            }
        }
        assert(!missing_under(snapshot, overlay, c, p)) by {
            assert forall|q: Seq<u8>|
                #![trigger dirty_under(c, p, q)]
                dirty_under(c, p, q) && digest(l, q) is Some implies present(
                snapshot,
                overlay,
                q,
            ) by {
                lemma_dirty_all(c, p, q);
                if p.len() >= max_depth() {
                    lemma_dirty_at_full_depth(c, p, q);
                }
                if q != p {
                    assert(dirty_below(c, p, 16, q));
                }
            }
        }
    }
    Ok(d)
}

} // verus!
