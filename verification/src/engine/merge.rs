//! The root aggregator's merge: the nodes of a partial update go into the
//! overlay, and the nodes above the update's subtree are recomputed from the
//! bottom up, so that the overlay is never torn.

use crate::engine::bytes::copy_bytes;
use crate::engine::error::TaskError;
use crate::engine::model::{
    apply, children_at, digest, is_path, lemma_prefix_is_path, lemma_prefix_transitive,
    lemma_prefixes_are_comparable, lemma_untouched_is_unchanged, lemma_value_after, node_at,
    touches, value_at, Changes, Leaves,
};
use crate::engine::node::{bytes_of, copy_option, Node};
use crate::engine::pathmap::PathMap;
use crate::engine::rebuild::{dirty_under, present, writes_paths};
use crate::engine::store::{lookup, root_digest, SnapshotView, TrieOverlay};
use crate::engine::worker::{all_under, PartialUpdate};
use vstd::prelude::*;

verus! {

/// `p` lies strictly above `q`, at depth `d` or deeper.
pub open spec fn on_spine(q: Seq<u8>, d: int, p: Seq<u8>) -> bool {
    p.is_prefix_of(q) && d <= p.len() < q.len()
}

/// `after` is `before` with the node of the state `l2` at each path strictly
/// above `q`, from depth `d` on.
pub open spec fn grown_spine(
    before: Map<Seq<u8>, Node>,
    after: Map<Seq<u8>, Node>,
    l2: Leaves,
    q: Seq<u8>,
    d: int,
) -> bool {
    &&& forall|p: Seq<u8>| #[trigger]
        after.contains_key(p) <==> (before.contains_key(p) || on_spine(q, d, p))
    &&& forall|p: Seq<u8>|
        on_spine(q, d, p) ==> (#[trigger] after[p]).wf() && after[p]@ == node_at(l2, p)
    &&& forall|p: Seq<u8>|
        before.contains_key(p) && !on_spine(q, d, p) ==> #[trigger] after[p] == before[p]
}

/// A node above the subtree at `q` is missing, though its subtree holds
/// something.
pub open spec fn missing_above(
    snapshot: &SnapshotView,
    overlay: &TrieOverlay,
    q: Seq<u8>,
    d: int,
) -> bool {
    exists|a: Seq<u8>|
        #![trigger on_spine(q, d, a)]
        on_spine(q, d, a) && digest(overlay.state(), a) is Some && !present(snapshot, overlay, a)
}

/// Where every write lies at or below `q`, no write touches a subtree that
/// branches off above `q`.
pub proof fn lemma_sibling_is_clean(c: Changes, q: Seq<u8>, a: Seq<u8>, j: u8)
    requires
        all_under(c, q),
        a.is_prefix_of(q),
        a.len() < q.len(),
        j != q[a.len() as int],
    ensures
        !touches(c, a.push(j)),
{
    let s = a.push(j);
    if touches(c, s) {
        let k = choose|k: Seq<u8>| c.contains_key(k) && s.is_prefix_of(k);
        assert(q.is_prefix_of(k));
        lemma_prefixes_are_comparable(s, q, k);
        if s.is_prefix_of(q) {
            assert(s[a.len() as int] == q.subrange(0, s.len() as int)[a.len() as int]);
        } else {
            assert(q.len() == s.len());
            assert(q[a.len() as int] == s.subrange(0, q.len() as int)[a.len() as int]);
        }
    }
}

/// Recomputes the nodes from `path` down to just above `q`, given the digest
/// of the subtree at `q` after the writes, and puts them into `out`.
pub fn respine(
    snapshot: &SnapshotView,
    overlay: &TrieOverlay,
    q: &Vec<u8>,
    sub_root: &Option<Vec<u8>>,
    c: Ghost<Changes>,
    path: &mut Vec<u8>,
    expected: &Option<Vec<u8>>,
    out: &mut PathMap<Node>,
) -> (r: Result<Option<Vec<u8>>, TaskError>)
    requires
        snapshot.wf(),
        snapshot.available(),
        overlay.wf(),
        overlay.based_on(snapshot),
        is_path(q@),
        old(path)@.is_prefix_of(q@),
        writes_paths(c@),
        all_under(c@, q@),
        bytes_of(*sub_root) == digest(apply(overlay.state(), c@), q@),
        bytes_of(*expected) == digest(overlay.state(), old(path)@),
        old(out).wf(),
    ensures
        final(path)@ == old(path)@,
        final(out).wf(),
        match r {
            Ok(d) => {
                &&& bytes_of(d) == digest(apply(overlay.state(), c@), old(path)@)
                &&& grown_spine(
                    old(out).map(),
                    final(out).map(),
                    apply(overlay.state(), c@),
                    q@,
                    old(path)@.len() as int,
                )
                &&& !missing_above(snapshot, overlay, q@, old(path)@.len() as int)
            },
            Err(e) => e == TaskError::NodeIntegrityError && missing_above(
                snapshot,
                overlay,
                q@,
                old(path)@.len() as int,
            ),
        },
    decreases q@.len() - old(path)@.len(),
{
    let ghost a = path@;
    let ghost l = overlay.state();
    let ghost l2 = apply(l, c@);
    let depth = path.len();
    if depth == q.len() {
        assert(a =~= q@);
        return Ok(copy_option(sub_root));
    }
    let nibble = q[depth];
    proof {
        lemma_prefix_is_path(a, q@);
        assert(on_spine(q@, depth as int, a));
    }
    let mut node: Node = match expected {
        None => Node::empty(),
        Some(_) => {
            match lookup(snapshot, overlay, path) {
                Some(n) => n.copy(),
                None => {
                    return Err(TaskError::NodeIntegrityError);
                },
            }
        },
    };
    assert(node@ == node_at(l, a));
    let ghost child = a.push(nibble);
    path.push(nibble);
    assert(path@ == child);
    proof {
        assert(child.is_prefix_of(q@)) by {
            assert(child =~= q@.subrange(0, child.len() as int)) by {
                assert forall|i: int| 0 <= i < child.len() implies child[i] == q@[i] by {
                    if i < a.len() {
                        assert(a[i] == q@.subrange(0, a.len() as int)[i]);
                    }
                }
            }
        }
        assert(node@.children[nibble as int] == children_at(l, a)[nibble as int]);
    }
    let below = copy_option(&node.children[nibble as usize]);
    let ghost out_before = out.map();
    match respine(snapshot, overlay, q, sub_root, c, path, &below, out) {
        Ok(d) => {
            let ghost kept = node@.children;
            node.children.set(nibble as usize, d);
            assert(node@.children =~= kept.update(nibble as int, bytes_of(d)));
        },
        Err(e) => {
            let _ = path.pop();
            proof {
                assert(path@ =~= a);
                let x = choose|x: Seq<u8>|
                    #![trigger on_spine(q@, depth + 1, x)]
                    on_spine(q@, depth + 1, x) && digest(overlay.state(), x) is Some && !present(
                        snapshot,
                        overlay,
                        x,
                    );
                assert(on_spine(q@, depth as int, x));
            }
            return Err(e);
        },
    }
    let _ = path.pop();
    assert(path@ =~= a);
    proof {
        assert(!c@.contains_key(a)) by {
            if c@.contains_key(a) {
                assert(q@.is_prefix_of(a));
            }
        }
        lemma_value_after(l, c@, a);
        assert forall|j: int| 0 <= j < 16 implies #[trigger] node@.children[j] == children_at(
            l2,
            a,
        )[j] by {
            if j != nibble {
                lemma_sibling_is_clean(c@, q@, a, j as u8);
                lemma_untouched_is_unchanged(l, c@, a.push(j as u8));
                assert(node@.children[j] == children_at(l, a)[j]);
            }
        }
        assert(node@.children =~= children_at(l2, a));
    }
    assert(node@ == node_at(l2, a));
    let d = node.digest();
    let ghost mid = out.map();
    out.insert(copy_bytes(path), node);
    proof {
        let now = out.map();
        assert forall|p: Seq<u8>| on_spine(q@, depth as int, p) <==> (p == a || on_spine(
            q@,
            depth + 1,
            p,
        )) by {
            if on_spine(q@, depth as int, p) && p.len() == depth {
                lemma_prefixes_are_comparable(p, a, q@);
                assert(p =~= a);
            }
        }
        assert forall|p: Seq<u8>| #[trigger]
            now.contains_key(p) <==> (old(out).map().contains_key(p) || on_spine(
                q@,
                depth as int,
                p,
            )) by {
            assert(mid.contains_key(p) <==> (out_before.contains_key(p) || on_spine(
                q@,
                depth + 1,
                p,
            )));
        }
        assert forall|p: Seq<u8>| on_spine(q@, depth as int, p) implies (#[trigger] now[p]).wf()
            && now[p]@ == node_at(l2, p) by {
            if p != a {
                assert(on_spine(q@, depth + 1, p));
                assert(now[p] == mid[p]);
            }
        }
        assert forall|p: Seq<u8>|
            old(out).map().contains_key(p) && !on_spine(
                q@,
                depth as int,
                p,
            ) implies #[trigger] now[p] == old(out).map()[p] by {
            assert(p != a);
            assert(!on_spine(q@, depth + 1, p));
            assert(now[p] == mid[p]);
        }
        assert(!missing_above(snapshot, overlay, q@, depth as int)) by {
            assert forall|x: Seq<u8>|
                #![trigger on_spine(q@, depth as int, x)]
                on_spine(q@, depth as int, x) && digest(l, x) is Some implies present(
                snapshot,
                overlay,
                x,
            ) by {
                if x != a {
                    assert(on_spine(q@, depth + 1, x));
                }
            }
        }
    }
    Ok(d)
}

/// `after` is `before` with the writes merged: it stands for the state after
/// them, and it holds the nodes that `before` held and those of the paths
/// that the writes touch.
pub open spec fn merged_from(after: &TrieOverlay, before: &TrieOverlay, writes: Changes) -> bool {
    &&& after.wf()
    &&& after.base() == before.base()
    &&& after.state() == apply(before.state(), writes)
    &&& forall|p: Seq<u8>| #[trigger] after.holds(p) == (before.holds(p) || touches(writes, p))
}

/// Merges a partial update into the overlay: its nodes, and the recomputed
/// nodes above its subtree. On failure the overlay stays as it was.
pub fn merge(overlay: &mut TrieOverlay, snapshot: &SnapshotView, update: PartialUpdate) -> (r:
    Result<(), TaskError>)
    requires
        old(overlay).wf(),
        snapshot.wf(),
        old(overlay).based_on(snapshot),
        update.wf(),
        update.valid_for(old(overlay).state()),
    ensures
        final(overlay).wf(),
        final(overlay).based_on(snapshot),
        match r {
            Ok(_) => {
                &&& merged_from(final(overlay), old(overlay), update.writes())
                &&& touches(update.writes(), update.prefix()) ==> snapshot.available()
                    && !missing_above(snapshot, old(overlay), update.prefix(), 0)
            },
            Err(e) => {
                &&& *final(overlay) == *old(overlay)
                &&& touches(update.writes(), update.prefix())
                &&& if snapshot.available() {
                    e == TaskError::NodeIntegrityError && missing_above(
                        snapshot,
                        old(overlay),
                        update.prefix(),
                        0,
                    )
                } else {
                    e == TaskError::SnapshotUnavailable
                }
            },
        },
{
    let ghost l = overlay.state();
    let ghost c = update.writes();
    let ghost qv = update.prefix();
    let ghost l2 = apply(l, c);
    let ghost fresh = update.nodes();
    proof {
        update.lemma_wf();
        assert(qv.is_prefix_of(qv));
    }
    let (q, mut out, sub_root) = update.into_parts();
    if out.len() == 0 {
        proof {
            out.lemma_listing();
            assert(!touches(c, qv)) by {
                if touches(c, qv) {
                    assert(dirty_under(c, qv, qv));
                    assert(fresh.contains_key(qv));
                }
            }
            assert forall|k: Seq<u8>| !c.contains_key(k) by {
                if c.contains_key(k) {
                    assert(qv.is_prefix_of(k));
                }
            }
            assert(l2 =~= l);
            assert forall|p: Seq<u8>| !touches(c, p) by {
            }
        }
        overlay.install(&out, Ghost(l2));
        return Ok(());
    }
    proof {
        out.lemma_listing();
        let w = out.paths()[0];
        assert(fresh.contains_key(w));
        assert(dirty_under(c, qv, w));
        let k = choose|k: Seq<u8>| c.contains_key(k) && w.is_prefix_of(k);
        assert(qv.is_prefix_of(k));
        assert(touches(c, qv));
    }
    if !snapshot.is_available() {
        return Err(TaskError::SnapshotUnavailable);
    }
    let top = root_digest(snapshot, overlay);
    let mut path: Vec<u8> = Vec::new();
    assert(path@.is_prefix_of(qv));
    match respine(snapshot, overlay, &q, &sub_root, Ghost(c), &mut path, &top, &mut out) {
        Err(e) => Err(e),
        Ok(_) => {
            proof {
                let now = out.map();
                assert forall|p: Seq<u8>| touches(c, p) <==> (dirty_under(c, qv, p) || on_spine(
                    qv,
                    0,
                    p,
                )) by {
                    if touches(c, p) {
                        let k = choose|k: Seq<u8>| c.contains_key(k) && p.is_prefix_of(k);
                        assert(qv.is_prefix_of(k));
                        lemma_prefixes_are_comparable(p, qv, k);
                        if !qv.is_prefix_of(p) {
                            assert(p.len() < qv.len()) by {
                                if p.len() >= qv.len() {
                                    assert(qv =~= p.subrange(0, qv.len() as int));
                                }
                            }
                        }
                    }
                    if on_spine(qv, 0, p) {
                        let k = choose|k: Seq<u8>| c.contains_key(k) && qv.is_prefix_of(k);
                        lemma_prefix_transitive(p, qv, k);
                    }
                }
                assert forall|p: Seq<u8>| dirty_under(c, qv, p) implies !on_spine(qv, 0, p) by {
                    if on_spine(qv, 0, p) {
                        assert(qv =~= p.subrange(0, qv.len() as int));
                    }
                }
                assert forall|p: Seq<u8>| #[trigger] now.contains_key(p) implies now[p].wf()
                    && now[p]@ == node_at(l2, p) by {
                    if on_spine(qv, 0, p) {
                    } else {
                        assert(fresh.contains_key(p));
                        assert(dirty_under(c, qv, p));
                        assert(now[p] == fresh[p]);
                    }
                }
                assert forall|p: Seq<u8>|
                    !now.contains_key(p) && #[trigger] overlay.holds(p) implies node_at(l2, p)
                    == node_at(l, p) by {
                    assert(!touches(c, p));
                    lemma_untouched_is_unchanged(l, c, p);
                }
                assert forall|p: Seq<u8>|
                    !now.contains_key(p) && !(#[trigger] overlay.holds(
                        p,
                    )) implies crate::engine::model::agree_under(l2, l, p) by {
                    assert(!touches(c, p));
                    assert forall|k: Seq<u8>| p.is_prefix_of(k) implies value_at(l2, k)
                        == value_at(l, k) by {
                        lemma_value_after(l, c, k);
                    }
                }
                assert forall|p: Seq<u8>| now.contains_key(p) == touches(c, p) by {
                    assert(now.contains_key(p) <==> (fresh.contains_key(p) || on_spine(qv, 0, p)));
                    assert(fresh.contains_key(p) <==> dirty_under(c, qv, p));
                }
            }
            overlay.install(&out, Ghost(l2));
            Ok(())
        },
    }
}

} // verus!
