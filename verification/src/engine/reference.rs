//! The reference: the whole state held as a list of values, and its root
//! computed by building the whole trie anew.

use crate::engine::bytes::copy_bytes;
use crate::engine::changes::ChangeSet;
use crate::engine::diff::{changes_of, StateDiff};
use crate::engine::model::{
    apply, children_at, digest, lemma_empty_state, lemma_subtree_is_local, max_depth, no_children, node_at, root_of, value_at, Leaves,
};
use crate::engine::node::Node;
use crate::engine::pathmap::PathMap;
use vstd::prelude::*;

verus! {

/// The state that a map of byte vectors stands for.
pub open spec fn leaves_of(m: Map<Seq<u8>, Vec<u8>>) -> Leaves {
    Map::new(|k: Seq<u8>| m.contains_key(k), |k: Seq<u8>| m[k]@)
}

/// A subtree without a value at or below its path has no digest.
pub proof fn lemma_bare_subtree(l: Leaves, p: Seq<u8>)
    requires
        forall|k: Seq<u8>| p.is_prefix_of(k) ==> !l.contains_key(k),
    ensures
        digest(l, p) is None,
{
    lemma_subtree_is_local(l, Map::<Seq<u8>, Seq<u8>>::empty(), p);
    lemma_empty_state(p);
}

/// The whole state, value by value.
pub struct ReferenceState {
    leaves: PathMap<Vec<u8>>,
}

impl View for ReferenceState {
    type V = Leaves;

    closed spec fn view(&self) -> Leaves {
        leaves_of(self.leaves.map())
    }
}

impl ReferenceState {
    /// The list behind the state holds no path twice.
    pub closed spec fn wf(&self) -> bool {
        self.leaves.wf()
    }

    /// The empty state.
    pub fn new() -> (s: ReferenceState)
        ensures
            s.wf(),
            s@ == Map::<Seq<u8>, Seq<u8>>::empty(),
    {
        let s = ReferenceState { leaves: PathMap::new() };
        assert(s@ =~= Map::<Seq<u8>, Seq<u8>>::empty());
        s
    }

    /// The number of values.
    pub fn len(&self) -> (n: usize)
        requires
            self.wf(),
        ensures
            n == self@.dom().len(),
    {
        assert(self@.dom() =~= self.leaves.map().dom());
        self.leaves.len()
    }

    /// The value at `path`, if there is one.
    pub fn get(&self, path: &Vec<u8>) -> (r: Option<&Vec<u8>>)
        requires
            self.wf(),
        ensures
            match r {
                Some(v) => value_at(self@, path@) == Some(v@),
                None => value_at(self@, path@) is None,
            },
    {
        self.leaves.get(path)
    }

    /// Writes `value` at `path`, or removes what is there.
    pub fn write(&mut self, path: &Vec<u8>, value: &Option<Vec<u8>>)
        requires
            old(self).wf(),
        ensures
            final(self).wf(),
            final(self)@ == apply(
                old(self)@,
                Map::<Seq<u8>, Option<Seq<u8>>>::empty().insert(
                    path@,
                    crate::engine::node::bytes_of(*value),
                ),
            ),
    {
        match value {
            Some(v) => {
                self.leaves.insert(copy_bytes(path), copy_bytes(v));
            },
            None => {
                self.leaves.remove(path);
            },
        }
        assert(self@ =~= apply(
            old(self)@,
            Map::<Seq<u8>, Option<Seq<u8>>>::empty().insert(
                path@,
                crate::engine::node::bytes_of(*value),
            ),
        ));
    }

    /// Applies the writes of `changes`.
    pub fn apply(&mut self, changes: &ChangeSet)
        requires
            old(self).wf(),
            changes.wf(),
        ensures
            final(self).wf(),
            final(self)@ == apply(old(self)@, changes@),
    {
        let n = changes.len();
        let mut i: usize = 0;
        proof {
            changes.lemma_paths();
        }
        while i < n
            invariant
                i <= n,
                n == changes.paths().len(),
                changes.wf(),
                self.wf(),
                changes.paths().no_duplicates(),
                forall|k: Seq<u8>|
                    #![trigger value_at(self@, k)]
                    value_at(self@, k) == (if exists|j: int|
                        0 <= j < i && #[trigger] changes.paths()[j] == k {
                        changes@[k]
                    } else {
                        value_at(old(self)@, k)
                    }),
            decreases n - i,
        {
            let ghost before = self@;
            self.write(changes.path_at(i), changes.write_at(i));
            proof {
                let p = changes.paths()[i as int];
                assert forall|k: Seq<u8>|
                    #![trigger value_at(self@, k)]
                    value_at(self@, k) == (if exists|j: int|
                        0 <= j < i + 1 && #[trigger] changes.paths()[j] == k {
                        changes@[k]
                    } else {
                        value_at(old(self)@, k)
                    }) by {
                    if k == p {
                        assert(changes.paths()[i as int] == k);
                    } else {
                        assert(value_at(self@, k) == value_at(before, k));
                        if exists|j: int| 0 <= j < i + 1 && #[trigger] changes.paths()[j] == k {
                            let j = choose|j: int|
                                0 <= j < i + 1 && #[trigger] changes.paths()[j] == k;
                            assert(j < i);
                        }
                        if exists|j: int| 0 <= j < i && #[trigger] changes.paths()[j] == k {
                            let j = choose|j: int| 0 <= j < i && #[trigger] changes.paths()[j] == k;
                            assert(j < i + 1);
                        }
                    }
                }
            }
            i += 1;
        }
        proof {
            let want = apply(old(self)@, changes@);
            assert forall|k: Seq<u8>| value_at(self@, k) == value_at(want, k) by {
                if changes@.contains_key(k) {
                    let j = choose|j: int| 0 <= j < n && #[trigger] changes.paths()[j] == k;
                }
            }
            assert forall|k: Seq<u8>| self@.contains_key(k) == want.contains_key(k) by {
                assert(value_at(self@, k) == value_at(want, k));
            }
            assert forall|k: Seq<u8>| self@.contains_key(k) implies self@[k] == want[k] by {
                assert(value_at(self@, k) == value_at(want, k));
            }
            assert(self@ =~= want);
        }
    }

    /// Applies the writes of `diff`.
    pub fn apply_diff(&mut self, diff: &StateDiff)
        requires
            old(self).wf(),
        ensures
            final(self).wf(),
            final(self)@ == apply(old(self)@, changes_of(diff.accounts@)),
    {
        let changes = diff.to_changes();
        self.apply(&changes);
    }

    /// The node at `path`, built from the values at and below it.
    pub fn full_node(&self, path: &mut Vec<u8>) -> (node: Node)
        requires
            self.wf(),
        ensures
            final(path)@ == old(path)@,
            node.wf(),
            node@ == node_at(self@, old(path)@),
        decreases max_depth() - old(path)@.len(),
    {
        let ghost p = path@;
        let ghost l = self@;
        let mut node = Node::empty();
        match self.leaves.get(path) {
            Some(v) => {
                node.value = Some(copy_bytes(v));
            },
            None => {},
        }
        assert(node@.value == value_at(l, p));
        if path.len() < 128 {
            let mut i: u8 = 0;
            while i < 16
                invariant
                    i <= 16,
                    path@ == p,
                    p == old(path)@,
                    p.len() < max_depth(),
                    self.wf(),
                    l == self@,
                    node.wf(),
                    node@.value == value_at(l, p),
                    forall|j: int| 0 <= j < i ==> #[trigger] node@.children[j] == children_at(l, p)[j],
                    forall|j: int| i <= j < 16 ==> #[trigger] node@.children[j] is None,
                decreases 16 - i,
            {
                let ghost child = p.push(i);
                path.push(i);
                assert(children_at(l, p)[i as int] == digest(l, child));
                if self.leaves.any_under(path) {
                    let below = self.full_node(path);
                    let d = below.digest();
                    let ghost kept = node@.children;
                    node.children.set(i as usize, d);
                    assert(node@.children =~= kept.update(
                        i as int,
                        crate::engine::node::bytes_of(d),
                    ));
                } else {
                    proof {
                        assert forall|k: Seq<u8>| child.is_prefix_of(k) implies !l.contains_key(
                            k,
                        ) by {
                            if l.contains_key(k) {
                                assert(self.leaves.map().contains_key(k));
                            }
                        }
                        lemma_bare_subtree(l, child);
                    }
                }
                let _ = path.pop();
                assert(path@ =~= p);
                i += 1;
            }
            assert(node@.children =~= children_at(l, p));
        } else {
            assert(node@.children =~= no_children());
        }
        node
    }

    /// The root of the state, from a full rebuild of the trie.
    pub fn root(&self) -> (r: Vec<u8>)
        requires
            self.wf(),
        ensures
            r@ == root_of(self@),
            r@.len() == 32,
    {
        let mut path: Vec<u8> = Vec::new();
        let node = self.full_node(&mut path);
        node.hash()
    }
}

} // verus!
