//! Where nodes are kept: the snapshot of the persisted trie, and the overlay
//! of the nodes recomputed since.

use crate::engine::error::TaskError;
use crate::engine::model::{
    agree_under, digest, is_path, lemma_empty_state, lemma_subtree_is_local, node_at,
    root_of, Leaves,
};
use crate::engine::node::{bytes_of, copy_option, Node};
use crate::engine::bytes::copy_bytes;
use crate::engine::pathmap::PathMap;
use vstd::prelude::*;

verus! {

/// Every node of `m` is the node that the state `l` has at its path.
pub open spec fn reflects(m: Map<Seq<u8>, Node>, l: Leaves) -> bool {
    forall|p: Seq<u8>| #[trigger] m.contains_key(p) ==> m[p].wf() && m[p]@ == node_at(l, p)
}

/// A read handle on the trie as it was persisted for the parent block.
/// Nothing that is committed later shows through it. It may lack nodes, and
/// it may be withdrawn as a whole.
pub struct SnapshotView {
    nodes: PathMap<Node>,
    root: Option<Vec<u8>>,
    available: bool,
    leaves: Ghost<Leaves>,
}

impl SnapshotView {
    /// The state that the snapshot was taken of.
    pub closed spec fn state(&self) -> Leaves {
        self.leaves@
    }

    /// Whether the snapshot can still be read.
    pub closed spec fn available(&self) -> bool {
        self.available
    }

    /// Whether the snapshot holds the node at `p`.
    pub closed spec fn holds(&self, p: Seq<u8>) -> bool {
        self.nodes.map().contains_key(p)
    }

    /// The nodes that the snapshot holds are those of its state.
    pub closed spec fn wf(&self) -> bool {
        &&& self.nodes.wf()
        &&& reflects(self.nodes.map(), self.leaves@)
        &&& bytes_of(self.root) == digest(self.leaves@, Seq::empty())
        &&& self.root matches Some(h) ==> h@.len() == 32
    }

    /// The snapshot lacks no node of a subtree that holds something.
    pub open spec fn complete(&self) -> bool {
        forall|p: Seq<u8>|
            is_path(p) && #[trigger] digest(self.state(), p) is Some ==> self.holds(p)
    }

    /// The snapshot of the empty state.
    pub fn empty() -> (s: SnapshotView)
        ensures
            s.wf(),
            s.available(),
            s.complete(),
            s.state() == Map::<Seq<u8>, Seq<u8>>::empty(),
            forall|p: Seq<u8>| !s.holds(p),
    {
        let s = SnapshotView {
            nodes: PathMap::new(),
            root: None,
            available: true,
            leaves: Ghost(Map::empty()),
        };
        proof {
            lemma_empty_state(Seq::empty());
            assert forall|p: Seq<u8>|
                is_path(p) && #[trigger] digest(s.state(), p) is Some implies s.holds(p) by {
                lemma_empty_state(p);
            }
        }
        s
    }

    /// Whether the snapshot can still be read.
    pub fn is_available(&self) -> (r: bool)
        ensures
            r == self.available(),
    {
        self.available
    }

    /// Withdraws the snapshot: every later read fails.
    pub fn retire(&mut self)
        requires
            old(self).wf(),
        ensures
            final(self).wf(),
            !final(self).available(),
            final(self).state() == old(self).state(),
            forall|p: Seq<u8>| final(self).holds(p) == old(self).holds(p),
    {
        self.available = false;
    }

    /// Drops the node at `path` from the snapshot, as pruning does.
    pub fn forget(&mut self, path: &Vec<u8>)
        requires
            old(self).wf(),
        ensures
            final(self).wf(),
            final(self).available() == old(self).available(),
            final(self).state() == old(self).state(),
            forall|p: Seq<u8>| final(self).holds(p) == (old(self).holds(p) && p != path@),
    {
        self.nodes.remove(path);
    }

    /// A second handle on the same snapshot.
    pub fn copy(&self) -> (s: SnapshotView)
        requires
            self.wf(),
        ensures
            s.wf(),
            s.state() == self.state(),
            s.available() == self.available(),
            forall|p: Seq<u8>| s.holds(p) == self.holds(p),
            s.complete() == self.complete(),
    {
        let mut nodes: PathMap<Node> = PathMap::new();
        copy_nodes_into(&mut nodes, &self.nodes);
        let s = SnapshotView {
            nodes,
            root: copy_option(&self.root),
            available: self.available,
            leaves: Ghost(self.leaves@),
        };
        proof {
            assert forall|p: Seq<u8>| s.holds(p) == self.holds(p) by {
            }
        }
        s
    }

    /// The node at `path`, if the snapshot holds it.
    pub fn node(&self, path: &Vec<u8>) -> (r: Result<Option<&Node>, TaskError>)
        requires
            self.wf(),
        ensures
            match r {
                Ok(Some(n)) => self.available() && self.holds(path@) && n.wf() && n@ == node_at(
                    self.state(),
                    path@,
                ),
                Ok(None) => self.available() && !self.holds(path@),
                Err(e) => !self.available() && e == TaskError::SnapshotUnavailable,
            },
    {
        if !self.available {
            return Err(TaskError::SnapshotUnavailable);
        }
        Ok(self.nodes.get(path))
    }

    /// The digest of the whole trie: `None` where the state is empty.
    pub fn root_digest(&self) -> (r: Result<Option<Vec<u8>>, TaskError>)
        requires
            self.wf(),
        ensures
            match r {
                Ok(d) => self.available() && bytes_of(d) == digest(self.state(), Seq::empty()) && (
                d matches Some(h) ==> h@.len() == 32),
                Err(e) => !self.available() && e == TaskError::SnapshotUnavailable,
            },
    {
        if !self.available {
            return Err(TaskError::SnapshotUnavailable);
        }
        Ok(copy_option(&self.root))
    }

    /// The root of the state that the snapshot was taken of.
    pub fn root(&self) -> (r: Result<Vec<u8>, TaskError>)
        requires
            self.wf(),
        ensures
            match r {
                Ok(h) => self.available() && h@ == root_of(self.state()) && h@.len() == 32,
                Err(e) => !self.available() && e == TaskError::SnapshotUnavailable,
            },
    {
        if !self.available {
            return Err(TaskError::SnapshotUnavailable);
        }
        match &self.root {
            Some(h) => Ok(copy_bytes(h)),
            None => Ok(Node::empty().hash()),
        }
    }
}

/// The nodes recomputed by a task and not yet persisted, by path. Its
/// nodes are never torn: each is the node of the state after all the writes
/// merged so far.
pub struct TrieOverlay {
    nodes: PathMap<Node>,
    base: Ghost<Leaves>,
    leaves: Ghost<Leaves>,
}

impl TrieOverlay {
    /// The state after all the writes merged so far.
    pub closed spec fn state(&self) -> Leaves {
        self.leaves@
    }

    /// The state of the snapshot that the overlay lies over.
    pub closed spec fn base(&self) -> Leaves {
        self.base@
    }

    /// Whether the overlay holds the node at `p`.
    pub closed spec fn holds(&self, p: Seq<u8>) -> bool {
        self.nodes.map().contains_key(p)
    }

    /// The node that the overlay holds at `p`.
    pub closed spec fn node(&self, p: Seq<u8>) -> Node {
        self.nodes.map()[p]
    }

    /// The paths of the overlay, in the order in which it lists them.
    pub closed spec fn paths(&self) -> Seq<Seq<u8>> {
        self.nodes.paths()
    }

    /// Each node of the overlay is the node of the current state, and where
    /// the overlay holds no node, nothing at or below has changed since the
    /// snapshot.
    pub closed spec fn wf(&self) -> bool {
        &&& self.nodes.wf()
        &&& reflects(self.nodes.map(), self.leaves@)
        &&& forall|p: Seq<u8>| !(#[trigger] self.nodes.map().contains_key(p)) ==> agree_under(
            self.leaves@,
            self.base@,
            p,
        )
    }

    /// The overlay lies over the snapshot `s`.
    pub open spec fn based_on(&self, s: &SnapshotView) -> bool {
        self.base() == s.state()
    }

    /// What the invariant says, in the terms of the public functions.
    pub proof fn lemma_wf(&self)
        requires
            self.wf(),
        ensures
            forall|p: Seq<u8>| #[trigger]
                self.holds(p) ==> self.node(p).wf() && self.node(p)@ == node_at(self.state(), p),
            forall|p: Seq<u8>| !(#[trigger] self.holds(p)) ==> agree_under(
                self.state(),
                self.base(),
                p,
            ),
            forall|i: int| 0 <= i < self.paths().len() ==> self.holds(#[trigger] self.paths()[i]),
            forall|p: Seq<u8>| #[trigger]
                self.holds(p) ==> exists|i: int|
                    0 <= i < self.paths().len() && #[trigger] self.paths()[i] == p,
            self.paths().no_duplicates(),
    {
        self.nodes.lemma_listing();
        assert forall|p: Seq<u8>| #[trigger] self.holds(p) implies exists|i: int|
            0 <= i < self.paths().len() && #[trigger] self.paths()[i] == p by {
            assert(self.nodes.map().contains_key(p));
            let i = choose|i: int|
                0 <= i < self.nodes.paths().len() && #[trigger] self.nodes.paths()[i] == p;
            assert(self.paths()[i] == p);
        }
    }

    /// The overlay without a node, over the snapshot `s`.
    pub fn empty_for(s: &SnapshotView) -> (o: TrieOverlay)
        ensures
            o.wf(),
            o.based_on(s),
            o.state() == s.state(),
            forall|p: Seq<u8>| !o.holds(p),
            o.paths().len() == 0,
    {
        TrieOverlay { nodes: PathMap::new(), base: Ghost(s.state()), leaves: Ghost(s.state()) }
    }

    /// The number of nodes.
    pub fn len(&self) -> (n: usize)
        requires
            self.wf(),
        ensures
            n == self.paths().len(),
    {
        self.nodes.len()
    }

    /// The node at `path`, if the overlay holds it.
    pub fn get(&self, path: &Vec<u8>) -> (r: Option<&Node>)
        requires
            self.wf(),
        ensures
            match r {
                Some(n) => self.holds(path@) && *n == self.node(path@) && n.wf() && n@ == node_at(
                    self.state(),
                    path@,
                ),
                None => !self.holds(path@),
            },
    {
        self.nodes.get(path)
    }

    /// The `i`-th path of the overlay.
    pub fn path_at(&self, i: usize) -> (r: &Vec<u8>)
        requires
            self.wf(),
            i < self.paths().len(),
        ensures
            r@ == self.paths()[i as int],
            self.holds(r@),
    {
        proof {
            self.nodes.lemma_listing();
        }
        self.nodes.path_at(i)
    }

    /// The node at the `i`-th path of the overlay.
    pub fn node_at(&self, i: usize) -> (r: &Node)
        requires
            self.wf(),
            i < self.paths().len(),
        ensures
            *r == self.node(self.paths()[i as int]),
            r.wf(),
            r@ == node_at(self.state(), self.paths()[i as int]),
    {
        proof {
            self.nodes.lemma_listing();
        }
        self.nodes.entry_at(i)
    }

    /// Puts the nodes of `fresh` into the overlay, over the nodes at the same
    /// paths, and moves the overlay on to the state `after`.
    pub(crate) fn install(&mut self, fresh: &PathMap<Node>, after: Ghost<Leaves>)
        requires
            old(self).wf(),
            fresh.wf(),
            reflects(fresh.map(), after@),
            forall|p: Seq<u8>|
                !fresh.map().contains_key(p) && #[trigger] old(self).holds(p) ==> node_at(
                    after@,
                    p,
                ) == node_at(old(self).state(), p),
            forall|p: Seq<u8>|
                !fresh.map().contains_key(p) && !(#[trigger] old(self).holds(p)) ==> agree_under(
                    after@,
                    old(self).state(),
                    p,
                ),
        ensures
            final(self).wf(),
            final(self).state() == after@,
            final(self).base() == old(self).base(),
            forall|p: Seq<u8>|
                #[trigger] final(self).holds(p) == (old(self).holds(p) || fresh.map().contains_key(
                    p,
                )),
    {
        copy_nodes_into(&mut self.nodes, fresh);
        self.leaves = after;
        proof {
            assert forall|p: Seq<u8>| #[trigger]
                self.nodes.map().contains_key(p) implies self.nodes.map()[p].wf()
                && self.nodes.map()[p]@ == node_at(after@, p) by {
                if !fresh.map().contains_key(p) {
                    assert(old(self).holds(p));
                    assert(old(self).nodes.map().contains_key(p));
                }
            }
            assert forall|p: Seq<u8>|
                !(#[trigger] self.nodes.map().contains_key(p)) implies agree_under(
                self.leaves@,
                self.base@,
                p,
            ) by {
                assert(!old(self).holds(p));
                assert(!old(self).nodes.map().contains_key(p));
                assert(agree_under(after@, old(self).state(), p));
                assert(agree_under(old(self).leaves@, old(self).base@, p));
            }
        }
    }
}

/// Copies every node of `src` into `dst`, over the node at the same path.
pub fn copy_nodes_into(dst: &mut PathMap<Node>, src: &PathMap<Node>)
    requires
        old(dst).wf(),
        src.wf(),
        forall|p: Seq<u8>| #[trigger] src.map().contains_key(p) ==> src.map()[p].wf(),
    ensures
        final(dst).wf(),
        forall|p: Seq<u8>|
            #[trigger] final(dst).map().contains_key(p) <==> (old(dst).map().contains_key(p)
                || src.map().contains_key(p)),
        forall|p: Seq<u8>|
            src.map().contains_key(p) ==> (#[trigger] final(dst).map()[p]).wf() && final(dst).map()[p]@ == src.map()[p]@,
        forall|p: Seq<u8>|
            old(dst).map().contains_key(p) && !src.map().contains_key(p) ==> #[trigger] final(dst).map()[p] == old(dst).map()[p],
{
    let n = src.len();
    let mut i: usize = 0;
    proof {
        src.lemma_listing();
    }
    while i < n
        invariant
            i <= n,
            n == src.paths().len(),
            src.wf(),
            dst.wf(),
            forall|p: Seq<u8>| #[trigger] src.map().contains_key(p) ==> src.map()[p].wf(),
            src.paths().no_duplicates(),
            forall|j: int|
                0 <= j < n ==> src.map().contains_key(#[trigger] src.paths()[j])
                    && src.map()[src.paths()[j]] == src.entries()[j],
            forall|p: Seq<u8>| #[trigger]
                dst.map().contains_key(p) <==> (old(dst).map().contains_key(p) || exists|j: int|
                    0 <= j < i && #[trigger] src.paths()[j] == p),
            forall|p: Seq<u8>| #[trigger]
                dst.map().contains_key(p) ==> (if exists|j: int|
                    0 <= j < i && #[trigger] src.paths()[j] == p {
                    dst.map()[p].wf() && dst.map()[p]@ == src.map()[p]@
                } else {
                    dst.map()[p] == old(dst).map()[p]
                }),
        decreases n - i,
    {
        let path = copy_bytes(src.path_at(i));
        let node = src.entry_at(i).copy();
        let ghost before = dst.map();
        dst.insert(path, node);
        proof {
            let q = src.paths()[i as int];
            assert forall|p: Seq<u8>| #[trigger]
                dst.map().contains_key(p) <==> (old(dst).map().contains_key(p) || exists|j: int|
                    0 <= j < i + 1 && #[trigger] src.paths()[j] == p) by {
                if p == q {
                    assert(src.paths()[i as int] == p);
                } else {
                    if exists|j: int| 0 <= j < i + 1 && #[trigger] src.paths()[j] == p {
                        let j = choose|j: int| 0 <= j < i + 1 && #[trigger] src.paths()[j] == p;
                        assert(j < i);
                        assert(before.contains_key(p));
                    }
                    if before.contains_key(p) && !old(dst).map().contains_key(p) {
                        let j = choose|j: int| 0 <= j < i && #[trigger] src.paths()[j] == p;
                        assert(j < i + 1);
                    }
                }
            }
            assert forall|p: Seq<u8>| #[trigger] dst.map().contains_key(p) implies (if exists|
                j: int,
            |
                0 <= j < i + 1 && #[trigger] src.paths()[j] == p {
                dst.map()[p].wf() && dst.map()[p]@ == src.map()[p]@
            } else {
                dst.map()[p] == old(dst).map()[p]
            }) by {
                if p == q {
                    assert(src.paths()[i as int] == p);
                    assert(src.map().contains_key(q));
                } else {
                    assert(before.contains_key(p));
                    if exists|j: int| 0 <= j < i + 1 && #[trigger] src.paths()[j] == p {
                        let j = choose|j: int| 0 <= j < i + 1 && #[trigger] src.paths()[j] == p;
                        assert(j < i);
                    }
                    if exists|j: int| 0 <= j < i && #[trigger] src.paths()[j] == p {
                        let j = choose|j: int| 0 <= j < i && #[trigger] src.paths()[j] == p;
                        assert(j < i + 1);
                    }
                }
            }
        }
        i += 1;
    }
    proof {
        assert forall|p: Seq<u8>|
            #[trigger] dst.map().contains_key(p) <==> (old(dst).map().contains_key(p)
                || src.map().contains_key(p)) by {
            if src.map().contains_key(p) {
                let j = choose|j: int| 0 <= j < n && #[trigger] src.paths()[j] == p;
            }
        }
        assert forall|p: Seq<u8>| src.map().contains_key(p) implies (#[trigger] dst.map()[p]).wf()
            && dst.map()[p]@ == src.map()[p]@ by {
            let j = choose|j: int| 0 <= j < n && #[trigger] src.paths()[j] == p;
            assert(dst.map().contains_key(p));
        }
        assert forall|p: Seq<u8>|
            old(dst).map().contains_key(p) && !src.map().contains_key(p) implies #[trigger] dst.map()[p]
            == old(dst).map()[p] by {
            assert(dst.map().contains_key(p));
        }
    }
}

/// The snapshot after a task: the nodes of `snapshot`, and over them the
/// nodes that the task recomputed. Fails where the snapshot is withdrawn.
pub fn persist(snapshot: &SnapshotView, overlay: &TrieOverlay) -> (r: Result<
    SnapshotView,
    TaskError,
>)
    requires
        snapshot.wf(),
        overlay.wf(),
        overlay.based_on(snapshot),
    ensures
        match r {
            Ok(s) => {
                &&& snapshot.available()
                &&& s.wf()
                &&& s.available()
                &&& s.state() == overlay.state()
                &&& forall|p: Seq<u8>|
                    #[trigger] s.holds(p) == (snapshot.holds(p) || overlay.holds(p))
                &&& snapshot.complete() ==> s.complete()
            },
            Err(e) => !snapshot.available() && e == TaskError::SnapshotUnavailable,
        },
{
    if !snapshot.is_available() {
        return Err(TaskError::SnapshotUnavailable);
    }
    let root = root_digest(snapshot, overlay);
    let mut nodes: PathMap<Node> = PathMap::new();
    copy_nodes_into(&mut nodes, &snapshot.nodes);
    copy_nodes_into(&mut nodes, &overlay.nodes);
    let s = SnapshotView { nodes, root, available: true, leaves: Ghost(overlay.state()) };
    proof {
        overlay.lemma_wf();
        assert forall|p: Seq<u8>| #[trigger] s.nodes.map().contains_key(p) implies s.nodes.map()[p].wf()
            && s.nodes.map()[p]@ == node_at(overlay.state(), p) by {
            if !overlay.nodes.map().contains_key(p) {
                assert(!overlay.holds(p));
                assert(snapshot.nodes.map().contains_key(p));
                lemma_subtree_is_local(overlay.state(), overlay.base(), p);
            } else {
                assert(overlay.holds(p));
            }
        }
        assert forall|p: Seq<u8>| #[trigger] s.holds(p) == (snapshot.holds(p) || overlay.holds(
            p,
        )) by {
        }
        if snapshot.complete() {
            assert forall|p: Seq<u8>|
                is_path(p) && #[trigger] digest(s.state(), p) is Some implies s.holds(p) by {
                if !overlay.holds(p) {
                    lemma_subtree_is_local(overlay.state(), overlay.base(), p);
                    assert(digest(snapshot.state(), p) is Some);
                }
            }
        }
    }
    Ok(s)
}

/// The node at `path` as a computation sees it: the overlay's, or else the
/// snapshot's.
pub fn lookup<'a>(snapshot: &'a SnapshotView, overlay: &'a TrieOverlay, path: &Vec<u8>) -> (r:
    Option<&'a Node>)
    requires
        snapshot.wf(),
        overlay.wf(),
        overlay.based_on(snapshot),
        snapshot.available(),
    ensures
        match r {
            Some(n) => n.wf() && n@ == node_at(overlay.state(), path@) && (overlay.holds(path@)
                || snapshot.holds(path@)),
            None => !overlay.holds(path@) && !snapshot.holds(path@),
        },
{
    match overlay.get(path) {
        Some(n) => Some(n),
        None => {
            proof {
                overlay.lemma_wf();
                lemma_subtree_is_local(overlay.state(), overlay.base(), path@);
            }
            match snapshot.node(path) {
                Ok(found) => found,
                Err(_) => None,
            }
        },
    }
}

/// The digest of the whole trie as a computation sees it.
pub fn root_digest(snapshot: &SnapshotView, overlay: &TrieOverlay) -> (r: Option<Vec<u8>>)
    requires
        snapshot.wf(),
        overlay.wf(),
        overlay.based_on(snapshot),
        snapshot.available(),
    ensures
        bytes_of(r) == digest(overlay.state(), Seq::empty()),
        r matches Some(h) ==> h@.len() == 32,
{
    let top: Vec<u8> = Vec::new();
    match overlay.get(&top) {
        Some(n) => n.digest(),
        None => {
            proof {
                overlay.lemma_wf();
                lemma_subtree_is_local(overlay.state(), overlay.base(), Seq::empty());
            }
            match snapshot.root_digest() {
                Ok(d) => d,
                Err(_) => None,
            }
        },
    }
}

} // verus!
