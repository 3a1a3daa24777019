//! The trie update workers: each takes a batch of writes and recomputes the
//! smallest subtree that holds them all.

use crate::engine::bytes::copy_bytes;
use crate::engine::changes::ChangeSet;
use crate::engine::error::TaskError;
use crate::engine::model::{
    apply, digest, is_path, lemma_empty_below, lemma_prefix_is_path, lemma_prefix_transitive,
    lemma_subtree_is_local, lemma_value_after, agree_under, children_at, node_at, touches,
    value_at, Changes, Leaves,
};
use crate::engine::node::{bytes_of, copy_option, Node};
use crate::engine::pathmap::PathMap;
use crate::engine::rebuild::{
    dirty_under, grown_under, missing_under, present, rebuild, writes_paths,
};
use crate::engine::store::{lookup, root_digest, SnapshotView, TrieOverlay};
use vstd::prelude::*;

verus! {

/// Every written path lies at or below `q`.
pub open spec fn all_under(c: Changes, q: Seq<u8>) -> bool {
    forall|k: Seq<u8>| #[trigger] c.contains_key(k) ==> q.is_prefix_of(k)
}

/// `q` is the longest path at or above every written path: the root of the
/// smallest subtree that holds all the writes.
pub open spec fn is_common_prefix(c: Changes, q: Seq<u8>) -> bool {
    &&& all_under(c, q)
    &&& forall|p: Seq<u8>| all_under(c, p) ==> #[trigger] p.is_prefix_of(q)
}

/// The longest path that is a prefix of both `a` and `b`.
pub fn shared_prefix(a: &Vec<u8>, b: &Vec<u8>) -> (r: Vec<u8>)
    ensures
        r@.is_prefix_of(a@),
        r@.is_prefix_of(b@),
        forall|p: Seq<u8>| p.is_prefix_of(a@) && p.is_prefix_of(b@) ==> #[trigger] p.is_prefix_of(r@),
{
    let mut r: Vec<u8> = Vec::new();
    let mut i: usize = 0;
    while i < a.len() && i < b.len() && a[i] == b[i]
        invariant
            i <= a.len(),
            i <= b.len(),
            r@ == a@.take(i as int),
            r@ == b@.take(i as int),
        decreases a.len() - i,
    {
        r.push(a[i]);
        i += 1;
        assert(a@.take(i as int) == a@.take(i - 1).push(a@[i - 1]));
        assert(b@.take(i as int) == b@.take(i - 1).push(b@[i - 1]));
    }
    proof {
        assert(r@ =~= a@.subrange(0, r@.len() as int));
        assert(r@ =~= b@.subrange(0, r@.len() as int));
        assert forall|p: Seq<u8>| p.is_prefix_of(a@) && p.is_prefix_of(b@) implies #[trigger]
            p.is_prefix_of(r@) by {
            if p.len() > i {
                assert(p[i as int] == a@.subrange(0, p.len() as int)[i as int]);
                assert(p[i as int] == b@.subrange(0, p.len() as int)[i as int]);
            }
            assert(p =~= r@.subrange(0, p.len() as int)) by {
                assert forall|j: int| 0 <= j < p.len() implies p[j] == r@[j] by {
                    assert(p[j] == a@.subrange(0, p.len() as int)[j]);
                }
            }
        }
    }
    r
}

/// The root of the smallest subtree that holds all the writes of a batch
/// that is not empty.
pub fn common_prefix(batch: &ChangeSet) -> (q: Vec<u8>)
    requires
        batch.wf(),
        batch.paths().len() > 0,
    ensures
        is_common_prefix(batch@, q@),
        is_path(q@),
        touches(batch@, q@),
{
    let n = batch.len();
    let mut q = copy_bytes(batch.path_at(0));
    let mut i: usize = 1;
    proof {
        batch.lemma_paths();
        assert(q@.is_prefix_of(batch.paths()[0]));
    }
    while i < n
        invariant
            1 <= i <= n,
            n == batch.paths().len(),
            batch.wf(),
            forall|j: int| 0 <= j < i ==> q@.is_prefix_of(#[trigger] batch.paths()[j]),
            forall|p: Seq<u8>|
                (forall|j: int| 0 <= j < i ==> p.is_prefix_of(#[trigger] batch.paths()[j]))
                    ==> #[trigger] p.is_prefix_of(q@),
        decreases n - i,
    {
        let ghost before = q@;
        q = shared_prefix(&q, batch.path_at(i));
        proof {
            assert forall|j: int| 0 <= j < i + 1 implies q@.is_prefix_of(
                #[trigger] batch.paths()[j],
            ) by {
                if j < i {
                    lemma_prefix_transitive(q@, before, batch.paths()[j]);
                }
            }
            assert forall|p: Seq<u8>|
                (forall|j: int| 0 <= j < i + 1 ==> p.is_prefix_of(
                    #[trigger] batch.paths()[j],
                )) implies #[trigger] p.is_prefix_of(q@) by {
                assert(p.is_prefix_of(batch.paths()[i as int]));
                assert(p.is_prefix_of(before));
            }
        }
        i += 1;
    }
    proof {
        let c = batch@;
        assert forall|k: Seq<u8>| #[trigger] c.contains_key(k) implies q@.is_prefix_of(k) by {
            let j = choose|j: int| 0 <= j < n && #[trigger] batch.paths()[j] == k;
        }
        assert forall|p: Seq<u8>| all_under(c, p) implies #[trigger] p.is_prefix_of(q@) by {
            assert forall|j: int| 0 <= j < n implies p.is_prefix_of(
                #[trigger] batch.paths()[j],
            ) by {
                assert(c.contains_key(batch.paths()[j]));
            }
        }
        let k0 = batch.paths()[0];
        assert(c.contains_key(k0));
        lemma_prefix_is_path(q@, k0);
    }
    q
}

/// The digest that the current state has at `q`, found by walking down from
/// the root. Fails where a node on the way is missing.
pub fn descend(snapshot: &SnapshotView, overlay: &TrieOverlay, q: &Vec<u8>) -> (r: Result<
    Option<Vec<u8>>,
    TaskError,
>)
    requires
        snapshot.wf(),
        snapshot.available(),
        overlay.wf(),
        overlay.based_on(snapshot),
        is_path(q@),
    ensures
        match r {
            Ok(d) => {
                &&& bytes_of(d) == digest(overlay.state(), q@)
                &&& forall|j: int|
                    0 <= j < q@.len() && digest(overlay.state(), #[trigger] q@.take(j)) is Some
                        ==> present(snapshot, overlay, q@.take(j))
            },
            Err(e) => {
                &&& e == TaskError::NodeIntegrityError
                &&& exists|j: int|
                    0 <= j < q@.len() && digest(overlay.state(), #[trigger] q@.take(j)) is Some
                        && !present(snapshot, overlay, q@.take(j))
            },
        },
{
    let ghost l = overlay.state();
    let mut at: Vec<u8> = Vec::new();
    let mut seen = root_digest(snapshot, overlay);
    let mut d: usize = 0;
    assert(at@ =~= q@.take(0));
    while d < q.len()
        invariant
            d <= q.len(),
            at@ == q@.take(d as int),
            is_path(q@),
            snapshot.wf(),
            snapshot.available(),
            overlay.wf(),
            overlay.based_on(snapshot),
            l == overlay.state(),
            bytes_of(seen) == digest(l, at@),
            forall|j: int|
                0 <= j < d && digest(l, #[trigger] q@.take(j)) is Some ==> present(
                    snapshot,
                    overlay,
                    q@.take(j),
                ),
        decreases q.len() - d,
    {
        let nibble = q[d];
        let ghost here = at@;
        let ghost next = q@.take(d + 1);
        assert(next =~= here.push(nibble));
        proof {
            assert(next.is_prefix_of(q@)) by {
                assert(next =~= q@.subrange(0, next.len() as int));
            }
            lemma_prefix_is_path(next, q@);
        }
        match &seen {
            None => {
                proof {
                    assert(here.is_prefix_of(next)) by {
                        assert(here =~= next.subrange(0, here.len() as int));
                    }
                    lemma_empty_below(l, here, next);
                }
            },
            Some(_) => {
                match lookup(snapshot, overlay, &at) {
                    Some(node) => {
                        assert(node@.children[nibble as int] == children_at(l, here)[nibble as int]);
                        seen = copy_option(&node.children[nibble as usize]);
                    },
                    None => {
                        return Err(TaskError::NodeIntegrityError);
                    },
                }
            },
        }
        at.push(nibble);
        d += 1;
    }
    assert(q@.take(q@.len() as int) =~= q@);
    Ok(seen)
}

/// What a worker hands back: the recomputed nodes of one subtree, and the
/// digest of that subtree.
pub struct PartialUpdate {
    prefix: Vec<u8>,
    nodes: PathMap<Node>,
    sub_root: Option<Vec<u8>>,
    writes: Ghost<Changes>,
}

impl PartialUpdate {
    /// The path of the subtree.
    pub closed spec fn prefix(&self) -> Seq<u8> {
        self.prefix@
    }

    /// The writes that the update accounts for.
    pub closed spec fn writes(&self) -> Changes {
        self.writes@
    }

    /// The recomputed nodes, by path.
    pub closed spec fn nodes(&self) -> Map<Seq<u8>, Node> {
        self.nodes.map()
    }

    /// The digest of the subtree after the writes.
    pub closed spec fn sub_root(&self) -> Option<Seq<u8>> {
        bytes_of(self.sub_root)
    }

    /// The writes lie in the subtree, and the list of nodes is in order.
    pub closed spec fn wf(&self) -> bool {
        &&& self.nodes.wf()
        &&& is_path(self.prefix@)
        &&& writes_paths(self.writes@)
        &&& all_under(self.writes@, self.prefix@)
    }

    /// The update is right for a trie whose state is `l`: it holds the node
    /// of every dirty path of the subtree, as it is after the writes, and the
    /// digest of the subtree after the writes.
    pub open spec fn valid_for(&self, l: Leaves) -> bool {
        &&& grown_under(
            Map::<Seq<u8>, Node>::empty(),
            self.nodes(),
            apply(l, self.writes()),
            self.writes(),
            self.prefix(),
        )
        &&& self.sub_root() == digest(apply(l, self.writes()), self.prefix())
    }

    /// What the invariant says, in the terms of the public functions.
    pub proof fn lemma_wf(&self)
        requires
            self.wf(),
        ensures
            is_path(self.prefix()),
            writes_paths(self.writes()),
            all_under(self.writes(), self.prefix()),
    {
    }

    /// The path of the subtree.
    pub fn subtree(&self) -> (r: &Vec<u8>)
        ensures
            r@ == self.prefix(),
    {
        &self.prefix
    }

    /// The number of recomputed nodes.
    pub fn len(&self) -> (n: usize)
        requires
            self.wf(),
        ensures
            n == self.nodes().dom().len(),
    {
        self.nodes.len()
    }

    /// The recomputed node at `path`, if there is one.
    pub fn get(&self, path: &Vec<u8>) -> (r: Option<&Node>)
        requires
            self.wf(),
        ensures
            match r {
                Some(n) => self.nodes().contains_key(path@) && self.nodes()[path@] == *n,
                None => !self.nodes().contains_key(path@),
            },
    {
        self.nodes.get(path)
    }

    /// The digest of the subtree after the writes.
    pub fn digest(&self) -> (r: &Option<Vec<u8>>)
        ensures
            bytes_of(*r) == self.sub_root(),
    {
        &self.sub_root
    }

    /// Takes the update apart.
    pub(crate) fn into_parts(self) -> (r: (Vec<u8>, PathMap<Node>, Option<Vec<u8>>))
        requires
            self.wf(),
        ensures
            r.0@ == self.prefix(),
            r.1.wf(),
            r.1.map() == self.nodes(),
            bytes_of(r.2) == self.sub_root(),
    {
        (self.prefix, self.nodes, self.sub_root)
    }
}

/// An update stays right as long as nothing in its subtree changes.
pub proof fn lemma_update_is_local(u: PartialUpdate, a: Leaves, b: Leaves)
    requires
        u.wf(),
        u.valid_for(a),
        agree_under(a, b, u.prefix()),
    ensures
        u.valid_for(b),
{
    u.lemma_wf();
    let c = u.writes();
    let q = u.prefix();
    let a2 = apply(a, c);
    let b2 = apply(b, c);
    assert forall|p: Seq<u8>| q.is_prefix_of(p) implies node_at(a2, p) == node_at(b2, p)
        && digest(a2, p) == digest(b2, p) by {
        assert forall|k: Seq<u8>| p.is_prefix_of(k) implies value_at(a2, k) == value_at(b2, k) by {
            lemma_prefix_transitive(q, p, k);
            lemma_value_after(a, c, k);
            lemma_value_after(b, c, k);
        }
        lemma_subtree_is_local(a2, b2, p);
    }
    assert(q.is_prefix_of(q));
}

/// Recomputes, for a batch of writes, the smallest subtree that holds them
/// all: the nodes of its dirty paths and its digest. Nothing is written: the
/// overlay and the snapshot are only read. Fails where the snapshot is
/// withdrawn, and where a node is missing at a dirty path whose subtree
/// holds something.
pub fn compute_update(snapshot: &SnapshotView, overlay: &TrieOverlay, batch: &ChangeSet) -> (r:
    Result<PartialUpdate, TaskError>)
    requires
        snapshot.wf(),
        overlay.wf(),
        overlay.based_on(snapshot),
        batch.wf(),
    ensures
        match r {
            Ok(u) => {
                &&& snapshot.available()
                &&& !missing_under(snapshot, overlay, batch@, Seq::empty())
                &&& u.wf()
                &&& u.writes() == batch@
                &&& u.valid_for(overlay.state())
                &&& batch.paths().len() > 0 ==> is_common_prefix(batch@, u.prefix())
            },
            Err(e) => if snapshot.available() {
                e == TaskError::NodeIntegrityError && missing_under(
                    snapshot,
                    overlay,
                    batch@,
                    Seq::empty(),
                )
            } else {
                e == TaskError::SnapshotUnavailable
            },
        },
{
    if !snapshot.is_available() {
        return Err(TaskError::SnapshotUnavailable);
    }
    let ghost l = overlay.state();
    let ghost c = batch@;
    proof {
        batch.lemma_paths();
    }
    if batch.len() == 0 {
        let top: Vec<u8> = Vec::new();
        let sub_root = root_digest(snapshot, overlay);
        let u = PartialUpdate { prefix: top, nodes: PathMap::new(), sub_root, writes: Ghost(c) };
        proof {
            assert forall|k: Seq<u8>| !c.contains_key(k) by {
                if c.contains_key(k) {
                    let i = choose|i: int|
                        0 <= i < batch.paths().len() && #[trigger] batch.paths()[i] == k;
                }
            }
            assert(apply(l, c) =~= l);
            assert(!missing_under(snapshot, overlay, c, Seq::empty()));
        }
        return Ok(u);
    }
    let mut q = common_prefix(batch);
    let ghost top = Seq::<u8>::empty();
    proof {
        assert forall|q2: Seq<u8>| #![trigger dirty_under(c, q@, q2)] dirty_under(c, q@, q2)
            implies dirty_under(c, top, q2) by {
            assert(top.is_prefix_of(q2));
        }
    }
    let expected = match descend(snapshot, overlay, &q) {
        Ok(d) => d,
        Err(e) => {
            proof {
                let j = choose|j: int|
                    0 <= j < q@.len() && digest(l, #[trigger] q@.take(j)) is Some && !present(
                        snapshot,
                        overlay,
                        q@.take(j),
                    );
                let a = q@.take(j);
                assert(a.is_prefix_of(q@)) by {
                    assert(a =~= q@.subrange(0, a.len() as int));
                }
                let k = choose|k: Seq<u8>| c.contains_key(k) && q@.is_prefix_of(k);
                lemma_prefix_transitive(a, q@, k);
                assert(top.is_prefix_of(a));
                assert(dirty_under(c, top, a));
            }
            return Err(e);
        },
    };
    let mut out: PathMap<Node> = PathMap::new();
    let ghost qq = q@;
    match rebuild(snapshot, overlay, batch, &mut q, &expected, &mut out) {
        Ok(sub_root) => {
            let u = PartialUpdate { prefix: q, nodes: out, sub_root, writes: Ghost(c) };
            proof {
                assert forall|q2: Seq<u8>|
                    #![trigger dirty_under(c, top, q2)]
                    dirty_under(c, top, q2) && digest(l, q2) is Some implies present(
                    snapshot,
                    overlay,
                    q2,
                ) by {
                    let k = choose|k: Seq<u8>| c.contains_key(k) && q2.is_prefix_of(k);
                    assert(qq.is_prefix_of(k));
                    crate::engine::model::lemma_prefixes_are_comparable(q2, qq, k);
                    if qq.is_prefix_of(q2) {
                        assert(dirty_under(c, qq, q2));
                    } else {
                        assert(q2.len() < qq.len()) by {
                            if q2.len() >= qq.len() {
                                assert(qq =~= q2.subrange(0, qq.len() as int));
                            }
                        }
                        assert(q2 =~= qq.take(q2.len() as int));
                    }
                }
            }
            Ok(u)
        },
        Err(e) => {
            proof {
                let q2 = choose|q2: Seq<u8>|
                    #![trigger dirty_under(c, qq, q2)]
                    dirty_under(c, qq, q2) && digest(l, q2) is Some && !present(
                        snapshot,
                        overlay,
                        q2,
                    );
                assert(dirty_under(c, top, q2));
            }
            Err(e)
        },
    }
}

} // verus!
