//! What the trie is, mathematically.
//!
//! The state is a map from paths to values. A path is a sequence of nibbles:
//! the 64 nibbles of a hashed address lead to the record of an account, and
//! 64 more, those of a hashed slot key, to one of its storage slots. Every
//! path of at most 128 nibbles stands for a node; the node holds the value
//! stored at the path, if any, and the digests of its sixteen subtrees. The
//! digest of an empty subtree is `None`; any other is the Keccak-256 hash of
//! the node's encoding. The root of the state is the hash of the node at the
//! empty path.

use crate::engine::bytes::is_nibbles;
use crate::engine::hash::keccak256;
use vstd::bytes::spec_u64_to_le_bytes;
use vstd::prelude::*;

verus! {

/// The state: the value at each path that has one.
pub type Leaves = Map<Seq<u8>, Seq<u8>>;

/// A set of writes: for each written path, the new value or `None` for its
/// removal.
pub type Changes = Map<Seq<u8>, Option<Seq<u8>>>;

/// The length of the longest path.
pub open spec fn max_depth() -> nat {
    128
}

/// The length of the path of an account.
pub open spec fn account_depth() -> nat {
    64
}

/// A path that stands for a node.
pub open spec fn is_path(p: Seq<u8>) -> bool {
    p.len() <= max_depth() && is_nibbles(p)
}

/// A node of the trie.
pub struct NodeView {
    /// The value stored at the node's path.
    pub value: Option<Seq<u8>>,
    /// The digests of the sixteen subtrees below the node.
    pub children: Seq<Option<Seq<u8>>>,
}

/// Sixteen empty subtrees.
pub open spec fn no_children() -> Seq<Option<Seq<u8>>> {
    Seq::new(16, |i: int| None)
}

/// The node of an empty subtree.
pub open spec fn empty_node() -> NodeView {
    NodeView { value: None, children: no_children() }
}

/// The encoding of an optional byte string: a zero byte for `None`; for
/// `Some`, a one byte, then the length in eight bytes, then the bytes.
pub open spec fn encode_option(x: Option<Seq<u8>>) -> Seq<u8> {
    match x {
        None => seq![0u8],
        Some(bytes) => seq![1u8] + spec_u64_to_le_bytes(bytes.len() as u64) + bytes,
    }
}

/// The encodings of the first `n` of `children`, one after another.
pub open spec fn encode_children(children: Seq<Option<Seq<u8>>>, n: nat) -> Seq<u8>
    decreases n,
{
    if n == 0 {
        Seq::empty()
    } else {
        encode_children(children, (n - 1) as nat) + encode_option(children[n - 1])
    }
}

/// The encoding of a node: its value, then its sixteen children.
pub open spec fn encode_node(node: NodeView) -> Seq<u8> {
    encode_option(node.value) + encode_children(node.children, 16)
}

/// The hash of a node.
pub open spec fn node_hash(node: NodeView) -> Seq<u8> {
    keccak256(encode_node(node))
}

/// The digest of the subtree below a node: `None` where it holds nothing.
pub open spec fn node_digest(node: NodeView) -> Option<Seq<u8>> {
    if node == empty_node() {
        None
    } else {
        Some(node_hash(node))
    }
}

/// The value at `p`, if there is one.
pub open spec fn value_at(l: Leaves, p: Seq<u8>) -> Option<Seq<u8>> {
    if l.contains_key(p) {
        Some(l[p])
    } else {
        None
    }
}

/// The digest of the subtree at `p`.
pub open spec fn digest(l: Leaves, p: Seq<u8>) -> Option<Seq<u8>>
    decreases max_depth() - p.len(), 1nat,
{
    node_digest(NodeView { value: value_at(l, p), children: children_at(l, p) })
}

/// The digests of the sixteen subtrees below `p`.
pub open spec fn children_at(l: Leaves, p: Seq<u8>) -> Seq<Option<Seq<u8>>>
    decreases max_depth() - p.len(), 0nat,
{
    if p.len() < max_depth() {
        Seq::new(16, |i: int| digest(l, p.push(i as u8)))
    } else {
        no_children()
    }
}

/// The node at `p`.
pub open spec fn node_at(l: Leaves, p: Seq<u8>) -> NodeView {
    NodeView { value: value_at(l, p), children: children_at(l, p) }
}

/// The root of the state.
pub open spec fn root_of(l: Leaves) -> Seq<u8> {
    node_hash(node_at(l, Seq::empty()))
}

/// The two states hold the same at `p` and at every path below it.
pub open spec fn agree_under(a: Leaves, b: Leaves, p: Seq<u8>) -> bool {
    forall|k: Seq<u8>| p.is_prefix_of(k) ==> value_at(a, k) == value_at(b, k)
}

/// A subtree depends only on what the state holds at and below its path.
pub proof fn lemma_subtree_is_local(a: Leaves, b: Leaves, p: Seq<u8>)
    requires
        agree_under(a, b, p),
    ensures
        node_at(a, p) == node_at(b, p),
        digest(a, p) == digest(b, p),
    decreases max_depth() - p.len(),
{
    assert(p.is_prefix_of(p));
    if p.len() < max_depth() {
        assert forall|i: int| 0 <= i < 16 implies #[trigger] children_at(a, p)[i] == children_at(
            b,
            p,
        )[i] by {
            let q = p.push(i as u8);
            assert forall|k: Seq<u8>| q.is_prefix_of(k) implies value_at(a, k) == value_at(
                b,
                k,
            ) by {
                assert(p =~= k.subrange(0, p.len() as int)) by {
                    assert(q =~= k.subrange(0, q.len() as int));
                    assert forall|j: int| 0 <= j < p.len() implies p[j] == k[j] by {
                        assert(q[j] == k.subrange(0, q.len() as int)[j]);
                    }
                }
                assert(p.is_prefix_of(k));
            }
            lemma_subtree_is_local(a, b, q);
        }
        assert(children_at(a, p) =~= children_at(b, p));
    }
}

/// The state after the writes of `c`.
pub open spec fn apply(l: Leaves, c: Changes) -> Leaves {
    Map::new(
        |k: Seq<u8>|
            if c.contains_key(k) {
                c[k] is Some
            } else {
                l.contains_key(k)
            },
        |k: Seq<u8>|
            if c.contains_key(k) {
                c[k]->0
            } else {
                l[k]
            },
    )
}

/// The writes of `first`, then those of `second`: where both write a path,
/// the later write stands.
pub open spec fn compose(first: Changes, second: Changes) -> Changes {
    first.union_prefer_right(second)
}

/// The value at `k` after the writes of `c`.
pub proof fn lemma_value_after(l: Leaves, c: Changes, k: Seq<u8>)
    ensures
        value_at(apply(l, c), k) == if c.contains_key(k) {
            c[k]
        } else {
            value_at(l, k)
        },
{
}

/// Applying two sets of writes in turn is applying their composition.
pub proof fn lemma_apply_compose(l: Leaves, first: Changes, second: Changes)
    ensures
        apply(apply(l, first), second) == apply(l, compose(first, second)),
{
    assert(apply(apply(l, first), second) =~= apply(l, compose(first, second)));
}

/// The state after each set of writes in `batches`, in order.
pub open spec fn apply_all(l: Leaves, batches: Seq<Changes>) -> Leaves
    decreases batches.len(),
{
    if batches.len() == 0 {
        l
    } else {
        apply(apply_all(l, batches.drop_last()), batches.last())
    }
}

/// All the writes of `batches` as one set: the last write of each path.
pub open spec fn compose_all(batches: Seq<Changes>) -> Changes
    decreases batches.len(),
{
    if batches.len() == 0 {
        Map::empty()
    } else {
        compose(compose_all(batches.drop_last()), batches.last())
    }
}

/// Applying the batches one by one is applying their composition at once.
pub proof fn lemma_apply_all_is_compose_all(l: Leaves, batches: Seq<Changes>)
    ensures
        apply_all(l, batches) == apply(l, compose_all(batches)),
    decreases batches.len(),
{
    if batches.len() == 0 {
        assert(apply(l, Map::empty()) =~= l);
    } else {
        lemma_apply_all_is_compose_all(l, batches.drop_last());
        lemma_apply_compose(l, compose_all(batches.drop_last()), batches.last());
    }
}

/// Some written path lies at or below `p`: the subtree at `p` is dirty.
pub open spec fn touches(c: Changes, p: Seq<u8>) -> bool {
    exists|k: Seq<u8>| c.contains_key(k) && p.is_prefix_of(k)
}

/// A subtree that no write touches is unchanged.
pub proof fn lemma_untouched_is_unchanged(l: Leaves, c: Changes, p: Seq<u8>)
    requires
        !touches(c, p),
    ensures
        node_at(apply(l, c), p) == node_at(l, p),
        digest(apply(l, c), p) == digest(l, p),
{
    assert forall|k: Seq<u8>| p.is_prefix_of(k) implies value_at(apply(l, c), k) == value_at(
        l,
        k,
    ) by {
        if c.contains_key(k) {
            assert(touches(c, p));
        }
    }
    lemma_subtree_is_local(apply(l, c), l, p);
}

} // verus!

verus! {

/// An empty state has no node that holds anything.
pub proof fn lemma_empty_state(p: Seq<u8>)
    ensures
        node_at(Map::<Seq<u8>, Seq<u8>>::empty(), p) == empty_node(),
        digest(Map::<Seq<u8>, Seq<u8>>::empty(), p) is None,
    decreases max_depth() - p.len(),
{
    let l = Map::<Seq<u8>, Seq<u8>>::empty();
    if p.len() < max_depth() {
        assert forall|i: int| 0 <= i < 16 implies #[trigger] children_at(l, p)[i] is None by {
            lemma_empty_state(p.push(i as u8));
        }
    }
    assert(children_at(l, p) =~= no_children());
}

/// Below an empty subtree every subtree is empty.
pub proof fn lemma_empty_below(l: Leaves, p: Seq<u8>, q: Seq<u8>)
    requires
        digest(l, p) is None,
        p.is_prefix_of(q),
        is_path(q),
    ensures
        digest(l, q) is None,
        node_at(l, q) == empty_node(),
    decreases q.len() - p.len(),
{
    if q.len() == p.len() {
        assert(p =~= q);
    } else {
        let up = q.drop_last();
        assert(p.is_prefix_of(up)) by {
            assert(p =~= up.subrange(0, p.len() as int));
        }
        assert(is_path(up)) by {
            assert forall|i: int| 0 <= i < up.len() implies #[trigger] up[i] < 16 by {
                assert(up[i] == q[i]);
            }
        }
        lemma_empty_below(l, p, up);
        let i = q.last();
        assert(q[q.len() - 1] < 16);
        assert(up.push(i) =~= q);
        assert(children_at(l, up)[i as int] == digest(l, up.push(i as int as u8)));
        assert(no_children()[i as int] is None);
    }
}

/// A prefix of a path stands for a node too.
pub proof fn lemma_prefix_is_path(p: Seq<u8>, k: Seq<u8>)
    requires
        p.is_prefix_of(k),
        is_path(k),
    ensures
        is_path(p),
{
    assert forall|i: int| 0 <= i < p.len() implies #[trigger] p[i] < 16 by {
        assert(p[i] == k.subrange(0, p.len() as int)[i]);
        assert(k[i] < 16);
    }
}

/// Being a prefix is transitive.
pub proof fn lemma_prefix_transitive(a: Seq<u8>, b: Seq<u8>, c: Seq<u8>)
    requires
        a.is_prefix_of(b),
        b.is_prefix_of(c),
    ensures
        a.is_prefix_of(c),
{
    assert(a =~= c.subrange(0, a.len() as int)) by {
        assert forall|i: int| 0 <= i < a.len() implies a[i] == c[i] by {
            assert(a[i] == b.subrange(0, a.len() as int)[i]);
            assert(b[i] == c.subrange(0, b.len() as int)[i]);
        }
    }
}

/// Two prefixes of one path: one is a prefix of the other.
pub proof fn lemma_prefixes_are_comparable(a: Seq<u8>, b: Seq<u8>, k: Seq<u8>)
    requires
        a.is_prefix_of(k),
        b.is_prefix_of(k),
    ensures
        a.is_prefix_of(b) || b.is_prefix_of(a),
{
    if a.len() <= b.len() {
        assert(a =~= b.subrange(0, a.len() as int)) by {
            assert forall|i: int| 0 <= i < a.len() implies a[i] == b[i] by {
                assert(a[i] == k.subrange(0, a.len() as int)[i]);
                assert(b[i] == k.subrange(0, b.len() as int)[i]);
            }
        }
    } else {
        assert(b =~= a.subrange(0, b.len() as int)) by {
            assert forall|i: int| 0 <= i < b.len() implies a[i] == b[i] by {
                assert(a[i] == k.subrange(0, a.len() as int)[i]);
                assert(b[i] == k.subrange(0, b.len() as int)[i]);
            }
        }
    }
}

/// A path strictly below `p` lies at or below the child of `p` that its next
/// nibble selects.
pub proof fn lemma_child_on_the_way(p: Seq<u8>, q: Seq<u8>)
    requires
        p.is_prefix_of(q),
        p.len() < q.len(),
    ensures
        p.push(q[p.len() as int]).is_prefix_of(q),
{
    let c = p.push(q[p.len() as int]);
    assert(c =~= q.subrange(0, c.len() as int)) by {
        assert forall|i: int| 0 <= i < c.len() implies c[i] == q[i] by {
            if i < p.len() {
                assert(p[i] == q.subrange(0, p.len() as int)[i]);
            }
        }
    }
}

/// A path is touched by the composition of two sets of writes where one of
/// them touches it.
pub proof fn lemma_touches_compose(a: Changes, b: Changes, p: Seq<u8>)
    ensures
        touches(compose(a, b), p) <==> (touches(a, p) || touches(b, p)),
{
    if touches(compose(a, b), p) {
        let k = choose|k: Seq<u8>| compose(a, b).contains_key(k) && p.is_prefix_of(k);
        assert(a.contains_key(k) || b.contains_key(k));
    }
    if touches(a, p) {
        let k = choose|k: Seq<u8>| a.contains_key(k) && p.is_prefix_of(k);
        assert(compose(a, b).contains_key(k));
    }
    if touches(b, p) {
        let k = choose|k: Seq<u8>| b.contains_key(k) && p.is_prefix_of(k);
        assert(compose(a, b).contains_key(k));
    }
}

} // verus!
