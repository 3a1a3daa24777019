//! The nodes of the trie as they are stored, and their hashes.

use crate::engine::bytes::{copy_bytes, push_bytes};
use crate::engine::hash::keccak;
use crate::engine::model::{
    empty_node, encode_children, encode_node, encode_option, no_children, node_digest, node_hash,
    NodeView,
};
use vstd::bytes::u64_to_le_bytes;
use vstd::prelude::*;

verus! {

/// The bytes of an optional byte vector.
pub open spec fn bytes_of(x: Option<Vec<u8>>) -> Option<Seq<u8>> {
    match x {
        Some(v) => Some(v@),
        None => None,
    }
}

/// A copy of an optional byte vector.
pub fn copy_option(x: &Option<Vec<u8>>) -> (r: Option<Vec<u8>>)
    ensures
        bytes_of(r) == bytes_of(*x),
{
    match x {
        Some(v) => Some(copy_bytes(v)),
        None => None,
    }
}

/// Appends the encoding of `x` to `out`.
pub fn push_option(out: &mut Vec<u8>, x: &Option<Vec<u8>>)
    ensures
        final(out)@ == old(out)@ + encode_option(bytes_of(*x)),
{
    match x {
        None => {
            out.push(0u8);
            assert(out@ == old(out)@ + seq![0u8]);
        },
        Some(bytes) => {
            out.push(1u8);
            let n = u64_to_le_bytes(bytes.len() as u64);
            push_bytes(out, &n);
            push_bytes(out, bytes);
            assert(out@ == old(out)@ + (seq![1u8] + n@ + bytes@));
        },
    }
}

/// A node: the value at its path, and the digests of its sixteen subtrees.
pub struct Node {
    /// The value stored at the node's path.
    pub value: Option<Vec<u8>>,
    /// The digests of the subtrees, by nibble.
    pub children: Vec<Option<Vec<u8>>>,
}

impl View for Node {
    type V = NodeView;

    open spec fn view(&self) -> NodeView {
        NodeView {
            value: bytes_of(self.value),
            children: self.children@.map_values(|c: Option<Vec<u8>>| bytes_of(c)),
        }
    }
}

impl Node {
    /// The node has sixteen subtrees.
    pub open spec fn wf(&self) -> bool {
        self.children@.len() == 16
    }

    /// The node of an empty subtree.
    pub fn empty() -> (n: Node)
        ensures
            n.wf(),
            n@ == empty_node(),
    {
        let mut children: Vec<Option<Vec<u8>>> = Vec::new();
        let mut i: usize = 0;
        while i < 16
            invariant
                i <= 16,
                children@.len() == i,
                forall|j: int| 0 <= j < i ==> children@[j] is None,
            decreases 16 - i,
        {
            children.push(None);
            i += 1;
        }
        let n = Node { value: None, children };
        assert(n@.children =~= no_children());
        n
    }

    /// Whether the subtree of the node holds nothing.
    pub fn is_empty(&self) -> (r: bool)
        requires
            self.wf(),
        ensures
            r == (self@ == empty_node()),
    {
        if self.value.is_some() {
            return false;
        }
        let mut i: usize = 0;
        while i < 16
            invariant
                i <= 16,
                self.wf(),
                forall|j: int| 0 <= j < i ==> self.children@[j] is None,
            decreases 16 - i,
        {
            if self.children[i].is_some() {
                assert(self@.children[i as int] is Some);
                assert(no_children()[i as int] is None);
                return false;
            }
            i += 1;
        }
        assert(self@.children =~= no_children());
        true
    }

    /// The encoding of the node.
    pub fn encode(&self) -> (out: Vec<u8>)
        requires
            self.wf(),
        ensures
            out@ == encode_node(self@),
    {
        let mut out: Vec<u8> = Vec::new();
        push_option(&mut out, &self.value);
        let ghost head = out@;
        let mut i: usize = 0;
        while i < 16
            invariant
                i <= 16,
                self.wf(),
                head == encode_option(self@.value),
                out@ == head + encode_children(self@.children, i as nat),
            decreases 16 - i,
        {
            push_option(&mut out, &self.children[i]);
            assert(self@.children[i as int] == bytes_of(self.children@[i as int]));
            assert(out@ == head + (encode_children(self@.children, i as nat) + encode_option(
                self@.children[i as int],
            )));
            i += 1;
        }
        out
    }

    /// The hash of the node.
    pub fn hash(&self) -> (r: Vec<u8>)
        requires
            self.wf(),
        ensures
            r@ == node_hash(self@),
            r@.len() == 32,
    {
        let encoded = self.encode();
        keccak(&encoded)
    }

    /// The digest of the node's subtree: `None` where it holds nothing.
    pub fn digest(&self) -> (r: Option<Vec<u8>>)
        requires
            self.wf(),
        ensures
            bytes_of(r) == node_digest(self@),
            r matches Some(h) ==> h@.len() == 32,
    {
        if self.is_empty() {
            None
        } else {
            Some(self.hash())
        }
    }

    /// A copy of the node.
    pub fn copy(&self) -> (n: Node)
        requires
            self.wf(),
        ensures
            n.wf(),
            n@ == self@,
    {
        let mut children: Vec<Option<Vec<u8>>> = Vec::new();
        let mut i: usize = 0;
        while i < 16
            invariant
                i <= 16,
                self.wf(),
                children@.len() == i,
                forall|j: int| 0 <= j < i ==> bytes_of(children@[j]) == bytes_of(self.children@[j]),
            decreases 16 - i,
        {
            children.push(copy_option(&self.children[i]));
            i += 1;
        }
        let n = Node { value: copy_option(&self.value), children };
        assert(n@.children =~= self@.children);
        n
    }
}

} // verus!
