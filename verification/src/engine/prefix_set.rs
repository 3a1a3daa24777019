//! The set of dirty prefixes: the paths written since a task began.

use crate::engine::bytes::copy_bytes;
use crate::engine::changes::ChangeSet;
use crate::engine::pathmap::PathMap;
use vstd::prelude::*;

verus! {

/// A set of paths marked dirty. It only grows.
pub struct PrefixSet {
    marked: PathMap<()>,
}

impl View for PrefixSet {
    type V = Set<Seq<u8>>;

    closed spec fn view(&self) -> Set<Seq<u8>> {
        self.marked.map().dom()
    }
}

impl PrefixSet {
    /// The list behind the set holds no path twice.
    pub closed spec fn wf(&self) -> bool {
        self.marked.wf()
    }

    /// The empty set.
    pub fn new() -> (s: PrefixSet)
        ensures
            s.wf(),
            s@ == Set::<Seq<u8>>::empty(),
    {
        let s = PrefixSet { marked: PathMap::new() };
        assert(s@ =~= Set::<Seq<u8>>::empty());
        s
    }

    /// The number of paths.
    pub fn len(&self) -> (n: usize)
        requires
            self.wf(),
        ensures
            n == self@.len(),
    {
        self.marked.len()
    }

    /// Marks `path` dirty.
    pub fn insert(&mut self, path: Vec<u8>)
        requires
            old(self).wf(),
        ensures
            final(self).wf(),
            final(self)@ == old(self)@.insert(path@),
    {
        self.marked.insert(path, ());
        assert(self@ =~= old(self)@.insert(path@));
    }

    /// Whether `path` is marked dirty.
    pub fn contains(&self, path: &Vec<u8>) -> (r: bool)
        requires
            self.wf(),
        ensures
            r == self@.contains(path@),
    {
        self.marked.contains(path)
    }

    /// Whether the subtree at `p` is dirty: a marked path lies at or below
    /// it.
    pub fn covers(&self, p: &Vec<u8>) -> (r: bool)
        requires
            self.wf(),
        ensures
            r == (exists|k: Seq<u8>| self@.contains(k) && p@.is_prefix_of(k)),
    {
        let r = self.marked.any_under(p);
        proof {
            if r {
                let k = choose|k: Seq<u8>| self.marked.map().contains_key(k) && p@.is_prefix_of(k);
                assert(self@.contains(k));
            }
            if exists|k: Seq<u8>| self@.contains(k) && p@.is_prefix_of(k) {
                let k = choose|k: Seq<u8>| self@.contains(k) && p@.is_prefix_of(k);
                assert(self.marked.map().contains_key(k));
            }
        }
        r
    }

    /// Marks every path that `changes` writes.
    pub fn mark_all(&mut self, changes: &ChangeSet)
        requires
            old(self).wf(),
            changes.wf(),
        ensures
            final(self).wf(),
            final(self)@ == old(self)@.union(changes@.dom()),
    {
        let n = changes.len();
        let mut i: usize = 0;
        proof {
            changes.lemma_paths();
        }
        while i < n
            invariant
                i <= n,
                n == changes.paths().len(),
                changes.wf(),
                self.wf(),
                forall|k: Seq<u8>| #[trigger]
                    self@.contains(k) <==> (old(self)@.contains(k) || exists|j: int|
                        0 <= j < i && #[trigger] changes.paths()[j] == k),
            decreases n - i,
        {
            let ghost before = self@;
            self.insert(copy_bytes(changes.path_at(i)));
            proof {
                let p = changes.paths()[i as int];
                assert forall|k: Seq<u8>| #[trigger]
                    self@.contains(k) <==> (old(self)@.contains(k) || exists|j: int|
                        0 <= j < i + 1 && #[trigger] changes.paths()[j] == k) by {
                    if k == p {
                        assert(changes.paths()[i as int] == k);
                    } else {
                        if exists|j: int| 0 <= j < i + 1 && #[trigger] changes.paths()[j] == k {
                            let j = choose|j: int|
                                0 <= j < i + 1 && #[trigger] changes.paths()[j] == k;
                            assert(j < i);
                            assert(before.contains(k));
                        }
                        if before.contains(k) && !old(self)@.contains(k) {
                            let j = choose|j: int| 0 <= j < i && #[trigger] changes.paths()[j] == k;
                            assert(j < i + 1);
                        }
                    }
                }
            }
            i += 1;
        }
        proof {
            let want = old(self)@.union(changes@.dom());
            assert forall|k: Seq<u8>| self@.contains(k) <==> want.contains(k) by {
                if changes@.contains_key(k) {
                    let j = choose|j: int| 0 <= j < n && #[trigger] changes.paths()[j] == k;
                }
            }
            assert(self@ =~= want);
        }
    }
}

} // verus!
