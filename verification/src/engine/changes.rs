//! A set of writes to the state, keyed by path.

use crate::engine::bytes::copy_bytes;
use crate::engine::model::{compose, is_path, touches, Changes};
use crate::engine::node::{bytes_of, copy_option};
use crate::engine::pathmap::PathMap;
use vstd::prelude::*;

verus! {

/// Whether `path` stands for a node: at most 128 nibbles.
pub fn is_valid_path(path: &Vec<u8>) -> (r: bool)
    ensures
        r == is_path(path@),
{
    if path.len() > 128 {
        return false;
    }
    let mut i: usize = 0;
    while i < path.len()
        invariant
            i <= path.len(),
            forall|j: int| 0 <= j < i ==> #[trigger] path@[j] < 16,
        decreases path.len() - i,
    {
        if path[i] >= 16 {
            return false;
        }
        i += 1;
    }
    true
}

/// The writes that a map of optional byte vectors stands for.
pub open spec fn writes_of(m: Map<Seq<u8>, Option<Vec<u8>>>) -> Changes {
    Map::new(|k: Seq<u8>| m.contains_key(k), |k: Seq<u8>| bytes_of(m[k]))
}

/// For each written path the value written last, or `None` where the last
/// write removed it.
pub struct ChangeSet {
    writes: PathMap<Option<Vec<u8>>>,
}

impl View for ChangeSet {
    type V = Changes;

    closed spec fn view(&self) -> Changes {
        writes_of(self.writes.map())
    }
}

impl ChangeSet {
    /// The list behind the set is in order, and every written path stands
    /// for a node.
    pub closed spec fn wf(&self) -> bool {
        &&& self.writes.wf()
        &&& forall|k: Seq<u8>| #[trigger] self.writes.map().contains_key(k) ==> is_path(k)
    }

    /// The written paths, in the order of their first writes.
    pub closed spec fn paths(&self) -> Seq<Seq<u8>> {
        self.writes.paths()
    }

    /// Every written path stands for a node, and the list of paths holds
    /// each written path once.
    pub proof fn lemma_paths(&self)
        requires
            self.wf(),
        ensures
            forall|k: Seq<u8>| #[trigger] self@.contains_key(k) ==> is_path(k),
            self.paths().no_duplicates(),
            forall|i: int|
                0 <= i < self.paths().len() ==> self@.contains_key(#[trigger] self.paths()[i]),
            forall|k: Seq<u8>| #[trigger]
                self@.contains_key(k) ==> exists|i: int|
                    0 <= i < self.paths().len() && #[trigger] self.paths()[i] == k,
            self@.dom().finite(),
            self@.dom().len() == self.paths().len(),
    {
        self.writes.lemma_listing();
        assert forall|k: Seq<u8>| #[trigger] self@.contains_key(k) implies exists|i: int|
            0 <= i < self.paths().len() && #[trigger] self.paths()[i] == k by {
            assert(self.writes.map().contains_key(k));
            let i = choose|i: int|
                0 <= i < self.writes.paths().len() && #[trigger] self.writes.paths()[i] == k;
            assert(self.paths()[i] == k);
        }
        assert(self@.dom() =~= self.writes.map().dom());
    }

    /// No writes.
    pub fn new() -> (c: ChangeSet)
        ensures
            c.wf(),
            c@ == Map::<Seq<u8>, Option<Seq<u8>>>::empty(),
            c.paths().len() == 0,
    {
        let c = ChangeSet { writes: PathMap::new() };
        assert(c@ =~= Map::<Seq<u8>, Option<Seq<u8>>>::empty());
        c
    }

    /// The number of written paths.
    pub fn len(&self) -> (n: usize)
        requires
            self.wf(),
        ensures
            n == self.paths().len(),
            n == self@.dom().len(),
    {
        assert(self@.dom() =~= self.writes.map().dom());
        self.writes.len()
    }

    /// Records a write of `value` at `path`, over an earlier write of the
    /// same path. A path that stands for no node is refused.
    pub fn record(&mut self, path: Vec<u8>, value: Option<Vec<u8>>) -> (ok: bool)
        requires
            old(self).wf(),
        ensures
            final(self).wf(),
            ok == is_path(path@),
            ok ==> final(self)@ == old(self)@.insert(path@, bytes_of(value)),
            !ok ==> final(self)@ == old(self)@,
    {
        if !is_valid_path(&path) {
            return false;
        }
        self.writes.insert(path, value);
        assert(self@ =~= old(self)@.insert(path@, bytes_of(value)));
        true
    }

    /// The write recorded for `path`, if there is one.
    pub fn get(&self, path: &Vec<u8>) -> (r: Option<&Option<Vec<u8>>>)
        requires
            self.wf(),
        ensures
            match r {
                Some(w) => self@.contains_key(path@) && self@[path@] == bytes_of(*w),
                None => !self@.contains_key(path@),
            },
    {
        self.writes.get(path)
    }

    /// Whether a written path lies at or below `p`.
    pub fn touches(&self, p: &Vec<u8>) -> (r: bool)
        requires
            self.wf(),
        ensures
            r == touches(self@, p@),
    {
        let r = self.writes.any_under(p);
        proof {
            if r {
                let k = choose|k: Seq<u8>| self.writes.map().contains_key(k) && p@.is_prefix_of(k);
                assert(self@.contains_key(k));
            }
            if touches(self@, p@) {
                let k = choose|k: Seq<u8>| self@.contains_key(k) && p@.is_prefix_of(k);
                assert(self.writes.map().contains_key(k));
            }
        }
        r
    }

    /// The `i`-th written path.
    pub fn path_at(&self, i: usize) -> (r: &Vec<u8>)
        requires
            self.wf(),
            i < self.paths().len(),
        ensures
            r@ == self.paths()[i as int],
            self@.contains_key(r@),
            is_path(r@),
    {
        proof {
            self.writes.lemma_listing();
        }
        self.writes.path_at(i)
    }

    /// The write recorded for the `i`-th written path.
    pub fn write_at(&self, i: usize) -> (r: &Option<Vec<u8>>)
        requires
            self.wf(),
            i < self.paths().len(),
        ensures
            bytes_of(*r) == self@[self.paths()[i as int]],
    {
        proof {
            self.writes.lemma_listing();
        }
        self.writes.entry_at(i)
    }

    /// Records every write of `later` over the writes of `self`.
    pub fn absorb(&mut self, later: &ChangeSet)
        requires
            old(self).wf(),
            later.wf(),
        ensures
            final(self).wf(),
            final(self)@ == compose(old(self)@, later@),
    {
        let n = later.len();
        let mut i: usize = 0;
        proof {
            later.lemma_paths();
        }
        while i < n
            invariant
                i <= n,
                n == later.paths().len(),
                later.wf(),
                self.wf(),
                later.paths().no_duplicates(),
                forall|k: Seq<u8>| #[trigger]
                    self@.contains_key(k) <==> (old(self)@.contains_key(k) || exists|j: int|
                        0 <= j < i && #[trigger] later.paths()[j] == k),
                forall|k: Seq<u8>| #[trigger]
                    self@.contains_key(k) ==> self@[k] == (if exists|j: int|
                        0 <= j < i && #[trigger] later.paths()[j] == k {
                        later@[k]
                    } else {
                        old(self)@[k]
                    }),
            decreases n - i,
        {
            let path = copy_bytes(later.path_at(i));
            let value = copy_option(later.write_at(i));
            let ghost before = self@;
            let ok = self.record(path, value);
            assert(ok);
            proof {
                let p = later.paths()[i as int];
                assert forall|k: Seq<u8>| #[trigger]
                    self@.contains_key(k) <==> (old(self)@.contains_key(k) || exists|j: int|
                        0 <= j < i + 1 && #[trigger] later.paths()[j] == k) by {
                    if k == p {
                        assert(later.paths()[i as int] == k);
                    } else {
                        if exists|j: int| 0 <= j < i + 1 && #[trigger] later.paths()[j] == k {
                            let j = choose|j: int| 0 <= j < i + 1 && #[trigger] later.paths()[j] == k;
                            assert(j < i);
                            assert(before.contains_key(k));
                        }
                        if before.contains_key(k) && !old(self)@.contains_key(k) {
                            let j = choose|j: int| 0 <= j < i && #[trigger] later.paths()[j] == k;
                            assert(j < i + 1);
                        }
                    }
                }
                assert forall|k: Seq<u8>| #[trigger] self@.contains_key(k) implies self@[k] == (
                if exists|j: int| 0 <= j < i + 1 && #[trigger] later.paths()[j] == k {
                    later@[k]
                } else {
                    old(self)@[k]
                }) by {
                    if k == p {
                        assert(later.paths()[i as int] == k);
                    } else {
                        assert(before.contains_key(k));
                        if exists|j: int| 0 <= j < i + 1 && #[trigger] later.paths()[j] == k {
                            let j = choose|j: int| 0 <= j < i + 1 && #[trigger] later.paths()[j] == k;
                            assert(j < i);
                        }
                        if exists|j: int| 0 <= j < i && #[trigger] later.paths()[j] == k {
                            let j = choose|j: int| 0 <= j < i && #[trigger] later.paths()[j] == k;
                            assert(j < i + 1);
                        }
                    }
                }
            }
            i += 1;
        }
        proof {
            let want = compose(old(self)@, later@);
            assert forall|k: Seq<u8>| self@.contains_key(k) <==> want.contains_key(k) by {
                if later@.contains_key(k) {
                    let j = choose|j: int| 0 <= j < n && #[trigger] later.paths()[j] == k;
                }
            }
            assert forall|k: Seq<u8>| self@.contains_key(k) implies self@[k] == want[k] by {
                if later@.contains_key(k) {
                    let j = choose|j: int| 0 <= j < n && #[trigger] later.paths()[j] == k;
                }
            }
            assert(self@ =~= want);
        }
    }

    /// A copy of the set.
    pub fn copy(&self) -> (c: ChangeSet)
        requires
            self.wf(),
        ensures
            c.wf(),
            c@ == self@,
    {
        let mut c = ChangeSet::new();
        c.absorb(self);
        assert(compose(Map::<Seq<u8>, Option<Seq<u8>>>::empty(), self@) =~= self@);
        c
    }
}

} // verus!
