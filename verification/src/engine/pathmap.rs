//! A finite map keyed by paths, held as a list in which no path occurs twice.

use crate::engine::bytes::{bytes_eq, is_prefix};
use vstd::prelude::*;

verus! {

/// A map from paths to values of type `V`.
pub struct PathMap<V> {
    keys: Vec<Vec<u8>>,
    values: Vec<V>,
    model: Ghost<Map<Seq<u8>, V>>,
}

impl<V> PathMap<V> {
    /// The map that the list stands for.
    pub closed spec fn map(&self) -> Map<Seq<u8>, V> {
        self.model@
    }

    /// The paths, in the order of the list.
    pub closed spec fn paths(&self) -> Seq<Seq<u8>> {
        self.keys@.map_values(|k: Vec<u8>| k@)
    }

    /// The values, in the order of the list.
    pub closed spec fn entries(&self) -> Seq<V> {
        self.values@
    }

    /// The list and the map hold the same, and no path occurs twice.
    pub closed spec fn wf(&self) -> bool {
        &&& self.keys@.len() == self.values@.len()
        &&& self.model@.dom().finite()
        &&& self.model@.dom().len() == self.keys@.len()
        &&& forall|i: int, j: int|
            0 <= i < j < self.keys@.len() ==> (#[trigger] self.keys@[i])@ != (
            #[trigger] self.keys@[j])@
        &&& forall|i: int|
            0 <= i < self.keys@.len() ==> self.model@.contains_key((#[trigger] self.keys@[i])@)
                && self.model@[self.keys@[i]@] == self.values@[i]
        &&& forall|k: Seq<u8>| #[trigger]
            self.model@.contains_key(k) ==> exists|i: int|
                0 <= i < self.keys@.len() && (#[trigger] self.keys@[i])@ == k
    }

    /// What the list holds is what the map holds.
    pub proof fn lemma_listing(&self)
        requires
            self.wf(),
        ensures
            self.paths().len() == self.entries().len(),
            self.map().dom().finite(),
            self.map().dom().len() == self.paths().len(),
            self.paths().no_duplicates(),
            forall|i: int|
                0 <= i < self.paths().len() ==> self.map().contains_key(#[trigger] self.paths()[i])
                    && self.map()[self.paths()[i]] == self.entries()[i],
            forall|k: Seq<u8>| #[trigger]
                self.map().contains_key(k) ==> exists|i: int|
                    0 <= i < self.paths().len() && #[trigger] self.paths()[i] == k,
    {
        assert forall|i: int| 0 <= i < self.paths().len() implies self.map().contains_key(
            #[trigger] self.paths()[i],
        ) && self.map()[self.paths()[i]] == self.entries()[i] by {
            assert(self.paths()[i] == self.keys@[i]@);
        }
        assert forall|k: Seq<u8>| #[trigger] self.map().contains_key(k) implies exists|i: int|
            0 <= i < self.paths().len() && #[trigger] self.paths()[i] == k by {
            let i = choose|i: int| 0 <= i < self.keys@.len() && (#[trigger] self.keys@[i])@ == k;
            assert(self.paths()[i] == k);
        }
        assert forall|i: int, j: int|
            0 <= i < self.paths().len() && 0 <= j < self.paths().len() && i != j implies self.paths()[i]
            != self.paths()[j] by {
            assert(self.paths()[i] == self.keys@[i]@);
            assert(self.paths()[j] == self.keys@[j]@);
            if i < j {
                assert(self.keys@[i]@ != self.keys@[j]@);
            } else {
                assert(self.keys@[j]@ != self.keys@[i]@);
            }
        }
    }

    /// The empty map.
    pub fn new() -> (m: Self)
        ensures
            m.wf(),
            m.map() == Map::<Seq<u8>, V>::empty(),
            m.paths().len() == 0,
    {
        PathMap { keys: Vec::new(), values: Vec::new(), model: Ghost(Map::empty()) }
    }

    /// The number of paths.
    pub fn len(&self) -> (n: usize)
        requires
            self.wf(),
        ensures
            n == self.paths().len(),
            n == self.map().dom().len(),
    {
        self.keys.len()
    }

    /// Where `key` stands in the list.
    fn position(&self, key: &Vec<u8>) -> (r: Option<usize>)
        requires
            self.wf(),
        ensures
            match r {
                Some(i) => i < self.keys@.len() && self.keys@[i as int]@ == key@,
                None => !self.model@.contains_key(key@),
            },
    {
        let mut i: usize = 0;
        while i < self.keys.len()
            invariant
                i <= self.keys@.len(),
                forall|j: int| 0 <= j < i ==> (#[trigger] self.keys@[j])@ != key@,
            decreases self.keys.len() - i,
        {
            if bytes_eq(&self.keys[i], key) {
                return Some(i);
            }
            i += 1;
        }
        None
    }

    /// The value at `key`, if there is one.
    pub fn get(&self, key: &Vec<u8>) -> (r: Option<&V>)
        requires
            self.wf(),
        ensures
            match r {
                Some(v) => self.map().contains_key(key@) && self.map()[key@] == *v,
                None => !self.map().contains_key(key@),
            },
    {
        match self.position(key) {
            Some(i) => Some(&self.values[i]),
            None => None,
        }
    }

    /// Whether the map holds `key`.
    pub fn contains(&self, key: &Vec<u8>) -> (r: bool)
        requires
            self.wf(),
        ensures
            r == self.map().contains_key(key@),
    {
        self.position(key).is_some()
    }

    /// Writes `value` at `key`, over what was there.
    pub fn insert(&mut self, key: Vec<u8>, value: V)
        requires
            old(self).wf(),
        ensures
            final(self).wf(),
            final(self).map() == old(self).map().insert(key@, value),
            final(self).paths() == if old(self).map().contains_key(key@) {
                old(self).paths()
            } else {
                old(self).paths().push(key@)
            },
    {
        match self.position(&key) {
            Some(i) => {
                self.values.set(i, value);
                self.model = Ghost(self.model@.insert(key@, value));
                assert(self.model@.dom() =~= old(self).model@.dom());
                assert(old(self).model@.contains_key(old(self).keys@[i as int]@));
            },
            None => {
                self.keys.push(key);
                self.values.push(value);
                self.model = Ghost(self.model@.insert(key@, value));
                assert forall|k: Seq<u8>| #[trigger]
                    self.model@.contains_key(k) implies exists|i: int|
                    0 <= i < self.keys@.len() && (#[trigger] self.keys@[i])@ == k by {
                    if k == key@ {
                        assert(self.keys@[self.keys@.len() - 1]@ == k);
                    } else {
                        let i = choose|i: int|
                            0 <= i < old(self).keys@.len() && (#[trigger] old(self).keys@[i])@
                                == k;
                        assert(self.keys@[i]@ == k);
                    }
                }
                assert(self.paths() =~= old(self).paths().push(key@));
            },
        }
    }

    /// Removes `key` and its value, if the map holds it.
    pub fn remove(&mut self, key: &Vec<u8>)
        requires
            old(self).wf(),
        ensures
            final(self).wf(),
            final(self).map() == old(self).map().remove(key@),
    {
        match self.position(key) {
            Some(i) => {
                self.keys.remove(i);
                self.values.remove(i);
                self.model = Ghost(self.model@.remove(key@));
                assert forall|a: int, b: int| 0 <= a < b < self.keys@.len() implies (
                #[trigger] self.keys@[a])@ != (#[trigger] self.keys@[b])@ by {
                    let x = if a < i { a } else { a + 1 };
                    let y = if b < i { b } else { b + 1 };
                    assert(self.keys@[a] == old(self).keys@[x]);
                    assert(self.keys@[b] == old(self).keys@[y]);
                }
                assert forall|a: int| 0 <= a < self.keys@.len() implies self.model@.contains_key(
                    (#[trigger] self.keys@[a])@,
                ) && self.model@[self.keys@[a]@] == self.values@[a] by {
                    let x = if a < i { a } else { a + 1 };
                    assert(self.keys@[a] == old(self).keys@[x]);
                    assert(self.values@[a] == old(self).values@[x]);
                    if x < i {
                        assert(old(self).keys@[x]@ != old(self).keys@[i as int]@);
                    } else {
                        assert(old(self).keys@[i as int]@ != old(self).keys@[x]@);
                    }
                }
                assert forall|k: Seq<u8>| #[trigger]
                    self.model@.contains_key(k) implies exists|a: int|
                    0 <= a < self.keys@.len() && (#[trigger] self.keys@[a])@ == k by {
                    let x = choose|x: int|
                        0 <= x < old(self).keys@.len() && (#[trigger] old(self).keys@[x])@ == k;
                    let a = if x < i { x } else { x - 1 };
                    assert(self.keys@[a] == old(self).keys@[x]);
                }
            },
            None => {
                assert(self.model@.remove(key@) =~= self.model@);
            },
        }
    }

    /// The `i`-th path of the list.
    pub fn path_at(&self, i: usize) -> (r: &Vec<u8>)
        requires
            self.wf(),
            i < self.paths().len(),
        ensures
            r@ == self.paths()[i as int],
    {
        &self.keys[i]
    }

    /// The `i`-th value of the list.
    pub fn entry_at(&self, i: usize) -> (r: &V)
        requires
            self.wf(),
            i < self.paths().len(),
        ensures
            *r == self.entries()[i as int],
    {
        &self.values[i]
    }

    /// Whether some path of the map lies at or below `p`.
    pub fn any_under(&self, p: &Vec<u8>) -> (r: bool)
        requires
            self.wf(),
        ensures
            r == (exists|k: Seq<u8>| self.map().contains_key(k) && p@.is_prefix_of(k)),
    {
        let mut i: usize = 0;
        while i < self.keys.len()
            invariant
                i <= self.keys@.len(),
                self.wf(),
                forall|j: int| 0 <= j < i ==> !p@.is_prefix_of((#[trigger] self.keys@[j])@),
            decreases self.keys.len() - i,
        {
            if is_prefix(p, &self.keys[i]) {
                assert(self.model@.contains_key(self.keys@[i as int]@));
                return true;
            }
            i += 1;
        }
        assert forall|k: Seq<u8>| self.map().contains_key(k) implies !p@.is_prefix_of(k) by {
            let i = choose|i: int| 0 <= i < self.keys@.len() && (#[trigger] self.keys@[i])@ == k;
        }
        false
    }
}

} // verus!
