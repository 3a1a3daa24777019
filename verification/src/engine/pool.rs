//! Batches for a pool of workers: a batch is cut into pieces whose subtrees
//! do not overlap, every piece is computed over the same overlay, and the
//! updates are merged one after another.

use crate::engine::bytes::copy_bytes;
use crate::engine::changes::ChangeSet;
use crate::engine::error::TaskError;
use crate::engine::merge::{merge, merged_from, missing_above};
use crate::engine::model::{
    apply, compose, compose_all, lemma_apply_compose, lemma_value_after, touches, value_at,
    Changes, Leaves,
};
use crate::engine::node::copy_option;
use crate::engine::rebuild::missing_under;
use crate::engine::store::{SnapshotView, TrieOverlay};
use crate::engine::worker::{
    compute_update, is_common_prefix, lemma_update_is_local, PartialUpdate,
};
use vstd::prelude::*;

verus! {

/// The writes of `c` to the paths that begin with the nibble `n`.
pub open spec fn under_nibble(c: Changes, n: u8) -> Changes {
    Map::new(|k: Seq<u8>| c.contains_key(k) && k.len() > 0 && k[0] == n, |k: Seq<u8>| c[k])
}

/// The write of `c` to the empty path, if there is one.
pub open spec fn at_root(c: Changes) -> Changes {
    Map::new(|k: Seq<u8>| c.contains_key(k) && k.len() == 0, |k: Seq<u8>| c[k])
}

/// The writes of `batch` to the paths that begin with the nibble `n`.
pub fn piece_under(batch: &ChangeSet, n: u8) -> (piece: ChangeSet)
    requires
        batch.wf(),
    ensures
        piece.wf(),
        piece@ == under_nibble(batch@, n),
{
    let mut piece = ChangeSet::new();
    let len = batch.len();
    let mut i: usize = 0;
    proof {
        batch.lemma_paths();
    }
    while i < len
        invariant
            i <= len,
            len == batch.paths().len(),
            batch.wf(),
            piece.wf(),
            batch.paths().no_duplicates(),
            forall|k: Seq<u8>| #[trigger]
                piece@.contains_key(k) <==> (k.len() > 0 && k[0] == n && exists|j: int|
                    0 <= j < i && #[trigger] batch.paths()[j] == k),
            forall|k: Seq<u8>| #[trigger] piece@.contains_key(k) ==> piece@[k] == batch@[k],
        decreases len - i,
    {
        let path = batch.path_at(i);
        let ghost before = piece@;
        if path.len() > 0 && path[0] == n {
            let ok = piece.record(copy_bytes(path), copy_option(batch.write_at(i)));
            assert(ok);
        }
        proof {
            let p = batch.paths()[i as int];
            assert forall|k: Seq<u8>| #[trigger]
                piece@.contains_key(k) <==> (k.len() > 0 && k[0] == n && exists|j: int|
                    0 <= j < i + 1 && #[trigger] batch.paths()[j] == k) by {
                if k == p {
                    assert(batch.paths()[i as int] == k);
                } else {
                    if exists|j: int| 0 <= j < i + 1 && #[trigger] batch.paths()[j] == k {
                        let j = choose|j: int| 0 <= j < i + 1 && #[trigger] batch.paths()[j] == k;
                        assert(j < i);
                    }
                    if before.contains_key(k) {
                        let j = choose|j: int| 0 <= j < i && #[trigger] batch.paths()[j] == k;
                        assert(j < i + 1);
                    }
                }
            }
        }
        i += 1;
    }
    proof {
        let want = under_nibble(batch@, n);
        assert forall|k: Seq<u8>| piece@.contains_key(k) <==> want.contains_key(k) by {
            if batch@.contains_key(k) {
                let j = choose|j: int| 0 <= j < len && #[trigger] batch.paths()[j] == k;
            }
        }
        assert(piece@ =~= want);
    }
    piece
}

/// The write of `batch` to the empty path, if there is one.
pub fn piece_at_root(batch: &ChangeSet) -> (piece: ChangeSet)
    requires
        batch.wf(),
    ensures
        piece.wf(),
        piece@ == at_root(batch@),
{
    let mut piece = ChangeSet::new();
    let top: Vec<u8> = Vec::new();
    match batch.get(&top) {
        Some(w) => {
            let ok = piece.record(top, copy_option(w));
            assert(ok);
            assert(piece@ =~= at_root(batch@)) by {
                assert forall|k: Seq<u8>| piece@.contains_key(k) <==> at_root(
                    batch@,
                ).contains_key(k) by {
                    if k.len() == 0 {
                        assert(k =~= Seq::<u8>::empty());
                    }
                }
            }
        },
        None => {
            assert(piece@ =~= at_root(batch@)) by {
                assert forall|k: Seq<u8>| !at_root(batch@).contains_key(k) by {
                    if k.len() == 0 {
                        assert(k =~= Seq::<u8>::empty());
                    }
                }
            }
        },
    }
    piece
}

/// The pieces of `batch` that hold writes, by ascending first nibble. Their
/// subtrees do not overlap, and together with the write to the empty path
/// they are the batch.
pub fn split_batch(batch: &ChangeSet) -> (pieces: Vec<ChangeSet>)
    requires
        batch.wf(),
    ensures
        forall|i: int| 0 <= i < pieces@.len() ==> (#[trigger] pieces@[i]).wf(),
        forall|i: int| 0 <= i < pieces@.len() ==> (#[trigger] pieces@[i]).paths().len() > 0,
        is_split(crate::engine::task::writes_of_each(pieces@), batch@, 16),
{
    let mut pieces: Vec<ChangeSet> = Vec::new();
    let ghost mut nibbles: Seq<u8> = Seq::empty();
    let mut n: u8 = 0;
    while n < 16
        invariant
            n <= 16,
            batch.wf(),
            nibbles.len() == pieces@.len(),
            forall|i: int| 0 <= i < pieces@.len() ==> (#[trigger] pieces@[i]).wf(),
            forall|i: int| 0 <= i < pieces@.len() ==> (#[trigger] pieces@[i]).paths().len() > 0,
            forall|i: int|
                0 <= i < pieces@.len() ==> (#[trigger] pieces@[i])@ == under_nibble(
                    batch@,
                    nibbles[i],
                ),
            forall|i: int| 0 <= i < nibbles.len() ==> #[trigger] nibbles[i] < n,
            forall|i: int, j: int| 0 <= i < j < nibbles.len() ==> nibbles[i] < nibbles[j],
            forall|m: u8|
                m < n && has_writes(under_nibble(batch@, m)) ==> exists|i: int|
                    0 <= i < nibbles.len() && #[trigger] nibbles[i] == m,
        decreases 16 - n,
    {
        let piece = piece_under(batch, n);
        proof {
            piece.lemma_paths();
        }
        let ghost prev = nibbles;
        if piece.len() > 0 {
            pieces.push(piece);
            proof {
                nibbles = prev.push(n);
            }
        }
        proof {
            assert forall|i: int, j: int| 0 <= i < j < nibbles.len() implies nibbles[i]
                < nibbles[j] by {
                if j < prev.len() {
                    assert(prev[i] < prev[j]);
                } else {
                    assert(prev[i] < n);
                }
            }
            assert forall|m: u8|
                m < n + 1 && has_writes(under_nibble(batch@, m)) implies exists|i: int|
                0 <= i < nibbles.len() && #[trigger] nibbles[i] == m by {
                if m == n {
                    let k = choose|k: Seq<u8>| under_nibble(batch@, m).contains_key(k);
                    assert(piece@.contains_key(k));
                    assert(nibbles[nibbles.len() - 1] == n);
                } else {
                    let i = choose|i: int| 0 <= i < prev.len() && #[trigger] prev[i] == m;
                    assert(nibbles[i] == m);
                }
            }
        }
        n += 1;
    }
    proof {
        let all = crate::engine::task::writes_of_each(pieces@);
        assert forall|i: int| 0 <= i < all.len() implies #[trigger] all[i] == under_nibble(
            batch@,
            nibbles[i],
        ) && nibbles[i] < 16 by {
            assert(all[i] == pieces@[i]@);
        }
        assert(is_split(all, batch@, 16)) by {
            assert(exists|ns: Seq<u8>| split_by(all, batch@, 16, ns)) by {
                assert(split_by(all, batch@, 16, nibbles));
            }
        }
    }
    pieces
}

/// `pieces` are the writes of `c` under the nibbles `ns`, which ascend and
/// leave out only nibbles without writes.
pub open spec fn split_by(pieces: Seq<Changes>, c: Changes, bound: int, ns: Seq<u8>) -> bool {
    &&& ns.len() == pieces.len()
    &&& forall|i: int|
        0 <= i < pieces.len() ==> #[trigger] pieces[i] == under_nibble(c, ns[i]) && ns[i] < bound
    &&& forall|i: int, j: int| 0 <= i < j < ns.len() ==> ns[i] < ns[j]
    &&& forall|m: u8|
        m < bound && has_writes(under_nibble(c, m)) ==> exists|i: int|
            0 <= i < ns.len() && #[trigger] ns[i] == m
}

/// There is a write.
pub open spec fn has_writes(c: Changes) -> bool {
    exists|k: Seq<u8>| c.contains_key(k)
}

/// `pieces` are the writes of `c` by first nibble, without the empty
/// pieces.
pub open spec fn is_split(pieces: Seq<Changes>, c: Changes, bound: int) -> bool {
    exists|ns: Seq<u8>| split_by(pieces, c, bound, ns)
}

/// Neither path is a prefix of the other.
pub open spec fn apart(p: Seq<u8>, q: Seq<u8>) -> bool {
    !p.is_prefix_of(q) && !q.is_prefix_of(p)
}

/// The smallest subtrees of the writes under two different nibbles do not
/// overlap.
pub proof fn lemma_pieces_are_apart(c: Changes, m: u8, n: u8, p: Seq<u8>, q: Seq<u8>)
    requires
        m != n,
        is_common_prefix(under_nibble(c, m), p),
        is_common_prefix(under_nibble(c, n), q),
        touches(under_nibble(c, m), p),
        touches(under_nibble(c, n), q),
    ensures
        apart(p, q),
{
    let a = seq![m];
    let b = seq![n];
    assert forall|k: Seq<u8>| #[trigger] under_nibble(c, m).contains_key(k) implies a.is_prefix_of(
        k,
    ) by {
        assert(a =~= k.subrange(0, 1));
    }
    assert forall|k: Seq<u8>| #[trigger] under_nibble(c, n).contains_key(k) implies b.is_prefix_of(
        k,
    ) by {
        assert(b =~= k.subrange(0, 1));
    }
    assert(a.is_prefix_of(p));
    assert(b.is_prefix_of(q));
    assert(p[0] == a.subrange(0, 1)[0]) by {
        assert(a =~= p.subrange(0, 1));
    }
    assert(q[0] == n) by {
        assert(b =~= q.subrange(0, 1));
    }
    if p.is_prefix_of(q) {
        assert(p[0] == q.subrange(0, p.len() as int)[0]);
    }
    if q.is_prefix_of(p) {
        assert(q[0] == p.subrange(0, q.len() as int)[0]);
    }
}

/// The writes that each update accounts for.
pub open spec fn writes_of_updates(us: Seq<PartialUpdate>) -> Seq<Changes> {
    us.map_values(|u: PartialUpdate| u.writes())
}

/// Every update is in order and right for the state `l`, and no two of
/// their subtrees overlap.
pub open spec fn disjoint_updates(us: Seq<PartialUpdate>, l: Leaves) -> bool {
    &&& forall|i: int| 0 <= i < us.len() ==> (#[trigger] us[i]).wf() && us[i].valid_for(l)
    &&& forall|i: int, j: int|
        0 <= i < us.len() && 0 <= j < us.len() && i != j ==> apart(
            (#[trigger] us[i]).prefix(),
            (#[trigger] us[j]).prefix(),
        )
}

/// Computes the update of each piece, all over the same overlay: what a
/// pool of workers does side by side. Fails as the first piece that fails.
pub fn compute_all(snapshot: &SnapshotView, overlay: &TrieOverlay, pieces: &Vec<ChangeSet>) -> (r:
    Result<Vec<PartialUpdate>, TaskError>)
    requires
        snapshot.wf(),
        overlay.wf(),
        overlay.based_on(snapshot),
        forall|i: int| 0 <= i < pieces@.len() ==> (#[trigger] pieces@[i]).wf(),
    ensures
        match r {
            Ok(us) => {
                &&& us@.len() == pieces@.len()
                &&& forall|i: int|
                    0 <= i < us@.len() ==> {
                        &&& (#[trigger] us@[i]).wf()
                        &&& us@[i].writes() == pieces@[i]@
                        &&& us@[i].valid_for(overlay.state())
                        &&& pieces@[i].paths().len() > 0 ==> is_common_prefix(
                            pieces@[i]@,
                            us@[i].prefix(),
                        )
                    }
                &&& forall|i: int|
                    0 <= i < pieces@.len() ==> !missing_under(
                        snapshot,
                        overlay,
                        (#[trigger] pieces@[i])@,
                        Seq::empty(),
                    )
                &&& pieces@.len() > 0 ==> snapshot.available()
            },
            Err(e) => {
                &&& pieces@.len() > 0
                &&& if snapshot.available() {
                    e == TaskError::NodeIntegrityError && exists|i: int|
                        0 <= i < pieces@.len() && missing_under(
                            snapshot,
                            overlay,
                            (#[trigger] pieces@[i])@,
                            Seq::empty(),
                        )
                } else {
                    e == TaskError::SnapshotUnavailable
                }
            },
        },
{
    let mut us: Vec<PartialUpdate> = Vec::new();
    let mut i: usize = 0;
    while i < pieces.len()
        invariant
            i <= pieces@.len(),
            snapshot.wf(),
            overlay.wf(),
            overlay.based_on(snapshot),
            forall|j: int| 0 <= j < pieces@.len() ==> (#[trigger] pieces@[j]).wf(),
            us@.len() == i,
            i > 0 ==> snapshot.available(),
            forall|j: int|
                0 <= j < i ==> {
                    &&& (#[trigger] us@[j]).wf()
                    &&& us@[j].writes() == pieces@[j]@
                    &&& us@[j].valid_for(overlay.state())
                    &&& pieces@[j].paths().len() > 0 ==> is_common_prefix(
                        pieces@[j]@,
                        us@[j].prefix(),
                    )
                },
            forall|j: int|
                0 <= j < i ==> !missing_under(
                    snapshot,
                    overlay,
                    (#[trigger] pieces@[j])@,
                    Seq::empty(),
                ),
        decreases pieces.len() - i,
    {
        match compute_update(snapshot, overlay, &pieces[i]) {
            Ok(u) => {
                us.push(u);
            },
            Err(e) => {
                return Err(e);
            },
        }
        i += 1;
    }
    Ok(us)
}

/// Merges updates whose subtrees do not overlap, one after another in the
/// order of the list. Each was computed over the overlay as it is at the
/// start; the merges before it do not touch its subtree, so it is still
/// right when its turn comes.
pub fn merge_disjoint(overlay: &mut TrieOverlay, snapshot: &SnapshotView, updates: Vec<
    PartialUpdate,
>) -> (r: Result<(), TaskError>)
    requires
        old(overlay).wf(),
        snapshot.wf(),
        old(overlay).based_on(snapshot),
        disjoint_updates(updates@, old(overlay).state()),
    ensures
        final(overlay).wf(),
        final(overlay).based_on(snapshot),
        match r {
            Ok(_) => {
                &&& merged_from(
                    final(overlay),
                    old(overlay),
                    compose_all(writes_of_updates(updates@)),
                )
                &&& forall|i: int|
                    0 <= i < updates@.len() && has_writes((#[trigger] updates@[i]).writes())
                        ==> snapshot.available() && !missing_above(
                        snapshot,
                        old(overlay),
                        updates@[i].prefix(),
                        0,
                    )
            },
            Err(e) => {
                &&& exists|i: int|
                    0 <= i < updates@.len() && has_writes((#[trigger] updates@[i]).writes())
                &&& if snapshot.available() {
                    e == TaskError::NodeIntegrityError && exists|i: int|
                        0 <= i < updates@.len() && missing_above(
                            snapshot,
                            old(overlay),
                            (#[trigger] updates@[i]).prefix(),
                            0,
                        )
                } else {
                    e == TaskError::SnapshotUnavailable
                }
            },
        },
{
    let ghost all = updates@;
    let ghost start = *overlay;
    let ghost l0 = overlay.state();
    let n = updates.len();
    let mut rest = updates;
    let mut stack: Vec<PartialUpdate> = Vec::new();
    while rest.len() > 0
        invariant
            rest@.len() + stack@.len() == n,
            all.len() == n,
            forall|j: int| 0 <= j < rest@.len() ==> (#[trigger] rest@[j]) == all[j],
            forall|j: int| 0 <= j < stack@.len() ==> (#[trigger] stack@[j]) == all[n - 1 - j],
        decreases rest.len(),
    {
        let u = rest.pop().unwrap();
        stack.push(u);
    }
    let mut i: usize = 0;
    proof {
        let none = Map::<Seq<u8>, Option<Seq<u8>>>::empty();
        assert(writes_of_updates(all).take(0) =~= Seq::<Changes>::empty());
        assert(apply(l0, none) =~= l0);
        assert forall|p: Seq<u8>| !touches(none, p) by {
        }
    }
    while i < n
        invariant
            i <= n,
            all.len() == n,
            all == updates@,
            stack@.len() == n - i,
            forall|j: int| 0 <= j < stack@.len() ==> (#[trigger] stack@[j]) == all[n - 1 - j],
            snapshot.wf(),
            start == *old(overlay),
            start.wf(),
            l0 == start.state(),
            disjoint_updates(all, l0),
            overlay.wf(),
            overlay.based_on(snapshot),
            merged_from(overlay, &start, compose_all(writes_of_updates(all).take(i as int))),
            forall|j: int|
                0 <= j < i && has_writes((#[trigger] all[j]).writes()) ==> snapshot.available()
                    && !missing_above(snapshot, &start, all[j].prefix(), 0),
            forall|j: int, k: Seq<u8>|
                i <= j < n && (#[trigger] all[j]).prefix().is_prefix_of(k) ==> #[trigger] value_at(
                    overlay.state(),
                    k,
                ) == value_at(l0, k),
        decreases n - i,
    {
        let u = stack.pop().unwrap();
        assert(u == all[i as int]);
        let ghost done = compose_all(writes_of_updates(all).take(i as int));
        let ghost c = u.writes();
        let ghost q = u.prefix();
        let ghost before = *overlay;
        let ghost l = overlay.state();
        proof {
            u.lemma_wf();
            assert(crate::engine::model::agree_under(l0, l, q)) by {
                assert forall|k: Seq<u8>| q.is_prefix_of(k) implies value_at(l0, k) == value_at(
                    l,
                    k,
                ) by {
                    assert(all[i as int].prefix().is_prefix_of(k));
                }
            }
            lemma_update_is_local(u, l0, l);
        }
        match merge(overlay, snapshot, u) {
            Err(e) => {
                proof {
                    assert(has_writes(all[i as int].writes())) by {
                        let k = choose|k: Seq<u8>| c.contains_key(k) && q.is_prefix_of(k);
                        assert(c.contains_key(k));
                    }
                    if snapshot.available() {
                        let a = choose|a: Seq<u8>|
                            #![trigger crate::engine::merge::on_spine(q, 0, a)]
                            crate::engine::merge::on_spine(q, 0, a) && crate::engine::model::digest(
                                l,
                                a,
                            ) is Some && !crate::engine::rebuild::present(snapshot, &before, a);
                        lemma_missing_before(snapshot, &start, &before, done, q, a);
                        assert(missing_above(snapshot, &start, all[i as int].prefix(), 0));
                    }
                }
                return Err(e);
            },
            Ok(_) => {
                proof {
                    if has_writes(c) {
                        let k0 = choose|k: Seq<u8>| c.contains_key(k);
                        assert(q.is_prefix_of(k0));
                        assert(touches(c, q));
                        assert(!missing_above(snapshot, &start, q, 0)) by {
                            if missing_above(snapshot, &start, q, 0) {
                                let a = choose|a: Seq<u8>|
                                    #![trigger crate::engine::merge::on_spine(q, 0, a)]
                                    crate::engine::merge::on_spine(q, 0, a)
                                        && crate::engine::model::digest(l0, a) is Some
                                        && !crate::engine::rebuild::present(snapshot, &start, a);
                                lemma_still_missing(
                                    snapshot,
                                    &start,
                                    &before,
                                    all,
                                    i as int,
                                    a,
                                );
                            }
                        }
                    }
                    let now = writes_of_updates(all).take(i + 1);
                    assert(now.drop_last() =~= writes_of_updates(all).take(i as int));
                    assert(now.last() == c);
                    lemma_apply_compose(l0, done, c);
                    assert forall|p: Seq<u8>|
                        #[trigger] overlay.holds(p) == (start.holds(p) || touches(
                            compose(done, c),
                            p,
                        )) by {
                        crate::engine::model::lemma_touches_compose(done, c, p);
                        assert(before.holds(p) == (start.holds(p) || touches(done, p)));
                    }
                    assert forall|j: int, k: Seq<u8>|
                        i + 1 <= j < n && (#[trigger] all[j]).prefix().is_prefix_of(
                            k,
                        ) implies #[trigger] value_at(overlay.state(), k) == value_at(l0, k) by {
                        lemma_value_after(l, c, k);
                        if c.contains_key(k) {
                            assert(q.is_prefix_of(k));
                            crate::engine::model::lemma_prefixes_are_comparable(
                                q,
                                all[j].prefix(),
                                k,
                            );
                            assert(apart(all[i as int].prefix(), all[j].prefix()));
                        }
                        assert(value_at(l, k) == value_at(l0, k));
                    }
                }
            },
        }
        i += 1;
    }
    proof {
        assert(writes_of_updates(all).take(n as int) =~= writes_of_updates(all));
    }
    Ok(())
}

/// `p` holds some of the writes of `c`, and no others.
pub open spec fn part_of(p: Changes, c: Changes) -> bool {
    forall|x: Seq<u8>| #[trigger] p.contains_key(x) ==> c.contains_key(x) && p[x] == c[x]
}

/// Where every piece is a part of `c`, the pieces together write a path
/// where one of them does, and they write what `c` writes.
pub proof fn lemma_compose_parts(ps: Seq<Changes>, c: Changes, k: Seq<u8>)
    requires
        forall|i: int| 0 <= i < ps.len() ==> part_of(#[trigger] ps[i], c),
    ensures
        compose_all(ps).contains_key(k) <==> exists|i: int|
            0 <= i < ps.len() && (#[trigger] ps[i]).contains_key(k),
        compose_all(ps).contains_key(k) ==> compose_all(ps)[k] == c[k],
    decreases ps.len(),
{
    if ps.len() > 0 {
        let front = ps.drop_last();
        assert forall|i: int| 0 <= i < front.len() implies part_of(#[trigger] front[i], c) by {
            assert(front[i] == ps[i]);
        }
        lemma_compose_parts(front, c, k);
        assert(part_of(ps[ps.len() - 1], c));
        if compose_all(ps).contains_key(k) {
            if ps.last().contains_key(k) {
                assert(ps[ps.len() - 1].contains_key(k));
            } else {
                let i = choose|i: int| 0 <= i < front.len() && (#[trigger] front[i]).contains_key(k);
                assert(ps[i].contains_key(k));
            }
        }
        if exists|i: int| 0 <= i < ps.len() && (#[trigger] ps[i]).contains_key(k) {
            let i = choose|i: int| 0 <= i < ps.len() && (#[trigger] ps[i]).contains_key(k);
            if i < ps.len() - 1 {
                assert(front[i].contains_key(k));
            }
        }
    }
}

/// The pieces of a batch and its write to the empty path are the batch.
pub proof fn lemma_split_is_whole(pieces: Seq<Changes>, c: Changes)
    requires
        is_split(pieces, c, 16),
        crate::engine::rebuild::writes_paths(c),
    ensures
        compose(compose_all(pieces), at_root(c)) == c,
{
    let ns = choose|ns: Seq<u8>| split_by(pieces, c, 16, ns);
    let whole = compose(compose_all(pieces), at_root(c));
    assert forall|i: int| 0 <= i < pieces.len() implies part_of(#[trigger] pieces[i], c) by {
        assert(pieces[i] == under_nibble(c, ns[i]));
    }
    assert forall|k: Seq<u8>| whole.contains_key(k) <==> c.contains_key(k) by {
        lemma_compose_parts(pieces, c, k);
        if c.contains_key(k) && k.len() > 0 {
            let m = k[0];
            assert(m < 16);
            assert(under_nibble(c, m).contains_key(k));
            let i = choose|i: int| 0 <= i < ns.len() && #[trigger] ns[i] == m;
            assert(pieces[i].contains_key(k));
        }
        if compose_all(pieces).contains_key(k) {
            let i = choose|i: int| 0 <= i < pieces.len() && (#[trigger] pieces[i]).contains_key(k);
        }
    }
    assert forall|k: Seq<u8>| whole.contains_key(k) implies whole[k] == c[k] by {
        lemma_compose_parts(pieces, c, k);
    }
    assert(whole =~= c);
}

/// Computes and merges a batch the way a pool of workers does: the batch is
/// cut by first nibble, every piece is computed over the overlay as it is,
/// the updates are merged one after another, and the write to the empty
/// path comes last. The overlay ends as if the batch had been merged as one.
pub fn dispatch_in_pieces(overlay: &mut TrieOverlay, snapshot: &SnapshotView, batch: &ChangeSet)
    -> (r: Result<(), TaskError>)
    requires
        old(overlay).wf(),
        snapshot.wf(),
        old(overlay).based_on(snapshot),
        batch.wf(),
    ensures
        final(overlay).wf(),
        final(overlay).based_on(snapshot),
        match r {
            Ok(_) => {
                &&& snapshot.available()
                &&& merged_from(final(overlay), old(overlay), batch@)
                &&& !missing_under(snapshot, old(overlay), batch@, Seq::empty())
            },
            Err(e) => if snapshot.available() {
                e == TaskError::NodeIntegrityError && missing_under(
                    snapshot,
                    old(overlay),
                    batch@,
                    Seq::empty(),
                )
            } else {
                e == TaskError::SnapshotUnavailable
            },
        },
{
    let ghost c = batch@;
    let ghost start = *overlay;
    let ghost l0 = overlay.state();
    let ghost top = Seq::<u8>::empty();
    proof {
        batch.lemma_paths();
    }
    let pieces = split_batch(batch);
    let last = piece_at_root(batch);
    let ghost ps = crate::engine::task::writes_of_each(pieces@);
    let ghost ns = choose|ns: Seq<u8>| split_by(ps, c, 16, ns);
    proof {
        assert forall|i: int| 0 <= i < pieces@.len() implies has_writes(
            #[trigger] pieces@[i]@,
        ) && ps[i] == pieces@[i]@ by {
            pieces@[i].lemma_paths();
            assert(pieces@[i]@.contains_key(pieces@[i].paths()[0]));
        }
    }
    let updates = match compute_all(snapshot, overlay, &pieces) {
        Ok(us) => us,
        Err(e) => {
            proof {
                if snapshot.available() {
                    let i = choose|i: int|
                        0 <= i < pieces@.len() && missing_under(
                            snapshot,
                            overlay,
                            (#[trigger] pieces@[i])@,
                            top,
                        );
                    assert(ps[i] == under_nibble(c, ns[i]));
                    lemma_missing_in_part(snapshot, overlay, ps[i], c);
                }
            }
            return Err(e);
        },
    };
    proof {
        assert forall|i: int, j: int|
            0 <= i < updates@.len() && 0 <= j < updates@.len() && i != j implies apart(
            (#[trigger] updates@[i]).prefix(),
            (#[trigger] updates@[j]).prefix(),
        ) by {
            pieces@[i].lemma_paths();
            pieces@[j].lemma_paths();
            let ki = choose|k: Seq<u8>| pieces@[i]@.contains_key(k);
            let kj = choose|k: Seq<u8>| pieces@[j]@.contains_key(k);
            assert(updates@[i].prefix().is_prefix_of(ki));
            assert(updates@[j].prefix().is_prefix_of(kj));
            assert(ps[i] == under_nibble(c, ns[i]));
            assert(ps[j] == under_nibble(c, ns[j]));
            if i < j {
                assert(ns[i] < ns[j]);
            } else {
                assert(ns[j] < ns[i]);
            }
            lemma_pieces_are_apart(
                c,
                ns[i],
                ns[j],
                updates@[i].prefix(),
                updates@[j].prefix(),
            );
        }
        assert(writes_of_updates(updates@) =~= ps);
    }
    match merge_disjoint(overlay, snapshot, updates) {
        Ok(_) => {},
        Err(e) => {
            proof {
                assert(snapshot.available());
                let i = choose|i: int|
                    0 <= i < updates@.len() && missing_above(
                        snapshot,
                        &start,
                        (#[trigger] updates@[i]).prefix(),
                        0,
                    );
                let q = updates@[i].prefix();
                let a = choose|a: Seq<u8>|
                    #![trigger crate::engine::merge::on_spine(q, 0, a)]
                    crate::engine::merge::on_spine(q, 0, a) && crate::engine::model::digest(
                        l0,
                        a,
                    ) is Some && !crate::engine::rebuild::present(snapshot, &start, a);
                let ki = choose|k: Seq<u8>| pieces@[i]@.contains_key(k);
                assert(ps[i] == under_nibble(c, ns[i]));
                assert(ps[i].contains_key(ki));
                assert(q.is_prefix_of(ki));
                crate::engine::model::lemma_prefix_transitive(a, q, ki);
                assert(top.is_prefix_of(a));
                assert(crate::engine::rebuild::dirty_under(c, top, a));
            }
            return Err(e);
        },
    }
    let ghost mid = *overlay;
    let ghost done = compose_all(ps);
    let update = match compute_update(snapshot, overlay, &last) {
        Ok(u) => u,
        Err(e) => {
            proof {
                if snapshot.available() {
                    lemma_root_is_missing(snapshot, &start, &mid, done, last@, c);
                }
            }
            return Err(e);
        },
    };
    proof {
        update.lemma_wf();
    }
    match merge(overlay, snapshot, update) {
        Ok(_) => {
            proof {
                assert(!missing_under(snapshot, &start, c, top)) by {
                    if missing_under(snapshot, &start, c, top) {
                        let p = choose|p: Seq<u8>|
                            #![trigger crate::engine::rebuild::dirty_under(c, top, p)]
                            crate::engine::rebuild::dirty_under(c, top, p)
                                && crate::engine::model::digest(l0, p) is Some
                                && !crate::engine::rebuild::present(snapshot, &start, p);
                        let k = choose|k: Seq<u8>| c.contains_key(k) && p.is_prefix_of(k);
                        if k.len() > 0 {
                            let m = k[0];
                            assert(under_nibble(c, m).contains_key(k));
                            let i = choose|i: int| 0 <= i < ns.len() && #[trigger] ns[i] == m;
                            assert(ps[i] == under_nibble(c, ns[i]));
                            assert(pieces@[i]@.contains_key(k));
                            assert(crate::engine::rebuild::dirty_under(pieces@[i]@, top, p));
                            assert(missing_under(snapshot, &start, pieces@[i]@, top));
                        } else if pieces@.len() > 0 {
                            assert(p =~= top);
                            let k0 = choose|k: Seq<u8>| pieces@[0]@.contains_key(k);
                            assert(top.is_prefix_of(k0));
                            assert(crate::engine::rebuild::dirty_under(pieces@[0]@, top, p));
                            assert(missing_under(snapshot, &start, pieces@[0]@, top));
                        } else {
                            assert(p =~= top);
                            assert(ps =~= Seq::<Changes>::empty());
                            assert(done == Map::<Seq<u8>, Option<Seq<u8>>>::empty());
                            assert(apply(l0, done) =~= l0);
                            assert(!touches(done, p));
                            assert(last@.contains_key(k));
                            assert(crate::engine::rebuild::dirty_under(last@, top, p));
                            assert(missing_under(snapshot, &mid, last@, top));
                        }
                    }
                }
                lemma_split_is_whole(ps, c);
                lemma_apply_compose(l0, done, last@);
                assert forall|p: Seq<u8>|
                    #[trigger] overlay.holds(p) == (start.holds(p) || touches(c, p)) by {
                    crate::engine::model::lemma_touches_compose(done, last@, p);
                    assert(mid.holds(p) == (start.holds(p) || touches(done, p)));
                }
            }
            Ok(())
        },
        Err(e) => {
            proof {
                // The empty path has nothing above it.
                let q = update.prefix();
                let k = choose|k: Seq<u8>| last@.contains_key(k) && q.is_prefix_of(k);
                assert(k.len() == 0);
                assert(q.len() == 0);
                assert(!missing_above(snapshot, &mid, q, 0));
            }
            Err(e)
        },
    }
}

/// What is missing for a part of the writes is missing for all of them.
pub proof fn lemma_missing_in_part(
    snapshot: &SnapshotView,
    overlay: &TrieOverlay,
    part: Changes,
    c: Changes,
)
    requires
        forall|k: Seq<u8>| #[trigger] part.contains_key(k) ==> c.contains_key(k),
        missing_under(snapshot, overlay, part, Seq::empty()),
    ensures
        missing_under(snapshot, overlay, c, Seq::empty()),
{
    let top = Seq::<u8>::empty();
    let q = choose|q: Seq<u8>|
        #![trigger crate::engine::rebuild::dirty_under(part, top, q)]
        crate::engine::rebuild::dirty_under(part, top, q) && crate::engine::model::digest(
            overlay.state(),
            q,
        ) is Some && !crate::engine::rebuild::present(snapshot, overlay, q);
    let k = choose|k: Seq<u8>| part.contains_key(k) && q.is_prefix_of(k);
    assert(c.contains_key(k));
    assert(crate::engine::rebuild::dirty_under(c, top, q));
}

/// Where the root is missing for the write to the empty path after the
/// pieces were merged, it was missing from the start.
pub proof fn lemma_root_is_missing(
    snapshot: &SnapshotView,
    start: &TrieOverlay,
    mid: &TrieOverlay,
    done: Changes,
    last: Changes,
    c: Changes,
)
    requires
        start.wf(),
        merged_from(mid, start, done),
        forall|k: Seq<u8>| #[trigger] last.contains_key(k) ==> c.contains_key(k) && k.len() == 0,
        missing_under(snapshot, mid, last, Seq::empty()),
    ensures
        missing_under(snapshot, start, c, Seq::empty()),
{
    let top = Seq::<u8>::empty();
    let q = choose|q: Seq<u8>|
        #![trigger crate::engine::rebuild::dirty_under(last, top, q)]
        crate::engine::rebuild::dirty_under(last, top, q) && crate::engine::model::digest(
            mid.state(),
            q,
        ) is Some && !crate::engine::rebuild::present(snapshot, mid, q);
    let k = choose|k: Seq<u8>| last.contains_key(k) && q.is_prefix_of(k);
    assert(q =~= top);
    assert(c.contains_key(k));
    assert(!mid.holds(q));
    assert(!touches(done, q));
    crate::engine::model::lemma_untouched_is_unchanged(start.state(), done, q);
    assert(crate::engine::rebuild::dirty_under(c, top, q));
}

/// A path that the composition of some sets of writes touches is touched
/// by one of them.
pub proof fn lemma_touched_by_one(ps: Seq<Changes>, p: Seq<u8>)
    requires
        touches(compose_all(ps), p),
    ensures
        exists|j: int| 0 <= j < ps.len() && touches(#[trigger] ps[j], p),
    decreases ps.len(),
{
    if ps.len() == 0 {
        let k = choose|k: Seq<u8>| compose_all(ps).contains_key(k) && p.is_prefix_of(k);
        assert(false);
    } else {
        crate::engine::model::lemma_touches_compose(compose_all(ps.drop_last()), ps.last(), p);
        if touches(ps.last(), p) {
            assert(touches(ps[ps.len() - 1], p));
        } else {
            lemma_touched_by_one(ps.drop_last(), p);
            let j = choose|j: int|
                0 <= j < ps.drop_last().len() && touches(#[trigger] ps.drop_last()[j], p);
            assert(touches(ps[j], p));
        }
    }
}

/// A node above the subtree of the update `i` that was missing at the
/// start is still missing when the updates before `i` have been merged:
/// none of them could have been merged had it touched the node.
pub proof fn lemma_still_missing(
    snapshot: &SnapshotView,
    start: &TrieOverlay,
    now: &TrieOverlay,
    all: Seq<PartialUpdate>,
    i: int,
    a: Seq<u8>,
)
    requires
        0 <= i < all.len(),
        start.wf(),
        disjoint_updates(all, start.state()),
        merged_from(now, start, compose_all(writes_of_updates(all).take(i))),
        forall|j: int|
            0 <= j < i && has_writes((#[trigger] all[j]).writes()) ==> !missing_above(
                snapshot,
                start,
                all[j].prefix(),
                0,
            ),
        crate::engine::merge::on_spine(all[i].prefix(), 0, a),
        crate::engine::model::digest(start.state(), a) is Some,
        !crate::engine::rebuild::present(snapshot, start, a),
    ensures
        missing_above(snapshot, now, all[i].prefix(), 0),
{
    let done = compose_all(writes_of_updates(all).take(i));
    let q = all[i].prefix();
    if touches(done, a) {
        lemma_touched_by_one(writes_of_updates(all).take(i), a);
        let j = choose|j: int|
            0 <= j < i && touches(#[trigger] writes_of_updates(all).take(i)[j], a);
        let w = all[j].writes();
        assert(writes_of_updates(all).take(i)[j] == w);
        let k = choose|k: Seq<u8>| w.contains_key(k) && a.is_prefix_of(k);
        all[j].lemma_wf();
        let qj = all[j].prefix();
        assert(qj.is_prefix_of(k));
        crate::engine::model::lemma_prefixes_are_comparable(a, qj, k);
        assert(apart(all[j].prefix(), all[i].prefix()));
        if qj.is_prefix_of(a) {
            crate::engine::model::lemma_prefix_transitive(qj, a, q);
        } else {
            assert(a.len() < qj.len()) by {
                if a.len() >= qj.len() {
                    assert(qj =~= a.subrange(0, qj.len() as int));
                }
            }
            assert(crate::engine::merge::on_spine(qj, 0, a));
            assert(has_writes(w));
        }
    } else {
        crate::engine::model::lemma_untouched_is_unchanged(start.state(), done, a);
        assert(!now.holds(a));
    }
}

/// A node above `q` that is missing after the writes `done` were merged was
/// missing before: the merge of writes leaves no node missing that it has
/// touched.
pub proof fn lemma_missing_before(
    snapshot: &SnapshotView,
    start: &TrieOverlay,
    now: &TrieOverlay,
    done: Changes,
    q: Seq<u8>,
    a: Seq<u8>,
)
    requires
        start.wf(),
        merged_from(now, start, done),
        crate::engine::merge::on_spine(q, 0, a),
        crate::engine::model::digest(now.state(), a) is Some,
        !crate::engine::rebuild::present(snapshot, now, a),
    ensures
        crate::engine::model::digest(start.state(), a) is Some,
        !crate::engine::rebuild::present(snapshot, start, a),
{
    assert(!now.holds(a));
    assert(!touches(done, a));
    crate::engine::model::lemma_untouched_is_unchanged(start.state(), done, a);
}

} // verus!
