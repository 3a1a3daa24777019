//! Bytecode without the data of its pushes, and how often each run of up to
//! four opcodes occurs in it.

use crate::engine::bytes::{copy_bytes, each_view};
use crate::engine::pathmap::PathMap;
use crate::opcodes::{decimal, line_of, mnemonic, opcode_name, push_decimal, PUSH1, PUSH32};
use std::collections::VecDeque;
use vstd::prelude::*;

verus! {

/// The bytes of `code` from index `from` on, without the first `skip` of
/// them and without the bytes that a push carries.
pub open spec fn without_push_data(code: Seq<u8>, from: int, skip: nat) -> Seq<u8>
    decreases
            (if from < code.len() {
                code.len() - from
            } else {
                0
            }),
{
    if from < 0 || from >= code.len() {
        Seq::empty()
    } else if skip > 0 {
        without_push_data(code, from + 1, (skip - 1) as nat)
    } else {
        let op = code[from];
        let carried: nat = if PUSH1 <= op <= PUSH32 {
            (op - PUSH1 + 1) as nat
        } else {
            0
        };
        seq![op] + without_push_data(code, from + 1, carried)
    }
}

/// Takes bytecode bytes and returns filtered bytes without `PUSH` data
pub fn filter_bytecode_bytes(bytes: &Vec<u8>) -> (r: Vec<u8>)
    ensures
        r@ == without_push_data(bytes@, 0, 0),
{
    let mut out: Vec<u8> = Vec::new();
    let mut push_data_to_skip: usize = 0;
    let mut i: usize = 0;
    while i < bytes.len()
        invariant
            i <= bytes.len(),
            push_data_to_skip <= 32,
            out@ + without_push_data(bytes@, i as int, push_data_to_skip as nat)
                == without_push_data(bytes@, 0, 0),
        decreases bytes.len() - i,
    {
        let op = bytes[i];
        let ghost before = out@;
        if push_data_to_skip > 0 {
            push_data_to_skip -= 1;
        } else {
            if PUSH1 <= op && op <= PUSH32 {
                push_data_to_skip = (op - PUSH1) as usize + 1;
            }
            out.push(op);
            assert(out@ + without_push_data(bytes@, i + 1, push_data_to_skip as nat) =~= before + (
            seq![op] + without_push_data(bytes@, i + 1, push_data_to_skip as nat)));
        }
        i += 1;
    }
    assert(out@ + Seq::<u8>::empty() =~= out@);
    out
}

/// The last opcodes seen, up to a fixed number of them.
pub struct FixedQueue {
    inner: VecDeque<u8>,
    capacity: usize,
}

impl View for FixedQueue {
    type V = Seq<u8>;

    closed spec fn view(&self) -> Seq<u8> {
        self.inner@
    }
}

impl FixedQueue {
    /// The number of opcodes from which the oldest leaves for a new one.
    pub closed spec fn capacity(&self) -> usize {
        self.capacity
    }

    /// The queue after `value` has come in: where the queue was full, its
    /// oldest opcode has left.
    pub open spec fn after_insert(q: Seq<u8>, capacity: usize, value: u8) -> Seq<u8> {
        if q.len() >= capacity && q.len() > 0 {
            q.skip(1).push(value)
        } else {
            q.push(value)
        }
    }

    /// An empty queue.
    pub fn new(capacity: usize) -> (q: FixedQueue)
        ensures
            q@ == Seq::<u8>::empty(),
            q.capacity() == capacity,
    {
        FixedQueue { inner: VecDeque::new(), capacity }
    }

    /// The number of opcodes in the queue.
    pub fn len(&self) -> (n: usize)
        ensures
            n == self@.len(),
    {
        self.inner.len()
    }

    /// The `i`-th opcode of the queue, the oldest first.
    pub fn get(&self, i: usize) -> (r: u8)
        requires
            i < self@.len(),
        ensures
            r == self@[i as int],
    {
        self.inner[i]
    }

    /// Takes in `value`; where the queue is full, the oldest opcode leaves.
    pub fn insert(&mut self, value: u8)
        requires
            old(self)@.len() < usize::MAX,
        ensures
            final(self).capacity() == old(self).capacity(),
            final(self)@ == FixedQueue::after_insert(old(self)@, old(self).capacity(), value),
    {
        if self.inner.len() >= self.capacity {
            let _ = self.inner.pop_front();
        }
        self.inner.push_back(value);
        assert(self@ =~= FixedQueue::after_insert(old(self)@, old(self).capacity(), value));
    }

    /// The last two opcodes.
    pub fn as_tuple(&self) -> (r: Option<(u8, u8)>)
        ensures
            r == if self@.len() < 2 {
                None
            } else {
                Some((self@[self@.len() - 2], self@[self@.len() - 1]))
            },
    {
        let n = self.inner.len();
        if n < 2 {
            return None;
        }
        Some((self.inner[n - 2], self.inner[n - 1]))
    }

    /// The last three opcodes.
    pub fn as_triplet(&self) -> (r: Option<(u8, u8, u8)>)
        ensures
            r == if self@.len() < 3 {
                None
            } else {
                Some((self@[self@.len() - 3], self@[self@.len() - 2], self@[self@.len() - 1]))
            },
    {
        let n = self.inner.len();
        if n < 3 {
            return None;
        }
        Some((self.inner[n - 3], self.inner[n - 2], self.inner[n - 1]))
    }

    /// The first four opcodes.
    pub fn as_quadruplet(&self) -> (r: Option<(u8, u8, u8, u8)>)
        ensures
            r == if self@.len() < 4 {
                None
            } else {
                Some((self@[0], self@[1], self@[2], self@[3]))
            },
    {
        if self.inner.len() < 4 {
            return None;
        }
        Some((self.inner[0], self.inner[1], self.inner[2], self.inner[3]))
    }

    /// The last `k` opcodes.
    pub fn last(&self, k: usize) -> (r: Vec<u8>)
        requires
            k <= self@.len(),
        ensures
            r@ == self@.skip(self@.len() - k),
    {
        let n = self.inner.len();
        let mut r: Vec<u8> = Vec::new();
        let mut i: usize = n - k;
        while i < n
            invariant
                k <= n,
                n - k <= i <= n,
                n == self@.len(),
                r@ == self@.subrange(n - k, i as int),
            decreases n - i,
        {
            r.push(self.inner[i]);
            i += 1;
            assert(self@.subrange(n - k, i as int) == self@.subrange(n - k, i - 1).push(
                self@[i - 1],
            ));
        }
        assert(self@.subrange(n - k, n as int) == self@.skip(n - k));
        r
    }
}

/// How often `pattern` occurs in `seen` as a run of neighbours.
pub open spec fn windows(seen: Seq<u8>, pattern: Seq<u8>) -> nat
    decreases seen.len(),
{
    if pattern.len() == 0 || seen.len() < pattern.len() {
        0
    } else {
        let hit: nat = if seen.skip(seen.len() - pattern.len()) == pattern {
            1
        } else {
            0
        };
        windows(seen.drop_last(), pattern) + hit
    }
}

/// The last `k` of `seen`, or all of it where it is shorter.
pub open spec fn tail(seen: Seq<u8>, k: int) -> Seq<u8> {
    if seen.len() <= k {
        seen
    } else {
        seen.skip(seen.len() - k)
    }
}

/// The runs of `k` opcodes among `runs`, in their order.
pub open spec fn of_length(runs: Seq<Seq<u8>>, k: nat) -> Seq<Seq<u8>>
    decreases runs.len(),
{
    if runs.len() == 0 {
        Seq::empty()
    } else if runs.last().len() == k {
        of_length(runs.drop_last(), k).push(runs.last())
    } else {
        of_length(runs.drop_last(), k)
    }
}

/// The names of the first `n` opcodes of `run`, with a space between each
/// two: `None` where one of them is not defined.
pub open spec fn names(run: Seq<u8>, n: nat) -> Option<Seq<char>>
    decreases n,
{
    if n == 0 {
        Some(Seq::empty())
    } else {
        match (names(run, (n - 1) as nat), opcode_name(run[n - 1])) {
            (Some(front), Some(name)) => Some(
                if n == 1 {
                    name
                } else {
                    front + seq![' '] + name
                },
            ),
            _ => None,
        }
    }
}

/// The line of the report for a run counted `n` times. A single opcode
/// that is not defined is shown by its number; a longer run with such an
/// opcode has no line.
pub open spec fn run_line_of(run: Seq<u8>, n: nat) -> Option<Seq<char>> {
    if run.len() == 1 {
        Some(line_of(opcode_name(run[0]), run[0], n))
    } else {
        match names(run, run.len()) {
            Some(text) => Some(text + seq![':', ' '] + decimal(n)),
            None => None,
        }
    }
}

/// The line of the report for the run `run`, counted `n` times.
pub fn run_line(run: &Vec<u8>, n: usize) -> (r: Option<String>)
    ensures
        crate::help::pattern::text_of(r) == run_line_of(run@, n as nat),
{
    if run.len() == 1 {
        return Some(crate::opcodes::report_line(mnemonic(run[0]), run[0], n));
    }
    let mut out = String::new();
    let mut i: usize = 0;
    while i < run.len()
        invariant
            i <= run.len(),
            run.len() != 1,
            names(run@, i as nat) == Some(out@),
        decreases run.len() - i,
    {
        match mnemonic(run[i]) {
            Some(name) => {
                let ghost front = out@;
                if i > 0 {
                    out.push(' ');
                    vstd::string::StringExecFns::append(&mut out, name.as_str());
                    assert(out@ =~= front + seq![' '] + name@);
                } else {
                    vstd::string::StringExecFns::append(&mut out, name.as_str());
                    assert(out@ =~= name@);
                }
            },
            None => {
                proof {
                    assert(names(run@, (i + 1) as nat) is None);
                    lemma_names_stay_none(run@, (i + 1) as nat, run@.len());
                }
                return None;
            },
        }
        i += 1;
    }
    let ghost text = out@;
    out.push(':');
    out.push(' ');
    assert(out@ =~= text + seq![':', ' ']);
    push_decimal(&mut out, n);
    Some(out)
}

/// Once the names fail for a front of the run, they fail for every longer
/// front.
pub proof fn lemma_names_stay_none(run: Seq<u8>, n: nat, m: nat)
    requires
        n <= m,
        names(run, n) is None,
    ensures
        names(run, m) is None,
    decreases m,
{
    if n < m {
        lemma_names_stay_none(run, n, (m - 1) as nat);
    }
}

/// The runs `rs`, and after them the last `k` of `seen` where `seen` has
/// as many and the run is new.
pub open spec fn add_run(rs: Seq<Seq<u8>>, seen: Seq<u8>, k: int) -> Seq<Seq<u8>> {
    if seen.len() < k {
        rs
    } else {
        let p = seen.skip(seen.len() - k);
        if rs.contains(p) {
            rs
        } else {
            rs.push(p)
        }
    }
}

/// The runs of one to four opcodes that occur in `seen`, each once, in the
/// order in which they are first complete; of the runs that an opcode
/// completes, the shorter come first.
pub open spec fn runs_of(seen: Seq<u8>) -> Seq<Seq<u8>>
    decreases seen.len(),
{
    if seen.len() == 0 {
        Seq::empty()
    } else {
        add_run(
            add_run(add_run(add_run(runs_of(seen.drop_last()), seen, 1), seen, 2), seen, 3),
            seen,
            4,
        )
    }
}

/// The count that `m` holds for `pattern`: zero where it holds none.
pub open spec fn count_in(m: Map<Seq<u8>, usize>, pattern: Seq<u8>) -> nat {
    if m.contains_key(pattern) {
        m[pattern] as nat
    } else {
        0
    }
}

/// How often each run of one, two, three and four opcodes has occurred in
/// the opcodes seen.
pub struct OpCodeCounter {
    counts: PathMap<usize>,
    previous_opcodes: FixedQueue,
    total: usize,
    seen: Ghost<Seq<u8>>,
}

impl OpCodeCounter {
    /// All the opcodes seen, in order.
    pub closed spec fn seen(&self) -> Seq<u8> {
        self.seen@
    }

    /// How often the run `pattern` was counted.
    pub closed spec fn count(&self, pattern: Seq<u8>) -> nat {
        count_in(self.counts.map(), pattern)
    }

    /// The counts are those of the opcodes seen.
    pub closed spec fn wf(&self) -> bool {
        &&& self.counts.wf()
        &&& self.previous_opcodes.capacity() == 4
        &&& self.previous_opcodes@ == tail(self.seen@, 4)
        &&& self.total == self.seen@.len()
        &&& self.counts.paths() == runs_of(self.seen@)
        &&& forall|p: Seq<u8>| #[trigger]
            self.counts.map().contains_key(p) ==> 1 <= p.len() <= 4 && 1 <= self.counts.map()[p]
                <= self.total
        &&& forall|p: Seq<u8>|
            1 <= p.len() <= 4 ==> #[trigger] count_in(self.counts.map(), p) == windows(
                self.seen@,
                p,
            )
    }

    /// The counted runs are the runs of one to four opcodes that occur in
    /// the opcodes seen, each listed once.
    pub proof fn lemma_runs(&self)
        requires
            self.wf(),
        ensures
            self.runs() == runs_of(self.seen()),
            self.runs().no_duplicates(),
            forall|p: Seq<u8>|
                self.runs().contains(p) <==> 1 <= p.len() <= 4 && windows(self.seen(), p) > 0,
    {
        self.counts.lemma_listing();
        assert forall|p: Seq<u8>|
            self.runs().contains(p) <==> 1 <= p.len() <= 4 && windows(self.seen(), p) > 0 by {
            if self.runs().contains(p) {
                let i = choose|i: int| 0 <= i < self.runs().len() && self.runs()[i] == p;
                assert(self.counts.map().contains_key(self.counts.paths()[i]));
                assert(count_in(self.counts.map(), p) == windows(self.seen@, p));
            }
            if 1 <= p.len() <= 4 && windows(self.seen(), p) > 0 {
                assert(count_in(self.counts.map(), p) == windows(self.seen@, p));
                assert(self.counts.map().contains_key(p));
                let i = choose|i: int|
                    0 <= i < self.counts.paths().len() && #[trigger] self.counts.paths()[i] == p;
                assert(self.runs()[i] == p);
            }
        }
    }

    /// Each count is the number of times that the run occurs in the opcodes
    /// seen.
    pub proof fn lemma_counts(&self, pattern: Seq<u8>)
        requires
            self.wf(),
            1 <= pattern.len() <= 4,
        ensures
            self.count(pattern) == windows(self.seen(), pattern),
    {
    }

    /// Nothing seen.
    pub fn new() -> (c: OpCodeCounter)
        ensures
            c.wf(),
            c.seen() == Seq::<u8>::empty(),
    {
        let c = OpCodeCounter {
            counts: PathMap::new(),
            previous_opcodes: FixedQueue::new(4),
            total: 0,
            seen: Ghost(Seq::empty()),
        };
        assert(c.counts.paths() =~= runs_of(c.seen@));
        c
    }

    /// How often the run `pattern` was counted.
    pub fn get(&self, pattern: &Vec<u8>) -> (n: usize)
        requires
            self.wf(),
        ensures
            n == self.count(pattern@),
    {
        match self.counts.get(pattern) {
            Some(n) => *n,
            None => 0,
        }
    }

    /// How many opcodes were seen.
    pub fn len(&self) -> (n: usize)
        requires
            self.wf(),
        ensures
            n == self.seen().len(),
    {
        self.total
    }

    /// Takes in one opcode: the runs that end with it are counted.
    pub fn increment(&mut self, opcode: u8)
        requires
            old(self).wf(),
            old(self).seen().len() < usize::MAX,
        ensures
            final(self).wf(),
            final(self).seen() == old(self).seen().push(opcode),
    {
        let ghost before = self.seen@;
        let ghost now = before.push(opcode);
        self.previous_opcodes.insert(opcode);
        self.total = self.total + 1;
        self.seen = Ghost(now);
        assert(self.previous_opcodes@ =~= tail(now, 4));
        let held = self.previous_opcodes.len();
        let mut k: usize = 1;
        let ghost r0 = runs_of(before);
        let ghost r1 = add_run(r0, now, 1);
        let ghost r2 = add_run(r1, now, 2);
        let ghost r3 = add_run(r2, now, 3);
        let ghost r4 = add_run(r3, now, 4);
        proof {
            assert(now.drop_last() =~= before);
            assert(runs_of(now) == r4);
        }
        while k <= 4
            invariant
                1 <= k <= 5,
                r1 == add_run(r0, now, 1),
                r2 == add_run(r1, now, 2),
                r3 == add_run(r2, now, 3),
                r4 == add_run(r3, now, 4),
                self.counts.paths() == (if k == 1 {
                    r0
                } else if k == 2 {
                    r1
                } else if k == 3 {
                    r2
                } else if k == 4 {
                    r3
                } else {
                    r4
                }),
                now == before.push(opcode),
                self.seen@ == now,
                self.total == now.len(),
                held == self.previous_opcodes@.len(),
                self.previous_opcodes@ == tail(now, 4),
                self.previous_opcodes.capacity() == 4,
                self.counts.wf(),
                forall|p: Seq<u8>| #[trigger]
                    self.counts.map().contains_key(p) ==> 1 <= p.len() <= 4 && 1
                        <= self.counts.map()[p] <= self.total,
                forall|p: Seq<u8>|
                    1 <= p.len() < k ==> #[trigger] count_in(self.counts.map(), p) == windows(
                        now,
                        p,
                    ),
                forall|p: Seq<u8>|
                    k <= p.len() <= 4 ==> #[trigger] count_in(self.counts.map(), p) == windows(
                        before,
                        p,
                    ),
                forall|p: Seq<u8>|
                    k <= p.len() <= 4 && #[trigger] self.counts.map().contains_key(p)
                        ==> self.counts.map()[p] < self.total,
            decreases 5 - k,
        {
            let ghost m = self.counts.map();
            let ghost listed = self.counts.paths();
            proof {
                self.counts.lemma_listing();
            }
            if k <= held {
                let key = self.previous_opcodes.last(k);
                assert(key@ =~= now.skip(now.len() - k));
                assert(listed.contains(key@) == m.contains_key(key@)) by {
                    if m.contains_key(key@) {
                        let i = choose|i: int| 0 <= i < listed.len() && #[trigger] listed[i] == key@;
                    }
                    if listed.contains(key@) {
                        let i = choose|i: int| 0 <= i < listed.len() && listed[i] == key@;
                        assert(m.contains_key(listed[i]));
                    }
                }
                let n = match self.counts.get(&key) {
                    Some(n) => *n,
                    None => 0,
                };
                self.counts.insert(copy_bytes(&key), n + 1);
                proof {
                    assert(now.drop_last() =~= before);
                    assert forall|p: Seq<u8>| p.len() == k implies #[trigger] count_in(
                        self.counts.map(),
                        p,
                    ) == windows(now, p) by {
                        assert(count_in(m, p) == windows(before, p));
                    }
                    assert forall|p: Seq<u8>| p.len() != k implies #[trigger] count_in(
                        self.counts.map(),
                        p,
                    ) == count_in(m, p) by {
                    }
                }
            } else {
                proof {
                    assert(now.len() < k) by {
                        assert(held == tail(now, 4).len());
                    }
                    assert forall|p: Seq<u8>| p.len() == k implies #[trigger] count_in(
                        self.counts.map(),
                        p,
                    ) == windows(now, p) by {
                        assert(count_in(m, p) == windows(before, p));
                    }
                }
            }
            k += 1;
        }
    }

    /// The runs that were counted, in the order in which each occurred
    /// first.
    pub closed spec fn runs(&self) -> Seq<Seq<u8>> {
        self.counts.paths()
    }

    /// The counted runs of `k` opcodes, in the order in which each occurred
    /// first.
    pub fn runs_of_length(&self, k: usize) -> (r: Vec<Vec<u8>>)
        requires
            self.wf(),
        ensures
            each_view(r@) == of_length(self.runs(), k as nat),
    {
        let mut r: Vec<Vec<u8>> = Vec::new();
        let n = self.counts.len();
        let mut i: usize = 0;
        assert(each_view(r@) =~= of_length(self.runs().take(0), k as nat));
        while i < n
            invariant
                i <= n,
                n == self.counts.paths().len(),
                self.counts.wf(),
                each_view(r@) == of_length(
                    self.runs().take(i as int),
                    k as nat,
                ),
            decreases n - i,
        {
            let run = self.counts.path_at(i);
            let ghost before = each_view(r@);
            proof {
                let now = self.runs().take(i + 1);
                assert(now.drop_last() == self.runs().take(i as int));
                assert(now.last() == run@);
            }
            if run.len() == k {
                r.push(copy_bytes(run));
                assert(each_view(r@) =~= before + seq![run@]);
            } else {
                assert(before + Seq::<Seq<u8>>::empty() =~= before);
            }
            i += 1;
        }
        assert(self.runs().take(n as int) == self.runs());
        r
    }

    /// Takes in the opcodes of `bytes`, one by one.
    pub fn count_sequences(&mut self, bytes: &Vec<u8>)
        requires
            old(self).wf(),
            old(self).seen().len() + bytes@.len() <= usize::MAX,
        ensures
            final(self).wf(),
            final(self).seen() == old(self).seen() + bytes@,
    {
        let mut i: usize = 0;
        assert(old(self).seen() + bytes@.take(0) =~= old(self).seen());
        while i < bytes.len()
            invariant
                i <= bytes.len(),
                self.wf(),
                old(self).seen().len() + bytes@.len() <= usize::MAX,
                self.seen() == old(self).seen() + bytes@.take(i as int),
            decreases bytes.len() - i,
        {
            self.increment(bytes[i]);
            assert(bytes@.take(i + 1) == bytes@.take(i as int).push(bytes@[i as int]));
            assert(self.seen() =~= old(self).seen() + bytes@.take(i + 1));
            i += 1;
        }
        assert(bytes@.take(bytes@.len() as int) == bytes@);
    }
}

} // verus!
