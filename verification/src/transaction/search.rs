//! The search for the block in which a sender's nonce was used.
//!
//! Whoever drives the search asks the node what a step names and hands the
//! answer back; the steps themselves take no time and read nothing.

use crate::transaction::lookup::{found_in_block, info_of, is_sent_by};
use crate::transaction::types::{Address, BlockId, BlockSummary, TransactionInfo, TxError};
use vstd::prelude::*;

verus! {

/// A binary search over block numbers, one probe at a time.
#[derive(Clone, Copy, Debug, PartialEq, Eq)]
pub struct BinarySearch {
    /// The lowest number still in question.
    pub low: u64,
    /// The highest number still in question.
    pub high: u64,
    /// The lowest number found to pass so far, or the upper end.
    pub num: u64,
    /// Whether the search has ended.
    pub done: bool,
}

impl BinarySearch {
    /// Whether the search has ended: no number is in question any more.
    pub open spec fn finished(self) -> bool {
        self.done || self.low > self.high
    }

    /// The number to probe next.
    pub open spec fn middle(self) -> u64 {
        (self.low + (self.high - self.low) / 2) as u64
    }

    /// The search after the probe of `middle` has passed (`hit`) or not.
    pub open spec fn after(self, hit: bool) -> BinarySearch {
        let mid = self.middle();
        if hit {
            if mid == 0 {
                BinarySearch { low: self.low, high: self.high, num: mid, done: true }
            } else {
                BinarySearch { low: self.low, high: (mid - 1) as u64, num: mid, done: self.done }
            }
        } else {
            if mid == u64::MAX {
                BinarySearch { low: self.low, high: self.high, num: self.num, done: true }
            } else {
                BinarySearch { low: (mid + 1) as u64, high: self.high, num: self.num, done: self.done }
            }
        }
    }

    /// A search over the numbers from `low` to `high`.
    pub fn new(low: u64, high: u64) -> (s: BinarySearch)
        ensures
            s == (BinarySearch { low, high, num: high, done: false }),
    {
        BinarySearch { low, high, num: high, done: false }
    }

    /// The number to probe next, or `None` where the search has ended.
    pub fn probe(&self) -> (r: Option<u64>)
        ensures
            r == if self.finished() {
                None
            } else {
                Some(self.middle())
            },
            r matches Some(mid) ==> self.low <= mid <= self.high,
    {
        if self.done || self.low > self.high {
            None
        } else {
            Some(self.low + (self.high - self.low) / 2)
        }
    }

    /// Takes the answer to the probe.
    pub fn answer(&mut self, hit: bool)
        requires
            !old(self).finished(),
        ensures
            *final(self) == old(self).after(hit),
            final(self).finished() || final(self).high - final(self).low < old(self).high - old(
                self,
            ).low,
    {
        let mid = self.low + (self.high - self.low) / 2;
        if hit {
            self.num = mid;
            if mid == 0 {
                self.done = true;
            } else {
                self.high = mid - 1;
            }
        } else {
            if mid == u64::MAX {
                self.done = true;
            } else {
                self.low = mid + 1;
            }
        }
    }

    /// The result: the lowest number found to pass, or the upper end where
    /// none passed.
    pub fn result(&self) -> (r: u64)
        ensures
            r == self.num,
    {
        self.num
    }
}

/// Once the test passes, it passes for every higher number.
pub open spec fn monotone(test: spec_fn(u64) -> bool) -> bool {
    forall|x: u64, y: u64| x <= y && #[trigger] test(x) ==> #[trigger] test(y)
}

/// What the search knows, for a test over the numbers from `low` to `high`:
/// below what is in question the test fails, above it passes, and the
/// number found is the lowest that is known to pass.
pub open spec fn brackets(s: BinarySearch, test: spec_fn(u64) -> bool, low: u64, high: u64)
    -> bool {
    &&& low <= s.low
    &&& s.high <= high
    &&& low <= s.high + 1
    &&& forall|x: u64| low <= x < s.low ==> !#[trigger] test(x)
    &&& forall|x: u64| s.high < x <= high ==> #[trigger] test(x)
    &&& if s.done {
        (s.num == 0 && test(0) && low == 0) || (s.num == high && high == u64::MAX && forall|x: u64|
            low <= x <= high ==> !#[trigger] test(x))
    } else {
        (s.num == high && s.high == high) || (s.num == s.high + 1 && s.high < high && test(
            s.num,
        ))
    }
}

/// A new search knows nothing yet, which is in order.
pub proof fn lemma_search_begins(test: spec_fn(u64) -> bool, low: u64, high: u64)
    requires
        low <= high,
    ensures
        brackets(BinarySearch { low, high, num: high, done: false }, test, low, high),
{
}

/// A truthful answer keeps the search in order.
pub proof fn lemma_search_step(s: BinarySearch, test: spec_fn(u64) -> bool, low: u64, high: u64)
    requires
        monotone(test),
        brackets(s, test, low, high),
        !s.finished(),
    ensures
        brackets(s.after(test(s.middle())), test, low, high),
{
    let mid = s.middle();
    let next = s.after(test(mid));
    if test(mid) {
        assert forall|x: u64| mid <= x <= high implies #[trigger] test(x) by {
            assert(test(mid));
        }
    } else {
        assert forall|x: u64| low <= x <= mid implies !#[trigger] test(x) by {
            if test(x) {
                assert(test(mid));
            }
        }
    }
}

/// At its end the search has found the lowest number from `low` to `high`
/// that passes the test, or the upper end where none passes.
pub proof fn lemma_search_ends(s: BinarySearch, test: spec_fn(u64) -> bool, low: u64, high: u64)
    requires
        low <= high,
        brackets(s, test, low, high),
        s.finished(),
    ensures
        if exists|x: u64| low <= x <= high && #[trigger] test(x) {
            &&& low <= s.num <= high
            &&& test(s.num)
            &&& forall|x: u64| low <= x < s.num ==> !#[trigger] test(x)
        } else {
            s.num == high
        },
{
    if !s.done {
        if s.num == high && s.high == high {
            assert forall|x: u64| low <= x <= high implies !#[trigger] test(x) by {
            }
        } else {
            assert(test(s.num));
            if s.num < s.low {
                assert(!test(s.num));
            }
        }
    } else if s.num == 0 && test(0) && low == 0 {
        assert(low <= 0u64 <= high && test(0u64));
    }
}

/// What the search for a transaction asks of the node.
#[derive(Clone, Copy, Debug, PartialEq, Eq)]
pub enum Ask {
    /// The pool's transaction of the sender with the nonce.
    Pool,
    /// The code of the sender's account at the latest block.
    Code,
    /// The sender's transaction count at the latest block.
    LatestCount,
    /// The number of the best block.
    BestBlock,
    /// The sender's transaction count at a block.
    CountAt(u64),
    /// A block with its signers.
    Block(u64),
}

/// Where the search for a transaction has ended.
#[derive(Clone, Copy, Debug, PartialEq, Eq)]
pub enum Outcome {
    /// The transaction is in the pool.
    Pending,
    /// There is no such transaction: the sender is a contract, or has not
    /// used the nonce yet.
    Nothing,
    /// The transaction was mined: in this block, at this index.
    Mined {
        /// The number of the block.
        block: u64,
        /// The index in the block.
        index: usize,
        /// What is known of the block around it.
        info: TransactionInfo,
    },
    /// The search has failed.
    Failed(TxError),
}

/// What comes next in the search.
#[derive(Clone, Copy, Debug, PartialEq, Eq)]
pub enum Step {
    /// The node is asked.
    Ask(Ask),
    /// The search has ended.
    Done(Outcome),
}

/// The first question: the pool where pending transactions count, else the
/// sender's code.
pub fn first_ask(include_pending: bool) -> (r: Ask)
    ensures
        r == if include_pending {
            Ask::Pool
        } else {
            Ask::Code
        },
{
    if include_pending {
        Ask::Pool
    } else {
        Ask::Code
    }
}

/// After the pool: a transaction of the pool ends the search; else the
/// sender's code is asked for.
pub fn after_pool_lookup(found: bool) -> (r: Step)
    ensures
        r == if found {
            Step::Done(Outcome::Pending)
        } else {
            Step::Ask(Ask::Code)
        },
{
    if found {
        Step::Done(Outcome::Pending)
    } else {
        Step::Ask(Ask::Code)
    }
}

/// After the code: a contract sends no transactions; for any other sender
/// the latest transaction count is asked for.
pub fn after_code(code_len: usize) -> (r: Step)
    ensures
        r == if code_len > 0 {
            Step::Done(Outcome::Nothing)
        } else {
            Step::Ask(Ask::LatestCount)
        },
{
    if code_len > 0 {
        Step::Done(Outcome::Nothing)
    } else {
        Step::Ask(Ask::LatestCount)
    }
}

/// After the latest count: a nonce that is not below it has not been mined;
/// else the best block is asked for.
pub fn after_latest_count(nonce: u64, highest: u64) -> (r: Step)
    ensures
        r == if nonce >= highest {
            Step::Done(Outcome::Nothing)
        } else {
            Step::Ask(Ask::BestBlock)
        },
{
    if nonce >= highest {
        Step::Done(Outcome::Nothing)
    } else {
        Step::Ask(Ask::BestBlock)
    }
}

/// After the best block: the blocks from the first to the best are
/// searched; without a best block the latest header is not to be found.
pub fn after_best_block(best: Option<u64>) -> (r: Result<BinarySearch, TxError>)
    ensures
        r == match best {
            Some(high) => Ok::<BinarySearch, TxError>(
                BinarySearch { low: 1, high, num: high, done: false },
            ),
            None => Err::<BinarySearch, TxError>(
                TxError::HeaderNotFound(
                    BlockId::Number(crate::transaction::types::BlockNumberOrTag::Latest),
                ),
            ),
        },
{
    match best {
        Some(high) => Ok(BinarySearch::new(1, high)),
        None => Err(TxError::HeaderNotFound(BlockId::latest())),
    }
}

/// What the search asks next: the count at the block to probe, or the block
/// that it has settled on.
pub fn next_ask(search: &BinarySearch) -> (r: Ask)
    ensures
        r == if search.finished() {
            Ask::Block(search.num)
        } else {
            Ask::CountAt(search.middle())
        },
{
    match search.probe() {
        Some(mid) => Ask::CountAt(mid),
        None => Ask::Block(search.result()),
    }
}

/// Takes the sender's transaction count at the probed block: the probe
/// passes where the count exceeds the nonce, for then the nonce was used in
/// that block or before.
pub fn after_count_at(search: &mut BinarySearch, nonce: u64, count: u64)
    requires
        !old(search).finished(),
    ensures
        *final(search) == old(search).after(count > nonce),
{
    search.answer(count > nonce);
}

/// After the block: the sender's transaction with the nonce, or
/// `HeaderNotFound` for the block where it is not there.
pub fn after_block(block: Option<&BlockSummary>, number: u64, sender: Address, nonce: u64) -> (r:
    Outcome)
    ensures
        match r {
            Outcome::Mined { block: n, index, info } => {
                &&& n == number
                &&& block matches Some(b)
                &&& index < b.entries@.len()
                &&& is_sent_by(b.entries@[index as int], sender, nonce)
                &&& forall|j: int| 0 <= j < index ==> !is_sent_by(b.entries@[j], sender, nonce)
                &&& info == info_of(*b, index as int)
            },
            Outcome::Failed(e) => {
                &&& e == TxError::HeaderNotFound(
                    BlockId::Number(crate::transaction::types::BlockNumberOrTag::Number(number)),
                )
                &&& block matches Some(b) ==> forall|j: int|
                    0 <= j < b.entries@.len() ==> !is_sent_by(b.entries@[j], sender, nonce)
            },
            _ => false,
        },
{
    match found_in_block(block, BlockId::number(number), sender, nonce) {
        Ok((index, info)) => Outcome::Mined { block: number, index, info },
        Err(e) => Outcome::Failed(e),
    }
}

} // verus!
