//! Finding a transaction by its hash or by its place in a block.

use crate::transaction::types::{
    Address, BlockEntry, BlockId, BlockSummary, TransactionInfo, TransactionMeta,
    TransactionSource, TxError, B256,
};
use vstd::prelude::*;

verus! {

/// What comes after the database was asked for a transaction.
pub enum DiskStep<T> {
    /// The lookup has ended: with the transaction, or with an error.
    Done(Result<TransactionSource<T>, TxError>),
    /// The database does not have it: the pool is asked next.
    AskPool,
}

/// What the database's answer means for the lookup of a transaction by its
/// hash. `found` is the mined transaction with its place, if the database
/// has it; the transaction itself is `None` where its signer cannot be
/// recovered. The database is asked first, and the pool only where the
/// database has nothing.
pub fn after_disk<T>(found: Option<(Option<T>, TransactionMeta)>) -> (step: DiskStep<T>)
    ensures
        match found {
            None => step is AskPool,
            Some((None, _)) => step == DiskStep::<T>::Done(
                Err(TxError::InvalidTransactionSignature),
            ),
            Some((Some(tx), meta)) => step == DiskStep::Done(
                Ok(
                    TransactionSource::Block {
                        transaction: tx,
                        index: meta.index,
                        block_hash: meta.block_hash,
                        block_number: meta.block_number,
                        base_fee: meta.base_fee,
                    },
                ),
            ),
        },
{
    match found {
        None => DiskStep::AskPool,
        Some((None, _)) => DiskStep::Done(Err(TxError::InvalidTransactionSignature)),
        Some((Some(tx), meta)) => DiskStep::Done(
            Ok(
                TransactionSource::Block {
                    transaction: tx,
                    index: meta.index,
                    block_hash: meta.block_hash,
                    block_number: meta.block_number,
                    base_fee: meta.base_fee,
                },
            ),
        ),
    }
}

/// What the pool's answer means for the lookup: a transaction of the pool is
/// pending.
pub fn after_pool<T>(found: Option<T>) -> (r: Option<TransactionSource<T>>)
    ensures
        r == match found {
            Some(tx) => Some(TransactionSource::Pool(tx)),
            None => None::<TransactionSource<T>>,
        },
{
    match found {
        Some(tx) => Some(TransactionSource::Pool(tx)),
        None => None,
    }
}

/// What comes after the pool was asked for a raw transaction.
#[derive(Debug, PartialEq, Eq)]
pub enum RawStep {
    /// The pool has it: these are its bytes.
    Done(Vec<u8>),
    /// The pool does not have it: the database is asked next.
    AskProvider,
}

/// What the pool's answer means for the lookup of a raw transaction. Here
/// the pool is asked first, for it is pooled transactions that are mostly
/// asked for; the database is asked only where the pool has nothing.
pub fn after_pool_raw(found: Option<Vec<u8>>) -> (step: RawStep)
    ensures
        step == match found {
            Some(raw) => RawStep::Done(raw),
            None => RawStep::AskProvider,
        },
{
    match found {
        Some(raw) => RawStep::Done(raw),
        None => RawStep::AskProvider,
    }
}

/// The block of a transaction: the pending block for one of the pool, the
/// block with its hash for a mined one.
pub open spec fn block_of<T>(source: TransactionSource<T>) -> BlockId {
    match source {
        TransactionSource::Pool(_) => BlockId::Number(
            crate::transaction::types::BlockNumberOrTag::Pending,
        ),
        TransactionSource::Block { block_hash, .. } => BlockId::Hash {
            block_hash,
            require_canonical: None,
        },
    }
}

/// The block that a found transaction belongs to.
pub fn located_at<T>(source: &TransactionSource<T>) -> (id: BlockId)
    ensures
        id == block_of(*source),
{
    match source {
        TransactionSource::Pool(_) => BlockId::pending(),
        TransactionSource::Block { block_hash, .. } => BlockId::hash(*block_hash),
    }
}

/// A found transaction with the hash of its block: only a mined transaction
/// has one.
pub fn historical<T>(source: TransactionSource<T>, at: BlockId) -> (r: Option<
    (TransactionSource<T>, B256),
>)
    ensures
        r == match at.block_hash() {
            Some(hash) => Some((source, hash)),
            None => None::<(TransactionSource<T>, B256)>,
        },
{
    match at.as_block_hash() {
        Some(hash) => Some((source, hash)),
        None => None,
    }
}

/// The hash of the block to load for a found transaction: none for a
/// pending one.
pub fn block_to_load(at: &BlockId) -> (r: Option<B256>)
    ensures
        r == at.block_hash(),
{
    at.as_block_hash()
}

/// Whether the receipt is to be read: only where the transaction was found.
pub fn needs_receipt<T>(tx: &Option<(T, TransactionMeta)>) -> (r: bool)
    ensures
        r == tx is Some,
{
    tx.is_some()
}

/// A mined transaction with its receipt: there is a result only where both
/// were found.
pub fn join_receipt<T, R>(tx: Option<(T, TransactionMeta)>, receipt: Option<R>) -> (r: Option<
    (T, TransactionMeta, R),
>)
    ensures
        r == match (tx, receipt) {
            (Some((t, meta)), Some(rc)) => Some((t, meta, rc)),
            _ => None::<(T, TransactionMeta, R)>,
        },
{
    match tx {
        Some((t, meta)) => match receipt {
            Some(rc) => Some((t, meta, rc)),
            None => None,
        },
        None => None,
    }
}

/// What is known of the block around the transaction at `index` of `block`.
pub open spec fn info_of(block: BlockSummary, index: int) -> TransactionInfo {
    TransactionInfo {
        hash: Some(block.entries@[index].hash),
        index: Some(index as u64),
        block_hash: Some(block.hash),
        block_number: Some(block.number),
        base_fee: block.base_fee,
    }
}

/// The transaction at `index` of `block` with what is known of the block
/// around it: `None` where the block has no such index.
pub fn info_at(block: &BlockSummary, index: usize) -> (r: Option<(BlockEntry, TransactionInfo)>)
    ensures
        r == if index < block.entries@.len() {
            Some((block.entries@[index as int], info_of(*block, index as int)))
        } else {
            None
        },
{
    if index < block.entries.len() {
        let entry = block.entries[index];
        Some(
            (
                entry,
                TransactionInfo {
                    hash: Some(entry.hash),
                    index: Some(index as u64),
                    block_hash: Some(block.hash),
                    block_number: Some(block.number),
                    base_fee: block.base_fee,
                },
            ),
        )
    } else {
        None
    }
}

/// The entry is the transaction of `sender` with the nonce `nonce`.
pub open spec fn is_sent_by(entry: BlockEntry, sender: Address, nonce: u64) -> bool {
    entry.signer == sender && entry.nonce == nonce
}

/// The first transaction of `block` that `sender` signed with the nonce
/// `nonce`, with its index and what is known of the block around it.
pub fn find_by_sender_and_nonce(block: &BlockSummary, sender: Address, nonce: u64) -> (r: Option<
    (usize, TransactionInfo),
>)
    ensures
        match r {
            Some((i, info)) => {
                &&& i < block.entries@.len()
                &&& is_sent_by(block.entries@[i as int], sender, nonce)
                &&& forall|j: int| 0 <= j < i ==> !is_sent_by(block.entries@[j], sender, nonce)
                &&& info == info_of(*block, i as int)
            },
            None => forall|j: int|
                0 <= j < block.entries@.len() ==> !is_sent_by(block.entries@[j], sender, nonce),
        },
{
    let mut i: usize = 0;
    while i < block.entries.len()
        invariant
            i <= block.entries@.len(),
            forall|j: int| 0 <= j < i ==> !is_sent_by(block.entries@[j], sender, nonce),
        decreases block.entries.len() - i,
    {
        let entry = block.entries[i];
        if entry.signer == sender && entry.nonce == nonce {
            return Some(
                (
                    i,
                    TransactionInfo {
                        hash: Some(entry.hash),
                        index: Some(i as u64),
                        block_hash: Some(block.hash),
                        block_number: Some(block.number),
                        base_fee: block.base_fee,
                    },
                ),
            );
        }
        i += 1;
    }
    None
}

/// The transaction of `sender` with the nonce `nonce` in the block that the
/// search has led to: `HeaderNotFound` for that block where the block is
/// not there or does not hold the transaction.
pub fn found_in_block(block: Option<&BlockSummary>, id: BlockId, sender: Address, nonce: u64) -> (r:
    Result<(usize, TransactionInfo), TxError>)
    ensures
        match r {
            Ok((i, info)) => {
                &&& block matches Some(b)
                &&& i < b.entries@.len()
                &&& is_sent_by(b.entries@[i as int], sender, nonce)
                &&& forall|j: int| 0 <= j < i ==> !is_sent_by(b.entries@[j], sender, nonce)
                &&& info == info_of(*b, i as int)
            },
            Err(e) => {
                &&& e == TxError::HeaderNotFound(id)
                &&& block matches Some(b) ==> forall|j: int|
                    0 <= j < b.entries@.len() ==> !is_sent_by(b.entries@[j], sender, nonce)
            },
        },
{
    match block {
        Some(b) => match find_by_sender_and_nonce(b, sender, nonce) {
            Some(hit) => Ok(hit),
            None => Err(TxError::HeaderNotFound(id)),
        },
        None => Err(TxError::HeaderNotFound(id)),
    }
}

/// The index of the first signer that signs for the account: `flags` tells
/// of each configured signer whether it does. Without one there is no
/// account to sign with.
pub fn find_signer(flags: &Vec<bool>) -> (r: Result<usize, TxError>)
    ensures
        match r {
            Ok(i) => i < flags@.len() && flags@[i as int] && forall|j: int|
                0 <= j < i ==> !flags@[j],
            Err(e) => e == TxError::NoAccount && forall|j: int| 0 <= j < flags@.len() ==> !flags@[j],
        },
{
    let mut i: usize = 0;
    while i < flags.len()
        invariant
            i <= flags@.len(),
            forall|j: int| 0 <= j < i ==> !flags@[j],
        decreases flags.len() - i,
    {
        if flags[i] {
            return Ok(i);
        }
        i += 1;
    }
    Err(TxError::NoAccount)
}

} // verus!
