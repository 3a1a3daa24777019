//! The values that the rules work on.

use vstd::prelude::*;

verus! {

/// A 32-byte hash, as two halves.
#[derive(Clone, Copy, Debug, PartialEq, Eq, Structural)]
pub struct B256 {
    /// The first sixteen bytes, big-endian.
    pub hi: u128,
    /// The last sixteen bytes, big-endian.
    pub lo: u128,
}

/// A 20-byte address, as two parts.
#[derive(Clone, Copy, Debug, PartialEq, Eq, Structural)]
pub struct Address {
    /// The first four bytes, big-endian.
    pub hi: u32,
    /// The last sixteen bytes, big-endian.
    pub lo: u128,
}

/// A block by its number or by a tag.
#[derive(Clone, Copy, Debug, PartialEq, Eq)]
pub enum BlockNumberOrTag {
    /// The latest block.
    Latest,
    /// The latest finalized block.
    Finalized,
    /// The latest safe block.
    Safe,
    /// The first block.
    Earliest,
    /// The block that is being built.
    Pending,
    /// The block with this number.
    Number(u64),
}

/// A block by its hash, or by its number or a tag.
#[derive(Clone, Copy, Debug, PartialEq, Eq)]
pub enum BlockId {
    /// The block with this hash.
    Hash {
        /// The hash.
        block_hash: B256,
        /// Whether the block must be canonical.
        require_canonical: Option<bool>,
    },
    /// The block with this number or tag.
    Number(BlockNumberOrTag),
}

impl BlockId {
    /// The block that is being built.
    pub fn pending() -> (id: BlockId)
        ensures
            id == BlockId::Number(BlockNumberOrTag::Pending),
    {
        BlockId::Number(BlockNumberOrTag::Pending)
    }

    /// The latest block.
    pub fn latest() -> (id: BlockId)
        ensures
            id == BlockId::Number(BlockNumberOrTag::Latest),
    {
        BlockId::Number(BlockNumberOrTag::Latest)
    }

    /// The block with the number `n`.
    pub fn number(n: u64) -> (id: BlockId)
        ensures
            id == BlockId::Number(BlockNumberOrTag::Number(n)),
    {
        BlockId::Number(BlockNumberOrTag::Number(n))
    }

    /// The block with the hash `block_hash`, canonical or not.
    pub fn hash(block_hash: B256) -> (id: BlockId)
        ensures
            id == (BlockId::Hash { block_hash, require_canonical: None }),
    {
        BlockId::Hash { block_hash, require_canonical: None }
    }

    /// The hash, where the block is given by one.
    pub open spec fn block_hash(self) -> Option<B256> {
        match self {
            BlockId::Hash { block_hash, .. } => Some(block_hash),
            BlockId::Number(_) => None,
        }
    }

    /// The hash, where the block is given by one.
    pub fn as_block_hash(&self) -> (r: Option<B256>)
        ensures
            r == self.block_hash(),
    {
        match self {
            BlockId::Hash { block_hash, .. } => Some(*block_hash),
            BlockId::Number(_) => None,
        }
    }
}

/// Where a mined transaction lies.
#[derive(Clone, Copy, Debug, PartialEq, Eq)]
pub struct TransactionMeta {
    /// The hash of the transaction.
    pub tx_hash: B256,
    /// Its index in the block.
    pub index: u64,
    /// The hash of the block.
    pub block_hash: B256,
    /// The number of the block.
    pub block_number: u64,
    /// The base fee of the block.
    pub base_fee: Option<u64>,
}

/// What is known of the block around a transaction.
#[derive(Clone, Copy, Debug, PartialEq, Eq)]
pub struct TransactionInfo {
    /// The hash of the transaction.
    pub hash: Option<B256>,
    /// Its index in the block.
    pub index: Option<u64>,
    /// The hash of the block.
    pub block_hash: Option<B256>,
    /// The number of the block.
    pub block_number: Option<u64>,
    /// The base fee of the block.
    pub base_fee: Option<u64>,
}

/// A transaction, and where it was found.
#[derive(Debug, PartialEq, Eq)]
pub enum TransactionSource<T> {
    /// In the pool: it is pending.
    Pool(T),
    /// In a block.
    Block {
        /// The transaction.
        transaction: T,
        /// Its index in the block.
        index: u64,
        /// The hash of the block.
        block_hash: B256,
        /// The number of the block.
        block_number: u64,
        /// The base fee of the block.
        base_fee: Option<u64>,
    },
}

/// Why a transaction method fails.
#[derive(Clone, Copy, Debug, PartialEq, Eq)]
pub enum TxError {
    /// No signer is configured for the account, or the request names none.
    NoAccount,
    /// The block is not there.
    HeaderNotFound(BlockId),
    /// The signer of a mined transaction cannot be recovered.
    InvalidTransactionSignature,
    /// The signed transaction cannot be turned into a pool transaction.
    TransactionConversionError,
    /// The transaction was not seen in a block in time.
    TransactionConfirmationTimeout {
        /// The hash of the transaction.
        hash: B256,
        /// The seconds waited.
        seconds: u64,
    },
}

/// What the rules read of one transaction of a block.
#[derive(Clone, Copy, Debug, PartialEq, Eq)]
pub struct BlockEntry {
    /// The signer of the transaction.
    pub signer: Address,
    /// The hash of the transaction.
    pub hash: B256,
    /// The nonce of the transaction.
    pub nonce: u64,
}

/// What the rules read of a block.
#[derive(Debug, PartialEq, Eq)]
pub struct BlockSummary {
    /// The hash of the block.
    pub hash: B256,
    /// The number of the block.
    pub number: u64,
    /// The base fee of the block.
    pub base_fee: Option<u64>,
    /// The transactions, in the order of the block.
    pub entries: Vec<BlockEntry>,
}

} // verus!
