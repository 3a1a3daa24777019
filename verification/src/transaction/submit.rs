//! Submitting a transaction: what a request is filled with before it is
//! signed, and the wait for a submitted transaction to be mined.

use crate::transaction::types::{Address, TxError, B256};
use vstd::prelude::*;

verus! {

/// What the rules read and set of a transaction request.
#[derive(Clone, Copy, Debug, PartialEq, Eq)]
pub struct TxRequest {
    /// The sender.
    pub from: Option<Address>,
    /// The nonce.
    pub nonce: Option<u64>,
    /// The chain.
    pub chain_id: Option<u64>,
    /// The gas limit.
    pub gas_limit: Option<u64>,
}

/// The sender of a request: a request without one names no account.
pub fn sender_of(request: &TxRequest) -> (r: Result<Address, TxError>)
    ensures
        r == match request.from {
            Some(from) => Ok::<Address, TxError>(from),
            None => Err::<Address, TxError>(TxError::NoAccount),
        },
{
    match request.from {
        Some(from) => Ok(from),
        None => Err(TxError::NoAccount),
    }
}

/// The account to sign with: the sender of the request, for whom a signer
/// must be configured.
pub fn signing_account(request: &TxRequest, has_signer: bool) -> (r: Result<Address, TxError>)
    ensures
        r == match request.from {
            Some(from) => if has_signer {
                Ok::<Address, TxError>(from)
            } else {
                Err::<Address, TxError>(TxError::NoAccount)
            },
            None => Err::<Address, TxError>(TxError::NoAccount),
        },
{
    match request.from {
        Some(from) => {
            if has_signer {
                Ok(from)
            } else {
                Err(TxError::NoAccount)
            }
        },
        None => Err(TxError::NoAccount),
    }
}

/// Whether the next nonce of the sender is to be fetched: only where the
/// request has none.
pub fn needs_nonce(request: &TxRequest) -> (r: bool)
    ensures
        r == request.nonce is None,
{
    request.nonce.is_none()
}

/// The request as its gas is estimated: with its own nonce, or where it has
/// none with the next nonce of the sender, and with the chain of the node.
pub fn prepare(request: TxRequest, next_nonce: u64, chain_id: u64) -> (r: TxRequest)
    ensures
        r == (TxRequest {
            from: request.from,
            nonce: Some(
                match request.nonce {
                    Some(n) => n,
                    None => next_nonce,
                },
            ),
            chain_id: Some(chain_id),
            gas_limit: request.gas_limit,
        }),
{
    TxRequest {
        from: request.from,
        nonce: match request.nonce {
            Some(n) => Some(n),
            None => Some(next_nonce),
        },
        chain_id: Some(chain_id),
        gas_limit: request.gas_limit,
    }
}

/// The request as it is signed: with the estimated gas as its limit.
pub fn with_gas_limit(request: TxRequest, estimated_gas: u64) -> (r: TxRequest)
    ensures
        r == (TxRequest {
            from: request.from,
            nonce: request.nonce,
            chain_id: request.chain_id,
            gas_limit: Some(estimated_gas),
        }),
{
    TxRequest {
        from: request.from,
        nonce: request.nonce,
        chain_id: request.chain_id,
        gas_limit: Some(estimated_gas),
    }
}

/// The pool's form of a signed transaction: a transaction that cannot be
/// converted is refused.
pub fn pooled<T>(converted: Option<T>) -> (r: Result<T, TxError>)
    ensures
        r == match converted {
            Some(tx) => Ok::<T, TxError>(tx),
            None => Err::<T, TxError>(TxError::TransactionConversionError),
        },
{
    match converted {
        Some(tx) => Ok(tx),
        None => Err(TxError::TransactionConversionError),
    }
}

/// How long a submitted transaction is waited for, in seconds.
pub const CONFIRMATION_TIMEOUT_SECS: u64 = 30;

/// What happens while a submitted transaction is waited for.
#[derive(Clone, Copy, Debug, PartialEq, Eq)]
pub enum WaitEvent {
    /// A block was committed; it holds the transaction or not.
    Block {
        /// Whether the block holds the transaction.
        contains: bool,
    },
    /// The receipt was asked for; it is there or not.
    Receipt {
        /// Whether the receipt is there.
        found: bool,
    },
    /// No more blocks will be announced.
    StreamEnded,
    /// The time is up.
    TimedOut,
}

/// What the waiter does next.
#[derive(Clone, Copy, Debug, PartialEq, Eq)]
pub enum WaitAction {
    /// It waits for the next block.
    NextBlock,
    /// It asks for the receipt.
    FetchReceipt,
    /// It hands out the receipt that was found.
    Confirmed,
    /// It gives up.
    Fail(TxError),
}

/// Where the wait stands.
#[derive(Clone, Copy, Debug, PartialEq, Eq)]
pub enum WaitStage {
    /// Blocks are watched.
    Watching,
    /// A block held the transaction, and the receipt was asked for.
    Fetching,
    /// The receipt was found.
    Confirmed,
    /// The wait was given up.
    GivenUp,
}

/// The wait for a submitted transaction to be mined.
#[derive(Clone, Copy, Debug, PartialEq, Eq)]
pub struct ConfirmationWait {
    /// The hash of the transaction.
    pub hash: B256,
    /// Where the wait stands.
    pub stage: WaitStage,
}

/// The error of a wait that was given up.
pub open spec fn timeout_of(hash: B256) -> TxError {
    TxError::TransactionConfirmationTimeout { hash, seconds: CONFIRMATION_TIMEOUT_SECS }
}

impl ConfirmationWait {
    /// The stage after `event`, and what the waiter does then. A block
    /// that holds the transaction makes the waiter ask for the receipt; a
    /// receipt that is there ends the wait; the end of the stream and the
    /// timeout end it with an error. A wait that has ended stays as it is.
    pub open spec fn step(self, event: WaitEvent) -> (WaitStage, WaitAction) {
        match self.stage {
            WaitStage::Confirmed => (WaitStage::Confirmed, WaitAction::Confirmed),
            WaitStage::GivenUp => (WaitStage::GivenUp, WaitAction::Fail(timeout_of(self.hash))),
            WaitStage::Watching => match event {
                WaitEvent::Block { contains } => if contains {
                    (WaitStage::Fetching, WaitAction::FetchReceipt)
                } else {
                    (WaitStage::Watching, WaitAction::NextBlock)
                },
                WaitEvent::Receipt { .. } => (WaitStage::Watching, WaitAction::NextBlock),
                _ => (WaitStage::GivenUp, WaitAction::Fail(timeout_of(self.hash))),
            },
            WaitStage::Fetching => match event {
                WaitEvent::Receipt { found } => if found {
                    (WaitStage::Confirmed, WaitAction::Confirmed)
                } else {
                    (WaitStage::Watching, WaitAction::NextBlock)
                },
                WaitEvent::Block { .. } => (WaitStage::Fetching, WaitAction::FetchReceipt),
                _ => (WaitStage::GivenUp, WaitAction::Fail(timeout_of(self.hash))),
            },
        }
    }

    /// A wait for the transaction with the hash `hash`, watching blocks.
    pub fn new(hash: B256) -> (w: ConfirmationWait)
        ensures
            w == (ConfirmationWait { hash, stage: WaitStage::Watching }),
    {
        ConfirmationWait { hash, stage: WaitStage::Watching }
    }

    /// Takes an event and says what the waiter does next.
    pub fn advance(&mut self, event: WaitEvent) -> (action: WaitAction)
        ensures
            final(self).hash == old(self).hash,
            (final(self).stage, action) == old(self).step(event),
    {
        let timeout = TxError::TransactionConfirmationTimeout {
            hash: self.hash,
            seconds: CONFIRMATION_TIMEOUT_SECS,
        };
        match self.stage {
            WaitStage::Confirmed => WaitAction::Confirmed,
            WaitStage::GivenUp => WaitAction::Fail(timeout),
            WaitStage::Watching => match event {
                WaitEvent::Block { contains } => {
                    if contains {
                        self.stage = WaitStage::Fetching;
                        WaitAction::FetchReceipt
                    } else {
                        WaitAction::NextBlock
                    }
                },
                WaitEvent::Receipt { .. } => WaitAction::NextBlock,
                _ => {
                    self.stage = WaitStage::GivenUp;
                    WaitAction::Fail(timeout)
                },
            },
            WaitStage::Fetching => match event {
                WaitEvent::Receipt { found } => {
                    if found {
                        self.stage = WaitStage::Confirmed;
                        WaitAction::Confirmed
                    } else {
                        self.stage = WaitStage::Watching;
                        WaitAction::NextBlock
                    }
                },
                WaitEvent::Block { .. } => WaitAction::FetchReceipt,
                _ => {
                    self.stage = WaitStage::GivenUp;
                    WaitAction::Fail(timeout)
                },
            },
        }
    }
}

} // verus!
