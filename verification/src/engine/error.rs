//! Why a task did not hand out a root.

use vstd::prelude::*;

verus! {

/// The ways in which a task ends without a result.
#[derive(Clone, Copy, Debug, PartialEq, Eq, Structural)]
pub enum TaskError {
    /// The snapshot can no longer be served: start again with a fresh one.
    SnapshotUnavailable,
    /// A node that the computation needs is missing under a dirty path.
    NodeIntegrityError,
    /// An internal channel closed before its work was done.
    ChannelClosedPrematurely,
    /// The caller abandoned the task.
    Cancelled,
    /// The result was handed out before.
    AlreadyConsumed,
}

impl TaskError {
    /// The task itself failed: the snapshot or the trie is at fault, or an
    /// internal channel.
    pub open spec fn is_fatal_spec(&self) -> bool {
        *self == TaskError::SnapshotUnavailable || *self == TaskError::NodeIntegrityError || *self
            == TaskError::ChannelClosedPrematurely
    }

    /// Whether the task itself failed: the snapshot or the trie is at fault,
    /// or an internal channel.
    #[verifier::when_used_as_spec(is_fatal_spec)]
    pub fn is_fatal(&self) -> (r: bool)
        ensures
            r == self.is_fatal_spec(),
    {
        match self {
            TaskError::SnapshotUnavailable => true,
            TaskError::NodeIntegrityError => true,
            TaskError::ChannelClosedPrematurely => true,
            TaskError::Cancelled => false,
            TaskError::AlreadyConsumed => false,
        }
    }

    /// Whether the caller can go on without a new task: only a second wait
    /// is of that kind.
    pub fn is_recoverable(&self) -> (r: bool)
        ensures
            r == (*self == TaskError::AlreadyConsumed),
    {
        match self {
            TaskError::AlreadyConsumed => true,
            _ => false,
        }
    }

    /// The error in words.
    pub fn describe(&self) -> (r: &'static str)
        ensures
            r@ == match *self {
                TaskError::SnapshotUnavailable => "snapshot unavailable"@,
                TaskError::NodeIntegrityError => "trie node missing under a dirty path"@,
                TaskError::ChannelClosedPrematurely => "channel closed prematurely"@,
                TaskError::Cancelled => "task cancelled"@,
                TaskError::AlreadyConsumed => "result already consumed"@,
            },
    {
        match self {
            TaskError::SnapshotUnavailable => "snapshot unavailable",
            TaskError::NodeIntegrityError => "trie node missing under a dirty path",
            TaskError::ChannelClosedPrematurely => "channel closed prematurely",
            TaskError::Cancelled => "task cancelled",
            TaskError::AlreadyConsumed => "result already consumed",
        }
    }
}

} // verus!
