//! The state commitment: the root of the account and storage trie, computed
//! step by step while the state diffs of a block arrive.

pub mod aggregator;
pub mod bytes;
pub mod changes;
pub mod diff;
pub mod error;
pub mod hash;
pub mod laws;
pub mod merge;
pub mod model;
pub mod node;
pub mod pathmap;
pub mod pool;
pub mod prefix_set;
pub mod rebuild;
pub mod reference;
pub mod store;
pub mod task;
pub mod worker;
