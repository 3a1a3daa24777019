//! Building blocks of an Ethereum node, each with a machine-checked contract.

pub mod engine;
pub mod help;
pub mod opcodes;
pub mod text;
pub mod transaction;
