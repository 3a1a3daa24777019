//! A command-line reference in markdown, made from the `--help` output of a
//! program and of its subcommands.

pub mod clean;
pub mod command;
pub mod listing;
pub mod page;
pub mod pattern;
