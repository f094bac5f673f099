//! The data each command of the command surface carries, as plain values.
//! Argument parsing itself is left to the surrounding program; these types
//! are what it hands the library's operations.

use vstd::prelude::*;

verus! {

/// The `hash` command: scan `video` and write its segment index to `output`,
/// or to standard output when `output` is absent.
#[derive(Debug, Clone)]
pub struct HashSubcommand {
    pub output: Option<String>,
    pub video: String,
}

/// The `match` command: locate the single-segment clip at `segment` inside
/// the stream whose index was persisted at `hashes`.
#[derive(Debug, Clone)]
pub struct MatchSubcommand {
    pub hashes: String,
    pub segment: String,
}

/// The `cut` command: copy the bytes `[from, to)` of `video` — through end
/// of file when `to` is absent — to `output`.
#[derive(Debug, Clone)]
pub struct CutSubcommand {
    pub from: u64,
    pub to: Option<u64>,
    pub video: String,
    pub output: String,
}

/// One requested operation.
#[derive(Debug, Clone)]
pub enum Subcommand {
    Hash(HashSubcommand),
    Cut(CutSubcommand),
    Match(MatchSubcommand),
}

} // verus!
