//! Command-line surface of the toolkit, as plain data. Argument parsing and
//! dispatch live in the binary around this library.

use vstd::prelude::*;
use crate::deduplicator::DeDuplicator;
use crate::retrival::Retrival;
use crate::sanitizer::Args;

verus! {

/// The fingerprint method. The reference method is the 256-bit blockhash.
#[derive(Clone, Copy, Debug, PartialEq, Eq, Structural)]
pub enum Method {
    BlockHash,
}

/// The task a run performs.
pub enum Task {
    /// Image integrity checking.
    Check(Args),
    /// Image de-duplicating.
    Dedup(DeDuplicator),
    /// Image-to-image similarity retrieval.
    Retrive(Retrival),
    /// Image captioning; not offered yet.
    Caption,
}

/// A parsed command line: the task to run.
pub struct Cli {
    pub task: Task,
}

} // verus!
