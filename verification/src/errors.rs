use vstd::prelude::*;

verus! {

/// Fatal conditions of the curation engine.
///
/// Per-item decode failures are never fatal: they route the item into the
/// deprecated bucket of a run's partition. The conditions below instead end
/// a run.
#[derive(Clone, Copy, Debug, PartialEq, Eq, Structural)]
pub enum EngineError {
    /// Fewer than 2 corpus images produced a fingerprint, so the index is
    /// unusable for matching.
    InsufficientCorpus,
    /// The externally supplied query image could not be decoded. Distinct
    /// from per-corpus-item decode failures, which are recoverable.
    QueryUndecodable,
    /// Results exist but no destination directory was given.
    MissingOutputTarget,
}

impl EngineError {
    /// A plain-text description for reporting.
    pub fn describe(&self) -> (r: &'static str)
        ensures
            self is InsufficientCorpus ==> r@ == "too few images to match against"@,
            self is QueryUndecodable ==> r@ == "the query image could not be decoded"@,
            self is MissingOutputTarget ==> r@ == "no save location was given"@,
    {
        match self {
            EngineError::InsufficientCorpus => "too few images to match against",
            EngineError::QueryUndecodable => "the query image could not be decoded",
            EngineError::MissingOutputTarget => "no save location was given",
        }
    }
}

} // verus!
