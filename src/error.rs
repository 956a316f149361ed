use vstd::prelude::*;

verus! {

/// The ways in which an analysis step can fail.
#[derive(Debug, PartialEq, Eq, Structural, Clone, Copy)]
pub enum AnalysisError {
    /// An opened interval never finds the event that closes it.
    MalformedEventSequence,
    /// There is no task, or some task has no alternative path.
    EmptyCombinationSpace,
    /// The evaluated combinations differ in their number of tasks or in the
    /// task at some slot.
    InconsistentCombinationShape,
    /// The evaluation of `combination` left the task at `slot` without a response time.
    UnresolvedResponseTime { combination: usize, slot: usize },
}

} // verus!
