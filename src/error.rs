use vstd::prelude::*;

verus! {

/// The ways an inference call can fail.
#[derive(Debug, Clone, Copy, PartialEq, Eq, Structural)]
pub enum InferenceError {
    /// A node index outside `0..N` was used.
    InvalidNodeIndex,
    /// Two nodes were asked for the data of an edge that does not join them.
    MissingEdge,
    /// A state space with no states was given.
    EmptyStateSpace,
    /// A normalisation step met a row whose total weight is zero.
    DegenerateDistribution,
    /// A reduction that is undefined on zero elements was given none.
    EmptyInput,
}

} // verus!
