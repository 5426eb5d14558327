use vstd::prelude::*;

verus! {

/// A candidate, identified by its position in the list of candidates.
#[derive(Clone, Copy, Debug, PartialEq, Eq, Structural)]
pub struct CandidateIndex(pub u32);

} // verus!
