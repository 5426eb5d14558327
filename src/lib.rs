//! Ordering and trimming of the assertions that prove an IRV winner, with the
//! elimination-order trees that show which assertion rules out which branch.

pub mod irv;
pub mod assertions;
pub mod ordering;
pub mod tree_showing_what_assertions_pruned_leaves;
pub mod soundness;

use vstd::prelude::*;

verus! {

/// The failures that the ordering and trimming step can report.
#[derive(Clone, Copy, Debug, PartialEq, Eq, Structural)]
pub enum RaireError {
    /// The declared winner's tree is fully ruled out by the assertions.
    InternalErrorRuledOutWinner,
    /// Some other candidate's tree is not fully ruled out by the assertions.
    InternalErrorDidntRuleOutLoser,
}

} // verus!
