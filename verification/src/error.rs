//! Engine errors.
//!
//! Most are configuration errors, raised before any candidate is processed. At run time a
//! requirement repair can fail and a batch scorer can return the wrong number of values.

use vstd::prelude::*;

use crate::score::{ScoreScale, ScorerId};

verus! {

/// Every error the engine can report.
#[derive(Debug, PartialEq, Eq, Clone)]
pub enum Error {
    /// No scorer was registered.
    NoScorers,
    /// Two scorers share an identifier.
    DuplicateScorer(ScorerId),
    /// A value-based fusion was asked to combine a scale it cannot combine.
    IncompatibleScale {
        /// The scorer at fault.
        scorer: ScorerId,
        /// The scale it declared.
        scale: ScoreScale,
        /// The name of the fusion method.
        fusion: &'static str,
    },
    /// A weight names a scorer that is not registered.
    UnknownWeight(ScorerId),
    /// The admission scorer is not registered.
    UnknownAdmissionScorer(ScorerId),
    /// The admission scorer is expensive; stage one runs over every candidate.
    ExpensiveAdmissionScorer(ScorerId),
    /// Rank fusion without any cheap scorer to cut the stage-one pool.
    NoAdmissionScorer,
    /// The budget makes no sense.
    InvalidBudget(&'static str),
    /// The pool multiplier is zero.
    InvalidPoolMultiplier,
    /// A batch scorer returned a different number of values than it was given.
    BatchLengthMismatch {
        /// The scorer at fault.
        scorer: ScorerId,
        /// How many candidates it was given.
        expected: usize,
        /// How many values came back.
        got: usize,
    },
    /// Swapping could not build a set that meets a requirement from the current pool.
    ///
    /// This is not a proof that no such set exists.
    InfeasibleRequirement {
        /// The requirement.
        id: String,
        /// How many matching candidates it needs.
        needed: usize,
        /// How many pool candidates satisfy its predicate, before other constraints.
        available: usize,
    },
}

/// Engine result type.
pub type Result<T> = core::result::Result<T, Error>;

} // verus!
