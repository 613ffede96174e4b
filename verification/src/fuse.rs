//! Fusion methods and which score scales each of them may combine.
//!
//! Adding values is only allowed when every axis is on the unit scale; rank fusion uses
//! order alone and takes any mix. Refusal is a configuration error raised before a single
//! candidate is read.

use vstd::prelude::*;

use crate::score::ScoreScale;

verus! {

/// The fusion method, as recorded in fusion traces.
#[derive(Clone, Copy, PartialEq, Eq, Debug, Structural)]
pub enum FusionMethod {
    /// Weighted mean of values.
    WeightedSum,
    /// Reciprocal rank fusion.
    Rrf,
    /// Largest value.
    Max,
}

/// The name used in audit output and error messages.
pub open spec fn method_name(m: FusionMethod) -> Seq<char> {
    match m {
        FusionMethod::WeightedSum => "weighted_sum"@,
        FusionMethod::Rrf => "rrf"@,
        FusionMethod::Max => "max"@,
    }
}

/// Whether the method may combine an axis on scale `s`: rank fusion takes any scale, the
/// value-based methods only the unit scale.
pub open spec fn method_accepts(m: FusionMethod, s: ScoreScale) -> bool {
    m == FusionMethod::Rrf || s == ScoreScale::Unit
}

impl FusionMethod {
    /// The name used in audit output.
    pub fn name(&self) -> (s: &'static str)
        ensures
            s@ == method_name(*self),
    {
        match self {
            FusionMethod::WeightedSum => "weighted_sum",
            FusionMethod::Rrf => "rrf",
            FusionMethod::Max => "max",
        }
    }

    /// Whether this method may combine an axis on this scale.
    pub fn accepts(&self, scale: ScoreScale) -> (r: bool)
        ensures
            r == method_accepts(*self, scale),
    {
        match self {
            FusionMethod::Rrf => true,
            _ => scale == ScoreScale::Unit,
        }
    }
}

/// Which method combines which scale: every method takes the unit scale, rank fusion takes
/// every scale, and the value-based methods (weighted sum, maximum) refuse every other one.
pub proof fn lemma_scale_table(m: FusionMethod, s: ScoreScale)
    ensures
        method_accepts(m, ScoreScale::Unit),
        method_accepts(FusionMethod::Rrf, s),
        m != FusionMethod::Rrf && s != ScoreScale::Unit ==> !method_accepts(m, s),
{
}

} // verus!
