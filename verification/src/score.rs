//! Scorer identities, scales and costs.
//!
//! A scorer must declare which scale its values live on; mixing logits and probabilities in
//! a sum is refused as a configuration error rather than documented as a pitfall.

use vstd::prelude::*;

verus! {

/// Scorer identifier. It appears in fusion records, audit output and rejection reasons.
#[derive(Clone, PartialEq, Eq, PartialOrd, Ord, Hash, Debug)]
pub struct ScorerId(String);

impl View for ScorerId {
    type V = Seq<char>;

    closed spec fn view(&self) -> Seq<char> {
        self.0@
    }
}

impl ScorerId {
    /// Makes an identifier from a name.
    pub fn new(name: &str) -> (id: Self)
        ensures
            id@ == name@,
    {
        ScorerId(name.to_owned())
    }

    /// Borrows the name.
    pub fn as_str(&self) -> (s: &str)
        ensures
            s@ == self@,
    {
        self.0.as_str()
    }

    /// Whether two identifiers carry the same name.
    pub fn same(&self, other: &ScorerId) -> (r: bool)
        ensures
            r == (self@ == other@),
    {
        self.0 == other.0
    }

    /// A copy of this identifier.
    pub fn duplicate(&self) -> (r: ScorerId)
        ensures
            r@ == self@,
    {
        ScorerId(self.0.clone())
    }
}

/// The scale a score lives on; decides which fusions may combine it.
#[derive(Clone, Copy, PartialEq, Eq, Debug, Hash, Structural)]
pub enum ScoreScale {
    /// Between 0 and 1: probabilities or normalized values. These may be added.
    Unit,
    /// Logits or distances. Adding them without normalization is wrong.
    Unbounded,
    /// Only the order means anything.
    Rank,
}

impl ScoreScale {
    /// The variant's name, as a debug rendering shows it.
    pub fn name(&self) -> (s: &'static str)
        ensures
            s@ == scale_name(*self),
    {
        match self {
            ScoreScale::Unit => "Unit",
            ScoreScale::Unbounded => "Unbounded",
            ScoreScale::Rank => "Rank",
        }
    }
}

/// The name of a scale's variant.
pub open spec fn scale_name(s: ScoreScale) -> Seq<char> {
    match s {
        ScoreScale::Unit => "Unit"@,
        ScoreScale::Unbounded => "Unbounded"@,
        ScoreScale::Rank => "Rank"@,
    }
}

/// Relative cost of a scorer; decides the stage it runs in.
#[derive(Clone, Copy, PartialEq, Eq, Debug, Hash, Structural)]
pub enum ScorerCost {
    /// Cheap enough to run on every candidate: stage one.
    Cheap,
    /// Runs only on the retained pool: stage two.
    Expensive,
}

/// The position of the first axis without a score, if any is missing.
pub fn first_missing<T>(values: &[Option<T>]) -> (r: Option<usize>)
    ensures
        match r {
            Some(i) => {
                &&& i < values@.len()
                &&& values@[i as int] is None
                &&& forall|j: int| 0 <= j < i ==> #[trigger] values@[j] is Some
            },
            None => forall|j: int| 0 <= j < values@.len() ==> #[trigger] values@[j] is Some,
        },
{
    let mut i: usize = 0;
    while i < values.len()
        invariant
            i <= values@.len(),
            forall|j: int| 0 <= j < i ==> #[trigger] values@[j] is Some,
        decreases values@.len() - i,
    {
        if values[i].is_none() {
            return Some(i);
        }
        i += 1;
    }
    None
}

} // verus!
