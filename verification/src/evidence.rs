//! Rejection reasons, exact rejection counts, retention of rejection details, and the
//! audit JSON of a reason.
//!
//! No candidate disappears silently: every candidate is either in the result or counted
//! under a reason. Counts are exact whatever the retention policy is.

use vstd::prelude::*;

use crate::constraint::ConstraintId;
use crate::score::ScorerId;
use crate::text::{json_quoted, json_string};

verus! {

/// Why a candidate was dropped.
#[derive(Clone, PartialEq, Eq, Debug)]
pub enum RejectReason {
    /// A scorer gave no value. Different from a score of zero.
    NotScored(ScorerId),
    /// A unary constraint refused it.
    UnaryConstraint(ConstraintId),
    /// A set constraint left no room for it.
    SetConstraint(ConstraintId),
    /// Its fused score was below the threshold.
    BelowThreshold,
    /// Better candidates took the places.
    Outranked,
    /// It did not make the stage-one pool.
    OutOfPool,
}

/// The kind name of a reason: the key under which it is counted.
pub open spec fn kind_name(r: RejectReason) -> Seq<char> {
    match r {
        RejectReason::NotScored(_) => "not_scored"@,
        RejectReason::UnaryConstraint(_) => "unary_constraint"@,
        RejectReason::SetConstraint(_) => "set_constraint"@,
        RejectReason::BelowThreshold => "below_threshold"@,
        RejectReason::Outranked => "outranked"@,
        RejectReason::OutOfPool => "out_of_pool"@,
    }
}

/// The audit JSON object of a reason.
pub open spec fn reason_json(r: RejectReason) -> Seq<char> {
    match r {
        RejectReason::NotScored(id) => "{\"kind\":\"not_scored\",\"scorer\":"@ + json_quoted(id@)
            + "}"@,
        RejectReason::UnaryConstraint(id) => "{\"kind\":\"unary_constraint\",\"constraint\":"@
            + json_quoted(id@) + "}"@,
        RejectReason::SetConstraint(id) => "{\"kind\":\"set_constraint\",\"constraint\":"@
            + json_quoted(id@) + "}"@,
        _ => "{\"kind\":\""@ + kind_name(r) + "\"}"@,
    }
}

impl RejectReason {
    /// The kind name of the reason; rejection counts are kept per kind.
    pub fn kind(&self) -> (s: &'static str)
        ensures
            s@ == kind_name(*self),
    {
        match self {
            RejectReason::NotScored(_) => "not_scored",
            RejectReason::UnaryConstraint(_) => "unary_constraint",
            RejectReason::SetConstraint(_) => "set_constraint",
            RejectReason::BelowThreshold => "below_threshold",
            RejectReason::Outranked => "outranked",
            RejectReason::OutOfPool => "out_of_pool",
        }
    }

    /// The reason as an audit JSON object.
    pub fn to_json(&self) -> (s: String)
        ensures
            s@ == reason_json(*self),
    {
        let mut s = String::new();
        match self {
            RejectReason::NotScored(id) => {
                s.append("{\"kind\":\"not_scored\",\"scorer\":");
                let q = json_string(id.as_str());
                s.append(q.as_str());
                s.append("}");
            },
            RejectReason::UnaryConstraint(id) => {
                s.append("{\"kind\":\"unary_constraint\",\"constraint\":");
                let q = json_string(id.as_str());
                s.append(q.as_str());
                s.append("}");
            },
            RejectReason::SetConstraint(id) => {
                s.append("{\"kind\":\"set_constraint\",\"constraint\":");
                let q = json_string(id.as_str());
                s.append(q.as_str());
                s.append("}");
            },
            _ => {
                s.append("{\"kind\":\"");
                s.append(self.kind());
                s.append("\"}");
            },
        }
        assert(s@ =~= reason_json(*self));
        s
    }
}

/// How many rejection details to keep.
///
/// Counts are always exact; only the retained details vary.
#[derive(Clone, Copy, PartialEq, Eq, Debug, Structural)]
pub enum Rejections {
    /// Keep every rejected candidate. The default.
    Keep,
    /// Only count.
    Count,
    /// Keep the first `n` rejections met, count the rest.
    Sample(usize),
}

impl Default for Rejections {
    fn default() -> (r: Self)
        ensures
            r == Rejections::Keep,
    {
        Rejections::Keep
    }
}

impl Rejections {
    /// Whether one more rejection is kept in detail when `kept` are already kept.
    pub fn retains(&self, kept: usize) -> (r: bool)
        ensures
            r == match *self {
                Rejections::Keep => true,
                Rejections::Count => false,
                Rejections::Sample(n) => kept < n,
            },
    {
        match self {
            Rejections::Keep => true,
            Rejections::Count => false,
            Rejections::Sample(n) => kept < *n,
        }
    }
}

/// Rejections per reason. Exact whatever the retention policy is.
#[derive(Clone, Copy, PartialEq, Eq, Debug, Structural)]
pub struct RejectCounts {
    /// Dropped because a scorer gave no value.
    pub not_scored: u64,
    /// Refused by a unary constraint.
    pub unary_constraint: u64,
    /// Left without room by a set constraint.
    pub set_constraint: u64,
    /// Below the threshold.
    pub below_threshold: u64,
    /// Outranked by better candidates.
    pub outranked: u64,
    /// Did not make the pool.
    pub out_of_pool: u64,
}

impl Default for RejectCounts {
    fn default() -> (r: Self)
        ensures
            r.sum() == 0,
            r.not_scored == 0,
            r.unary_constraint == 0,
            r.set_constraint == 0,
            r.below_threshold == 0,
            r.outranked == 0,
            r.out_of_pool == 0,
    {
        RejectCounts::zero()
    }
}

impl RejectCounts {
    /// All counts zero.
    pub fn zero() -> (r: Self)
        ensures
            r.sum() == 0,
            r.not_scored == 0,
            r.unary_constraint == 0,
            r.set_constraint == 0,
            r.below_threshold == 0,
            r.outranked == 0,
            r.out_of_pool == 0,
    {
        RejectCounts {
            not_scored: 0,
            unary_constraint: 0,
            set_constraint: 0,
            below_threshold: 0,
            outranked: 0,
            out_of_pool: 0,
        }
    }

    /// The total of all counts.
    pub open spec fn sum(self) -> int {
        self.not_scored + self.unary_constraint + self.set_constraint + self.below_threshold
            + self.outranked + self.out_of_pool
    }

    /// The count kept for the kind of `r`.
    pub open spec fn count_for(self, r: RejectReason) -> u64 {
        match r {
            RejectReason::NotScored(_) => self.not_scored,
            RejectReason::UnaryConstraint(_) => self.unary_constraint,
            RejectReason::SetConstraint(_) => self.set_constraint,
            RejectReason::BelowThreshold => self.below_threshold,
            RejectReason::Outranked => self.outranked,
            RejectReason::OutOfPool => self.out_of_pool,
        }
    }

    /// The counts with the count for the kind of `r` one higher.
    pub open spec fn bumped(self, r: RejectReason) -> RejectCounts {
        match r {
            RejectReason::NotScored(_) => RejectCounts { not_scored: (self.not_scored + 1) as u64, ..self },
            RejectReason::UnaryConstraint(_) => RejectCounts {
                unary_constraint: (self.unary_constraint + 1) as u64,
                ..self
            },
            RejectReason::SetConstraint(_) => RejectCounts {
                set_constraint: (self.set_constraint + 1) as u64,
                ..self
            },
            RejectReason::BelowThreshold => RejectCounts {
                below_threshold: (self.below_threshold + 1) as u64,
                ..self
            },
            RejectReason::Outranked => RejectCounts { outranked: (self.outranked + 1) as u64, ..self },
            RejectReason::OutOfPool => RejectCounts { out_of_pool: (self.out_of_pool + 1) as u64, ..self },
        }
    }

    /// Counts one more rejection for this reason.
    ///
    /// The total grows by exactly one, whatever the reason.
    pub fn record(&mut self, reason: &RejectReason)
        requires
            old(self).count_for(*reason) < u64::MAX,
        ensures
            *final(self) == old(self).bumped(*reason),
            final(self).sum() == old(self).sum() + 1,
            final(self).count_for(*reason) == old(self).count_for(*reason) + 1,
    {
        match reason {
            RejectReason::NotScored(_) => self.not_scored = self.not_scored + 1,
            RejectReason::UnaryConstraint(_) => self.unary_constraint = self.unary_constraint + 1,
            RejectReason::SetConstraint(_) => self.set_constraint = self.set_constraint + 1,
            RejectReason::BelowThreshold => self.below_threshold = self.below_threshold + 1,
            RejectReason::Outranked => self.outranked = self.outranked + 1,
            RejectReason::OutOfPool => self.out_of_pool = self.out_of_pool + 1,
        }
    }

    /// All rejections.
    pub fn total(&self) -> (r: u64)
        requires
            self.sum() <= u64::MAX,
        ensures
            r == self.sum(),
    {
        self.not_scored + self.unary_constraint + self.set_constraint + self.below_threshold
            + self.outranked + self.out_of_pool
    }
}

/// The rejections of a run: exact counts per reason, and the details the retention policy
/// keeps.
pub struct RejectionLog<T> {
    policy: Rejections,
    counts: RejectCounts,
    kept: Vec<T>,
}

impl<T> RejectionLog<T> {
    /// The retention policy.
    pub closed spec fn policy_spec(self) -> Rejections {
        self.policy
    }

    /// The counts so far.
    pub closed spec fn counts_spec(self) -> RejectCounts {
        self.counts
    }

    /// The details kept so far.
    pub closed spec fn kept_spec(self) -> Seq<T> {
        self.kept@
    }

    /// An empty log with this retention policy.
    pub fn new(policy: Rejections) -> (r: Self)
        ensures
            r.policy_spec() == policy,
            r.counts_spec().sum() == 0,
            r.counts_spec() == (RejectCounts {
                not_scored: 0,
                unary_constraint: 0,
                set_constraint: 0,
                below_threshold: 0,
                outranked: 0,
                out_of_pool: 0,
            }),
            r.kept_spec().len() == 0,
    {
        RejectionLog { policy, counts: RejectCounts::zero(), kept: Vec::new() }
    }

    /// Records one rejection: it is always counted, and its detail is kept when the policy
    /// still retains details.
    pub fn record(&mut self, reason: &RejectReason, detail: T)
        requires
            old(self).counts_spec().count_for(*reason) < u64::MAX,
        ensures
            final(self).policy_spec() == old(self).policy_spec(),
            final(self).counts_spec() == old(self).counts_spec().bumped(*reason),
            final(self).counts_spec().sum() == old(self).counts_spec().sum() + 1,
            final(self).kept_spec() == if retained(old(self).policy_spec(), old(self).kept_spec().len()) {
                old(self).kept_spec().push(detail)
            } else {
                old(self).kept_spec()
            },
    {
        self.counts.record(reason);
        if self.policy.retains(self.kept.len()) {
            self.kept.push(detail);
        }
    }

    /// The counts so far.
    pub fn counts(&self) -> (r: RejectCounts)
        ensures
            r == self.counts_spec(),
    {
        self.counts
    }

    /// The kept details and the counts.
    pub fn into_parts(self) -> (r: (Vec<T>, RejectCounts))
        ensures
            r.0@ == self.kept_spec(),
            r.1 == self.counts_spec(),
    {
        (self.kept, self.counts)
    }
}

/// Whether a detail is kept when `kept` are already kept under `policy`.
pub open spec fn retained(policy: Rejections, kept: nat) -> bool {
    match policy {
        Rejections::Keep => true,
        Rejections::Count => false,
        Rejections::Sample(n) => kept < n,
    }
}

/// How many details are kept after `n` rejections were recorded into an empty log.
pub open spec fn kept_after(policy: Rejections, n: nat) -> nat
    decreases n,
{
    if n == 0 {
        0
    } else {
        let k = kept_after(policy, (n - 1) as nat);
        if retained(policy, k) {
            k + 1
        } else {
            k
        }
    }
}

/// Retention keeps everything under `Keep`, nothing under `Count`, and exactly the first
/// `min(n, s)` of `n` rejections under `Sample(s)`.
pub proof fn lemma_retention(policy: Rejections, n: nat)
    ensures
        kept_after(policy, n) == match policy {
            Rejections::Keep => n,
            Rejections::Count => 0,
            Rejections::Sample(s) => if n < s { n } else { s as nat },
        },
    decreases n,
{
    if n > 0 {
        lemma_retention(policy, (n - 1) as nat);
    }
}

/// The completeness check: selected plus rejected equals the input count.
pub fn accounts_for_all(selected: usize, counts: &RejectCounts, input_count: u64) -> (r: bool)
    ensures
        r == (selected + counts.sum() == input_count),
{
    let sel = selected as u128;
    let total: u128 = counts.not_scored as u128 + counts.unary_constraint as u128
        + counts.set_constraint as u128 + counts.below_threshold as u128
        + counts.outranked as u128 + counts.out_of_pool as u128;
    sel + total == input_count as u128
}

/// One scorer's execution record.
#[derive(Clone, PartialEq, Debug)]
pub struct ScorerTrace {
    /// Which scorer.
    pub scorer: ScorerId,
    /// How many candidates it scored.
    pub calls: u64,
    /// How many times it gave no value.
    pub missing: u64,
    /// Accumulated nanoseconds.
    pub elapsed_nanos: u128,
}

/// Why an adaptive budget fell back to its fixed count.
#[derive(Clone, Copy, PartialEq, Eq, Debug, Structural)]
pub enum FallbackReason {
    /// The fit missed the threshold; a power law fitted to something that is not one
    /// yields a confidently wrong count.
    PoorFit,
    /// Too few samples for a fit to mean anything.
    TooFewSamples,
    /// Negative or all-zero mass cannot be normalized into probabilities.
    NotAMassDistribution,
}

} // verus!
