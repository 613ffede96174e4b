//! The engine's configuration rules: validation before any candidate is read, the size of
//! the stage-one pool, the choice of the admission axis, the batch-length check and the
//! count limit that selection works to.

use vstd::prelude::*;

use crate::error::Error;
use crate::fuse::{method_accepts, method_name, FusionMethod};
use crate::score::{ScoreScale, ScorerCost, ScorerId};

verus! {

/// A registered scorer as the engine caches it: identity, scale and cost.
#[derive(Clone, Debug)]
pub struct AxisMeta {
    /// Identifier.
    pub id: ScorerId,
    /// Declared scale.
    pub scale: ScoreScale,
    /// Declared cost.
    pub cost: ScorerCost,
}

/// What validation and pool sizing need to know about the budget.
#[derive(Clone, Copy, PartialEq, Eq, Debug, Structural)]
pub enum BudgetShape {
    /// A fixed count.
    TopK(u32),
    /// A count derived from tail mass; `epsilon_in_range` tells whether `0 <= epsilon < 1`.
    TailMass {
        /// Whether the permitted missing mass lies in `[0, 1)`.
        epsilon_in_range: bool,
        /// The count to fall back to.
        fallback_k: u32,
    },
    /// An integer cost budget.
    Tokens(u32),
}

/// The first configuration fault, by the order in which the engine checks.
pub enum Fault {
    /// No scorers.
    NoScorers,
    /// A repeated scorer name.
    Duplicate(Seq<char>),
    /// A scale the fusion method cannot combine.
    Incompatible(Seq<char>, ScoreScale),
    /// A weight naming nothing registered.
    UnknownWeight(Seq<char>),
    /// An admission axis naming nothing registered.
    UnknownAdmission(Seq<char>),
    /// An expensive admission axis.
    ExpensiveAdmission(Seq<char>),
    /// Rank fusion with no cheap axis.
    NoAdmission,
    /// A zero pool multiplier.
    PoolMultiplier,
    /// A budget that makes no sense, with its explanation.
    Budget(Seq<char>),
}

/// The explanation given for a zero fixed count.
pub open spec fn topk_message() -> Seq<char> {
    "TopK 는 1 이상이어야 한다"@
}

/// The explanation given for an epsilon outside `[0, 1)`.
pub open spec fn epsilon_message() -> Seq<char> {
    "epsilon 은 0 이상 1 미만이어야 한다"@
}

/// The explanation given for a token budget without a cost function.
pub open spec fn tokens_message() -> Seq<char> {
    "Tokens 예산은 Engine::cost 로 후보별 비용을 함께 받아야 한다"@
}

/// Whether some axis before index `i` has the name `name`.
pub open spec fn named_before(meta: Seq<AxisMeta>, i: int, name: Seq<char>) -> bool {
    exists|j: int| 0 <= j < i && (#[trigger] meta[j]).id@ == name
}

/// Whether some axis has the name `name`.
pub open spec fn registered(meta: Seq<AxisMeta>, name: Seq<char>) -> bool {
    named_before(meta, meta.len() as int, name)
}

/// The first axis fault from index `i` on: a repeated name, else a scale the method
/// cannot combine, axis by axis in registration order.
pub open spec fn axis_fault(meta: Seq<AxisMeta>, method: FusionMethod, i: int) -> Option<Fault>
    decreases meta.len() - i,
{
    if i < 0 || i >= meta.len() {
        None
    } else if named_before(meta, i, meta[i].id@) {
        Some(Fault::Duplicate(meta[i].id@))
    } else if !method_accepts(method, meta[i].scale) {
        Some(Fault::Incompatible(meta[i].id@, meta[i].scale))
    } else {
        axis_fault(meta, method, i + 1)
    }
}

/// The first weight, from index `i` on, that names no registered axis.
pub open spec fn weight_fault(meta: Seq<AxisMeta>, weights: Seq<ScorerId>, i: int) -> Option<
    Fault,
>
    decreases weights.len() - i,
{
    if i < 0 || i >= weights.len() {
        None
    } else if !registered(meta, weights[i]@) {
        Some(Fault::UnknownWeight(weights[i]@))
    } else {
        weight_fault(meta, weights, i + 1)
    }
}

/// The index of the first axis named `name`, if any.
pub open spec fn first_named(meta: Seq<AxisMeta>, name: Seq<char>) -> Option<int> {
    if registered(meta, name) {
        Some(choose|i: int| 0 <= i < meta.len() && meta[i].id@ == name && !named_before(meta, i, name))
    } else {
        None
    }
}

/// Whether some axis is cheap.
pub open spec fn has_cheap(meta: Seq<AxisMeta>) -> bool {
    exists|i: int| 0 <= i < meta.len() && (#[trigger] meta[i]).cost == ScorerCost::Cheap
}

/// The admission fault, if any.
pub open spec fn admission_fault(
    meta: Seq<AxisMeta>,
    method: FusionMethod,
    admission: Option<ScorerId>,
) -> Option<Fault> {
    match admission {
        Some(id) => match first_named(meta, id@) {
            None => Some(Fault::UnknownAdmission(id@)),
            Some(i) => if meta[i].cost == ScorerCost::Expensive {
                Some(Fault::ExpensiveAdmission(id@))
            } else {
                None
            },
        },
        None => if method == FusionMethod::Rrf && !has_cheap(meta) {
            Some(Fault::NoAdmission)
        } else {
            None
        },
    }
}

/// The budget fault, if any.
pub open spec fn budget_fault(budget: BudgetShape, has_cost: bool) -> Option<Fault> {
    match budget {
        BudgetShape::TopK(k) => if k == 0 {
            Some(Fault::Budget(topk_message()))
        } else {
            None
        },
        BudgetShape::TailMass { epsilon_in_range, .. } => if !epsilon_in_range {
            Some(Fault::Budget(epsilon_message()))
        } else {
            None
        },
        BudgetShape::Tokens(_) => if !has_cost {
            Some(Fault::Budget(tokens_message()))
        } else {
            None
        },
    }
}

/// The first configuration fault, checked in this order: scorers present, axes
/// (duplicates and scales), weights (weighted sum only), admission, pool multiplier,
/// budget.
pub open spec fn first_fault(
    meta: Seq<AxisMeta>,
    method: FusionMethod,
    weights: Seq<ScorerId>,
    admission: Option<ScorerId>,
    pool_multiplier: u32,
    budget: BudgetShape,
    has_cost: bool,
) -> Option<Fault> {
    if meta.len() == 0 {
        Some(Fault::NoScorers)
    } else if axis_fault(meta, method, 0) is Some {
        axis_fault(meta, method, 0)
    } else if method == FusionMethod::WeightedSum && weight_fault(meta, weights, 0) is Some {
        weight_fault(meta, weights, 0)
    } else if admission_fault(meta, method, admission) is Some {
        admission_fault(meta, method, admission)
    } else if pool_multiplier == 0 {
        Some(Fault::PoolMultiplier)
    } else {
        budget_fault(budget, has_cost)
    }
}

/// The fault an error reports, if it is a configuration error.
pub open spec fn fault_of(e: Error) -> Option<Fault> {
    match e {
        Error::NoScorers => Some(Fault::NoScorers),
        Error::DuplicateScorer(id) => Some(Fault::Duplicate(id@)),
        Error::IncompatibleScale { scorer, scale, fusion: _ } => Some(
            Fault::Incompatible(scorer@, scale),
        ),
        Error::UnknownWeight(id) => Some(Fault::UnknownWeight(id@)),
        Error::UnknownAdmissionScorer(id) => Some(Fault::UnknownAdmission(id@)),
        Error::ExpensiveAdmissionScorer(id) => Some(Fault::ExpensiveAdmission(id@)),
        Error::NoAdmissionScorer => Some(Fault::NoAdmission),
        Error::InvalidBudget(m) => Some(Fault::Budget(m@)),
        Error::InvalidPoolMultiplier => Some(Fault::PoolMultiplier),
        _ => None,
    }
}

fn position_of(meta: &[AxisMeta], name: &ScorerId) -> (r: Option<usize>)
    ensures
        match r {
            Some(i) => i < meta@.len() && meta@[i as int].id@ == name@ && !named_before(
                meta@,
                i as int,
                name@,
            ),
            None => !registered(meta@, name@),
        },
{
    let mut i: usize = 0;
    while i < meta.len()
        invariant
            i <= meta@.len(),
            !named_before(meta@, i as int, name@),
        decreases meta@.len() - i,
    {
        if meta[i].id.same(name) {
            return Some(i);
        }
        proof {
            assert forall|j: int| 0 <= j < i + 1 implies (#[trigger] meta@[j]).id@ != name@ by {
                if j < i {
                    assert(!(0 <= j < i && meta@[j].id@ == name@));
                }
            }
        }
        i += 1;
    }
    None
}

proof fn lemma_first_named(meta: Seq<AxisMeta>, name: Seq<char>, i: int)
    requires
        0 <= i < meta.len(),
        meta[i].id@ == name,
        !named_before(meta, i, name),
    ensures
        first_named(meta, name) == Some(i),
{
    assert(registered(meta, name)) by {
        assert(0 <= i < meta.len() && meta[i].id@ == name);
    }
    let k = choose|k: int| 0 <= k < meta.len() && meta[k].id@ == name && !named_before(meta, k, name);
    if k < i {
        assert(named_before(meta, i, name)) by {
            assert(0 <= k < i && meta[k].id@ == name);
        }
    } else if k > i {
        assert(named_before(meta, k, name)) by {
            assert(0 <= i < k && meta[i].id@ == name);
        }
    }
}

fn check_axes(meta: &[AxisMeta], method: FusionMethod) -> (r: Result<(), Error>)
    ensures
        match r {
            Ok(()) => axis_fault(meta@, method, 0) is None,
            Err(e) => axis_fault(meta@, method, 0) is Some && fault_of(e) == axis_fault(
                meta@,
                method,
                0,
            ),
        },
        r matches Err(Error::IncompatibleScale { fusion, .. }) ==> fusion@ == method_name(method),
{
    let mut i: usize = 0;
    while i < meta.len()
        invariant
            i <= meta@.len(),
            axis_fault(meta@, method, 0) == axis_fault(meta@, method, i as int),
        decreases meta@.len() - i,
    {
        let m = &meta[i];
        let mut j: usize = 0;
        while j < i
            invariant
                j <= i,
                i < meta@.len(),
                m == meta@[i as int],
                axis_fault(meta@, method, 0) == axis_fault(meta@, method, i as int),
                forall|t: int| 0 <= t < j ==> (#[trigger] meta@[t]).id@ != m.id@,
            decreases i - j,
        {
            if meta[j].id.same(&m.id) {
                proof {
                    assert(named_before(meta@, i as int, meta@[i as int].id@)) by {
                        assert(0 <= j < i && meta@[j as int].id@ == meta@[i as int].id@);
                    }
                    assert(axis_fault(meta@, method, i as int) == Some(
                        Fault::Duplicate(meta@[i as int].id@),
                    ));
                }
                return Err(Error::DuplicateScorer(m.id.duplicate()));
            }
            j += 1;
        }
        proof {
            assert(!named_before(meta@, i as int, meta@[i as int].id@));
        }
        if !method.accepts(m.scale) {
            return Err(
                Error::IncompatibleScale { scorer: m.id.duplicate(), scale: m.scale, fusion: method.name() },
            );
        }
        i += 1;
    }
    Ok(())
}

fn check_weights(meta: &[AxisMeta], weights: &[ScorerId]) -> (r: Result<(), Error>)
    ensures
        match r {
            Ok(()) => weight_fault(meta@, weights@, 0) is None,
            Err(e) => weight_fault(meta@, weights@, 0) is Some && fault_of(e) == weight_fault(
                meta@,
                weights@,
                0,
            ),
        },
        r matches Err(e) ==> e is UnknownWeight,
{
    let mut i: usize = 0;
    while i < weights.len()
        invariant
            i <= weights@.len(),
            weight_fault(meta@, weights@, 0) == weight_fault(meta@, weights@, i as int),
        decreases weights@.len() - i,
    {
        match position_of(meta, &weights[i]) {
            None => {
                return Err(Error::UnknownWeight(weights[i].duplicate()));
            },
            Some(_) => {},
        }
        i += 1;
    }
    Ok(())
}

fn has_cheap_axis(meta: &[AxisMeta]) -> (r: bool)
    ensures
        r == has_cheap(meta@),
{
    let mut i: usize = 0;
    while i < meta.len()
        invariant
            i <= meta@.len(),
            forall|t: int| 0 <= t < i ==> (#[trigger] meta@[t]).cost != ScorerCost::Cheap,
        decreases meta@.len() - i,
    {
        if meta[i].cost == ScorerCost::Cheap {
            return true;
        }
        i += 1;
    }
    false
}

/// Checks that the configuration holds together. The engine calls this before it reads a
/// single candidate.
///
/// The error is the first fault in this order: no scorers; per axis in registration order a
/// repeated name, then a scale the method cannot combine; for a weighted sum a weight naming
/// no axis; the admission axis (unknown, expensive, or missing under rank fusion); a zero
/// pool multiplier; the budget (zero fixed count, epsilon outside `[0, 1)`, token budget
/// without a cost function).
pub fn validate_config(
    meta: &[AxisMeta],
    method: FusionMethod,
    weights: &[ScorerId],
    admission: &Option<ScorerId>,
    pool_multiplier: u32,
    budget: BudgetShape,
    has_cost: bool,
) -> (r: Result<(), Error>)
    ensures
        match r {
            Ok(()) => first_fault(
                meta@,
                method,
                weights@,
                *admission,
                pool_multiplier,
                budget,
                has_cost,
            ) is None,
            Err(e) => first_fault(meta@, method, weights@, *admission, pool_multiplier, budget, has_cost)
                is Some && fault_of(e) == first_fault(
                meta@,
                method,
                weights@,
                *admission,
                pool_multiplier,
                budget,
                has_cost,
            ),
        },
        r matches Err(Error::IncompatibleScale { fusion, .. }) ==> fusion@ == method_name(method),
{
    if meta.len() == 0 {
        return Err(Error::NoScorers);
    }
    check_axes(meta, method)?;
    if method == FusionMethod::WeightedSum {
        check_weights(meta, weights)?;
    }
    match admission {
        Some(id) => match position_of(meta, id) {
            None => {
                return Err(Error::UnknownAdmissionScorer(id.duplicate()));
            },
            Some(i) => {
                proof {
                    lemma_first_named(meta@, id@, i as int);
                }
                if meta[i].cost == ScorerCost::Expensive {
                    return Err(Error::ExpensiveAdmissionScorer(id.duplicate()));
                }
            },
        },
        None => {
            if method == FusionMethod::Rrf && !has_cheap_axis(meta) {
                return Err(Error::NoAdmissionScorer);
            }
        },
    }
    if pool_multiplier == 0 {
        return Err(Error::InvalidPoolMultiplier);
    }
    match budget {
        BudgetShape::TopK(k) => {
            if k == 0 {
                return Err(Error::InvalidBudget("TopK 는 1 이상이어야 한다"));
            }
        },
        BudgetShape::TailMass { epsilon_in_range, .. } => {
            if !epsilon_in_range {
                return Err(Error::InvalidBudget("epsilon 은 0 이상 1 미만이어야 한다"));
            }
        },
        BudgetShape::Tokens(_) => {
            if !has_cost {
                return Err(
                    Error::InvalidBudget("Tokens 예산은 Engine::cost 로 후보별 비용을 함께 받아야 한다"),
                );
            }
        },
    }
    Ok(())
}

/// The count a budget asks for before multiplying into a pool size.
pub open spec fn budget_count(budget: BudgetShape) -> nat {
    match budget {
        BudgetShape::TopK(k) => k as nat,
        BudgetShape::TailMass { fallback_k, .. } => if fallback_k == 0 {
            1
        } else {
            fallback_k as nat
        },
        BudgetShape::Tokens(max) => max as nat,
    }
}

/// The stage-one pool size: the budget's count times the multiplier, saturating at the
/// largest `usize`, and at least one.
pub open spec fn pool_size_for(budget: BudgetShape, multiplier: u32) -> nat {
    let p: nat = budget_count(budget) * (multiplier as nat);
    let s: nat = if p > usize::MAX { usize::MAX as nat } else { p };
    if s == 0 {
        1
    } else {
        s
    }
}

/// The capacity M of the stage-one pool.
pub fn pool_capacity(budget: BudgetShape, multiplier: u32) -> (r: usize)
    ensures
        r == pool_size_for(budget, multiplier),
{
    let k: u64 = match budget {
        BudgetShape::TopK(k) => k as u64,
        BudgetShape::TailMass { fallback_k, .. } => if fallback_k == 0 {
            1
        } else {
            fallback_k as u64
        },
        BudgetShape::Tokens(max) => max as u64,
    };
    assert((k as u128) * (multiplier as u128) < 0x1_0000_0000_0000_0000_0000_0000u128) by (nonlinear_arith)
        requires
            k < 0x1_0000_0000_0000_0000u128,
            multiplier < 0x1_0000_0000u128,
    ;
    let p: u128 = (k as u128) * (multiplier as u128);
    assert(p == budget_count(budget) * multiplier) by (nonlinear_arith)
        requires
            k == budget_count(budget),
            p == k * multiplier,
    ;
    let s: usize = if p > usize::MAX as u128 {
        usize::MAX
    } else {
        p as usize
    };
    if s == 0 {
        1
    } else {
        s
    }
}

/// What stage one cuts the pool by.
#[derive(Clone, Copy, PartialEq, Eq, Debug, Structural)]
pub enum AdmissionKey {
    /// One scorer's value, by its registration index.
    Scorer(usize),
    /// The fusion of the cheap axes, computed while streaming.
    StreamingFusion,
}

/// The index of the first cheap axis, if any.
pub open spec fn first_cheap(meta: Seq<AxisMeta>) -> Option<int> {
    if has_cheap(meta) {
        Some(choose|i: int| 0 <= i < meta.len() && meta[i].cost == ScorerCost::Cheap
            && forall|j: int| 0 <= j < i ==> (#[trigger] meta[j]).cost != ScorerCost::Cheap)
    } else {
        None
    }
}

fn find_first_cheap(meta: &[AxisMeta]) -> (r: Option<usize>)
    ensures
        match r {
            Some(i) => i < meta@.len() && meta@[i as int].cost == ScorerCost::Cheap && forall|j: int|
                0 <= j < i ==> (#[trigger] meta@[j]).cost != ScorerCost::Cheap,
            None => !has_cheap(meta@),
        },
{
    let mut i: usize = 0;
    while i < meta.len()
        invariant
            i <= meta@.len(),
            forall|t: int| 0 <= t < i ==> (#[trigger] meta@[t]).cost != ScorerCost::Cheap,
        decreases meta@.len() - i,
    {
        if meta[i].cost == ScorerCost::Cheap {
            return Some(i);
        }
        i += 1;
    }
    None
}

proof fn lemma_first_cheap(meta: Seq<AxisMeta>, i: int)
    requires
        0 <= i < meta.len(),
        meta[i].cost == ScorerCost::Cheap,
        forall|j: int| 0 <= j < i ==> (#[trigger] meta[j]).cost != ScorerCost::Cheap,
    ensures
        first_cheap(meta) == Some(i),
{
    assert(has_cheap(meta));
    let k = choose|k: int| 0 <= k < meta.len() && meta[k].cost == ScorerCost::Cheap
        && forall|j: int| 0 <= j < k ==> (#[trigger] meta[j]).cost != ScorerCost::Cheap;
    if k < i {
        assert(meta[k].cost != ScorerCost::Cheap);
    } else if k > i {
        assert(meta[i].cost != ScorerCost::Cheap);
    }
}

/// Chooses the stage-one cut: the named admission axis; otherwise, under rank fusion, the
/// first cheap axis; otherwise the streaming fusion of the cheap axes.
pub fn resolve_admission(meta: &[AxisMeta], method: FusionMethod, admission: &Option<ScorerId>) -> (r:
    AdmissionKey)
    requires
        admission_fault(meta@, method, *admission) is None,
    ensures
        match *admission {
            Some(id) => r == AdmissionKey::Scorer(first_named(meta@, id@)->0 as usize),
            None => if method == FusionMethod::Rrf {
                r == AdmissionKey::Scorer(first_cheap(meta@)->0 as usize)
            } else {
                r == AdmissionKey::StreamingFusion
            },
        },
{
    match admission {
        Some(id) => {
            let p = position_of(meta, id);
            match p {
                Some(i) => {
                    proof {
                        lemma_first_named(meta@, id@, i as int);
                    }
                    AdmissionKey::Scorer(i)
                },
                None => AdmissionKey::Scorer(0),
            }
        },
        None => {
            if method == FusionMethod::Rrf {
                match find_first_cheap(meta) {
                    Some(i) => {
                        proof {
                            lemma_first_cheap(meta@, i as int);
                        }
                        AdmissionKey::Scorer(i)
                    },
                    None => AdmissionKey::Scorer(0),
                }
            } else {
                AdmissionKey::StreamingFusion
            }
        },
    }
}

/// Checks that a batch scorer returned one value per candidate.
pub fn check_batch(scorer: &ScorerId, expected: usize, got: usize) -> (r: Result<(), Error>)
    ensures
        match r {
            Ok(()) => expected == got,
            Err(Error::BatchLengthMismatch { scorer: s, expected: e, got: g }) => expected != got
                && s@ == scorer@ && e == expected && g == got,
            Err(_) => false,
        },
{
    if expected == got {
        Ok(())
    } else {
        Err(Error::BatchLengthMismatch { scorer: scorer.duplicate(), expected, got })
    }
}

/// How many candidates selection may take: none under a token budget (cost decides);
/// otherwise the derived count when the budget was derived, the fixed count for `TopK`, and
/// the whole pool otherwise.
pub fn count_limit(budget: BudgetShape, derived: Option<u32>, pool_len: usize) -> (r: Option<usize>)
    ensures
        r == match budget {
            BudgetShape::Tokens(_) => None,
            _ => match derived {
                Some(k) => Some(k as usize),
                None => match budget {
                    BudgetShape::TopK(k) => Some(k as usize),
                    _ => Some(pool_len),
                },
            },
        },
{
    match budget {
        BudgetShape::Tokens(_) => None,
        _ => match derived {
            Some(k) => Some(k as usize),
            None => match budget {
                BudgetShape::TopK(k) => Some(k as usize),
                _ => Some(pool_len),
            },
        },
    }
}

/// The stage-one pool size for each budget: the count (a tail-mass budget counts its
/// fallback, at least one) times the multiplier, saturating at the largest `usize`, and at
/// least one. A tail-mass budget sizes the pool as a fixed count of its fallback would, and
/// a token budget as a fixed count of its limit.
pub proof fn lemma_pool_size_table(k: u32, epsilon_in_range: bool, m: u32)
    ensures
        ({
            let p: nat = (k as nat) * (m as nat);
            pool_size_for(BudgetShape::TopK(k), m) == if p == 0 {
                1
            } else if p > usize::MAX {
                usize::MAX as nat
            } else {
                p
            }
        }),
        ({
            let f: nat = if k == 0 { 1 } else { k as nat };
            let p: nat = f * (m as nat);
            pool_size_for(BudgetShape::TailMass { epsilon_in_range, fallback_k: k }, m) == if p
                == 0 {
                1
            } else if p > usize::MAX {
                usize::MAX as nat
            } else {
                p
            }
        }),
        k >= 1 ==> pool_size_for(BudgetShape::TailMass { epsilon_in_range, fallback_k: k }, m)
            == pool_size_for(BudgetShape::TopK(k), m),
        pool_size_for(BudgetShape::TailMass { epsilon_in_range, fallback_k: 0 }, m)
            == pool_size_for(BudgetShape::TopK(1), m),
        pool_size_for(BudgetShape::Tokens(k), m) == pool_size_for(BudgetShape::TopK(k), m),
{
}

/// The pool holds at least one and at most `usize::MAX` candidates, and a larger
/// multiplier never gives a smaller pool.
pub proof fn lemma_pool_size_bounds(budget: BudgetShape, m1: u32, m2: u32)
    ensures
        1 <= pool_size_for(budget, m1) <= usize::MAX,
        m1 <= m2 ==> pool_size_for(budget, m1) <= pool_size_for(budget, m2),
{
    let c = budget_count(budget);
    assert(c * (m1 as nat) <= c * (m2 as nat) || m1 > m2) by (nonlinear_arith)
        requires
            c >= 0,
    ;
}

/// Axes with distinct names, all cheap and on the unit scale, pass validation under every
/// fusion method, without weights or a named admission axis, with a nonzero multiplier and a
/// budget that makes sense (a positive count, an epsilon in range, or tokens with costs).
pub proof fn lemma_plain_axes_validate(
    meta: Seq<AxisMeta>,
    method: FusionMethod,
    pool_multiplier: u32,
    budget: BudgetShape,
    has_cost: bool,
)
    requires
        meta.len() > 0,
        forall|i: int| 0 <= i < meta.len() ==> (#[trigger] meta[i]).scale == ScoreScale::Unit,
        forall|i: int| 0 <= i < meta.len() ==> (#[trigger] meta[i]).cost == ScorerCost::Cheap,
        forall|i: int, j: int| 0 <= i < j < meta.len() ==> meta[i].id@ != meta[j].id@,
        pool_multiplier > 0,
        match budget {
            BudgetShape::TopK(k) => k > 0,
            BudgetShape::TailMass { epsilon_in_range, .. } => epsilon_in_range,
            BudgetShape::Tokens(_) => has_cost,
        },
    ensures
        first_fault(meta, method, Seq::empty(), None, pool_multiplier, budget, has_cost) is None,
{
    lemma_plain_axes_no_fault(meta, method, 0);
    assert(meta[0].cost == ScorerCost::Cheap);
}

proof fn lemma_plain_axes_no_fault(meta: Seq<AxisMeta>, method: FusionMethod, i: int)
    requires
        0 <= i,
        forall|t: int| 0 <= t < meta.len() ==> (#[trigger] meta[t]).scale == ScoreScale::Unit,
        forall|a: int, b: int| 0 <= a < b < meta.len() ==> meta[a].id@ != meta[b].id@,
    ensures
        axis_fault(meta, method, i) is None,
    decreases meta.len() - i,
{
    if i < meta.len() {
        assert(!named_before(meta, i, meta[i].id@)) by {
            if named_before(meta, i, meta[i].id@) {
                let j = choose|j: int| 0 <= j < i && (#[trigger] meta[j]).id@ == meta[i].id@;
                assert(meta[j].id@ != meta[i].id@);
            }
        }
        assert(meta[i].scale == ScoreScale::Unit);
        lemma_plain_axes_no_fault(meta, method, i + 1);
    }
}

} // verus!
