use rust_multi_ranking_engine::config::{
    check_batch, count_limit, pool_capacity, resolve_admission, validate_config, AdmissionKey,
    AxisMeta, BudgetShape,
};
use rust_multi_ranking_engine::error::Error;
use rust_multi_ranking_engine::fuse::FusionMethod;
use rust_multi_ranking_engine::score::{first_missing, ScoreScale, ScorerCost, ScorerId};

fn axis(name: &str, scale: ScoreScale, cost: ScorerCost) -> AxisMeta {
    AxisMeta { id: ScorerId::new(name), scale, cost }
}

fn check(meta: &[AxisMeta], method: FusionMethod) -> Result<(), Error> {
    validate_config(meta, method, &[], &None, 32, BudgetShape::TopK(10), false)
}

#[test]
fn an_unbounded_axis_cannot_enter_a_weighted_sum() {
    let meta = vec![
        axis("relevance", ScoreScale::Unit, ScorerCost::Cheap),
        axis("logit", ScoreScale::Unbounded, ScorerCost::Cheap),
    ];
    assert_eq!(
        check(&meta, FusionMethod::WeightedSum),
        Err(Error::IncompatibleScale {
            scorer: ScorerId::new("logit"),
            scale: ScoreScale::Unbounded,
            fusion: "weighted_sum"
        })
    );
    assert!(matches!(check(&meta, FusionMethod::Max), Err(Error::IncompatibleScale { .. })));
    assert_eq!(check(&meta, FusionMethod::Rrf), Ok(()));
}

#[test]
fn rrf_accepts_every_scale_and_the_others_do_not() {
    for scale in [ScoreScale::Unit, ScoreScale::Unbounded, ScoreScale::Rank] {
        assert!(FusionMethod::Rrf.accepts(scale));
    }
    assert!(FusionMethod::WeightedSum.accepts(ScoreScale::Unit));
    assert!(!FusionMethod::WeightedSum.accepts(ScoreScale::Unbounded));
    assert!(!FusionMethod::WeightedSum.accepts(ScoreScale::Rank));
    assert!(!FusionMethod::Max.accepts(ScoreScale::Rank));
    assert_eq!(FusionMethod::Rrf.name(), "rrf");
    assert_eq!(FusionMethod::Max.name(), "max");
}

#[test]
fn an_engine_without_scorers_is_an_error() {
    assert_eq!(check(&[], FusionMethod::Rrf), Err(Error::NoScorers));
}

#[test]
fn a_duplicate_scorer_identifier_is_an_error() {
    let meta = vec![
        axis("relevance", ScoreScale::Unit, ScorerCost::Cheap),
        axis("relevance", ScoreScale::Unit, ScorerCost::Cheap),
    ];
    assert_eq!(
        check(&meta, FusionMethod::Rrf),
        Err(Error::DuplicateScorer(ScorerId::new("relevance")))
    );
}

#[test]
fn a_weight_pointing_at_nothing_is_an_error() {
    let meta = vec![axis("relevance", ScoreScale::Unit, ScorerCost::Cheap)];
    let weights = vec![ScorerId::new("relevance"), ScorerId::new("ghost")];
    assert_eq!(
        validate_config(&meta, FusionMethod::WeightedSum, &weights, &None, 32, BudgetShape::TopK(5), false),
        Err(Error::UnknownWeight(ScorerId::new("ghost")))
    );
}

#[test]
fn an_expensive_admission_scorer_is_an_error() {
    let meta = vec![
        axis("relevance", ScoreScale::Unit, ScorerCost::Cheap),
        axis("cross", ScoreScale::Unit, ScorerCost::Expensive),
    ];
    let admission = Some(ScorerId::new("cross"));
    assert_eq!(
        validate_config(&meta, FusionMethod::Rrf, &[], &admission, 32, BudgetShape::TopK(5), false),
        Err(Error::ExpensiveAdmissionScorer(ScorerId::new("cross")))
    );
    let unknown = Some(ScorerId::new("nope"));
    assert_eq!(
        validate_config(&meta, FusionMethod::Rrf, &[], &unknown, 32, BudgetShape::TopK(5), false),
        Err(Error::UnknownAdmissionScorer(ScorerId::new("nope")))
    );
}

#[test]
fn rank_fusion_without_a_cheap_axis_cannot_cut_the_pool() {
    let meta = vec![axis("cross", ScoreScale::Unit, ScorerCost::Expensive)];
    assert_eq!(check(&meta, FusionMethod::Rrf), Err(Error::NoAdmissionScorer));
    assert_eq!(check(&meta, FusionMethod::WeightedSum), Ok(()));
}

#[test]
fn budgets_and_multipliers_are_checked() {
    let meta = vec![axis("relevance", ScoreScale::Unit, ScorerCost::Cheap)];
    let v = |mult: u32, budget: BudgetShape, cost: bool| {
        validate_config(&meta, FusionMethod::WeightedSum, &[], &None, mult, budget, cost)
    };
    assert_eq!(v(0, BudgetShape::TopK(3), false), Err(Error::InvalidPoolMultiplier));
    assert!(matches!(v(32, BudgetShape::TopK(0), false), Err(Error::InvalidBudget(_))));
    assert!(matches!(
        v(32, BudgetShape::TailMass { epsilon_in_range: false, fallback_k: 3 }, false),
        Err(Error::InvalidBudget(_))
    ));
    assert!(matches!(v(32, BudgetShape::Tokens(10), false), Err(Error::InvalidBudget(_))));
    assert_eq!(v(32, BudgetShape::Tokens(10), true), Ok(()));
    assert_eq!(v(32, BudgetShape::TailMass { epsilon_in_range: true, fallback_k: 0 }, false), Ok(()));
}

#[test]
fn pool_capacity_saturates_and_is_at_least_one() {
    assert_eq!(pool_capacity(BudgetShape::TopK(10), 32), 320);
    assert_eq!(pool_capacity(BudgetShape::TailMass { epsilon_in_range: true, fallback_k: 0 }, 8), 8);
    assert_eq!(pool_capacity(BudgetShape::Tokens(0), 8), 1);
    assert_eq!(pool_capacity(BudgetShape::Tokens(900), 4), 3600);
    assert_eq!(
        pool_capacity(BudgetShape::TopK(u32::MAX), u32::MAX),
        (u32::MAX as u128 * u32::MAX as u128).min(usize::MAX as u128) as usize
    );
}

#[test]
fn the_admission_scorer_is_recorded_even_when_it_was_chosen_for_you() {
    let meta = vec![
        axis("cross", ScoreScale::Unit, ScorerCost::Expensive),
        axis("relevance", ScoreScale::Unit, ScorerCost::Cheap),
        axis("authority", ScoreScale::Unit, ScorerCost::Cheap),
    ];
    assert_eq!(resolve_admission(&meta, FusionMethod::Rrf, &None), AdmissionKey::Scorer(1));
    assert_eq!(
        resolve_admission(&meta, FusionMethod::Rrf, &Some(ScorerId::new("authority"))),
        AdmissionKey::Scorer(2)
    );
    assert_eq!(
        resolve_admission(&meta, FusionMethod::WeightedSum, &None),
        AdmissionKey::StreamingFusion
    );
}

#[test]
fn a_batch_result_of_the_wrong_length_is_an_error() {
    let id = ScorerId::new("cross_encoder");
    assert_eq!(check_batch(&id, 4, 4), Ok(()));
    assert_eq!(
        check_batch(&id, 4, 3),
        Err(Error::BatchLengthMismatch { scorer: ScorerId::new("cross_encoder"), expected: 4, got: 3 })
    );
}

#[test]
fn the_count_limit_follows_the_budget() {
    assert_eq!(count_limit(BudgetShape::TopK(5), None, 100), Some(5));
    assert_eq!(count_limit(BudgetShape::Tokens(5), Some(3), 100), None);
    assert_eq!(
        count_limit(BudgetShape::TailMass { epsilon_in_range: true, fallback_k: 9 }, Some(4), 100),
        Some(4)
    );
    assert_eq!(
        count_limit(BudgetShape::TailMass { epsilon_in_range: true, fallback_k: 9 }, None, 100),
        Some(100)
    );
}

#[test]
fn the_first_missing_score_is_found() {
    assert_eq!(first_missing::<u32>(&[]), None);
    assert_eq!(first_missing(&[Some(1u32), Some(2)]), None);
    assert_eq!(first_missing(&[Some(1u32), None, None]), Some(1));
    assert_eq!(first_missing::<u32>(&[None]), Some(0));
}
