use rust_multi_ranking_engine::audit::{ranked_json, rejection_json, InputText, TermText};
use rust_multi_ranking_engine::candidate::CandidateId;
use rust_multi_ranking_engine::constraint::ConstraintId;
use rust_multi_ranking_engine::evidence::{
    accounts_for_all, RejectCounts, RejectReason, RejectionLog, Rejections,
};
use rust_multi_ranking_engine::score::ScorerId;

#[test]
fn counts_stay_exact_whatever_the_retention_policy_is() {
    let mut counts = RejectCounts::default();
    counts.record(&RejectReason::OutOfPool);
    counts.record(&RejectReason::OutOfPool);
    counts.record(&RejectReason::Outranked);
    assert_eq!(counts.total(), 3);
    assert_eq!(counts.out_of_pool, 2);
}

#[test]
fn every_reason_has_its_own_kind_and_counter() {
    let reasons = vec![
        (RejectReason::NotScored(ScorerId::new("a")), "not_scored"),
        (RejectReason::UnaryConstraint(ConstraintId::new("u")), "unary_constraint"),
        (RejectReason::SetConstraint(ConstraintId::new("s")), "set_constraint"),
        (RejectReason::BelowThreshold, "below_threshold"),
        (RejectReason::Outranked, "outranked"),
        (RejectReason::OutOfPool, "out_of_pool"),
    ];
    let mut counts = RejectCounts::zero();
    for (r, kind) in &reasons {
        assert_eq!(r.kind(), *kind);
        counts.record(r);
    }
    assert_eq!(counts.total(), 6);
    assert_eq!(
        [
            counts.not_scored,
            counts.unary_constraint,
            counts.set_constraint,
            counts.below_threshold,
            counts.outranked,
            counts.out_of_pool
        ],
        [1; 6]
    );
}

#[test]
fn reasons_render_as_audit_json() {
    assert_eq!(
        RejectReason::NotScored(ScorerId::new("cross")).to_json(),
        "{\"kind\":\"not_scored\",\"scorer\":\"cross\"}"
    );
    assert_eq!(
        RejectReason::SetConstraint(ConstraintId::new("max_per_source")).to_json(),
        "{\"kind\":\"set_constraint\",\"constraint\":\"max_per_source\"}"
    );
    assert_eq!(
        RejectReason::UnaryConstraint(ConstraintId::new("a\"b")).to_json(),
        "{\"kind\":\"unary_constraint\",\"constraint\":\"a\\\"b\"}"
    );
    assert_eq!(RejectReason::OutOfPool.to_json(), "{\"kind\":\"out_of_pool\"}");
    assert_eq!(RejectReason::BelowThreshold.to_json(), "{\"kind\":\"below_threshold\"}");
}

#[test]
fn counts_stay_exact_when_details_are_dropped() {
    let mut keep = RejectionLog::new(Rejections::Keep);
    let mut count = RejectionLog::new(Rejections::Count);
    let mut sample = RejectionLog::new(Rejections::Sample(2));
    for i in 0..5u32 {
        let reason = if i % 2 == 0 { RejectReason::OutOfPool } else { RejectReason::Outranked };
        keep.record(&reason, i);
        count.record(&reason, i);
        sample.record(&reason, i);
    }
    let (k, kc) = keep.into_parts();
    let (c, cc) = count.into_parts();
    let (s, sc) = sample.into_parts();
    assert_eq!(k, vec![0, 1, 2, 3, 4]);
    assert!(c.is_empty());
    assert_eq!(s, vec![0, 1]);
    assert_eq!(kc, cc);
    assert_eq!(cc, sc);
    assert_eq!(sc.total(), 5);
    assert_eq!(sc.out_of_pool, 3);
    assert_eq!(sc.outranked, 2);
}

#[test]
fn retention_decision_follows_the_policy() {
    assert!(Rejections::Keep.retains(1_000_000));
    assert!(!Rejections::Count.retains(0));
    assert!(Rejections::Sample(3).retains(2));
    assert!(!Rejections::Sample(3).retains(3));
    assert_eq!(Rejections::default(), Rejections::Keep);
}

#[test]
fn completeness_compares_selected_plus_rejected_with_input() {
    let mut counts = RejectCounts::zero();
    counts.record(&RejectReason::OutOfPool);
    counts.record(&RejectReason::BelowThreshold);
    assert!(accounts_for_all(3, &counts, 5));
    assert!(!accounts_for_all(3, &counts, 6));
    assert!(accounts_for_all(0, &RejectCounts::zero(), 0));
}

#[test]
fn a_ranked_row_carries_the_missing_axis_and_its_policy() {
    let scores = vec![
        (ScorerId::new("semantic"), Some("0.94".to_string())),
        (ScorerId::new("recency"), None),
    ];
    let terms = vec![TermText {
        scorer: ScorerId::new("semantic"),
        input: InputText::Rank(1),
        weight: "1.0".to_string(),
        contribution: "0.016393".to_string(),
    }];
    let json = ranked_json(
        &CandidateId::text("doc-3141"),
        3,
        "0.913",
        &scores,
        "skip",
        "rrf",
        Some("60.0"),
        &terms,
        &[ConstraintId::new("max_per_source")],
    );
    assert!(json.contains("\"candidate\":\"doc-3141\""));
    assert!(json.contains("\"recency\":null"));
    assert!(json.contains("\"missing_policy\":\"skip\""));
    assert!(json.contains("\"method\":\"rrf\""));
    assert!(json.contains("\"max_per_source\":\"pass\""));
}

#[test]
fn a_ranked_row_renders_exactly() {
    let scores = vec![(ScorerId::new("relevance"), Some("0.9".to_string()))];
    let terms = vec![
        TermText {
            scorer: ScorerId::new("relevance"),
            input: InputText::Value("0.9".to_string()),
            weight: "1.0".to_string(),
            contribution: "0.9".to_string(),
        },
        TermText {
            scorer: ScorerId::new("authority"),
            input: InputText::Skipped,
            weight: "0.0".to_string(),
            contribution: "0.0".to_string(),
        },
    ];
    let json = ranked_json(
        &CandidateId::num(7),
        1,
        "0.9",
        &scores,
        "skip",
        "weighted_sum",
        None,
        &terms,
        &[],
    );
    assert_eq!(
        json,
        "{\"candidate\":\"7\",\"rank\":1,\"fused\":0.9,\"scores\":{\"relevance\":0.9},\
         \"missing_policy\":\"skip\",\"fusion\":{\"method\":\"weighted_sum\",\"terms\":[\
         {\"scorer\":\"relevance\",\"input\":{\"kind\":\"value\",\"value\":0.9},\"weight\":1.0,\
         \"contribution\":0.9},{\"scorer\":\"authority\",\"input\":{\"kind\":\"skipped\"},\
         \"weight\":0.0,\"contribution\":0.0}]},\"constraints\":{}}"
    );
}

#[test]
fn a_rejection_renders_its_reason_and_a_missing_score_as_null() {
    let json = rejection_json(
        &CandidateId::text("doc-\"1\""),
        &RejectReason::SetConstraint(ConstraintId::new("max_per_source")),
        Some("0.25"),
    );
    assert_eq!(
        json,
        "{\"candidate\":\"doc-\\\"1\\\"\",\"reason\":{\"kind\":\"set_constraint\",\
         \"constraint\":\"max_per_source\"},\"fused\":0.25}"
    );
    let json = rejection_json(&CandidateId::num(4), &RejectReason::OutOfPool, None);
    assert_eq!(json, "{\"candidate\":\"4\",\"reason\":{\"kind\":\"out_of_pool\"},\"fused\":null}");
}
