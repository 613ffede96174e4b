use rust_multi_ranking_engine::candidate::CandidateId;
use rust_multi_ranking_engine::constraint::{
    max_per_group, ConstraintId, FnConstraint, LowerBound, Requirement, SetConstraint,
};
use rust_multi_ranking_engine::error::Error;
use rust_multi_ranking_engine::evidence::RejectReason;
use rust_multi_ranking_engine::order::{order_key, sort_best_first, Keyed};
use rust_multi_ranking_engine::pool::{Admission, BoundedPool};
use rust_multi_ranking_engine::select::{
    blocking_reasons, cardinality, greedy_pack, guarantee_of, rank_positions,
    repair_requirements, set_is_feasible, settle, Factor, FnGain, FusedGain, Structure,
};

fn key_order(pairs: &[(f32, u64)], capacity: usize) -> Vec<usize> {
    let mut heap = BoundedPool::new(capacity);
    for (i, (k, id)) in pairs.iter().enumerate() {
        heap.push(order_key(k.to_bits()), CandidateId::num(*id), i);
    }
    heap.into_sorted().into_iter().map(|s| s.item).collect()
}

#[test]
fn the_heap_keeps_the_best_m_and_orders_them() {
    let out = key_order(&[(0.1, 1), (0.9, 2), (0.5, 3), (0.7, 4)], 2);
    assert_eq!(out, vec![1, 3]);
}

#[test]
fn ties_break_on_the_smaller_identifier() {
    let out = key_order(&[(0.5, 30), (0.5, 10), (0.5, 20)], 2);
    assert_eq!(out, vec![1, 2]);
}

#[test]
fn select_arrival_order_does_not_change_the_result() {
    let a = key_order(&[(0.3, 1), (0.8, 2), (0.5, 3)], 2);
    let b = key_order(&[(0.5, 3), (0.3, 1), (0.8, 2)], 2);
    assert_eq!(a, vec![1, 2]);
    assert_eq!(b, vec![2, 0]);
}

#[test]
fn a_zero_capacity_heap_admits_nothing() {
    let out = key_order(&[(0.5, 1)], 0);
    assert!(out.is_empty());
}

#[test]
fn the_pool_hands_back_what_leaves() {
    let mut pool = BoundedPool::new(2);
    assert!(matches!(pool.push(order_key(0.5f32.to_bits()), CandidateId::num(1), 'a'), Admission::Kept));
    assert!(matches!(pool.push(order_key(0.7f32.to_bits()), CandidateId::num(2), 'b'), Admission::Kept));
    match pool.push(order_key(0.9f32.to_bits()), CandidateId::num(3), 'c') {
        Admission::Evicted(e) => assert_eq!(e.item, 'a'),
        _ => panic!("the worst must leave"),
    }
    match pool.push(order_key(0.1f32.to_bits()), CandidateId::num(4), 'd') {
        Admission::Refused(e) => assert_eq!(e.item, 'd'),
        _ => panic!("a worse candidate must be refused"),
    }
    assert_eq!(pool.len(), 2);
}

#[test]
fn order_keys_follow_the_float_total_order() {
    let values = [f32::NEG_INFINITY, -2.5, -0.0, 0.0, 1e-30, 0.5, 1.0, f32::INFINITY];
    for a in values {
        for b in values {
            assert_eq!(
                order_key(a.to_bits()).cmp(&order_key(b.to_bits())),
                a.total_cmp(&b),
                "{a} vs {b}"
            );
        }
    }
}

#[test]
fn sorting_is_best_first_and_keeps_every_item() {
    let items = vec![
        Keyed { key: 3, id: CandidateId::num(5), item: 'a' },
        Keyed { key: 9, id: CandidateId::num(2), item: 'b' },
        Keyed { key: 3, id: CandidateId::num(1), item: 'c' },
        Keyed { key: 1, id: CandidateId::text("x"), item: 'd' },
    ];
    let sorted: Vec<char> = sort_best_first(items).into_iter().map(|k| k.item).collect();
    assert_eq!(sorted, vec!['b', 'c', 'a', 'd']);
}

#[test]
fn guarantees_follow_the_documented_table() {
    assert_eq!(guarantee_of(Structure::Modular, 0, 0, false, false), (true, None));
    assert_eq!(guarantee_of(Structure::Modular, 1, 0, false, false), (true, None));
    assert_eq!(
        guarantee_of(Structure::Modular, 3, 0, false, false),
        (false, Some(Factor::Reciprocal(3)))
    );
    assert_eq!(
        guarantee_of(Structure::Submodular, 0, 0, false, false),
        (false, Some(Factor::OneMinusInvE))
    );
    assert_eq!(
        guarantee_of(Structure::Submodular, 1, 0, false, false),
        (false, Some(Factor::Reciprocal(2)))
    );
    assert_eq!(
        guarantee_of(Structure::Submodular, 0, 0, true, false),
        (false, Some(Factor::HalfOfOneMinusInvE))
    );
    assert_eq!(guarantee_of(Structure::Submodular, 2, 1, false, false), (false, None));
    assert_eq!(guarantee_of(Structure::Unknown, 0, 0, false, false), (false, None));
    assert_eq!(guarantee_of(Structure::Modular, 0, 0, false, true), (false, None));
}

#[test]
fn guarantee_table_covers_the_remaining_rows() {
    assert_eq!(
        guarantee_of(Structure::Submodular, 3, 0, false, false),
        (false, Some(Factor::Reciprocal(4)))
    );
    assert_eq!(
        guarantee_of(Structure::Modular, 0, 0, true, false),
        (false, Some(Factor::Reciprocal(2)))
    );
    assert_eq!(guarantee_of(Structure::Modular, 1, 0, true, false), (false, None));
}

#[derive(Debug)]
struct Doc {
    source: &'static str,
}

fn docs(sources: &[&'static str]) -> Vec<Doc> {
    sources.iter().map(|s| Doc { source: s }).collect()
}

#[test]
fn top_k_is_the_pool_prefix_without_constraints() {
    let pool = docs(&["a", "b", "c", "d"]);
    let refs: Vec<&Doc> = pool.iter().collect();
    let cs: Vec<Box<dyn SetConstraint<Doc>>> = Vec::new();
    let gains = FusedGain { keys: vec![9, 7, 7, 1] };
    let (sel, exhausted) = cardinality(&cs, &refs, Some(3), &gains);
    assert_eq!(sel, vec![0, 1, 2]);
    assert!(!exhausted);
}

#[test]
fn greedy_skips_what_a_group_cap_refuses() {
    let pool = docs(&["manual", "manual", "wiki"]);
    let refs: Vec<&Doc> = pool.iter().collect();
    let cs: Vec<Box<dyn SetConstraint<Doc>>> =
        vec![Box::new(max_per_group("one_per_source", 1, |d: &Doc| d.source))];
    let gains = FusedGain { keys: vec![9, 8, 7] };
    let (sel, exhausted) = cardinality(&cs, &refs, Some(2), &gains);
    assert_eq!(sel, vec![0, 2]);
    assert!(!exhausted);
    let reasons = blocking_reasons(&cs, &refs, &sel);
    assert_eq!(reasons[0], None);
    assert_eq!(reasons[1].as_ref().map(|c| c.as_str()), Some("one_per_source"));
    assert_eq!(reasons[2], None);
}

#[test]
fn an_exhausted_pool_says_so() {
    let pool = docs(&["a", "a", "a"]);
    let refs: Vec<&Doc> = pool.iter().collect();
    let cs: Vec<Box<dyn SetConstraint<Doc>>> =
        vec![Box::new(max_per_group("one", 1, |d: &Doc| d.source))];
    let gains = FusedGain { keys: vec![3, 2, 1] };
    let (sel, exhausted) = cardinality(&cs, &refs, Some(2), &gains);
    assert_eq!(sel, vec![0]);
    assert!(exhausted);
    let (all, exhausted) = cardinality(&Vec::new(), &refs, Some(10), &gains);
    assert_eq!(all, vec![0, 1, 2]);
    assert!(exhausted);
}

#[test]
fn packing_prefers_the_larger_key_that_still_fits() {
    let pool = docs(&["a", "b", "c"]);
    let refs: Vec<&Doc> = pool.iter().collect();
    let cs: Vec<Box<dyn SetConstraint<Doc>>> = Vec::new();
    let gains = FusedGain { keys: vec![5, 9, 4] };
    let costs = vec![3, 8, 5];
    let (sel, all) = greedy_pack(&cs, &refs, &costs, 10, &gains);
    assert_eq!(sel, vec![1]);
    assert!(!all);
    let (sel, all) = greedy_pack(&cs, &refs, &costs, 16, &gains);
    assert_eq!(sel, vec![1, 0, 2]);
    assert!(all);
}

#[test]
fn a_lower_bound_requirement_is_filled_by_swapping() {
    let pool = docs(&["arxiv", "arxiv", "arxiv", "news"]);
    let refs: Vec<&Doc> = pool.iter().collect();
    let keys = vec![9, 8, 7, 1];
    let ids: Vec<CandidateId> = (0..4).map(CandidateId::num).collect();
    let cs: Vec<Box<dyn SetConstraint<Doc>>> = Vec::new();
    let reqs: Vec<Box<dyn LowerBound<Doc>>> =
        vec![Box::new(Requirement::at_least("needs_news", 1, |d: &Doc| d.source == "news"))];
    let mut selected = vec![0, 1, 2];
    let repaired =
        repair_requirements(&cs, &reqs, &refs, &keys, &ids, Some(3), None, &mut selected).unwrap();
    assert!(repaired);
    // The worst non-matching member (position 2) leaves for the news item.
    assert_eq!(selected, vec![0, 1, 3]);
}

#[test]
fn repair_brings_in_the_best_matching_donor_first() {
    let pool = docs(&["arxiv", "arxiv", "news", "news", "news"]);
    let refs: Vec<&Doc> = pool.iter().collect();
    // The news item at position 4 has the highest key among the donors.
    let keys = vec![9, 8, 2, 3, 5];
    let ids: Vec<CandidateId> = (0..5).map(CandidateId::num).collect();
    let cs: Vec<Box<dyn SetConstraint<Doc>>> = Vec::new();
    let reqs: Vec<Box<dyn LowerBound<Doc>>> =
        vec![Box::new(Requirement::at_least("needs_news", 1, |d: &Doc| d.source == "news"))];
    let mut selected = vec![0, 1];
    let repaired =
        repair_requirements(&cs, &reqs, &refs, &keys, &ids, Some(2), None, &mut selected).unwrap();
    assert!(repaired);
    // The worse arxiv item (position 1) leaves for the best news item (position 4).
    assert_eq!(selected, vec![0, 4]);
}

#[test]
fn a_satisfied_requirement_changes_nothing() {
    let pool = docs(&["news", "arxiv"]);
    let refs: Vec<&Doc> = pool.iter().collect();
    let ids: Vec<CandidateId> = (0..2).map(CandidateId::num).collect();
    let reqs: Vec<Box<dyn LowerBound<Doc>>> =
        vec![Box::new(Requirement::at_least("needs_news", 1, |d: &Doc| d.source == "news"))];
    let mut selected = vec![0];
    let repaired =
        repair_requirements(&Vec::new(), &reqs, &refs, &[2, 1], &ids, Some(1), None, &mut selected)
            .unwrap();
    assert!(!repaired);
    assert_eq!(selected, vec![0]);
}

#[test]
fn an_unfillable_requirement_is_an_error_not_a_short_answer() {
    let pool = docs(&["arxiv", "blog"]);
    let refs: Vec<&Doc> = pool.iter().collect();
    let ids: Vec<CandidateId> = (0..2).map(CandidateId::num).collect();
    let reqs: Vec<Box<dyn LowerBound<Doc>>> =
        vec![Box::new(Requirement::at_least("impossible", 1, |d: &Doc| d.source == "nowhere"))];
    let mut selected = vec![0];
    let err = repair_requirements(&Vec::new(), &reqs, &refs, &[2, 1], &ids, Some(1), None, &mut selected)
        .unwrap_err();
    assert_eq!(
        err,
        Error::InfeasibleRequirement { id: "impossible".to_string(), needed: 1, available: 0 }
    );
}

#[test]
fn repair_respects_cost_limits() {
    let pool = docs(&["arxiv", "news", "news"]);
    let refs: Vec<&Doc> = pool.iter().collect();
    let ids: Vec<CandidateId> = (0..3).map(CandidateId::num).collect();
    let reqs: Vec<Box<dyn LowerBound<Doc>>> =
        vec![Box::new(Requirement::at_least("needs_news", 1, |d: &Doc| d.source == "news"))];
    let costs = vec![1, 50, 2];
    let mut selected = vec![0];
    let repaired = repair_requirements(
        &Vec::new(),
        &reqs,
        &refs,
        &[9, 8, 7],
        &ids,
        None,
        Some((&costs, 3)),
        &mut selected,
    )
    .unwrap();
    assert!(repaired);
    // The expensive news item does not fit; the cheap one replaces the arxiv item.
    assert_eq!(selected, vec![2]);
    assert!(set_is_feasible(&Vec::<Box<dyn SetConstraint<Doc>>>::new(), &refs, &selected, None, Some((&costs, 3))));
    assert!(!set_is_feasible(&Vec::<Box<dyn SetConstraint<Doc>>>::new(), &refs, &[1, 2], None, Some((&costs, 3))));
}

#[test]
fn rank_positions_rank_present_values_higher_first() {
    let vals = vec![Some(5), None, Some(9), Some(5)];
    let ids = vec![
        CandidateId::num(2),
        CandidateId::num(3),
        CandidateId::num(4),
        CandidateId::num(1),
    ];
    assert_eq!(rank_positions(&vals, &ids), vec![Some(3), None, Some(1), Some(2)]);
}

/// Every subset of `0..n`, as sorted position lists.
fn subsets(n: usize) -> Vec<Vec<usize>> {
    (0..(1u32 << n))
        .map(|mask| (0..n).filter(|i| mask & (1 << i) != 0).collect())
        .collect()
}

#[test]
fn greedy_dominates_every_allowed_selection_under_a_group_cap() {
    let pool = docs(&["a", "a", "b", "a", "c", "b", "c", "a"]);
    let refs: Vec<&Doc> = pool.iter().collect();
    let keys = vec![90, 85, 80, 70, 60, 55, 40, 30];
    let cs: Vec<Box<dyn SetConstraint<Doc>>> =
        vec![Box::new(max_per_group("max_per_source", 2, |d: &Doc| d.source))];
    let gains = FusedGain { keys: keys.clone() };
    for k in 1..=6usize {
        let (sel, _) = cardinality(&cs, &refs, Some(k), &gains);
        let best: u32 = sel.iter().map(|i| keys[*i]).sum();
        for other in subsets(pool.len()) {
            if other.len() > k || !set_is_feasible(&cs, &refs, &other, Some(k), None) {
                continue;
            }
            // No allowed selection has a larger total, and for every threshold the greedy
            // selection has at least as many at or above it.
            let total: u32 = other.iter().map(|i| keys[*i]).sum();
            assert!(total <= best, "k = {k}: {other:?} beats {sel:?}");
            for v in &keys {
                let ours = sel.iter().filter(|i| keys[**i] >= *v).count();
                let theirs = other.iter().filter(|i| keys[**i] >= *v).count();
                assert!(ours >= theirs, "k = {k}, threshold {v}");
            }
        }
    }
}

#[test]
fn a_closure_constraint_caps_the_running_cost() {
    let costs = [4.0f64, 3.0, 2.5, 1.0];
    let pool: Vec<usize> = (0..4).collect();
    let refs: Vec<&usize> = pool.iter().collect();
    let cap = FnConstraint::new("tokens", false, move |selected: &[&usize], c: &usize| {
        let used: f64 = selected.iter().map(|s| costs[**s]).sum();
        used + costs[*c] <= 6.0
    });
    assert!(!cap.is_matroid());
    assert_eq!(cap.id().as_str(), "tokens");
    let cs: Vec<Box<dyn SetConstraint<usize>>> = vec![Box::new(cap)];
    let gains = FusedGain { keys: vec![9, 8, 7, 6] };
    let (sel, exhausted) = cardinality(&cs, &refs, Some(4), &gains);
    // After the 4.0 item only the 1.0 item still fits; then nothing does.
    assert_eq!(sel, vec![0, 3]);
    assert!(exhausted);
}

#[test]
fn a_closure_gain_depends_on_the_selection() {
    let pool = docs(&["a", "a", "b"]);
    let refs: Vec<&Doc> = pool.iter().collect();
    let base = [10u32, 9, 5];
    // A second candidate from an already covered source is worth much less.
    let gains = FnGain::new(|selected: &[&Doc], i: usize| {
        let seen = selected.iter().any(|d| d.source == pool[i].source);
        if seen {
            base[i] / 4
        } else {
            base[i]
        }
    });
    let cs: Vec<Box<dyn SetConstraint<Doc>>> = Vec::new();
    let (sel, _) = cardinality(&cs, &refs, Some(2), &gains);
    assert_eq!(sel, vec![0, 2]);
}

#[test]
fn conflicting_requirements_end_in_an_error() {
    let pool = docs(&["news", "arxiv"]);
    let refs: Vec<&Doc> = pool.iter().collect();
    let ids: Vec<CandidateId> = (0..2).map(CandidateId::num).collect();
    let reqs: Vec<Box<dyn LowerBound<Doc>>> = vec![
        Box::new(Requirement::at_least("needs_news", 1, |d: &Doc| d.source == "news")),
        Box::new(Requirement::at_least("needs_arxiv", 1, |d: &Doc| d.source == "arxiv")),
    ];
    let mut selected = vec![0];
    // One place cannot hold both; swapping news out would break the first requirement.
    let err = repair_requirements(&Vec::new(), &reqs, &refs, &[2, 1], &ids, Some(1), None, &mut selected)
        .unwrap_err();
    assert_eq!(
        err,
        Error::InfeasibleRequirement { id: "needs_arxiv".to_string(), needed: 1, available: 1 }
    );
}

#[test]
fn settling_keeps_the_selection_order_and_gives_every_other_candidate_a_reason() {
    let pool = vec!['a', 'b', 'c', 'd'];
    let blocked = vec![None, Some(ConstraintId::new("one_per_source")), None, None];
    let (chosen, left) = settle(pool, &[2, 0], &blocked);
    assert_eq!(chosen, vec!['c', 'a']);
    assert_eq!(left.len(), 2);
    assert_eq!((left[0].position, left[0].item), (1, 'b'));
    assert_eq!(
        left[0].reason,
        RejectReason::SetConstraint(ConstraintId::new("one_per_source"))
    );
    assert_eq!((left[1].position, left[1].item), (3, 'd'));
    assert_eq!(left[1].reason, RejectReason::Outranked);
}
