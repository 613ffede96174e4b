use rust_multi_ranking_engine::constraint::{
    first_unary_refusal, group_counts, max_per_group, max_total, predicate, ConstraintId,
    LowerBound, Requirement, SetConstraint, UnaryConstraint,
};

#[derive(Debug)]
struct Doc {
    source: &'static str,
    authority: f32,
}

fn doc(source: &'static str, authority: f32) -> Doc {
    Doc { source, authority }
}

fn e_same_source() -> Doc {
    doc("arxiv", 1.0)
}

#[test]
fn max_per_group_blocks_the_fourth_from_one_source() {
    let c = max_per_group("max_per_source", 3, |d: &Doc| d.source);
    let a = doc("arxiv", 1.0);
    let b = doc("arxiv", 1.0);
    let d = doc("arxiv", 1.0);
    let e = doc("blog", 1.0);

    assert!(c.admits(&[], &a));
    assert!(c.admits(&[&a], &b));
    assert!(c.admits(&[&a, &b], &d));
    assert!(!c.admits(&[&a, &b, &d], &e_same_source()));
    assert!(c.admits(&[&a, &b, &d], &e));
    assert!(c.is_matroid());
}

#[test]
fn zero_max_admits_nothing() {
    let c = max_per_group("none", 0, |d: &Doc| d.source);
    assert!(!c.admits(&[], &doc("arxiv", 1.0)));
}

#[test]
fn predicate_makes_a_unary_constraint() {
    let c = predicate("min_authority", |d: &Doc| d.authority >= 0.3);
    assert!(c.allows(&doc("x", 0.5)));
    assert!(!c.allows(&doc("x", 0.1)));
    assert_eq!(c.id().as_str(), "min_authority");
}

#[test]
fn requirement_reports_its_predicate_and_count() {
    let r = Requirement::at_least("needs_arxiv", 2, |d: &Doc| d.source == "arxiv");
    assert_eq!(r.needed(), 2);
    assert!(r.satisfied_by(&doc("arxiv", 1.0)));
    assert!(!r.satisfied_by(&doc("blog", 1.0)));
    assert_eq!(r.id().as_str(), "needs_arxiv");
    assert_eq!(r.bound_needed(), 2);
    assert!(r.bound_matches(&doc("arxiv", 0.0)));
}

#[test]
fn max_total_counts_the_selection_only() {
    let c = max_total("two", 2);
    let a = doc("x", 0.0);
    assert!(SetConstraint::<Doc>::admits(&c, &[], &a));
    assert!(SetConstraint::<Doc>::admits(&c, &[&a], &a));
    assert!(!SetConstraint::<Doc>::admits(&c, &[&a, &a], &a));
    assert!(SetConstraint::<Doc>::is_matroid(&c));
    assert_eq!(SetConstraint::<Doc>::id(&c).as_str(), "two");
}

#[test]
fn group_counts_count_each_key() {
    let a = doc("arxiv", 0.0);
    let b = doc("blog", 0.0);
    let c = doc("arxiv", 0.0);
    let counts = group_counts(&[&a, &b, &c], |d: &Doc| d.source);
    assert_eq!(counts.len(), 2);
    assert_eq!(counts["arxiv"], 2);
    assert_eq!(counts["blog"], 1);
    assert!(group_counts(&[], |d: &Doc| d.source).is_empty());
}

#[test]
fn constraint_ids_keep_their_names() {
    let id = ConstraintId::new("max_per_source");
    assert_eq!(id.as_str(), "max_per_source");
    assert_eq!(id.duplicate(), id);
}

#[test]
fn the_first_refusing_unary_constraint_is_reported() {
    let unary: Vec<Box<dyn UnaryConstraint<Doc>>> = vec![
        Box::new(predicate("trusted", |d: &Doc| d.authority > 0.5)),
        Box::new(predicate("not_blog", |d: &Doc| d.source != "blog")),
        Box::new(predicate("not_news", |d: &Doc| d.source != "news")),
    ];
    assert_eq!(first_unary_refusal(&unary, &doc("arxiv", 1.0)), None);
    assert_eq!(first_unary_refusal(&unary, &doc("blog", 1.0)), Some(1));
    assert_eq!(first_unary_refusal(&unary, &doc("blog", 0.1)), Some(0));
    assert_eq!(first_unary_refusal(&unary, &doc("news", 0.9)), Some(2));
}
