use rust_multi_ranking_engine::candidate::{CandidateId, IdOrder};
use rust_multi_ranking_engine::text::{decimal_string, json_string};

#[test]
fn num_precedes_text_and_orders_within_variant() {
    let mut ids = vec![
        CandidateId::text("b"),
        CandidateId::num(9),
        CandidateId::text("a"),
        CandidateId::num(2),
    ];
    ids.sort();
    assert_eq!(
        ids,
        vec![
            CandidateId::num(2),
            CandidateId::num(9),
            CandidateId::text("a"),
            CandidateId::text("b"),
        ]
    );
}

#[test]
fn display_drops_the_variant() {
    assert_eq!(CandidateId::num(7).display_string(), "7");
    assert_eq!(CandidateId::text("doc-3141").display_string(), "doc-3141");
}

#[test]
fn json_escapes_quotes_and_control_characters() {
    assert_eq!(json_string("a\"b"), "\"a\\\"b\"");
    assert_eq!(json_string("a\nb"), "\"a\\nb\"");
    assert_eq!(json_string("a\u{1}b"), "\"a\\u0001b\"");
}

#[test]
fn json_escapes_backslash_tab_and_return() {
    assert_eq!(json_string("a\\b\tc\rd"), "\"a\\\\b\\tc\\rd\"");
    assert_eq!(json_string("\u{1f}"), "\"\\u001f\"");
    assert_eq!(json_string("é ok"), "\"é ok\"");
    assert_eq!(json_string(""), "\"\"");
}

#[test]
fn compare_agrees_with_the_derived_order() {
    let ids = vec![
        CandidateId::num(0),
        CandidateId::num(7),
        CandidateId::num(u64::MAX),
        CandidateId::text(""),
        CandidateId::text("a"),
        CandidateId::text("ab"),
        CandidateId::text("b"),
        CandidateId::text("é"),
    ];
    for a in &ids {
        for b in &ids {
            let expected = match a.cmp(b) {
                std::cmp::Ordering::Less => IdOrder::Less,
                std::cmp::Ordering::Equal => IdOrder::Equal,
                std::cmp::Ordering::Greater => IdOrder::Greater,
            };
            assert_eq!(a.compare(b), expected, "{a:?} vs {b:?}");
        }
    }
}

#[test]
fn decimal_rendering_has_no_leading_zeros() {
    assert_eq!(decimal_string(0), "0");
    assert_eq!(decimal_string(10), "10");
    assert_eq!(decimal_string(3141), "3141");
    assert_eq!(decimal_string(u64::MAX), "18446744073709551615");
}
