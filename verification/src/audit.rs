//! The audit JSON of a selected row and of a rejection.
//!
//! Numbers that are floats arrive already rendered (a float, or `null` when it is not
//! finite); this module frames them, names and identifiers into JSON objects.

use vstd::prelude::*;

use crate::candidate::{id_display, CandidateId};
use crate::constraint::ConstraintId;
use crate::evidence::{reason_json, RejectReason};
use crate::score::ScorerId;
use crate::text::{decimal, json_quoted, json_string, write_decimal};

verus! {

broadcast use vstd::string::group_string_axioms;

/// What one axis put into a fusion, with its float already rendered.
pub enum InputText {
    /// A scorer's value.
    Value(String),
    /// A one-based rank.
    Rank(u32),
    /// An imputed value.
    Imputed(String),
    /// A skipped axis.
    Skipped,
}

/// One fusion term, with its floats already rendered.
pub struct TermText {
    /// The axis.
    pub scorer: ScorerId,
    /// What it put in.
    pub input: InputText,
    /// Its effective weight.
    pub weight: String,
    /// Its contribution.
    pub contribution: String,
}

/// The JSON object of a fusion input.
pub open spec fn input_json(i: InputText) -> Seq<char> {
    match i {
        InputText::Value(v) => "{\"kind\":\"value\",\"value\":"@ + v@ + "}"@,
        InputText::Rank(r) => "{\"kind\":\"rank\",\"rank\":"@ + decimal(r as nat) + "}"@,
        InputText::Imputed(v) => "{\"kind\":\"imputed\",\"value\":"@ + v@ + "}"@,
        InputText::Skipped => "{\"kind\":\"skipped\"}"@,
    }
}

/// The JSON object of a fusion term.
pub open spec fn term_json(t: TermText) -> Seq<char> {
    "{\"scorer\":"@ + json_quoted(t.scorer@) + ",\"input\":"@ + input_json(t.input) + ",\"weight\":"@
        + t.weight@ + ",\"contribution\":"@ + t.contribution@ + "}"@
}

/// One `"axis":value` entry of the scores object; a missing value is `null`.
pub open spec fn score_entry(e: (ScorerId, Option<String>)) -> Seq<char> {
    json_quoted(e.0@) + ":"@ + match e.1 {
        Some(v) => v@,
        None => "null"@,
    }
}

/// The score entries, comma-separated.
pub open spec fn scores_joined(s: Seq<(ScorerId, Option<String>)>) -> Seq<char>
    decreases s.len(),
{
    if s.len() == 0 {
        Seq::empty()
    } else if s.len() == 1 {
        score_entry(s[0])
    } else {
        scores_joined(s.drop_last()) + ","@ + score_entry(s.last())
    }
}

/// The term objects, comma-separated.
pub open spec fn terms_joined(s: Seq<TermText>) -> Seq<char>
    decreases s.len(),
{
    if s.len() == 0 {
        Seq::empty()
    } else if s.len() == 1 {
        term_json(s[0])
    } else {
        terms_joined(s.drop_last()) + ","@ + term_json(s.last())
    }
}

/// The `"constraint":"pass"` entries, comma-separated.
pub open spec fn passes_joined(s: Seq<ConstraintId>) -> Seq<char>
    decreases s.len(),
{
    if s.len() == 0 {
        Seq::empty()
    } else if s.len() == 1 {
        json_quoted(s[0]@) + ":\"pass\""@
    } else {
        passes_joined(s.drop_last()) + ","@ + json_quoted(s.last()@) + ":\"pass\""@
    }
}

/// The audit JSON object of a selected row.
pub open spec fn ranked_json_spec(
    id: CandidateId,
    rank: u32,
    fused: Seq<char>,
    scores: Seq<(ScorerId, Option<String>)>,
    missing_policy: Seq<char>,
    method: Seq<char>,
    k: Option<Seq<char>>,
    terms: Seq<TermText>,
    constraints: Seq<ConstraintId>,
) -> Seq<char> {
    "{\"candidate\":"@ + json_quoted(id_display(id@)) + ",\"rank\":"@ + decimal(rank as nat)
        + ",\"fused\":"@ + fused + ",\"scores\":{"@ + scores_joined(scores) + "}"@
        + ",\"missing_policy\":"@ + json_quoted(missing_policy) + ",\"fusion\":{\"method\":"@
        + json_quoted(method) + match k {
        Some(t) => ",\"k\":"@ + t,
        None => Seq::empty(),
    } + ",\"terms\":["@ + terms_joined(terms) + "]}"@ + ",\"constraints\":{"@ + passes_joined(
        constraints,
    ) + "}"@ + "}"@
}

/// The audit JSON object of a rejection; a fused score that was never computed is `null`.
pub open spec fn rejection_json_spec(id: CandidateId, reason: RejectReason, fused: Option<Seq<char>>) -> Seq<
    char,
> {
    "{\"candidate\":"@ + json_quoted(id_display(id@)) + ",\"reason\":"@ + reason_json(reason)
        + ",\"fused\":"@ + match fused {
        Some(t) => t,
        None => "null"@,
    } + "}"@
}

fn push_input(s: &mut String, input: &InputText)
    ensures
        final(s)@ == old(s)@ + input_json(*input),
{
    let ghost before = s@;
    match input {
        InputText::Value(v) => {
            s.append("{\"kind\":\"value\",\"value\":");
            s.append(v.as_str());
            s.append("}");
        },
        InputText::Rank(r) => {
            s.append("{\"kind\":\"rank\",\"rank\":");
            write_decimal(s, *r as u64);
            s.append("}");
        },
        InputText::Imputed(v) => {
            s.append("{\"kind\":\"imputed\",\"value\":");
            s.append(v.as_str());
            s.append("}");
        },
        InputText::Skipped => {
            s.append("{\"kind\":\"skipped\"}");
        },
    }
    assert(s@ =~= before + input_json(*input));
}

fn push_term(s: &mut String, t: &TermText)
    ensures
        final(s)@ == old(s)@ + term_json(*t),
{
    let ghost before = s@;
    s.append("{\"scorer\":");
    let q = json_string(t.scorer.as_str());
    s.append(q.as_str());
    s.append(",\"input\":");
    push_input(s, &t.input);
    s.append(",\"weight\":");
    s.append(t.weight.as_str());
    s.append(",\"contribution\":");
    s.append(t.contribution.as_str());
    s.append("}");
    assert(s@ =~= before + term_json(*t));
}

fn push_scores(s: &mut String, scores: &[(ScorerId, Option<String>)])
    ensures
        final(s)@ == old(s)@ + scores_joined(scores@),
{
    let ghost before = s@;
    let mut i: usize = 0;
    while i < scores.len()
        invariant
            i <= scores@.len(),
            s@ == before + scores_joined(scores@.take(i as int)),
        decreases scores@.len() - i,
    {
        let ghost mid = s@;
        if i > 0 {
            s.append(",");
        }
        let q = json_string(scores[i].0.as_str());
        s.append(q.as_str());
        s.append(":");
        match &scores[i].1 {
            Some(v) => s.append(v.as_str()),
            None => s.append("null"),
        }
        proof {
            let t = scores@.take(i + 1);
            assert(t.drop_last() =~= scores@.take(i as int));
            assert(t.last() == scores@[i as int]);
            if i == 0 {
                assert(mid == before + Seq::<char>::empty());
                assert(s@ =~= before + score_entry(scores@[0]));
                assert(t.len() == 1 && t[0] == scores@[0]);
            } else {
                assert(s@ =~= mid + ","@ + score_entry(scores@[i as int]));
            }
        }
        i += 1;
    }
    assert(scores@.take(scores@.len() as int) =~= scores@);
}

fn push_terms(s: &mut String, terms: &[TermText])
    ensures
        final(s)@ == old(s)@ + terms_joined(terms@),
{
    let ghost before = s@;
    let mut i: usize = 0;
    while i < terms.len()
        invariant
            i <= terms@.len(),
            s@ == before + terms_joined(terms@.take(i as int)),
        decreases terms@.len() - i,
    {
        let ghost mid = s@;
        if i > 0 {
            s.append(",");
        }
        let ghost comma = s@;
        push_term(s, &terms[i]);
        proof {
            let t = terms@.take(i + 1);
            assert(t.drop_last() =~= terms@.take(i as int));
            assert(t.last() == terms@[i as int]);
            if i == 0 {
                assert(t.len() == 1 && t[0] == terms@[0]);
                assert(s@ =~= before + term_json(terms@[0]));
            } else {
                assert(s@ =~= mid + ","@ + term_json(terms@[i as int]));
            }
        }
        i += 1;
    }
    assert(terms@.take(terms@.len() as int) =~= terms@);
}

fn push_passes(s: &mut String, constraints: &[ConstraintId])
    ensures
        final(s)@ == old(s)@ + passes_joined(constraints@),
{
    let ghost before = s@;
    let mut i: usize = 0;
    while i < constraints.len()
        invariant
            i <= constraints@.len(),
            s@ == before + passes_joined(constraints@.take(i as int)),
        decreases constraints@.len() - i,
    {
        let ghost mid = s@;
        if i > 0 {
            s.append(",");
        }
        let q = json_string(constraints[i].as_str());
        s.append(q.as_str());
        s.append(":\"pass\"");
        proof {
            let t = constraints@.take(i + 1);
            assert(t.drop_last() =~= constraints@.take(i as int));
            assert(t.last() == constraints@[i as int]);
            if i == 0 {
                assert(t.len() == 1 && t[0] == constraints@[0]);
                assert(s@ =~= before + json_quoted(constraints@[0]@) + ":\"pass\""@);
            } else {
                assert(s@ =~= mid + ","@ + json_quoted(constraints@[i as int]@) + ":\"pass\""@);
            }
        }
        i += 1;
    }
    assert(constraints@.take(constraints@.len() as int) =~= constraints@);
}

/// The audit JSON object of a selected row: identifier, rank, fused score, raw scores,
/// missing-value policy, the fusion with its terms, and the set constraints it passed.
pub fn ranked_json(
    id: &CandidateId,
    rank: u32,
    fused: &str,
    scores: &[(ScorerId, Option<String>)],
    missing_policy: &str,
    method: &str,
    k: Option<&str>,
    terms: &[TermText],
    constraints: &[ConstraintId],
) -> (s: String)
    ensures
        s@ == ranked_json_spec(
            *id,
            rank,
            fused@,
            scores@,
            missing_policy@,
            method@,
            match k {
                Some(t) => Some(t@),
                None => None,
            },
            terms@,
            constraints@,
        ),
{
    let mut s = String::new();
    s.append("{\"candidate\":");
    let shown = id.display_string();
    let q = json_string(shown.as_str());
    s.append(q.as_str());
    s.append(",\"rank\":");
    write_decimal(&mut s, rank as u64);
    s.append(",\"fused\":");
    s.append(fused);
    s.append(",\"scores\":{");
    push_scores(&mut s, scores);
    s.append("}");
    s.append(",\"missing_policy\":");
    let p = json_string(missing_policy);
    s.append(p.as_str());
    s.append(",\"fusion\":{\"method\":");
    let m = json_string(method);
    s.append(m.as_str());
    let ghost before_k = s@;
    match k {
        Some(t) => {
            s.append(",\"k\":");
            s.append(t);
        },
        None => {},
    }
    assert(s@ =~= before_k + match k {
        Some(t) => ",\"k\":"@ + t@,
        None => Seq::<char>::empty(),
    });
    s.append(",\"terms\":[");
    push_terms(&mut s, terms);
    s.append("]}");
    s.append(",\"constraints\":{");
    push_passes(&mut s, constraints);
    s.append("}");
    s.append("}");
    assert(s@ =~= ranked_json_spec(
        *id,
        rank,
        fused@,
        scores@,
        missing_policy@,
        method@,
        match k {
            Some(t) => Some(t@),
            None => None,
        },
        terms@,
        constraints@,
    ));
    s
}

/// The audit JSON object of a rejection: identifier, reason, and the fused score or `null`.
pub fn rejection_json(id: &CandidateId, reason: &RejectReason, fused: Option<&str>) -> (s: String)
    ensures
        s@ == rejection_json_spec(
            *id,
            *reason,
            match fused {
                Some(t) => Some(t@),
                None => None,
            },
        ),
{
    let mut s = String::new();
    s.append("{\"candidate\":");
    let shown = id.display_string();
    let q = json_string(shown.as_str());
    s.append(q.as_str());
    s.append(",\"reason\":");
    let r = reason.to_json();
    s.append(r.as_str());
    s.append(",\"fused\":");
    match fused {
        Some(t) => s.append(t),
        None => s.append("null"),
    }
    s.append("}");
    assert(s@ =~= rejection_json_spec(
        *id,
        *reason,
        match fused {
            Some(t) => Some(t@),
            None => None,
        },
    ));
    s
}

/// A single score entry is rendered alone, and joining two nonempty runs of entries puts
/// exactly one comma between them: the scores object is the entries separated by commas.
pub proof fn lemma_scores_joined_split(
    a: Seq<(ScorerId, Option<String>)>,
    b: Seq<(ScorerId, Option<String>)>,
)
    requires
        a.len() > 0,
        b.len() > 0,
    ensures
        scores_joined(seq![b[0]]) == score_entry(b[0]),
        scores_joined(a + b) == scores_joined(a) + ","@ + scores_joined(b),
    decreases b.len(),
{
    let ab = a + b;
    if b.len() == 1 {
        assert(ab.drop_last() =~= a);
        assert(ab.last() == b[0]);
    } else {
        let b1 = b.drop_last();
        lemma_scores_joined_split(a, b1);
        assert(ab.drop_last() =~= a + b1);
        assert(ab.last() == b.last());
        assert(scores_joined(ab) =~= scores_joined(a) + ","@ + scores_joined(b));
    }
}

/// A single term is rendered alone, and joining two nonempty runs of terms puts exactly one
/// comma between them.
pub proof fn lemma_terms_joined_split(a: Seq<TermText>, b: Seq<TermText>)
    requires
        a.len() > 0,
        b.len() > 0,
    ensures
        terms_joined(seq![b[0]]) == term_json(b[0]),
        terms_joined(a + b) == terms_joined(a) + ","@ + terms_joined(b),
    decreases b.len(),
{
    let ab = a + b;
    if b.len() == 1 {
        assert(ab.drop_last() =~= a);
        assert(ab.last() == b[0]);
    } else {
        let b1 = b.drop_last();
        lemma_terms_joined_split(a, b1);
        assert(ab.drop_last() =~= a + b1);
        assert(ab.last() == b.last());
        assert(terms_joined(ab) =~= terms_joined(a) + ","@ + terms_joined(b));
    }
}

/// A single passed constraint is rendered as `"name":"pass"`, and joining two nonempty runs
/// puts exactly one comma between them.
pub proof fn lemma_passes_joined_split(a: Seq<ConstraintId>, b: Seq<ConstraintId>)
    requires
        a.len() > 0,
        b.len() > 0,
    ensures
        passes_joined(seq![b[0]]) == json_quoted(b[0]@) + ":\"pass\""@,
        passes_joined(a + b) == passes_joined(a) + ","@ + passes_joined(b),
    decreases b.len(),
{
    let ab = a + b;
    if b.len() == 1 {
        assert(ab.drop_last() =~= a);
        assert(ab.last() == b[0]);
    } else {
        let b1 = b.drop_last();
        lemma_passes_joined_split(a, b1);
        assert(ab.drop_last() =~= a + b1);
        assert(ab.last() == b.last());
        assert(passes_joined(ab) =~= passes_joined(a) + ","@ + passes_joined(b));
    }
}

/// No entries render as nothing: an empty scores object, term list or constraint object
/// has nothing between its brackets.
pub proof fn lemma_joined_empty()
    ensures
        scores_joined(Seq::<(ScorerId, Option<String>)>::empty()) == Seq::<char>::empty(),
        terms_joined(Seq::<TermText>::empty()) == Seq::<char>::empty(),
        passes_joined(Seq::<ConstraintId>::empty()) == Seq::<char>::empty(),
{
}

} // verus!
