//! Candidates and candidate identifiers.
//!
//! The engine knows one thing about a candidate: it has an identifier that can be ordered.
//! That order is the floor of determinism: when scores tie, the identifier decides.

use vstd::prelude::*;

use crate::text::{decimal, decimal_string};

verus! {

broadcast use vstd::string::group_string_axioms;

/// Candidate identifier.
///
/// Numbers cost nothing to copy and suit streaming; text suits audit output that has to
/// show a name such as `doc-3141`.
///
/// The order is the derived one: every [`Num`](Self::Num) precedes every
/// [`Text`](Self::Text), and within a variant values are ascending (text by code point,
/// which is also the byte order of UTF-8).
#[derive(Clone, PartialEq, Eq, PartialOrd, Ord, Hash, Debug)]
pub enum CandidateId {
    /// Integer identifier.
    Num(u64),
    /// Text identifier.
    Text(String),
}

/// The outcome of comparing two identifiers.
#[derive(Clone, Copy, PartialEq, Eq, Debug, Structural)]
pub enum IdOrder {
    /// The first precedes the second.
    Less,
    /// They are the same identifier.
    Equal,
    /// The first follows the second.
    Greater,
}

/// The mathematical value of an identifier: a number, or the characters of a name.
pub enum IdValue {
    /// A numeric identifier.
    Num(nat),
    /// A text identifier.
    Text(Seq<char>),
}

impl View for CandidateId {
    type V = IdValue;

    open spec fn view(&self) -> IdValue {
        match self {
            CandidateId::Num(v) => IdValue::Num(*v as nat),
            CandidateId::Text(s) => IdValue::Text(s@),
        }
    }
}

/// Lexicographic order of character sequences by code point; a proper prefix comes first.
pub open spec fn text_order(a: Seq<char>, b: Seq<char>) -> IdOrder
    decreases a.len(),
{
    if a.len() == 0 {
        if b.len() == 0 {
            IdOrder::Equal
        } else {
            IdOrder::Less
        }
    } else if b.len() == 0 {
        IdOrder::Greater
    } else if a[0] < b[0] {
        IdOrder::Less
    } else if a[0] > b[0] {
        IdOrder::Greater
    } else {
        text_order(a.drop_first(), b.drop_first())
    }
}

/// The order of identifiers: numbers first, then text; ascending within each kind.
pub open spec fn id_order(a: IdValue, b: IdValue) -> IdOrder {
    match (a, b) {
        (IdValue::Num(x), IdValue::Num(y)) => if x < y {
            IdOrder::Less
        } else if x > y {
            IdOrder::Greater
        } else {
            IdOrder::Equal
        },
        (IdValue::Num(_), IdValue::Text(_)) => IdOrder::Less,
        (IdValue::Text(_), IdValue::Num(_)) => IdOrder::Greater,
        (IdValue::Text(x), IdValue::Text(y)) => text_order(x, y),
    }
}

/// `a` strictly precedes `b` in identifier order.
pub open spec fn id_precedes(a: IdValue, b: IdValue) -> bool {
    id_order(a, b) == IdOrder::Less
}

/// How an identifier reads in audit output: the number in decimal or the name as is.
pub open spec fn id_display(id: IdValue) -> Seq<char> {
    match id {
        IdValue::Num(v) => decimal(v),
        IdValue::Text(s) => s,
    }
}

proof fn lemma_text_order_step(a: Seq<char>, b: Seq<char>, i: int)
    requires
        0 <= i < a.len(),
        i < b.len(),
        a[i] == b[i],
    ensures
        text_order(a.skip(i), b.skip(i)) == text_order(a.skip(i + 1), b.skip(i + 1)),
{
    assert(a.skip(i).drop_first() =~= a.skip(i + 1));
    assert(b.skip(i).drop_first() =~= b.skip(i + 1));
    assert(a.skip(i)[0] == a[i]);
    assert(b.skip(i)[0] == b[i]);
}

/// The characters of a string slice, in order.
pub fn chars_of(s: &str) -> (v: Vec<char>)
    ensures
        v@ == s@,
{
    let mut v: Vec<char> = Vec::new();
    let ghost body = s@;
    for ch in it: s.chars()
        invariant
            it.seq() == body,
            v@ == body.take(it.index() as int),
    {
        let ghost i = it.index() as int;
        v.push(ch);
        assert(v@ =~= body.take(i + 1));
    }
    assert(body.take(body.len() as int) =~= body);
    v
}

fn compare_text(a: &str, b: &str) -> (r: IdOrder)
    ensures
        r == text_order(a@, b@),
{
    let x = chars_of(a);
    let y = chars_of(b);
    let mut i: usize = 0;
    assert(a@.skip(0) =~= a@);
    assert(b@.skip(0) =~= b@);
    while i < x.len() && i < y.len()
        invariant
            x@ == a@,
            y@ == b@,
            i <= x.len(),
            i <= y.len(),
            text_order(a@, b@) == text_order(a@.skip(i as int), b@.skip(i as int)),
        decreases x.len() - i,
    {
        let cx = x[i];
        let cy = y[i];
        let ghost sa = a@.skip(i as int);
        let ghost sb = b@.skip(i as int);
        assert(sa[0] == a@[i as int]);
        assert(sb[0] == b@[i as int]);
        if cx < cy {
            return IdOrder::Less;
        }
        if cx > cy {
            return IdOrder::Greater;
        }
        proof {
            lemma_text_order_step(a@, b@, i as int);
        }
        i += 1;
    }
    let ghost sa = a@.skip(i as int);
    let ghost sb = b@.skip(i as int);
    if i < x.len() {
        assert(sb.len() == 0);
        IdOrder::Greater
    } else if i < y.len() {
        assert(sa.len() == 0);
        IdOrder::Less
    } else {
        assert(sa.len() == 0 && sb.len() == 0);
        IdOrder::Equal
    }
}

impl CandidateId {
    /// An integer identifier.
    pub fn num(v: u64) -> (id: Self)
        ensures
            id@ == IdValue::Num(v as nat),
    {
        CandidateId::Num(v)
    }

    /// A text identifier.
    pub fn text(v: &str) -> (id: Self)
        ensures
            id@ == IdValue::Text(v@),
    {
        CandidateId::Text(v.to_owned())
    }

    /// Compares two identifiers in the engine's tie-breaking order.
    pub fn compare(&self, other: &Self) -> (r: IdOrder)
        ensures
            r == id_order(self@, other@),
    {
        match (self, other) {
            (CandidateId::Num(x), CandidateId::Num(y)) => {
                if *x < *y {
                    IdOrder::Less
                } else if *x > *y {
                    IdOrder::Greater
                } else {
                    IdOrder::Equal
                }
            },
            (CandidateId::Num(_), CandidateId::Text(_)) => IdOrder::Less,
            (CandidateId::Text(_), CandidateId::Num(_)) => IdOrder::Greater,
            (CandidateId::Text(x), CandidateId::Text(y)) => compare_text(x.as_str(), y.as_str()),
        }
    }

    /// A copy of this identifier with the same value.
    pub fn duplicate(&self) -> (r: Self)
        ensures
            r@ == self@,
    {
        match self {
            CandidateId::Num(v) => CandidateId::Num(*v),
            CandidateId::Text(t) => CandidateId::Text(t.clone()),
        }
    }

    /// The identifier as audit output shows it: the variant is dropped.
    pub fn display_string(&self) -> (s: String)
        ensures
            s@ == id_display(self@),
    {
        match self {
            CandidateId::Num(v) => decimal_string(*v),
            CandidateId::Text(t) => t.clone(),
        }
    }
}

/// Something to rank.
///
/// `id` must return the same value for the same candidate every time, and two different
/// candidates of one run must not share an identifier; otherwise ties have no fixed order.
/// The engine does not check this.
pub trait Candidate {
    /// This candidate's identifier.
    fn id(&self) -> CandidateId;
}

} // verus!
