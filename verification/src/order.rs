//! The ranking order: a score key, higher first, then the identifier, smaller first.
//!
//! Scores are 32-bit floats; the library orders them by `f32::total_cmp`, which is defined
//! on their bit patterns. [`order_key`] turns a bit pattern into an unsigned integer whose
//! plain order is that total order, so every comparison here is on integers. Ties are
//! broken by the identifier, so no tie is left to arrival order.

use vstd::prelude::*;
use vstd::multiset::Multiset;

use crate::candidate::{id_order, id_precedes, text_order, CandidateId, IdOrder, IdValue};

verus! {

broadcast use {vstd::seq_lib::group_to_multiset_ensures, vstd::multiset::group_multiset_axioms};

/// The signed rank that `f32::total_cmp` compares: the bits read as `i32`, with the 31
/// value bits flipped when the sign bit is set.
pub open spec fn float_rank(bits: u32) -> int {
    if bits >= 0x8000_0000 {
        -1 - (bits - 0x8000_0000)
    } else {
        bits as int
    }
}

/// The unsigned key of a float's bit pattern: its total-order rank shifted to be
/// non-negative, so that comparing keys compares the floats by `total_cmp`.
pub fn order_key(bits: u32) -> (k: u32)
    ensures
        k == float_rank(bits) + 0x8000_0000,
{
    if bits >= 0x8000_0000 {
        0x7FFF_FFFF - (bits - 0x8000_0000)
    } else {
        bits + 0x8000_0000
    }
}

/// An item with the key it is ranked by and the identifier that breaks ties.
#[derive(Debug)]
pub struct Keyed<T> {
    /// Score key, higher first.
    pub key: u32,
    /// Tie-breaking identifier, smaller first.
    pub id: CandidateId,
    /// The payload.
    pub item: T,
}

/// `a` ranks strictly ahead of `b`: a higher key, or an equal key and a smaller identifier.
pub open spec fn ahead(ka: u32, ia: IdValue, kb: u32, ib: IdValue) -> bool {
    ka > kb || (ka == kb && id_precedes(ia, ib))
}

/// `a` ranks strictly ahead of `b`.
pub open spec fn keyed_ahead<T>(a: Keyed<T>, b: Keyed<T>) -> bool {
    ahead(a.key, a.id@, b.key, b.id@)
}

/// No later element ranks ahead of an earlier one.
pub open spec fn best_first<T>(s: Seq<Keyed<T>>) -> bool {
    forall|i: int, j: int| 0 <= i < j < s.len() ==> !keyed_ahead(#[trigger] s[j], #[trigger] s[i])
}

/// Where `x` goes in a best-first sequence: before the first element it ranks ahead of.
pub open spec fn insert_pos<T>(s: Seq<Keyed<T>>, x: Keyed<T>) -> int
    decreases s.len(),
{
    if s.len() == 0 {
        0
    } else if keyed_ahead(x, s[0]) {
        0
    } else {
        1 + insert_pos(s.drop_first(), x)
    }
}

/// `s` with `x` put in its place.
pub open spec fn insert_ranked<T>(s: Seq<Keyed<T>>, x: Keyed<T>) -> Seq<Keyed<T>> {
    s.insert(insert_pos(s, x), x)
}

// ---- properties of the identifier order ----------------------------------------------

/// Swapping the arguments of the text order swaps `Less` and `Greater`.
pub proof fn lemma_text_order_flip(a: Seq<char>, b: Seq<char>)
    ensures
        text_order(a, b) == IdOrder::Less <==> text_order(b, a) == IdOrder::Greater,
        text_order(a, b) == IdOrder::Equal <==> a == b,
    decreases a.len(),
{
    if a.len() > 0 && b.len() > 0 && a[0] == b[0] {
        lemma_text_order_flip(a.drop_first(), b.drop_first());
        if a.drop_first() == b.drop_first() {
            assert(a =~= seq![a[0]] + a.drop_first());
            assert(b =~= seq![b[0]] + b.drop_first());
        }
        if a == b {
            assert(a.drop_first() =~= b.drop_first());
        }
    }
    if a.len() == 0 && b.len() == 0 {
        assert(a =~= b);
    }
}

/// The text order is transitive.
pub proof fn lemma_text_order_trans(a: Seq<char>, b: Seq<char>, c: Seq<char>)
    requires
        text_order(a, b) == IdOrder::Less,
        text_order(b, c) == IdOrder::Less,
    ensures
        text_order(a, c) == IdOrder::Less,
    decreases a.len(),
{
    if a.len() > 0 && b.len() > 0 && c.len() > 0 && a[0] == b[0] && b[0] == c[0] {
        lemma_text_order_trans(a.drop_first(), b.drop_first(), c.drop_first());
    }
}

/// The identifier order is a strict total order.
pub proof fn lemma_id_order(a: IdValue, b: IdValue, c: IdValue)
    ensures
        id_precedes(a, b) ==> !id_precedes(b, a),
        !id_precedes(a, a),
        id_precedes(a, b) && id_precedes(b, c) ==> id_precedes(a, c),
        !id_precedes(a, b) && !id_precedes(b, a) ==> a == b,
{
    match (a, b) {
        (IdValue::Text(x), IdValue::Text(y)) => {
            lemma_text_order_flip(x, y);
            lemma_text_order_flip(y, x);
            lemma_text_order_flip(x, x);
        },
        _ => {},
    }
    match a {
        IdValue::Text(x) => {
            lemma_text_order_flip(x, x);
        },
        _ => {},
    }
    match (a, b, c) {
        (IdValue::Text(x), IdValue::Text(y), IdValue::Text(z)) => {
            if id_precedes(a, b) && id_precedes(b, c) {
                lemma_text_order_trans(x, y, z);
            }
        },
        _ => {},
    }
}

/// The ranking order is a strict total order on (key, identifier) pairs.
pub proof fn lemma_ahead<T>(a: Keyed<T>, b: Keyed<T>, c: Keyed<T>)
    ensures
        keyed_ahead(a, b) ==> !keyed_ahead(b, a),
        !keyed_ahead(a, a),
        keyed_ahead(a, b) && keyed_ahead(b, c) ==> keyed_ahead(a, c),
        !keyed_ahead(a, b) && !keyed_ahead(b, a) ==> a.key == b.key && a.id@ == b.id@,
{
    lemma_id_order(a.id@, b.id@, c.id@);
    lemma_id_order(b.id@, a.id@, c.id@);
}

// ---- comparing and inserting ---------------------------------------------------------

/// Whether `a` ranks strictly ahead of `b`.
pub fn ranks_ahead<T>(a: &Keyed<T>, b: &Keyed<T>) -> (r: bool)
    ensures
        r == keyed_ahead(*a, *b),
{
    if a.key > b.key {
        true
    } else if a.key < b.key {
        false
    } else {
        a.id.compare(&b.id) == IdOrder::Less
    }
}

/// `x` goes at `p` when it ranks ahead of none of the elements before `p` and ahead of
/// the element at `p`, if any.
pub proof fn lemma_insert_pos<T>(s: Seq<Keyed<T>>, x: Keyed<T>, p: int)
    requires
        0 <= p <= s.len(),
        forall|i: int| 0 <= i < p ==> !keyed_ahead(x, #[trigger] s[i]),
        p == s.len() || keyed_ahead(x, s[p]),
    ensures
        insert_pos(s, x) == p,
    decreases s.len(),
{
    if s.len() > 0 && p > 0 {
        assert forall|i: int| 0 <= i < p - 1 implies !keyed_ahead(x, #[trigger] s.drop_first()[i]) by {
            assert(s.drop_first()[i] == s[i + 1]);
        }
        if p < s.len() {
            assert(s.drop_first()[p - 1] == s[p]);
        }
        lemma_insert_pos(s.drop_first(), x, p - 1);
    }
}

proof fn lemma_insert_pos_facts<T>(s: Seq<Keyed<T>>, x: Keyed<T>)
    ensures
        0 <= insert_pos(s, x) <= s.len(),
        forall|i: int| 0 <= i < insert_pos(s, x) ==> !keyed_ahead(x, #[trigger] s[i]),
        insert_pos(s, x) < s.len() ==> keyed_ahead(x, s[insert_pos(s, x)]),
    decreases s.len(),
{
    if s.len() > 0 && !keyed_ahead(x, s[0]) {
        let t = s.drop_first();
        lemma_insert_pos_facts(t, x);
        assert forall|i: int| 0 <= i < insert_pos(s, x) implies !keyed_ahead(x, #[trigger] s[i]) by {
            if i > 0 {
                assert(s[i] == t[i - 1]);
            }
        }
        if insert_pos(s, x) < s.len() {
            assert(s[insert_pos(s, x)] == t[insert_pos(t, x)]);
        }
    }
}

/// Inserting in place keeps a best-first sequence best-first and adds exactly one element.
pub proof fn lemma_insert_ranked<T>(s: Seq<Keyed<T>>, x: Keyed<T>)
    requires
        best_first(s),
    ensures
        best_first(insert_ranked(s, x)),
        insert_ranked(s, x).len() == s.len() + 1,
        insert_ranked(s, x).to_multiset() == s.to_multiset().insert(x),
        0 <= insert_pos(s, x) <= s.len(),
        forall|i: int| 0 <= i < insert_pos(s, x) ==> !keyed_ahead(x, #[trigger] s[i]),
        insert_pos(s, x) < s.len() ==> keyed_ahead(x, s[insert_pos(s, x)]),
{
    lemma_insert_pos_facts(s, x);
    let p = insert_pos(s, x);
    let t = insert_ranked(s, x);
    vstd::seq_lib::to_multiset_insert(s, p, x);
    assert forall|i: int, j: int| 0 <= i < j < t.len() implies !keyed_ahead(
        #[trigger] t[j],
        #[trigger] t[i],
    ) by {
        if j < p {
            assert(t[i] == s[i] && t[j] == s[j]);
        } else if j == p {
            assert(t[i] == s[i] && t[j] == x);
        } else if i > p {
            assert(t[i] == s[i - 1] && t[j] == s[j - 1]);
        } else if i == p {
            assert(t[i] == x && t[j] == s[j - 1]);
            lemma_ahead(s[j - 1], x, s[p]);
            lemma_ahead(x, s[p], s[p]);
            if j - 1 > p {
                assert(!keyed_ahead(s[j - 1], s[p]));
            }
        } else {
            assert(t[i] == s[i] && t[j] == s[j - 1]);
        }
    }
}

/// Puts `x` into a best-first vector at its place.
pub fn insert_in_place<T>(v: &mut Vec<Keyed<T>>, x: Keyed<T>)
    requires
        best_first(old(v)@),
    ensures
        final(v)@ == insert_ranked(old(v)@, x),
        best_first(final(v)@),
{
    let ghost s = v@;
    let mut i: usize = 0;
    while i < v.len() && !ranks_ahead(&x, &v[i])
        invariant
            v@ == s,
            i <= s.len(),
            forall|t: int| 0 <= t < i ==> !keyed_ahead(x, #[trigger] s[t]),
        decreases s.len() - i,
    {
        i += 1;
    }
    proof {
        lemma_insert_pos(s, x, i as int);
        lemma_insert_ranked(s, x);
    }
    v.insert(i, x);
}

/// Sorts best first: key descending, then identifier ascending. A stable insertion sort;
/// the result is a permutation of the input.
pub fn sort_best_first<T>(items: Vec<Keyed<T>>) -> (r: Vec<Keyed<T>>)
    ensures
        best_first(r@),
        r@.to_multiset() == items@.to_multiset(),
{
    let mut out: Vec<Keyed<T>> = Vec::new();
    let mut rest = items;
    let ghost all = rest@;
    assert(out@.to_multiset().add(rest@.to_multiset()) =~= all.to_multiset());
    while rest.len() > 0
        invariant
            best_first(out@),
            out@.to_multiset().add(rest@.to_multiset()) == all.to_multiset(),
        decreases rest.len(),
    {
        let ghost before = rest@;
        let x = rest.remove(0);
        proof {
            vstd::seq_lib::to_multiset_remove(before, 0);
            lemma_insert_ranked(out@, x);
        }
        insert_in_place(&mut out, x);
        proof {
            assert(out@.to_multiset().add(rest@.to_multiset()) =~= all.to_multiset());
        }
    }
    proof {
        assert(rest@ =~= Seq::<Keyed<T>>::empty());
        assert(rest@.to_multiset() =~= Multiset::empty());
        assert(out@.to_multiset().add(Multiset::empty()) =~= out@.to_multiset());
    }
    out
}

// ---- the best-first arrangement of a collection ----------------------------------------

/// `xs` ranked best first, by putting its elements in place one after another.
pub open spec fn ranked_all<T>(xs: Seq<Keyed<T>>) -> Seq<Keyed<T>>
    decreases xs.len(),
{
    if xs.len() == 0 {
        Seq::empty()
    } else {
        insert_ranked(ranked_all(xs.drop_last()), xs.last())
    }
}

/// [`ranked_all`] is best first and holds exactly the elements of `xs`.
pub proof fn lemma_ranked_all<T>(xs: Seq<Keyed<T>>)
    ensures
        best_first(ranked_all(xs)),
        ranked_all(xs).len() == xs.len(),
        ranked_all(xs).to_multiset() == xs.to_multiset(),
    decreases xs.len(),
{
    if xs.len() > 0 {
        let prev = xs.drop_last();
        lemma_ranked_all(prev);
        lemma_insert_ranked(ranked_all(prev), xs.last());
        assert(xs =~= prev.push(xs.last()));
    }
}

/// An identifier names one item: items of `s` with the same identifier are the same item.
pub open spec fn ids_identify<T>(s: Seq<Keyed<T>>) -> bool {
    forall|i: int, j: int|
        0 <= i < s.len() && 0 <= j < s.len() && #[trigger] s[i].id@ == #[trigger] s[j].id@ ==> s[i]
            == s[j]
}

/// A collection in which an identifier names one item has only one best-first
/// arrangement.
pub proof fn lemma_best_first_unique<T>(a: Seq<Keyed<T>>, b: Seq<Keyed<T>>)
    requires
        best_first(a),
        best_first(b),
        a.to_multiset() == b.to_multiset(),
        ids_identify(a),
    ensures
        a == b,
    decreases a.len(),
{
    assert(a.to_multiset().len() == a.len() && b.to_multiset().len() == b.len());
    if a.len() == 0 {
        assert(a =~= b);
    } else {
        let x = a[0];
        let y = b[0];
        assert(b.contains(y) && a.contains(x));
        assert(a.to_multiset().count(y) > 0 && b.to_multiset().count(x) > 0);
        assert(a.contains(y) && b.contains(x));
        let p = choose|p: int| 0 <= p < a.len() && a[p] == y;
        let q = choose|q: int| 0 <= q < b.len() && b[q] == x;
        if x != y {
            lemma_ahead(x, y, x);
            if x.id@ == y.id@ {
                assert(a[0].id@ == a[p].id@);
            } else if keyed_ahead(x, y) {
                assert(q != 0);
                assert(!keyed_ahead(b[q], b[0]));
            } else {
                assert(keyed_ahead(y, x));
                assert(p != 0);
                assert(!keyed_ahead(a[p], a[0]));
            }
        }
        let a2 = a.drop_first();
        let b2 = b.drop_first();
        vstd::seq_lib::to_multiset_remove(a, 0);
        vstd::seq_lib::to_multiset_remove(b, 0);
        assert(a.remove(0) =~= a2);
        assert(b.remove(0) =~= b2);
        assert(best_first(a2)) by {
            assert forall|i: int, j: int| 0 <= i < j < a2.len() implies !keyed_ahead(
                #[trigger] a2[j],
                #[trigger] a2[i],
            ) by {
                assert(a2[i] == a[i + 1] && a2[j] == a[j + 1]);
            }
        }
        assert(best_first(b2)) by {
            assert forall|i: int, j: int| 0 <= i < j < b2.len() implies !keyed_ahead(
                #[trigger] b2[j],
                #[trigger] b2[i],
            ) by {
                assert(b2[i] == b[i + 1] && b2[j] == b[j + 1]);
            }
        }
        assert(ids_identify(a2)) by {
            assert forall|i: int, j: int|
                0 <= i < a2.len() && 0 <= j < a2.len() && #[trigger] a2[i].id@ == #[trigger] a2[j].id@ implies a2[i]
                == a2[j] by {
                assert(a2[i] == a[i + 1] && a2[j] == a[j + 1]);
            }
        }
        lemma_best_first_unique(a2, b2);
        assert(a =~= seq![x] + a2);
        assert(b =~= seq![y] + b2);
    }
}

/// Two identifiers compare equal exactly when they are the same identifier.
pub proof fn lemma_id_order_equal(a: IdValue, b: IdValue)
    ensures
        id_order(a, b) == IdOrder::Equal <==> a == b,
{
    match (a, b) {
        (IdValue::Text(x), IdValue::Text(y)) => {
            lemma_text_order_flip(x, y);
        },
        _ => {},
    }
}

} // verus!
