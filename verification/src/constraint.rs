//! Unary constraints, set constraints, matroid declarations and lower-bound requirements.
//!
//! A unary constraint looks at one candidate. A set constraint has to look at what is
//! already selected, which is why top-K stops being the answer once one is registered.

use std::collections::HashMap;
use std::hash::Hash;
use std::marker::PhantomData;

use vstd::prelude::*;
use vstd::std_specs::cmp::PartialEqSpec;
use vstd::std_specs::hash::obeys_key_model;

verus! {

broadcast use vstd::std_specs::hash::group_hash_axioms;

/// Constraint identifier. It is carried into rejection reasons and audit output.
#[derive(Clone, PartialEq, Eq, PartialOrd, Ord, Hash, Debug)]
pub struct ConstraintId(String);

impl View for ConstraintId {
    type V = Seq<char>;

    closed spec fn view(&self) -> Seq<char> {
        self.0@
    }
}

impl ConstraintId {
    /// Makes an identifier from a name.
    pub fn new(name: &str) -> (id: Self)
        ensures
            id@ == name@,
    {
        ConstraintId(name.to_owned())
    }

    /// Borrows the name.
    pub fn as_str(&self) -> (s: &str)
        ensures
            s@ == self@,
    {
        self.0.as_str()
    }

    /// A copy of this identifier.
    pub fn duplicate(&self) -> (r: ConstraintId)
        ensures
            r@ == self@,
    {
        ConstraintId(self.0.clone())
    }
}

/// A closure that can be called on every candidate and always gives the same answer for
/// the same candidate.
pub open spec fn total_fn<C, R, F: Fn(&C) -> R>(f: F) -> bool {
    &&& forall|x: &C| #[trigger] call_requires(f, (x,))
    &&& forall|x: &C, a: R, b: R|
        #[trigger] call_ensures(f, (x,), a) && #[trigger] call_ensures(f, (x,), b) ==> a == b
}

/// What the closure `f` answers for `x`.
pub open spec fn out_of<C, R, F: Fn(&C) -> R>(f: F, x: &C) -> R {
    choose|r: R| call_ensures(f, (x,), r)
}

/// Calling a total, deterministic closure gives [`out_of`].
pub proof fn lemma_out_of<C, R, F: Fn(&C) -> R>(f: F, x: &C, r: R)
    requires
        total_fn(f),
        call_ensures(f, (x,), r),
    ensures
        r == out_of(f, x),
{
    let c = out_of(f, x);
    assert(call_ensures(f, (x,), c));
}

/// A constraint decided by looking at one candidate only.
///
/// It runs in stage one, before scoring: scoring a candidate that is about to be dropped
/// is waste. Implementors promise that `allows` answers as `allows_spec` says.
pub trait UnaryConstraint<C> {
    /// Whether this constraint lets `c` through.
    spec fn allows_spec(&self, c: &C) -> bool;

    /// The name of this constraint.
    spec fn id_spec(&self) -> Seq<char>;

    /// This constraint's identifier.
    fn id(&self) -> (r: ConstraintId)
        ensures
            r@ == self.id_spec(),
    ;

    /// Whether this candidate passes.
    fn allows(&self, c: &C) -> (r: bool)
        ensures
            r == self.allows_spec(c),
    ;
}

/// A constraint that has to look at what is already selected.
///
/// Whether a constraint is a matroid cannot be decided by the engine, so it is declared;
/// the built-in ones declare only what has been shown of them. Implementors promise that
/// `admits` answers as `admits_spec` says.
pub trait SetConstraint<C> {
    /// Whether `candidate` may be added to `selected`.
    spec fn admits_spec(&self, selected: Seq<&C>, candidate: &C) -> bool;

    /// The name of this constraint.
    spec fn id_spec(&self) -> Seq<char>;

    /// This constraint's identifier.
    fn id(&self) -> (r: ConstraintId)
        ensures
            r@ == self.id_spec(),
    ;

    /// Whether this candidate may be added to the current selection.
    fn admits(&self, selected: &[&C], candidate: &C) -> (r: bool)
        ensures
            r == self.admits_spec(selected@, candidate),
    ;

    /// Whether this constraint declares itself a matroid.
    spec fn matroid_spec(&self) -> bool;

    /// Whether this constraint is a matroid; if so greedy selection is optimal under it.
    fn is_matroid(&self) -> (r: bool)
        ensures
            r == self.matroid_spec(),
    ;
}

/// A lower bound that the final set has to meet: at least `needed` matching candidates.
///
/// Implementors promise that `satisfied_by` answers as `matches_spec` says.
pub trait LowerBound<C> {
    /// Whether `c` counts toward this bound.
    spec fn matches_spec(&self, c: &C) -> bool;

    /// How many matching candidates are needed.
    spec fn needed_spec(&self) -> nat;

    /// The name of this bound.
    spec fn id_spec(&self) -> Seq<char>;

    /// This bound's identifier.
    fn bound_id(&self) -> (r: ConstraintId)
        ensures
            r@ == self.id_spec(),
    ;

    /// How many matching candidates are needed.
    fn bound_needed(&self) -> (r: usize)
        ensures
            r == self.needed_spec(),
    ;

    /// Whether `c` counts toward this bound.
    fn bound_matches(&self, c: &C) -> (r: bool)
        ensures
            r == self.matches_spec(c),
    ;
}

/// A lower bound: at least `n` candidates satisfying the predicate must be in the final set.
///
/// `admits` can only refuse an addition, so a lower bound cannot be a set constraint; it is
/// met after greedy selection by swapping candidates in.
pub struct Requirement<C, P: Fn(&C) -> bool> {
    id: ConstraintId,
    predicate: P,
    at_least: usize,
    marker: PhantomData<C>,
}

impl<C, P: Fn(&C) -> bool> Requirement<C, P> {
    #[verifier::type_invariant]
    spec fn well_formed(self) -> bool {
        total_fn(self.predicate)
    }

    /// The name of this requirement.
    pub closed spec fn name(self) -> Seq<char> {
        self.id@
    }

    /// How many matching candidates it asks for.
    pub closed spec fn count(self) -> nat {
        self.at_least as nat
    }

    /// The predicate.
    pub closed spec fn pred(self) -> P {
        self.predicate
    }

    /// At least `n` candidates satisfying `predicate` must be selected.
    pub fn at_least(id: &str, n: usize, predicate: P) -> (r: Self)
        requires
            total_fn(predicate),
        ensures
            r.name() == id@,
            r.count() == n,
            r.pred() == predicate,
    {
        Requirement { id: ConstraintId::new(id), predicate, at_least: n, marker: PhantomData }
    }

    /// This requirement's identifier.
    pub fn id(&self) -> (r: ConstraintId)
        ensures
            r@ == self.name(),
    {
        self.id.duplicate()
    }

    /// How many matching candidates are needed.
    pub fn needed(&self) -> (r: usize)
        ensures
            r == self.count(),
    {
        self.at_least
    }

    /// Whether this candidate satisfies the predicate.
    pub fn satisfied_by(&self, c: &C) -> (r: bool)
        ensures
            r == out_of(self.pred(), c),
            call_ensures(self.pred(), (c,), r),
    {
        proof {
            use_type_invariant(self);
        }
        let r = (self.predicate)(c);
        proof {
            lemma_out_of(self.predicate, c, r);
        }
        r
    }
}

impl<C, P: Fn(&C) -> bool> LowerBound<C> for Requirement<C, P> {
    open spec fn matches_spec(&self, c: &C) -> bool {
        out_of(self.pred(), c)
    }

    open spec fn needed_spec(&self) -> nat {
        self.count()
    }

    open spec fn id_spec(&self) -> Seq<char> {
        self.name()
    }

    fn bound_id(&self) -> (r: ConstraintId) {
        self.id()
    }

    fn bound_needed(&self) -> (r: usize) {
        self.needed()
    }

    fn bound_matches(&self, c: &C) -> (r: bool)
        ensures
            call_ensures(self.pred(), (c,), r),
    {
        self.satisfied_by(c)
    }
}

/// The number of items whose key equals (by the key type's equality) `target`.
pub open spec fn same_key_count<C, K: PartialEq, F: Fn(&C) -> K>(
    key: F,
    items: Seq<&C>,
    target: K,
) -> nat
    decreases items.len(),
{
    if items.len() == 0 {
        0
    } else {
        same_key_count(key, items.drop_last(), target) + if out_of(key, items.last()).eq_spec(
            &target,
        ) {
            1nat
        } else {
            0nat
        }
    }
}

/// At most `max` selected candidates per group. A partition matroid.
#[verifier::reject_recursive_types(K)]
pub struct MaxPerGroup<C, K: PartialEq, F: Fn(&C) -> K> {
    id: ConstraintId,
    key: F,
    max: usize,
    marker: PhantomData<(C, K)>,
}

impl<C, K: PartialEq, F: Fn(&C) -> K> MaxPerGroup<C, K, F> {
    #[verifier::type_invariant]
    spec fn well_formed(self) -> bool {
        &&& total_fn(self.key)
        &&& K::obeys_eq_spec()
    }

    /// The group key of a candidate.
    pub open spec fn group_of(self, c: &C) -> K {
        out_of(self.key_fn(), c)
    }

    /// The key function.
    pub closed spec fn key_fn(self) -> F {
        self.key
    }

    /// The per-group maximum.
    pub closed spec fn limit(self) -> nat {
        self.max as nat
    }

    /// The name.
    pub closed spec fn name(self) -> Seq<char> {
        self.id@
    }

    /// Sets the per-group maximum. The key's equality has to be the one Verus models.
    pub fn new(id: &str, max: usize, key: F) -> (r: Self)
        requires
            total_fn(key),
            K::obeys_eq_spec(),
        ensures
            r.name() == id@,
            r.limit() == max,
            r.key_fn() == key,
    {
        MaxPerGroup { id: ConstraintId::new(id), key, max, marker: PhantomData }
    }
}

impl<C, K: PartialEq, F: Fn(&C) -> K> SetConstraint<C> for MaxPerGroup<C, K, F> {
    open spec fn admits_spec(&self, selected: Seq<&C>, candidate: &C) -> bool {
        self.limit() > 0 && same_key_count(self.key_fn(), selected, self.group_of(candidate))
            < self.limit()
    }

    open spec fn id_spec(&self) -> Seq<char> {
        self.name()
    }

    fn id(&self) -> (r: ConstraintId) {
        self.id.duplicate()
    }

    fn admits(&self, selected: &[&C], candidate: &C) -> (r: bool)
        ensures
            forall|x: &C, k: K| #[trigger] call_ensures(self.key_fn(), (x,), k) ==> self.group_of(x) == k,
    {
        proof {
            use_type_invariant(self);
            assert forall|x: &C, k: K| #[trigger] call_ensures(self.key_fn(), (x,), k) implies self.group_of(x) == k by {
                lemma_out_of(self.key, x, k);
            }
        }
        if self.max == 0 {
            return false;
        }
        let target = (self.key)(candidate);
        proof {
            lemma_out_of(self.key, candidate, target);
        }
        let mut count: usize = 0;
        let mut i: usize = 0;
        while i < selected.len()
            invariant
                total_fn(self.key),
                K::obeys_eq_spec(),
                target == self.group_of(candidate),
                i <= selected@.len(),
                count == same_key_count(self.key, selected@.take(i as int), target),
                count < self.max,
            decreases selected@.len() - i,
        {
            let k = (self.key)(selected[i]);
            proof {
                lemma_out_of(self.key, selected@[i as int], k);
                assert(selected@.take(i + 1).drop_last() =~= selected@.take(i as int));
                assert(selected@.take(i + 1).last() == selected@[i as int]);
            }
            if k == target {
                count += 1;
                if count >= self.max {
                    proof {
                        lemma_same_key_count_prefix(self.key, selected@, target, i + 1);
                    }
                    return false;
                }
            }
            i += 1;
        }
        assert(selected@.take(selected@.len() as int) =~= selected@);
        true
    }

    open spec fn matroid_spec(&self) -> bool {
        true
    }

    fn is_matroid(&self) -> (r: bool) {
        true
    }
}

/// Counting over a longer prefix never gives fewer matches.
pub proof fn lemma_same_key_count_prefix<C, K: PartialEq, F: Fn(&C) -> K>(
    key: F,
    items: Seq<&C>,
    target: K,
    n: int,
)
    requires
        0 <= n <= items.len(),
    ensures
        same_key_count(key, items.take(n), target) <= same_key_count(key, items, target),
    decreases items.len() - n,
{
    if n < items.len() {
        lemma_same_key_count_prefix(key, items, target, n + 1);
        assert(items.take(n + 1).drop_last() =~= items.take(n));
    } else {
        assert(items.take(n) =~= items);
    }
}

/// At most `max` selected candidates overall. A uniform matroid.
pub struct MaxTotal {
    id: ConstraintId,
    max: usize,
}

impl MaxTotal {
    /// The overall maximum.
    pub closed spec fn limit(self) -> nat {
        self.max as nat
    }

    /// The name.
    pub closed spec fn name(self) -> Seq<char> {
        self.id@
    }

    /// Sets the overall maximum.
    pub fn new(id: &str, max: usize) -> (r: Self)
        ensures
            r.name() == id@,
            r.limit() == max,
    {
        MaxTotal { id: ConstraintId::new(id), max }
    }
}

impl<C> SetConstraint<C> for MaxTotal {
    open spec fn admits_spec(&self, selected: Seq<&C>, candidate: &C) -> bool {
        selected.len() < self.limit()
    }

    open spec fn id_spec(&self) -> Seq<char> {
        self.name()
    }

    fn id(&self) -> (r: ConstraintId) {
        self.id.duplicate()
    }

    fn admits(&self, selected: &[&C], candidate: &C) -> (r: bool) {
        selected.len() < self.max
    }

    open spec fn matroid_spec(&self) -> bool {
        true
    }

    fn is_matroid(&self) -> (r: bool) {
        true
    }
}

/// A unary constraint made from one predicate, such as a minimum authority.
pub struct Predicate<C, F: Fn(&C) -> bool> {
    id: ConstraintId,
    predicate: F,
    marker: PhantomData<C>,
}

impl<C, F: Fn(&C) -> bool> Predicate<C, F> {
    #[verifier::type_invariant]
    spec fn well_formed(self) -> bool {
        total_fn(self.predicate)
    }

    /// The predicate.
    pub closed spec fn pred(self) -> F {
        self.predicate
    }

    /// The name.
    pub closed spec fn name(self) -> Seq<char> {
        self.id@
    }

    /// Makes a unary constraint from a predicate.
    pub fn new(id: &str, predicate: F) -> (r: Self)
        requires
            total_fn(predicate),
        ensures
            r.name() == id@,
            r.pred() == predicate,
    {
        Predicate { id: ConstraintId::new(id), predicate, marker: PhantomData }
    }
}

impl<C, F: Fn(&C) -> bool> UnaryConstraint<C> for Predicate<C, F> {
    open spec fn allows_spec(&self, c: &C) -> bool {
        out_of(self.pred(), c)
    }

    open spec fn id_spec(&self) -> Seq<char> {
        self.name()
    }

    fn id(&self) -> (r: ConstraintId) {
        self.id.duplicate()
    }

    fn allows(&self, c: &C) -> (r: bool)
        ensures
            call_ensures(self.pred(), (c,), r),
    {
        proof {
            use_type_invariant(self);
        }
        let r = (self.predicate)(c);
        proof {
            lemma_out_of(self.predicate, c, r);
        }
        r
    }
}

/// A closure of a selection and a candidate that can be called on every pair, and whose
/// answer depends only on the selected candidates (not on which slice holds them) and the
/// candidate.
pub open spec fn total_set_fn<C, F: Fn(&[&C], &C) -> bool>(f: F) -> bool {
    &&& forall|s: &[&C], x: &C| #[trigger] call_requires(f, (s, x))
    &&& forall|s: &[&C], t: &[&C], x: &C, a: bool, b: bool|
        s@ == t@ && #[trigger] call_ensures(f, (s, x), a) && #[trigger] call_ensures(f, (t, x), b)
            ==> a == b
}

/// What the closure `f` answers for a selection with these candidates and `x`.
pub open spec fn set_out_of<C, F: Fn(&[&C], &C) -> bool>(f: F, selected: Seq<&C>, x: &C) -> bool {
    exists|s: &[&C]| s@ == selected && #[trigger] call_ensures(f, (s, x), true)
}

/// A set constraint given by a closure, with its matroid property declared by whoever
/// builds it, as for any set constraint.
pub struct FnConstraint<C, F: Fn(&[&C], &C) -> bool> {
    id: ConstraintId,
    admits: F,
    matroid: bool,
    marker: PhantomData<C>,
}

impl<C, F: Fn(&[&C], &C) -> bool> FnConstraint<C, F> {
    #[verifier::type_invariant]
    spec fn well_formed(self) -> bool {
        total_set_fn(self.admits)
    }

    /// The closure.
    pub closed spec fn admits_fn(self) -> F {
        self.admits
    }

    /// The name.
    pub closed spec fn name(self) -> Seq<char> {
        self.id@
    }

    /// The declared matroid property.
    pub closed spec fn declared_matroid(self) -> bool {
        self.matroid
    }

    /// Makes a set constraint from a closure and a matroid declaration.
    pub fn new(id: &str, matroid: bool, admits: F) -> (r: Self)
        requires
            total_set_fn(admits),
        ensures
            r.name() == id@,
            r.admits_fn() == admits,
            r.declared_matroid() == matroid,
    {
        FnConstraint { id: ConstraintId::new(id), admits, matroid, marker: PhantomData }
    }
}

impl<C, F: Fn(&[&C], &C) -> bool> SetConstraint<C> for FnConstraint<C, F> {
    open spec fn admits_spec(&self, selected: Seq<&C>, candidate: &C) -> bool {
        set_out_of(self.admits_fn(), selected, candidate)
    }

    open spec fn id_spec(&self) -> Seq<char> {
        self.name()
    }

    fn id(&self) -> (r: ConstraintId) {
        self.id.duplicate()
    }

    fn admits(&self, selected: &[&C], candidate: &C) -> (r: bool)
        ensures
            call_ensures(self.admits_fn(), (selected, candidate), r),
    {
        proof {
            use_type_invariant(self);
        }
        let r = (self.admits)(selected, candidate);
        proof {
            if set_out_of(self.admits, selected@, candidate) {
                let s = choose|s: &[&C]| s@ == selected@ && call_ensures(self.admits, (s, candidate), true);
                assert(call_ensures(self.admits, (s, candidate), true));
            }
        }
        r
    }

    open spec fn matroid_spec(&self) -> bool {
        self.declared_matroid()
    }

    fn is_matroid(&self) -> (r: bool) {
        self.matroid
    }
}

/// A per-group maximum. Short name for [`MaxPerGroup::new`].
pub fn max_per_group<C, K: PartialEq, F: Fn(&C) -> K>(id: &str, max: usize, key: F) -> (r:
    MaxPerGroup<C, K, F>)
    requires
        total_fn(key),
        K::obeys_eq_spec(),
    ensures
        r.name() == id@,
        r.limit() == max,
        r.key_fn() == key,
{
    MaxPerGroup::new(id, max, key)
}

/// An overall maximum. Short name for [`MaxTotal::new`].
pub fn max_total(id: &str, max: usize) -> (r: MaxTotal)
    ensures
        r.name() == id@,
        r.limit() == max,
{
    MaxTotal::new(id, max)
}

/// A unary predicate constraint. Short name for [`Predicate::new`].
pub fn predicate<C, F: Fn(&C) -> bool>(id: &str, f: F) -> (r: Predicate<C, F>)
    requires
        total_fn(f),
    ensures
        r.name() == id@,
        r.pred() == f,
{
    Predicate::new(id, f)
}

/// The number of items whose key is `k`.
pub open spec fn key_count<C, K, F: Fn(&C) -> K>(key: F, items: Seq<&C>, k: K) -> nat
    decreases items.len(),
{
    if items.len() == 0 {
        0
    } else {
        key_count(key, items.drop_last(), k) + if out_of(key, items.last()) == k {
            1nat
        } else {
            0nat
        }
    }
}

/// The per-key counts of a sequence: every key that occurs, with its number of occurrences.
pub open spec fn counts_of<C, K, F: Fn(&C) -> K>(key: F, items: Seq<&C>) -> Map<K, usize> {
    Map::new(|k: K| key_count(key, items, k) > 0, |k: K| key_count(key, items, k) as usize)
}

proof fn lemma_key_count_bound<C, K, F: Fn(&C) -> K>(key: F, items: Seq<&C>, k: K)
    ensures
        key_count(key, items, k) <= items.len(),
    decreases items.len(),
{
    if items.len() > 0 {
        lemma_key_count_bound(key, items.drop_last(), k);
    }
}

/// Counts the items per group. Used to check that a result kept its set constraints.
///
/// The counts are stated for key types whose hashing Verus models.
pub fn group_counts<C, K: Eq + Hash, F: Fn(&C) -> K>(items: &[&C], key: F) -> (r: HashMap<
    K,
    usize,
>)
    requires
        total_fn(key),
    ensures
        obeys_key_model::<K>() ==> r@ == counts_of(key, items@),
{
    let mut counts: HashMap<K, usize> = HashMap::new();
    let mut i: usize = 0;
    while i < items.len()
        invariant
            total_fn(key),
            i <= items@.len(),
            obeys_key_model::<K>() ==> counts@ == counts_of(key, items@.take(i as int)),
        decreases items@.len() - i,
    {
        let k = key(items[i]);
        proof {
            lemma_out_of(key, items@[i as int], k);
        }
        let ghost prefix = items@.take(i as int);
        let ghost next = items@.take(i + 1);
        proof {
            assert(next.drop_last() =~= prefix);
            assert(next.last() == items@[i as int]);
            lemma_key_count_bound(key, prefix, k);
        }
        let current: usize = match counts.get(&k) {
            Some(v) => *v,
            None => 0,
        };
        proof {
            if obeys_key_model::<K>() {
                assert(current == key_count(key, prefix, k));
            }
        }
        let bumped = if current < usize::MAX { current + 1 } else { current };
        counts.insert(k, bumped);
        proof {
            if obeys_key_model::<K>() {
                assert(counts@ =~= counts_of(key, next));
            }
        }
        i += 1;
    }
    assert(items@.take(items@.len() as int) =~= items@);
    counts
}

/// Counting by equal keys gives the same count for two keys that are equal.
proof fn lemma_same_key_count_congruent<C, K: PartialEq, F: Fn(&C) -> K>(
    key: F,
    items: Seq<&C>,
    a: K,
    b: K,
)
    requires
        vstd::laws_eq::obeys_eq_spec_properties::<K>(),
        a.eq_spec(&b),
    ensures
        same_key_count(key, items, a) == same_key_count(key, items, b),
    decreases items.len(),
{
    reveal(vstd::laws_eq::obeys_eq_spec_properties);
    if items.len() > 0 {
        lemma_same_key_count_congruent(key, items.drop_last(), a, b);
        let k = out_of(key, items.last());
        assert(b.eq_spec(&a));
        if k.eq_spec(&a) {
            assert(k.eq_spec(&b));
        }
        if k.eq_spec(&b) {
            assert(k.eq_spec(&a));
        }
    }
}

/// The per-group maximum holds of any sequence built by adding one admitted candidate at a
/// time: for every key, at most `max` members share it. This is why greedy selection under
/// the constraint returns a set that keeps it.
pub proof fn lemma_group_limit_holds<C, K: PartialEq, F: Fn(&C) -> K>(
    c: MaxPerGroup<C, K, F>,
    items: Seq<&C>,
)
    requires
        vstd::laws_eq::obeys_eq_spec_properties::<K>(),
        forall|r: int| 0 <= r < items.len() ==> c.admits_spec(items.take(r), #[trigger] items[r]),
    ensures
        forall|t: K| #[trigger] same_key_count(c.key_fn(), items, t) <= c.limit(),
    decreases items.len(),
{
    if items.len() > 0 {
        let prefix = items.drop_last();
        let last = items.last();
        assert forall|r: int| 0 <= r < prefix.len() implies c.admits_spec(
            prefix.take(r),
            #[trigger] prefix[r],
        ) by {
            assert(prefix.take(r) =~= items.take(r));
            assert(c.admits_spec(items.take(r), items[r]));
        }
        lemma_group_limit_holds(c, prefix);
        let n = items.len() - 1;
        assert(items.take(n) =~= prefix);
        assert(c.admits_spec(items.take(n), items[n]));
        assert forall|t: K| #[trigger] same_key_count(c.key_fn(), items, t) <= c.limit() by {
            let k = c.group_of(last);
            if k.eq_spec(&t) {
                lemma_same_key_count_congruent(c.key_fn(), prefix, k, t);
            }
            assert(same_key_count(c.key_fn(), prefix, t) <= c.limit());
        }
    }
}

/// The position of the first unary constraint that refuses `c`, if any refuses it.
pub fn first_unary_refusal<C>(unary: &[Box<dyn UnaryConstraint<C>>], c: &C) -> (r: Option<usize>)
    ensures
        match r {
            Some(i) => {
                &&& i < unary@.len()
                &&& !unary@[i as int].allows_spec(c)
                &&& forall|j: int| 0 <= j < i ==> #[trigger] unary@[j].allows_spec(c)
            },
            None => forall|j: int| 0 <= j < unary@.len() ==> #[trigger] unary@[j].allows_spec(c),
        },
{
    let mut i: usize = 0;
    while i < unary.len()
        invariant
            i <= unary@.len(),
            forall|j: int| 0 <= j < i ==> #[trigger] unary@[j].allows_spec(c),
        decreases unary@.len() - i,
    {
        if !unary[i].allows(c) {
            return Some(i);
        }
        i += 1;
    }
    None
}

} // verus!
