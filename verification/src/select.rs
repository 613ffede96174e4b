//! Selection on the pool under set constraints, requirement repair, blocking reasons, the
//! split of the pool into selected and left-out candidates, rank positions for rank fusion,
//! and the table of approximation guarantees.
//!
//! The pool is a sequence of candidates, best first. Greedy selection repeatedly takes the
//! admissible candidate with the largest gain key; ties go to the earlier pool position.

use vstd::prelude::*;

use crate::candidate::{CandidateId, IdValue};
use crate::constraint::{ConstraintId, LowerBound, SetConstraint};
use crate::error::Error;
use crate::evidence::RejectReason;
use crate::order::{ahead, best_first, keyed_ahead, lemma_ahead, sort_best_first, Keyed};

verus! {

broadcast use {vstd::seq_lib::group_to_multiset_ensures, vstd::multiset::group_multiset_axioms};

// ---- gains -------------------------------------------------------------------------------

/// The gain of adding the pool candidate at `index` to a selection, as an order key.
///
/// The engine's gain is the fused score plus the objective's marginal gain; both are floats,
/// so an implementation hands over their order key. Implementors promise that `gain_key`
/// answers as `gain_spec` says.
pub trait GainOracle<C> {
    /// The gain key of adding pool candidate `index` to `selected`.
    spec fn gain_spec(&self, selected: Seq<&C>, index: int) -> u32;

    /// The gain key of adding pool candidate `index` to `selected`.
    fn gain_key(&self, selected: &[&C], index: usize) -> (r: u32)
        ensures
            r == self.gain_spec(selected@, index as int),
    ;
}

/// The gain when there is no set objective: the candidate's own fused key.
pub struct FusedGain {
    /// The fused order key of each pool position.
    pub keys: Vec<u32>,
}

impl<C> GainOracle<C> for FusedGain {
    open spec fn gain_spec(&self, selected: Seq<&C>, index: int) -> u32 {
        if 0 <= index < self.keys@.len() {
            self.keys@[index]
        } else {
            0
        }
    }

    fn gain_key(&self, selected: &[&C], index: usize) -> (r: u32) {
        if index < self.keys.len() {
            self.keys[index]
        } else {
            0
        }
    }
}

/// A closure of a selection and a pool position that can be called on every pair, and whose
/// answer depends only on the selected candidates and the position.
pub open spec fn total_gain_fn<C, F: Fn(&[&C], usize) -> u32>(f: F) -> bool {
    &&& forall|s: &[&C], i: usize| #[trigger] call_requires(f, (s, i))
    &&& forall|s: &[&C], t: &[&C], i: usize, a: u32, b: u32|
        s@ == t@ && #[trigger] call_ensures(f, (s, i), a) && #[trigger] call_ensures(f, (t, i), b)
            ==> a == b
}

/// `f` may answer `r` for some selection with these candidates and position `i`.
pub open spec fn gain_answer<C, F: Fn(&[&C], usize) -> u32>(f: F, selected: Seq<&C>, i: usize, r: u32) -> bool {
    exists|s: &[&C]| s@ == selected && #[trigger] call_ensures(f, (s, i), r)
}

/// What the closure `f` answers for a selection with these candidates and position `i`.
pub open spec fn gain_out_of<C, F: Fn(&[&C], usize) -> u32>(f: F, selected: Seq<&C>, i: usize) -> u32 {
    choose|r: u32| #[trigger] gain_answer(f, selected, i, r)
}

/// The gain given by a closure, for gains that depend on the selection (a set objective)
/// or on costs.
pub struct FnGain<C, F: Fn(&[&C], usize) -> u32> {
    gain: F,
    marker: core::marker::PhantomData<C>,
}

impl<C, F: Fn(&[&C], usize) -> u32> FnGain<C, F> {
    #[verifier::type_invariant]
    spec fn well_formed(self) -> bool {
        total_gain_fn(self.gain)
    }

    /// The closure.
    pub closed spec fn gain_fn(self) -> F {
        self.gain
    }

    /// Wraps a closure as a gain.
    pub fn new(gain: F) -> (r: Self)
        requires
            total_gain_fn(gain),
        ensures
            r.gain_fn() == gain,
    {
        FnGain { gain, marker: core::marker::PhantomData }
    }
}

impl<C, F: Fn(&[&C], usize) -> u32> GainOracle<C> for FnGain<C, F> {
    open spec fn gain_spec(&self, selected: Seq<&C>, index: int) -> u32 {
        gain_out_of(self.gain_fn(), selected, index as usize)
    }

    fn gain_key(&self, selected: &[&C], index: usize) -> (r: u32)
        ensures
            call_ensures(self.gain_fn(), (selected, index), r),
    {
        proof {
            use_type_invariant(self);
        }
        let r = (self.gain)(selected, index);
        proof {
            assert(gain_answer(self.gain, selected@, index, r));
            let g = gain_out_of(self.gain, selected@, index);
            let s = choose|s: &[&C]| s@ == selected@ && call_ensures(self.gain, (s, index), g);
            assert(call_ensures(self.gain, (s, index), g));
        }
        r
    }
}

// ---- constraints over a selection -----------------------------------------------------

/// Every set constraint admits `c` next to `selected`.
pub open spec fn admitted<C>(cs: Seq<Box<dyn SetConstraint<C>>>, selected: Seq<&C>, c: &C) -> bool {
    forall|j: int| 0 <= j < cs.len() ==> #[trigger] cs[j].admits_spec(selected, c)
}

/// The candidates at the given pool positions.
pub open spec fn refs_of<C>(pool: Seq<&C>, sel: Seq<usize>) -> Seq<&C> {
    sel.map_values(|i: usize| pool[i as int])
}

/// Every position of `sel` is a pool position.
pub open spec fn in_pool(sel: Seq<usize>, n: nat) -> bool {
    forall|t: int| 0 <= t < sel.len() ==> #[trigger] sel[t] < n
}

/// Whether every set constraint admits `c` next to `selected`.
pub fn admits_all<C>(cs: &[Box<dyn SetConstraint<C>>], selected: &[&C], c: &C) -> (r: bool)
    ensures
        r == admitted(cs@, selected@, c),
{
    let mut j: usize = 0;
    while j < cs.len()
        invariant
            j <= cs@.len(),
            forall|t: int| 0 <= t < j ==> #[trigger] cs@[t].admits_spec(selected@, c),
        decreases cs@.len() - j,
    {
        if !cs[j].admits(selected, c) {
            return false;
        }
        j += 1;
    }
    true
}

/// The candidates at the given pool positions.
pub fn refs<'a, C>(pool: &[&'a C], sel: &[usize]) -> (r: Vec<&'a C>)
    requires
        in_pool(sel@, pool@.len()),
    ensures
        r@ == refs_of(pool@, sel@),
{
    let mut r: Vec<&'a C> = Vec::new();
    let mut t: usize = 0;
    while t < sel.len()
        invariant
            t <= sel@.len(),
            in_pool(sel@, pool@.len()),
            r@ == refs_of(pool@, sel@.take(t as int)),
        decreases sel@.len() - t,
    {
        r.push(pool[sel[t]]);
        proof {
            assert(refs_of(pool@, sel@.take(t + 1)) =~= refs_of(pool@, sel@.take(t as int)).push(
                pool@[sel@[t as int] as int],
            ));
        }
        t += 1;
    }
    assert(sel@.take(sel@.len() as int) =~= sel@);
    r
}

// ---- greedy choice ----------------------------------------------------------------------

/// The sum of the costs at the given positions.
pub open spec fn cost_sum(costs: Seq<u32>, sel: Seq<usize>) -> nat
    decreases sel.len(),
{
    if sel.len() == 0 {
        0
    } else {
        cost_sum(costs, sel.drop_last()) + costs[sel.last() as int] as nat
    }
}

/// Pool position `i` may be taken next: it is not taken yet, its cost fits what is left of
/// the budget (if there is one), and every set constraint admits it.
pub open spec fn eligible<C>(
    cs: Seq<Box<dyn SetConstraint<C>>>,
    pool: Seq<&C>,
    sel: Seq<usize>,
    room: Option<(Seq<u32>, nat)>,
    i: int,
) -> bool {
    &&& 0 <= i < pool.len()
    &&& !sel.contains(i as usize)
    &&& match room {
        Some((costs, limit)) => cost_sum(costs, sel) + costs[i] <= limit,
        None => true,
    }
    &&& admitted(cs, refs_of(pool, sel), pool[i])
}

/// `i` is the greedy choice: eligible, with the largest gain key, and the earliest pool
/// position among equal keys.
pub open spec fn greedy_choice<C, G: GainOracle<C>>(
    cs: Seq<Box<dyn SetConstraint<C>>>,
    pool: Seq<&C>,
    sel: Seq<usize>,
    room: Option<(Seq<u32>, nat)>,
    gains: G,
    i: int,
) -> bool {
    let r = refs_of(pool, sel);
    &&& eligible(cs, pool, sel, room, i)
    &&& forall|j: int|
        #![trigger eligible(cs, pool, sel, room, j)]
        eligible(cs, pool, sel, room, j) ==> (j < i ==> gains.gain_spec(r, j) < gains.gain_spec(
            r,
            i,
        )) && (j > i ==> gains.gain_spec(r, j) <= gains.gain_spec(r, i))
}

/// Nothing is eligible.
pub open spec fn nothing_eligible<C>(
    cs: Seq<Box<dyn SetConstraint<C>>>,
    pool: Seq<&C>,
    sel: Seq<usize>,
    room: Option<(Seq<u32>, nat)>,
) -> bool {
    forall|j: int| !#[trigger] eligible(cs, pool, sel, room, j)
}

/// Every step of `sel` was the greedy choice given the steps before it.
pub open spec fn greedy_run<C, G: GainOracle<C>>(
    cs: Seq<Box<dyn SetConstraint<C>>>,
    pool: Seq<&C>,
    sel: Seq<usize>,
    room: Option<Seq<u32>>,
    limit: nat,
    gains: G,
) -> bool {
    forall|r: int|
        0 <= r < sel.len() ==> greedy_choice(
            cs,
            pool,
            sel.take(r),
            match room {
                Some(c) => Some((c, limit)),
                None => None,
            },
            gains,
            #[trigger] sel[r] as int,
        )
}

fn contains_index(sel: &[usize], i: usize) -> (r: bool)
    ensures
        r == sel@.contains(i),
{
    let mut t: usize = 0;
    while t < sel.len()
        invariant
            t <= sel@.len(),
            forall|u: int| 0 <= u < t ==> sel@[u] != i,
        decreases sel@.len() - t,
    {
        if sel[t] == i {
            return true;
        }
        t += 1;
    }
    false
}

fn sum_costs(costs: &[u32], sel: &[usize]) -> (r: u128)
    requires
        in_pool(sel@, costs@.len()),
    ensures
        r == cost_sum(costs@, sel@),
        r < 0x1_0000_0000_0000_0000_0000_0000,
{
    let mut total: u128 = 0;
    let mut t: usize = 0;
    let n = sel.len();
    while t < n
        invariant
            t <= sel@.len(),
            in_pool(sel@, costs@.len()),
            total == cost_sum(costs@, sel@.take(t as int)),
            total <= t * 0x1_0000_0000,
            n == sel@.len(),
        decreases sel@.len() - t,
    {
        proof {
            assert(sel@.take(t + 1).drop_last() =~= sel@.take(t as int));
        }
        total = total + costs[sel[t]] as u128;
        t += 1;
    }
    assert(sel@.take(sel@.len() as int) =~= sel@);
    total
}

/// The greedy choice after `sel`, if any candidate is eligible.
///
/// With `room`, a candidate must also fit: the costs at `sel` plus its own cost stay
/// within `limit`.
pub fn best_choice<C, G: GainOracle<C>>(
    cs: &[Box<dyn SetConstraint<C>>],
    pool: &[&C],
    sel: &[usize],
    room: Option<(&[u32], u64)>,
    gains: &G,
) -> (r: Option<usize>)
    requires
        in_pool(sel@, pool@.len()),
        match room {
            Some((costs, _)) => costs@.len() == pool@.len(),
            None => true,
        },
    ensures
        ({
            let rm = match room {
                Some((costs, limit)) => Some((costs@, limit as nat)),
                None => None,
            };
            match r {
                Some(i) => greedy_choice(cs@, pool@, sel@, rm, *gains, i as int),
                None => nothing_eligible(cs@, pool@, sel@, rm),
            }
        }),
{
    let ghost rm = match room {
        Some((costs, limit)) => Some((costs@, limit as nat)),
        None => None,
    };
    let chosen = refs(pool, sel);
    let spent: u128 = match room {
        Some((costs, _)) => sum_costs(costs, sel),
        None => 0,
    };
    let mut best: Option<(usize, u32)> = None;
    let mut i: usize = 0;
    while i < pool.len()
        invariant
            i <= pool@.len(),
            chosen@ == refs_of(pool@, sel@),
            match room {
                Some((costs, _)) => costs@.len() == pool@.len() && spent == cost_sum(costs@, sel@)
                && spent < 0x1_0000_0000_0000_0000_0000_0000,
                None => true,
            },
            rm == match room {
                Some((costs, limit)) => Some((costs@, limit as nat)),
                None => None,
            },
            match best {
                Some((b, g)) => b < i && eligible(cs@, pool@, sel@, rm, b as int) && g
                    == gains.gain_spec(chosen@, b as int) && forall|j: int|
                    #![trigger eligible(cs@, pool@, sel@, rm, j)]
                    0 <= j < i && eligible(cs@, pool@, sel@, rm, j) ==> (j < b ==> gains.gain_spec(
                        chosen@,
                        j,
                    ) < g) && gains.gain_spec(chosen@, j) <= g,
                None => forall|j: int| 0 <= j < i ==> !#[trigger] eligible(cs@, pool@, sel@, rm, j),
            },
        decreases pool@.len() - i,
    {
        let taken = contains_index(sel, i);
        let fits = match room {
            Some((costs, limit)) => spent + costs[i] as u128 <= limit as u128,
            None => true,
        };
        if !taken && fits && admits_all(cs, chosen.as_slice(), pool[i]) {
            let g = gains.gain_key(chosen.as_slice(), i);
            match best {
                Some((_, b)) if g <= b => {},
                _ => {
                    best = Some((i, g));
                },
            }
        }
        i += 1;
    }
    match best {
        Some((b, _)) => Some(b),
        None => None,
    }
}

/// Greedy selection under a count limit.
///
/// Takes the greedy choice until `k` candidates are taken (all of the pool when `k` is
/// absent) or nothing is eligible. The flag is whether fewer than the requested count were
/// taken.
pub fn cardinality<C, G: GainOracle<C>>(
    cs: &[Box<dyn SetConstraint<C>>],
    pool: &[&C],
    k: Option<usize>,
    gains: &G,
) -> (r: (Vec<usize>, bool))
    ensures
        ({
            let (sel, exhausted) = r;
            let requested = match k {
                Some(n) => n as nat,
                None => pool@.len(),
            };
            let cap = if requested < pool@.len() { requested } else { pool@.len() };
            &&& in_pool(sel@, pool@.len())
            &&& sel@.len() <= cap
            &&& greedy_run(cs@, pool@, sel@, None, 0, *gains)
            &&& sel@.len() < cap ==> nothing_eligible(cs@, pool@, sel@, None)
            &&& exhausted == (sel@.len() < requested)
        }),
{
    let requested = match k {
        Some(n) => n,
        None => pool.len(),
    };
    let cap = if requested < pool.len() {
        requested
    } else {
        pool.len()
    };
    let mut sel: Vec<usize> = Vec::new();
    let mut stuck = false;
    while sel.len() < cap && !stuck
        invariant
            cap <= pool@.len(),
            in_pool(sel@, pool@.len()),
            sel@.len() <= cap,
            greedy_run(cs@, pool@, sel@, None, 0, *gains),
            stuck ==> nothing_eligible(cs@, pool@, sel@, None),
        decreases cap - sel@.len(), if stuck { 0int } else { 1int },
    {
        match best_choice(cs, pool, sel.as_slice(), None, gains) {
            Some(i) => {
                proof {
                    lemma_extend_run(cs@, pool@, sel@, None, 0, *gains, i);
                }
                sel.push(i);
            },
            None => {
                stuck = true;
            },
        }
    }
    let exhausted = sel.len() < requested;
    (sel, exhausted)
}

/// Greedy packing under a cost budget: takes the greedy choice among candidates that still
/// fit until none is eligible. The flag is whether the whole pool was taken.
pub fn greedy_pack<C, G: GainOracle<C>>(
    cs: &[Box<dyn SetConstraint<C>>],
    pool: &[&C],
    costs: &[u32],
    limit: u64,
    gains: &G,
) -> (r: (Vec<usize>, bool))
    requires
        costs@.len() == pool@.len(),
    ensures
        ({
            let (sel, all_taken) = r;
            &&& in_pool(sel@, pool@.len())
            &&& greedy_run(cs@, pool@, sel@, Some(costs@), limit as nat, *gains)
            &&& nothing_eligible(cs@, pool@, sel@, Some((costs@, limit as nat)))
            &&& cost_sum(costs@, sel@) <= limit
            &&& all_taken == (sel@.len() == pool@.len())
        }),
{
    let mut sel: Vec<usize> = Vec::new();
    let mut stuck = false;
    let ghost rm = Some((costs@, limit as nat));
    while !stuck
        invariant
            costs@.len() == pool@.len(),
            rm == Some((costs@, limit as nat)),
            in_pool(sel@, pool@.len()),
            sel@.no_duplicates(),
            cost_sum(costs@, sel@) <= limit,
            greedy_run(cs@, pool@, sel@, Some(costs@), limit as nat, *gains),
            stuck ==> nothing_eligible(cs@, pool@, sel@, rm),
        decreases pool@.len() - sel@.len(), if stuck { 0int } else { 1int },
    {
        proof {
            lemma_distinct_in_pool_len(sel@, pool@.len());
        }
        match best_choice(cs, pool, sel.as_slice(), Some((costs, limit)), gains) {
            Some(i) => {
                proof {
                    lemma_pack_step(cs@, pool@, sel@, costs@, limit as nat, *gains, i);
                }
                sel.push(i);
            },
            None => {
                stuck = true;
            },
        }
    }
    let all_taken = sel.len() == pool.len();
    (sel, all_taken)
}

/// Adding the greedy choice to a greedy run gives a greedy run.
pub proof fn lemma_extend_run<C, G: GainOracle<C>>(
    cs: Seq<Box<dyn SetConstraint<C>>>,
    pool: Seq<&C>,
    before: Seq<usize>,
    room: Option<Seq<u32>>,
    limit: nat,
    gains: G,
    i: usize,
)
    requires
        greedy_run(cs, pool, before, room, limit, gains),
        greedy_choice(
            cs,
            pool,
            before,
            match room {
                Some(c) => Some((c, limit)),
                None => None,
            },
            gains,
            i as int,
        ),
    ensures
        greedy_run(cs, pool, before.push(i), room, limit, gains),
        before.no_duplicates() ==> before.push(i).no_duplicates(),
{
    let sel = before.push(i);
    let rm = match room {
        Some(c) => Some((c, limit)),
        None => None,
    };
    assert forall|r: int| 0 <= r < sel.len() implies greedy_choice(
        cs,
        pool,
        sel.take(r),
        rm,
        gains,
        #[trigger] sel[r] as int,
    ) by {
        if r < before.len() {
            assert(sel.take(r) =~= before.take(r));
            assert(sel[r] == before[r]);
        } else {
            assert(sel.take(r) =~= before);
        }
    }
    if before.no_duplicates() {
        assert forall|a: int, b: int| 0 <= a < b < sel.len() implies sel[a] != sel[b] by {
            if b == before.len() {
                assert(before.contains(before[a]));
            }
        }
    }
}

proof fn lemma_pack_step<C, G: GainOracle<C>>(
    cs: Seq<Box<dyn SetConstraint<C>>>,
    pool: Seq<&C>,
    before: Seq<usize>,
    costs: Seq<u32>,
    limit: nat,
    gains: G,
    i: usize,
)
    requires
        in_pool(before, pool.len()),
        before.no_duplicates(),
        greedy_run(cs, pool, before, Some(costs), limit, gains),
        greedy_choice(cs, pool, before, Some((costs, limit)), gains, i as int),
    ensures
        greedy_run(cs, pool, before.push(i), Some(costs), limit, gains),
        before.push(i).no_duplicates(),
        in_pool(before.push(i), pool.len()),
        cost_sum(costs, before.push(i)) <= limit,
        before.push(i).len() == before.len() + 1,
        before.push(i).len() <= pool.len(),
{
    lemma_extend_run(cs, pool, before, Some(costs), limit, gains, i);
    assert(before.push(i).drop_last() =~= before);
    lemma_distinct_in_pool_len(before.push(i), pool.len());
}

/// A duplicate-free sequence of pool positions is no longer than the pool.
pub proof fn lemma_distinct_in_pool_len(sel: Seq<usize>, n: nat)
    requires
        in_pool(sel, n),
        sel.no_duplicates(),
    ensures
        sel.len() <= n,
{
    let s = sel.to_set();
    sel.unique_seq_to_set();
    let full = Set::new(|i: usize| (i as nat) < n);
    assert(s.subset_of(full));
    lemma_usize_set_len(full, n);
    vstd::set_lib::lemma_len_subset(s, full);
}

proof fn lemma_usize_set_len(full: Set<usize>, n: nat)
    requires
        full == Set::new(|i: usize| (i as nat) < n),
    ensures
        full.finite(),
        full.len() <= n,
        n <= usize::MAX + 1 ==> full.len() == n,
    decreases n,
{
    if n == 0 {
        assert(full =~= Set::empty());
    } else {
        let smaller = Set::new(|i: usize| (i as nat) < (n - 1) as nat);
        lemma_usize_set_len(smaller, (n - 1) as nat);
        if n - 1 <= usize::MAX {
            let top = (n - 1) as usize;
            assert(!smaller.contains(top));
            assert(full =~= smaller.insert(top));
        } else {
            assert(full =~= smaller);
        }
    }
}

// ---- blocking reasons ----------------------------------------------------------------

/// The first set constraint, from index `j` on, that refuses `c` next to `selected`.
pub open spec fn refusal_from<C>(
    cs: Seq<Box<dyn SetConstraint<C>>>,
    selected: Seq<&C>,
    c: &C,
    j: int,
) -> Option<int>
    decreases cs.len() - j,
{
    if j < 0 || j >= cs.len() {
        None
    } else if !cs[j].admits_spec(selected, c) {
        Some(j)
    } else {
        refusal_from(cs, selected, c, j + 1)
    }
}

/// The identifier of the first set constraint that refuses `c` next to `selected`.
pub fn first_refusing<C>(cs: &[Box<dyn SetConstraint<C>>], selected: &[&C], c: &C) -> (r: Option<
    ConstraintId,
>)
    ensures
        match r {
            Some(id) => refusal_from(cs@, selected@, c, 0) matches Some(j) && id@ == cs@[j].id_spec(),
            None => refusal_from(cs@, selected@, c, 0) is None,
        },
{
    let mut j: usize = 0;
    while j < cs.len()
        invariant
            j <= cs@.len(),
            refusal_from(cs@, selected@, c, 0) == refusal_from(cs@, selected@, c, j as int),
        decreases cs@.len() - j,
    {
        if !cs[j].admits(selected, c) {
            return Some(cs[j].id());
        }
        j += 1;
    }
    None
}

/// Records, for every pool candidate left out of `sel`, the first set constraint that
/// refuses it next to the final selection; `None` means it was outranked. Candidates in
/// `sel` get `None`.
pub fn blocking_reasons<C>(cs: &[Box<dyn SetConstraint<C>>], pool: &[&C], sel: &[usize]) -> (r: Vec<
    Option<ConstraintId>,
>)
    requires
        in_pool(sel@, pool@.len()),
    ensures
        r@.len() == pool@.len(),
        forall|i: int|
            0 <= i < pool@.len() ==> match #[trigger] r@[i] {
                Some(id) => !sel@.contains(i as usize) && (refusal_from(
                    cs@,
                    refs_of(pool@, sel@),
                    pool@[i],
                    0,
                ) matches Some(j) && id@ == cs@[j].id_spec()),
                None => sel@.contains(i as usize) || refusal_from(
                    cs@,
                    refs_of(pool@, sel@),
                    pool@[i],
                    0,
                ) is None,
            },
{
    let chosen = refs(pool, sel);
    let mut out: Vec<Option<ConstraintId>> = Vec::new();
    let mut i: usize = 0;
    while i < pool.len()
        invariant
            i <= pool@.len(),
            out@.len() == i,
            chosen@ == refs_of(pool@, sel@),
            forall|t: int|
                0 <= t < i ==> match #[trigger] out@[t] {
                    Some(id) => !sel@.contains(t as usize) && (refusal_from(cs@, chosen@, pool@[t], 0)
                        matches Some(j) && id@ == cs@[j].id_spec()),
                    None => sel@.contains(t as usize) || refusal_from(cs@, chosen@, pool@[t], 0) is None,
                },
        decreases pool@.len() - i,
    {
        let reason = if contains_index(sel, i) {
            None
        } else {
            first_refusing(cs, chosen.as_slice(), pool[i])
        };
        out.push(reason);
        proof {
            assert(out@[i as int] == reason);
        }
        i += 1;
    }
    out
}

// ---- settling the pool -------------------------------------------------------------------

/// A pool candidate left out of the selection, with its position and why.
pub struct LeftOut<E> {
    /// Its pool position.
    pub position: usize,
    /// The candidate.
    pub item: E,
    /// Why it was left out.
    pub reason: RejectReason,
}

/// The reason a left-out candidate gets: the set constraint that refuses it, else
/// outranked.
pub open spec fn left_out_reason(blocked: Option<ConstraintId>, why: RejectReason) -> bool {
    match blocked {
        Some(id) => why matches RejectReason::SetConstraint(c) && c@ == id@,
        None => why == RejectReason::Outranked,
    }
}

/// Splits the pool into the selected candidates, in selection order, and every other one,
/// in pool order, with its reason: the set constraint that refuses it next to the final
/// selection, else outranked. Nothing is lost and nothing appears twice.
pub fn settle<E>(pool: Vec<E>, selected: &[usize], blocked_by: &[Option<ConstraintId>]) -> (r: (
    Vec<E>,
    Vec<LeftOut<E>>,
))
    requires
        in_pool(selected@, pool@.len()),
        selected@.no_duplicates(),
        blocked_by@.len() == pool@.len(),
    ensures
        r.0@ == selected@.map_values(|i: usize| pool@[i as int]),
        forall|t: int|
            0 <= t < r.1@.len() ==> {
                let o = #[trigger] r.1@[t];
                &&& (o.position as int) < pool@.len()
                &&& !selected@.contains(o.position)
                &&& o.item == pool@[o.position as int]
                &&& left_out_reason(blocked_by@[o.position as int], o.reason)
            },
        forall|t: int, u: int| 0 <= t < u < r.1@.len() ==> r.1@[t].position < r.1@[u].position,
        forall|x: usize|
            (x as int) < pool@.len() && !selected@.contains(x) ==> exists|t: int|
                0 <= t < r.1@.len() && #[trigger] r.1@[t].position == x,
        r.0@.len() + r.1@.len() == pool@.len(),
{
    let ghost p = pool@;
    let n = pool.len();
    let mut rest = pool;
    let mut slots: Vec<Option<E>> = Vec::new();
    while rest.len() > 0
        invariant
            n == p.len(),
            rest@ == p.take(rest@.len() as int),
            slots@.len() + rest@.len() == n,
            forall|j: int| 0 <= j < slots@.len() ==> #[trigger] slots@[j] == Some(p[n - 1 - j]),
        decreases rest@.len(),
    {
        let ghost before = rest@;
        let x = rest.pop().unwrap();
        proof {
            assert(rest@ =~= p.take(rest@.len() as int));
            assert(x == p[before.len() - 1]);
        }
        slots.push(Some(x));
    }
    // Selected candidates, in selection order.
    let mut chosen: Vec<E> = Vec::new();
    let mut t: usize = 0;
    while t < selected.len()
        invariant
            n == p.len(),
            slots@.len() == n,
            in_pool(selected@, n as nat),
            selected@.no_duplicates(),
            t <= selected@.len(),
            chosen@ == selected@.take(t as int).map_values(|i: usize| p[i as int]),
            forall|j: int|
                0 <= j < n ==> #[trigger] slots@[j] == if selected@.take(t as int).contains(
                    (n - 1 - j) as usize,
                ) {
                    None
                } else {
                    Some(p[n - 1 - j])
                },
        decreases selected@.len() - t,
    {
        let i = selected[t];
        let j = n - 1 - i;
        proof {
            assert(!selected@.take(t as int).contains(i)) by {
                if selected@.take(t as int).contains(i) {
                    let q = choose|q: int| 0 <= q < t && selected@.take(t as int)[q] == i;
                    assert(selected@[q] == selected@[t as int]);
                }
            }
            assert(slots@[j as int] == Some(p[i as int]));
        }
        slots.push(None);
        let x = slots.swap_remove(j);
        chosen.push(x.unwrap());
        proof {
            assert(selected@.take(t + 1) =~= selected@.take(t as int).push(i));
            assert(selected@.take(t + 1).map_values(|i: usize| p[i as int]) =~= selected@.take(
                t as int,
            ).map_values(|i: usize| p[i as int]).push(p[i as int]));
            assert forall|jj: int| 0 <= jj < n implies #[trigger] slots@[jj] == if selected@.take(
                t + 1,
            ).contains((n - 1 - jj) as usize) {
                None
            } else {
                Some(p[n - 1 - jj])
            } by {
                if jj != j {
                    assert((n - 1 - jj) as usize != i);
                    assert(selected@.take(t + 1).contains((n - 1 - jj) as usize)
                        == selected@.take(t as int).contains((n - 1 - jj) as usize));
                } else {
                    assert(selected@.take(t + 1)[t as int] == i);
                    assert(selected@.take(t + 1).contains(i));
                }
            }
        }
        t += 1;
    }
    assert(selected@.take(selected@.len() as int) =~= selected@);
    // Everything else, in pool order.
    let mut left: Vec<LeftOut<E>> = Vec::new();
    let mut i: usize = 0;
    while i < n
        invariant
            n == p.len(),
            slots@.len() == n,
            i <= n,
            blocked_by@.len() == n,
            forall|j: int|
                0 <= j < n ==> #[trigger] slots@[j] == if selected@.contains((n - 1 - j) as usize) || n
                    - 1 - j < i {
                    None
                } else {
                    Some(p[n - 1 - j])
                },
            forall|t: int|
                0 <= t < left@.len() ==> {
                    let o = #[trigger] left@[t];
                    &&& (o.position as int) < i
                    &&& !selected@.contains(o.position)
                    &&& o.item == p[o.position as int]
                    &&& left_out_reason(blocked_by@[o.position as int], o.reason)
                },
            forall|t: int, u: int| 0 <= t < u < left@.len() ==> left@[t].position < left@[u].position,
            forall|x: usize|
                (x as int) < i && !selected@.contains(x) ==> exists|t: int|
                    0 <= t < left@.len() && #[trigger] left@[t].position == x,
        decreases n - i,
    {
        let j = n - 1 - i;
        let ghost prev = left@;
        if slots[j].is_some() {
            slots.push(None);
            let x = slots.swap_remove(j);
            let reason = match &blocked_by[i] {
                Some(id) => RejectReason::SetConstraint(id.duplicate()),
                None => RejectReason::Outranked,
            };
            left.push(LeftOut { position: i, item: x.unwrap(), reason });
            proof {
                assert(!selected@.contains(i));
                assert(left@[left@.len() - 1].position == i);
            }
        } else {
            proof {
                assert(selected@.contains(i));
            }
        }
        proof {
            assert forall|x: usize|
                (x as int) < i + 1 && !selected@.contains(x) implies exists|t: int|
                    0 <= t < left@.len() && #[trigger] left@[t].position == x by {
                if (x as int) < i {
                    let t = choose|t: int| 0 <= t < prev.len() && prev[t].position == x;
                    assert(left@[t] == prev[t]);
                } else {
                    assert(left@[left@.len() - 1].position == x);
                }
            }
            assert forall|jj: int| 0 <= jj < n implies #[trigger] slots@[jj] == if selected@.contains(
                (n - 1 - jj) as usize,
            ) || n - 1 - jj < i + 1 {
                None
            } else {
                Some(p[n - 1 - jj])
            } by {
                if jj != j {
                    assert(n - 1 - jj != i);
                }
            }
        }
        i += 1;
    }
    proof {
        // Every pool position is selected or left out, and never both.
        let lp = left@.map_values(|o: LeftOut<E>| o.position);
        assert(lp.no_duplicates()) by {
            assert forall|a: int, b: int| 0 <= a < lp.len() && 0 <= b < lp.len() && a != b implies lp[a]
                != lp[b] by {
                if a < b {
                    assert(left@[a].position < left@[b].position);
                } else {
                    assert(left@[b].position < left@[a].position);
                }
            }
        }
        lp.unique_seq_to_set();
        selected@.unique_seq_to_set();
        let full = Set::new(|x: usize| (x as nat) < n as nat);
        lemma_usize_set_len(full, n as nat);
        let ls = lp.to_set();
        let ss = selected@.to_set();
        assert(ls.disjoint(ss)) by {
            assert forall|x: usize| ls.contains(x) implies !ss.contains(x) by {
                let t = choose|t: int| 0 <= t < lp.len() && lp[t] == x;
                assert(left@[t].position == x);
            }
        }
        assert(ls + ss =~= full) by {
            assert forall|x: usize| full.contains(x) implies (ls + ss).contains(x) by {
                if !selected@.contains(x) {
                    let t = choose|t: int| 0 <= t < left@.len() && #[trigger] left@[t].position == x;
                    assert(lp[t] == x);
                }
            }
            assert forall|x: usize| (ls + ss).contains(x) implies full.contains(x) by {
                if ls.contains(x) {
                    let t = choose|t: int| 0 <= t < lp.len() && lp[t] == x;
                    assert(left@[t].position == x);
                }
            }
        }
        vstd::set_lib::lemma_set_disjoint_lens(ls, ss);
    }
    (chosen, left)
}


// ---- set feasibility and requirements ------------------------------------------------

/// The whole set keeps its limits and every constraint: within the count limit, within the
/// cost budget, and each member admitted by every set constraint next to the others.
pub open spec fn set_feasible<C>(
    cs: Seq<Box<dyn SetConstraint<C>>>,
    pool: Seq<&C>,
    sel: Seq<usize>,
    k: Option<usize>,
    budget: Option<(Seq<u32>, nat)>,
) -> bool {
    &&& match k {
        Some(n) => sel.len() <= n,
        None => true,
    }
    &&& match budget {
        Some((costs, limit)) => cost_sum(costs, sel) <= limit,
        None => true,
    }
    &&& forall|pos: int|
        0 <= pos < sel.len() ==> admitted(
            cs,
            refs_of(pool, #[trigger] sel.remove(pos)),
            pool[sel[pos] as int],
        )
}

/// How many of `items` satisfy `p`.
pub open spec fn count_sat<C>(items: Seq<&C>, p: spec_fn(&C) -> bool) -> nat
    decreases items.len(),
{
    if items.len() == 0 {
        0
    } else {
        count_sat(items.drop_last(), p) + if p(items.last()) {
            1nat
        } else {
            0nat
        }
    }
}

/// How many of `items` count toward requirement `r`.
pub open spec fn match_count<C>(reqs: Seq<Box<dyn LowerBound<C>>>, r: int, items: Seq<&C>) -> nat {
    count_sat(items, |c: &C| reqs[r].matches_spec(c))
}

/// The first `upto` requirements are met by the set at `sel`.
pub open spec fn requirements_met<C>(
    reqs: Seq<Box<dyn LowerBound<C>>>,
    pool: Seq<&C>,
    sel: Seq<usize>,
    upto: int,
) -> bool {
    forall|r: int|
        0 <= r < upto && r < reqs.len() ==> #[trigger] match_count(reqs, r, refs_of(pool, sel))
            >= reqs[r].needed_spec()
}

fn without_position(sel: &[usize], p: usize) -> (r: Vec<usize>)
    requires
        p < sel@.len(),
    ensures
        r@ == sel@.remove(p as int),
{
    let mut r: Vec<usize> = Vec::new();
    let mut t: usize = 0;
    while t < sel.len()
        invariant
            t <= sel@.len(),
            p < sel@.len(),
            r@ == if t <= p {
                sel@.take(t as int)
            } else {
                sel@.take(t as int).remove(p as int)
            },
        decreases sel@.len() - t,
    {
        if t != p {
            r.push(sel[t]);
        }
        proof {
            if t < p {
                assert(sel@.take(t + 1) =~= sel@.take(t as int).push(sel@[t as int]));
            } else if t == p {
                assert(sel@.take(t + 1).remove(p as int) =~= sel@.take(t as int));
            } else {
                assert(sel@.take(t + 1).remove(p as int) =~= sel@.take(t as int).remove(
                    p as int,
                ).push(sel@[t as int]));
            }
        }
        t += 1;
    }
    assert(sel@.take(sel@.len() as int) =~= sel@);
    r
}

/// Whether the set at `sel` keeps its limits and every set constraint.
pub fn set_is_feasible<C>(
    cs: &[Box<dyn SetConstraint<C>>],
    pool: &[&C],
    sel: &[usize],
    k: Option<usize>,
    budget: Option<(&[u32], u64)>,
) -> (r: bool)
    requires
        in_pool(sel@, pool@.len()),
        match budget {
            Some((costs, _)) => costs@.len() == pool@.len(),
            None => true,
        },
    ensures
        r == set_feasible(
            cs@,
            pool@,
            sel@,
            k,
            match budget {
                Some((costs, limit)) => Some((costs@, limit as nat)),
                None => None,
            },
        ),
{
    match k {
        Some(n) => {
            if sel.len() > n {
                return false;
            }
        },
        None => {},
    }
    match budget {
        Some((costs, limit)) => {
            if sum_costs(costs, sel) > limit as u128 {
                return false;
            }
        },
        None => {},
    }
    let mut pos: usize = 0;
    while pos < sel.len()
        invariant
            pos <= sel@.len(),
            in_pool(sel@, pool@.len()),
            forall|q: int|
                0 <= q < pos ==> admitted(
                    cs@,
                    refs_of(pool@, #[trigger] sel@.remove(q)),
                    pool@[sel@[q] as int],
                ),
        decreases sel@.len() - pos,
    {
        let rest = without_position(sel, pos);
        proof {
            assert forall|t: int| 0 <= t < rest@.len() implies #[trigger] rest@[t] < pool@.len() by {
                if t < pos {
                    assert(rest@[t] == sel@[t]);
                } else {
                    assert(rest@[t] == sel@[t + 1]);
                }
            }
        }
        let others = refs(pool, rest.as_slice());
        if !admits_all(cs, others.as_slice(), pool[sel[pos]]) {
            return false;
        }
        pos += 1;
    }
    true
}

/// How many of the candidates at `sel` count toward requirement `r`.
pub fn count_matching<C>(reqs: &[Box<dyn LowerBound<C>>], r: usize, pool: &[&C], sel: &[usize]) -> (n:
    usize)
    requires
        r < reqs@.len(),
        in_pool(sel@, pool@.len()),
    ensures
        n == match_count(reqs@, r as int, refs_of(pool@, sel@)),
{
    let mut count: usize = 0;
    let mut t: usize = 0;
    assert(refs_of(pool@, sel@.take(0)) =~= Seq::<&C>::empty());
    while t < sel.len()
        invariant
            t <= sel@.len(),
            r < reqs@.len(),
            in_pool(sel@, pool@.len()),
            count == match_count(reqs@, r as int, refs_of(pool@, sel@.take(t as int))),
            count <= t,
        decreases sel@.len() - t,
    {
        proof {
            let a = refs_of(pool@, sel@.take(t + 1));
            assert(a.drop_last() =~= refs_of(pool@, sel@.take(t as int)));
            assert(a.last() == pool@[sel@[t as int] as int]);
        }
        if reqs[r].bound_matches(pool[sel[t]]) {
            count += 1;
        }
        t += 1;
    }
    assert(sel@.take(sel@.len() as int) =~= sel@);
    count
}

fn requirements_hold<C>(
    reqs: &[Box<dyn LowerBound<C>>],
    pool: &[&C],
    sel: &[usize],
    upto: usize,
) -> (r: bool)
    requires
        in_pool(sel@, pool@.len()),
        upto <= reqs@.len(),
    ensures
        r == requirements_met(reqs@, pool@, sel@, upto as int),
{
    let mut r: usize = 0;
    while r < upto
        invariant
            r <= upto,
            upto <= reqs@.len(),
            in_pool(sel@, pool@.len()),
            requirements_met(reqs@, pool@, sel@, r as int),
        decreases upto - r,
    {
        if count_matching(reqs, r, pool, sel) < reqs[r].bound_needed() {
            return false;
        }
        r += 1;
    }
    true
}

proof fn lemma_count_remove<C>(items: Seq<&C>, pr: spec_fn(&C) -> bool, p: int)
    requires
        0 <= p < items.len(),
    ensures
        count_sat(items.remove(p), pr) + (if pr(items[p]) {
            1nat
        } else {
            0nat
        }) == count_sat(items, pr),
    decreases items.len(),
{
    if p < items.len() - 1 {
        let shorter = items.drop_last();
        lemma_count_remove(shorter, pr, p);
        let rem = items.remove(p);
        assert(rem.drop_last() =~= shorter.remove(p));
        assert(rem.last() == items.last());
        assert(shorter[p] == items[p]);
    } else {
        assert(items.remove(p) =~= items.drop_last());
        assert(items.last() == items[p]);
    }
}

proof fn lemma_refs_remove<C>(pool: Seq<&C>, sel: Seq<usize>, p: int)
    requires
        0 <= p < sel.len(),
    ensures
        refs_of(pool, sel.remove(p)) =~= refs_of(pool, sel).remove(p),
{
}

/// A cost budget as costs and a limit.
pub open spec fn budget_view(budget: Option<(&[u32], u64)>) -> Option<(Seq<u32>, nat)> {
    match budget {
        Some((costs, limit)) => Some((costs@, limit as nat)),
        None => None,
    }
}

/// A set works for requirement `ri`: it is feasible and keeps the requirements before `ri`.
pub open spec fn trial_works<C>(
    cs: Seq<Box<dyn SetConstraint<C>>>,
    reqs: Seq<Box<dyn LowerBound<C>>>,
    pool: Seq<&C>,
    k: Option<usize>,
    budget: Option<(Seq<u32>, nat)>,
    ri: int,
    t: Seq<usize>,
) -> bool {
    set_feasible(cs, pool, t, k, budget) && requirements_met(reqs, pool, t, ri)
}

/// Putting `d` in helps requirement `ri`: added where there is room, or in place of a
/// non-matching selected candidate, the set still works.
pub open spec fn replacement_works<C>(
    cs: Seq<Box<dyn SetConstraint<C>>>,
    reqs: Seq<Box<dyn LowerBound<C>>>,
    pool: Seq<&C>,
    k: Option<usize>,
    budget: Option<(Seq<u32>, nat)>,
    sel: Seq<usize>,
    ri: int,
    d: usize,
) -> bool {
    ||| match k {
        Some(n) => sel.len() < n,
        None => false,
    } && trial_works(cs, reqs, pool, k, budget, ri, sel.push(d))
    ||| exists|q: int|
        0 <= q < sel.len() && !reqs[ri].matches_spec(pool[sel[q] as int]) && #[trigger] trial_works(
            cs,
            reqs,
            pool,
            k,
            budget,
            ri,
            sel.remove(q).push(d),
        )
}

/// Some single replacement helps requirement `ri`: a matching unselected candidate whose
/// replacement works.
pub open spec fn single_swap_exists<C>(
    cs: Seq<Box<dyn SetConstraint<C>>>,
    reqs: Seq<Box<dyn LowerBound<C>>>,
    pool: Seq<&C>,
    k: Option<usize>,
    budget: Option<(Seq<u32>, nat)>,
    sel: Seq<usize>,
    ri: int,
) -> bool {
    exists|d: usize|
        (d as int) < pool.len() && !sel.contains(d) && reqs[ri].matches_spec(pool[d as int])
            && #[trigger] replacement_works(cs, reqs, pool, k, budget, sel, ri, d)
}

/// `d` can be brought in for requirement `ri`: a pool candidate that is not selected and
/// matches the requirement.
pub open spec fn donor_for<C>(
    reqs: Seq<Box<dyn LowerBound<C>>>,
    pool: Seq<&C>,
    sel: Seq<usize>,
    ri: int,
    d: usize,
) -> bool {
    (d as int) < pool.len() && !sel.contains(d) && reqs[ri].matches_spec(pool[d as int])
}

/// The selected candidate at position `q` may leave for requirement `ri`: it does not match.
pub open spec fn victim_for<C>(
    reqs: Seq<Box<dyn LowerBound<C>>>,
    pool: Seq<&C>,
    sel: Seq<usize>,
    ri: int,
    q: int,
) -> bool {
    0 <= q < sel.len() && !reqs[ri].matches_spec(pool[sel[q] as int])
}

/// Pool candidate `a` ranks strictly ahead of pool candidate `b` by key, then identifier.
pub open spec fn pool_ahead(keys: Seq<u32>, ids: Seq<IdValue>, a: int, b: int) -> bool {
    ahead(keys[a], ids[a], keys[b], ids[b])
}

/// There is room for one more: a cardinality limit that `n` is below.
pub open spec fn has_room(k: Option<usize>, n: nat) -> bool {
    match k {
        Some(m) => n < m,
        None => false,
    }
}

/// `d` is the donor the repair takes for requirement `ri`: its replacement works, and
/// the replacement of every donor ranked strictly ahead of it does not.
pub open spec fn best_donor<C>(
    cs: Seq<Box<dyn SetConstraint<C>>>,
    reqs: Seq<Box<dyn LowerBound<C>>>,
    pool: Seq<&C>,
    keys: Seq<u32>,
    ids: Seq<IdValue>,
    k: Option<usize>,
    budget: Option<(Seq<u32>, nat)>,
    sel: Seq<usize>,
    ri: int,
    d: usize,
) -> bool {
    &&& donor_for(reqs, pool, sel, ri, d)
    &&& replacement_works(cs, reqs, pool, k, budget, sel, ri, d)
    &&& forall|e: usize|
        donor_for(reqs, pool, sel, ri, e) && pool_ahead(keys, ids, e as int, d as int)
            ==> !#[trigger] replacement_works(cs, reqs, pool, k, budget, sel, ri, e)
}

/// `t` is what putting donor `d` in makes of `sel`: `d` added, when there is room and
/// that works; otherwise `d` in place of the worst-ranked non-matching selected candidate
/// for which the swap works.
pub open spec fn placed<C>(
    cs: Seq<Box<dyn SetConstraint<C>>>,
    reqs: Seq<Box<dyn LowerBound<C>>>,
    pool: Seq<&C>,
    keys: Seq<u32>,
    ids: Seq<IdValue>,
    k: Option<usize>,
    budget: Option<(Seq<u32>, nat)>,
    sel: Seq<usize>,
    ri: int,
    d: usize,
    t: Seq<usize>,
) -> bool {
    if has_room(k, sel.len()) && trial_works(cs, reqs, pool, k, budget, ri, sel.push(d)) {
        t == sel.push(d)
    } else {
        exists|q: int|
            #![trigger sel.remove(q)]
            victim_for(reqs, pool, sel, ri, q) && t == sel.remove(q).push(d) && trial_works(
                cs,
                reqs,
                pool,
                k,
                budget,
                ri,
                sel.remove(q).push(d),
            ) && forall|p: int|
                victim_for(reqs, pool, sel, ri, p) && pool_ahead(keys, ids, sel[q] as int, sel[p] as int)
                    ==> !#[trigger] trial_works(cs, reqs, pool, k, budget, ri, sel.remove(p).push(d))
    }
}

/// One repair step for requirement `ri` takes `sel` to `t`: the best donor is put in.
pub open spec fn repair_step<C>(
    cs: Seq<Box<dyn SetConstraint<C>>>,
    reqs: Seq<Box<dyn LowerBound<C>>>,
    pool: Seq<&C>,
    keys: Seq<u32>,
    ids: Seq<IdValue>,
    k: Option<usize>,
    budget: Option<(Seq<u32>, nat)>,
    sel: Seq<usize>,
    ri: int,
    t: Seq<usize>,
) -> bool {
    exists|d: usize|
        #[trigger] best_donor(cs, reqs, pool, keys, ids, k, budget, sel, ri, d) && placed(
            cs,
            reqs,
            pool,
            keys,
            ids,
            k,
            budget,
            sel,
            ri,
            d,
            t,
        )
}

/// Requirement `ri` is the first one short at `s`.
pub open spec fn first_short<C>(reqs: Seq<Box<dyn LowerBound<C>>>, pool: Seq<&C>, s: Seq<usize>, ri: int) -> bool {
    &&& 0 <= ri < reqs.len()
    &&& requirements_met(reqs, pool, s, ri)
    &&& match_count(reqs, ri, refs_of(pool, s)) < reqs[ri].needed_spec()
}

/// The repair moves from `s` to `t`: a step for the first requirement short at `s`.
pub open spec fn repair_move<C>(
    cs: Seq<Box<dyn SetConstraint<C>>>,
    reqs: Seq<Box<dyn LowerBound<C>>>,
    pool: Seq<&C>,
    keys: Seq<u32>,
    ids: Seq<IdValue>,
    k: Option<usize>,
    budget: Option<(Seq<u32>, nat)>,
    s: Seq<usize>,
    t: Seq<usize>,
) -> bool {
    exists|ri: int|
        first_short(reqs, pool, s, ri) && #[trigger] repair_step(cs, reqs, pool, keys, ids, k, budget, s, ri, t)
}

/// `path` is a run of the repair: each selection is followed by the repair's move from it.
pub open spec fn repair_path<C>(
    cs: Seq<Box<dyn SetConstraint<C>>>,
    reqs: Seq<Box<dyn LowerBound<C>>>,
    pool: Seq<&C>,
    keys: Seq<u32>,
    ids: Seq<IdValue>,
    k: Option<usize>,
    budget: Option<(Seq<u32>, nat)>,
    path: Seq<Seq<usize>>,
) -> bool {
    &&& path.len() >= 1
    &&& forall|j: int|
        0 <= j < path.len() - 1 ==> #[trigger] repair_move(
            cs,
            reqs,
            pool,
            keys,
            ids,
            k,
            budget,
            path[j],
            path[j + 1],
        )
}

/// In a best-first sequence an element ranked strictly ahead of another comes first.
proof fn lemma_best_first_order<T>(s: Seq<Keyed<T>>, a: int, b: int)
    requires
        best_first(s),
        0 <= a < s.len(),
        0 <= b < s.len(),
        keyed_ahead(s[a], s[b]),
    ensures
        a < b,
{
    lemma_ahead(s[a], s[a], s[a]);
    if b < a {
        assert(!keyed_ahead(s[a], s[b]));
    }
}

/// Tries one repair step for requirement `ri`: the first donor (matching, not selected,
/// best first) that can be added while there is room, or swapped for a non-matching
/// selected candidate (worst first), such that the new set is feasible and the
/// requirements before `ri` still hold.
fn try_swap<C>(
    cs: &[Box<dyn SetConstraint<C>>],
    reqs: &[Box<dyn LowerBound<C>>],
    pool: &[&C],
    keys: &[u32],
    ids: &[CandidateId],
    k: Option<usize>,
    budget: Option<(&[u32], u64)>,
    sel: &[usize],
    ri: usize,
) -> (r: Option<Vec<usize>>)
    requires
        ri < reqs@.len(),
        in_pool(sel@, pool@.len()),
        sel@.no_duplicates(),
        keys@.len() == pool@.len(),
        ids@.len() == pool@.len(),
        match budget {
            Some((costs, _)) => costs@.len() == pool@.len(),
            None => true,
        },
    ensures
        match r {
            Some(t) => {
                &&& in_pool(t@, pool@.len())
                &&& t@.no_duplicates()
                &&& set_feasible(
                    cs@,
                    pool@,
                    t@,
                    k,
                    match budget {
                        Some((costs, limit)) => Some((costs@, limit as nat)),
                        None => None,
                    },
                )
                &&& requirements_met(reqs@, pool@, t@, ri as int)
                &&& match_count(reqs@, ri as int, refs_of(pool@, t@)) == match_count(
                    reqs@,
                    ri as int,
                    refs_of(pool@, sel@),
                ) + 1
                &&& repair_step(
                    cs@,
                    reqs@,
                    pool@,
                    keys@,
                    id_values(ids@),
                    k,
                    budget_view(budget),
                    sel@,
                    ri as int,
                    t@,
                )
            },
            None => !single_swap_exists(
                cs@,
                reqs@,
                pool@,
                k,
                match budget {
                    Some((costs, limit)) => Some((costs@, limit as nat)),
                    None => None,
                },
                sel@,
                ri as int,
            ),
        },
{
    // Donors: matching candidates not yet selected, best first.
    let mut donors: Vec<Keyed<usize>> = Vec::new();
    let mut victims: Vec<Keyed<usize>> = Vec::new();
    let mut i: usize = 0;
    while i < pool.len()
        invariant
            i <= pool@.len(),
            ri < reqs@.len(),
            keys@.len() == pool@.len(),
            ids@.len() == pool@.len(),
            forall|t: int|
                0 <= t < donors@.len() ==> (#[trigger] donors@[t]).item < pool@.len() && !sel@.contains(
                    donors@[t].item,
                ) && reqs@[ri as int].matches_spec(pool@[donors@[t].item as int])
                    && donors@[t].key == keys@[donors@[t].item as int]
                    && donors@[t].id@ == ids@[donors@[t].item as int]@,
            forall|x: usize|
                (x as int) < i && !sel@.contains(x) && reqs@[ri as int].matches_spec(
                    #[trigger] pool@[x as int],
                ) ==> exists|t: int| 0 <= t < donors@.len() && donors@[t].item == x,
        decreases pool@.len() - i,
    {
        let ghost before = donors@;
        if !contains_index(sel, i) && reqs[ri].bound_matches(pool[i]) {
            donors.push(Keyed { key: keys[i], id: ids[i].duplicate(), item: i });
            proof {
                assert(donors@[donors@.len() - 1].item == i);
            }
        }
        proof {
            assert forall|x: usize|
                (x as int) < i + 1 && !sel@.contains(x) && reqs@[ri as int].matches_spec(
                    #[trigger] pool@[x as int],
                ) implies exists|t: int| 0 <= t < donors@.len() && donors@[t].item == x by {
                if (x as int) < i {
                    let t = choose|t: int| 0 <= t < before.len() && before[t].item == x;
                    assert(donors@[t] == before[t]);
                } else {
                    assert(donors@[donors@.len() - 1].item == x);
                }
            }
        }
        i += 1;
    }
    let mut p: usize = 0;
    while p < sel.len()
        invariant
            p <= sel@.len(),
            ri < reqs@.len(),
            in_pool(sel@, pool@.len()),
            keys@.len() == pool@.len(),
            ids@.len() == pool@.len(),
            forall|t: int|
                0 <= t < victims@.len() ==> (#[trigger] victims@[t]).item < sel@.len()
                    && !reqs@[ri as int].matches_spec(pool@[sel@[victims@[t].item as int] as int])
                    && victims@[t].key == keys@[sel@[victims@[t].item as int] as int]
                    && victims@[t].id@ == ids@[sel@[victims@[t].item as int] as int]@,
            forall|q: int|
                0 <= q < p && !reqs@[ri as int].matches_spec(#[trigger] pool@[sel@[q] as int])
                    ==> exists|t: int| 0 <= t < victims@.len() && victims@[t].item == q,
            forall|t: int|
                0 <= t < donors@.len() ==> (#[trigger] donors@[t]).item < pool@.len() && !sel@.contains(
                    donors@[t].item,
                ) && reqs@[ri as int].matches_spec(pool@[donors@[t].item as int])
                    && donors@[t].key == keys@[donors@[t].item as int]
                    && donors@[t].id@ == ids@[donors@[t].item as int]@,
            forall|x: usize|
                (x as int) < i && !sel@.contains(x) && reqs@[ri as int].matches_spec(
                    #[trigger] pool@[x as int],
                ) ==> exists|t: int| 0 <= t < donors@.len() && donors@[t].item == x,
            i == pool@.len(),
        decreases sel@.len() - p,
    {
        let ghost vbefore = victims@;
        if !reqs[ri].bound_matches(pool[sel[p]]) {
            victims.push(Keyed { key: keys[sel[p]], id: ids[sel[p]].duplicate(), item: p });
            proof {
                assert(victims@[victims@.len() - 1].item == p);
            }
        }
        proof {
            assert forall|q: int|
                0 <= q < p + 1 && !reqs@[ri as int].matches_spec(#[trigger] pool@[sel@[q] as int])
                    implies exists|t: int| 0 <= t < victims@.len() && victims@[t].item == q by {
                if q < p {
                    let t = choose|t: int| 0 <= t < vbefore.len() && vbefore[t].item == q;
                    assert(victims@[t] == vbefore[t]);
                } else {
                    assert(victims@[victims@.len() - 1].item == q);
                }
            }
        }
        p += 1;
    }
    let ghost donor_set = donors@;
    let ghost victim_set = victims@;
    let donors = sort_best_first(donors);
    let victims = sort_best_first(victims);
    proof {
        assert forall|t: int| 0 <= t < donors@.len() implies (#[trigger] donors@[t]).item
            < pool@.len() && !sel@.contains(donors@[t].item) && reqs@[ri as int].matches_spec(
            pool@[donors@[t].item as int],
        ) && donors@[t].key == keys@[donors@[t].item as int]
            && donors@[t].id@ == ids@[donors@[t].item as int]@ by {
            assert(donors@.to_multiset().count(donors@[t]) > 0);
            assert(donor_set.contains(donors@[t]));
        }
        assert forall|t: int| 0 <= t < victims@.len() implies (#[trigger] victims@[t]).item
            < sel@.len() && !reqs@[ri as int].matches_spec(
            pool@[sel@[victims@[t].item as int] as int],
        ) && victims@[t].key == keys@[sel@[victims@[t].item as int] as int]
            && victims@[t].id@ == ids@[sel@[victims@[t].item as int] as int]@ by {
            assert(victims@.to_multiset().count(victims@[t]) > 0);
            assert(victim_set.contains(victims@[t]));
        }
        assert forall|x: usize|
            (x as int) < pool@.len() && !sel@.contains(x) && reqs@[ri as int].matches_spec(
                #[trigger] pool@[x as int],
            ) implies exists|t: int| 0 <= t < donors@.len() && donors@[t].item == x by {
            let t = choose|t: int| 0 <= t < donor_set.len() && donor_set[t].item == x;
            assert(donor_set.contains(donor_set[t]));
            assert(donors@.to_multiset().count(donor_set[t]) > 0);
            assert(donors@.contains(donor_set[t]));
        }
        assert forall|q: int|
            0 <= q < sel@.len() && !reqs@[ri as int].matches_spec(#[trigger] pool@[sel@[q] as int])
                implies exists|t: int| 0 <= t < victims@.len() && victims@[t].item == q by {
            let t = choose|t: int| 0 <= t < victim_set.len() && victim_set[t].item == q;
            assert(victim_set.contains(victim_set[t]));
            assert(victims@.to_multiset().count(victim_set[t]) > 0);
            assert(victims@.contains(victim_set[t]));
        }
    }
    let ghost rb = match budget {
        Some((costs, limit)) => Some((costs@, limit as nat)),
        None => None,
    };
    let mut d: usize = 0;
    while d < donors.len()
        invariant
            d <= donors@.len(),
            ri < reqs@.len(),
            in_pool(sel@, pool@.len()),
            sel@.no_duplicates(),
            rb == match budget {
                Some((costs, limit)) => Some((costs@, limit as nat)),
                None => None,
            },
            match budget {
                Some((costs, _)) => costs@.len() == pool@.len(),
                None => true,
            },
            keys@.len() == pool@.len(),
            ids@.len() == pool@.len(),
            best_first(donors@),
            best_first(victims@),
            forall|t: int|
                0 <= t < donors@.len() ==> (#[trigger] donors@[t]).item < pool@.len() && !sel@.contains(
                    donors@[t].item,
                ) && reqs@[ri as int].matches_spec(pool@[donors@[t].item as int])
                    && donors@[t].key == keys@[donors@[t].item as int]
                    && donors@[t].id@ == ids@[donors@[t].item as int]@,
            forall|t: int|
                0 <= t < victims@.len() ==> (#[trigger] victims@[t]).item < sel@.len()
                    && !reqs@[ri as int].matches_spec(pool@[sel@[victims@[t].item as int] as int])
                    && victims@[t].key == keys@[sel@[victims@[t].item as int] as int]
                    && victims@[t].id@ == ids@[sel@[victims@[t].item as int] as int]@,
            forall|x: usize|
                (x as int) < pool@.len() && !sel@.contains(x) && reqs@[ri as int].matches_spec(
                    #[trigger] pool@[x as int],
                ) ==> exists|t: int| 0 <= t < donors@.len() && donors@[t].item == x,
            forall|q: int|
                0 <= q < sel@.len() && !reqs@[ri as int].matches_spec(#[trigger] pool@[sel@[q] as int])
                    ==> exists|t: int| 0 <= t < victims@.len() && victims@[t].item == q,
            forall|t: int| 0 <= t < d ==> !#[trigger] replacement_works(cs@, reqs@, pool@, k, rb, sel@, ri as int, donors@[t].item),
        decreases donors@.len() - d,
    {
        let donor = donors[d].item;
        let ghost idv = id_values(ids@);
        proof {
            assert forall|e: usize|
                donor_for(reqs@, pool@, sel@, ri as int, e) && pool_ahead(keys@, idv, e as int, donor as int)
                    implies !#[trigger] replacement_works(cs@, reqs@, pool@, k, rb, sel@, ri as int, e) by {
                assert(reqs@[ri as int].matches_spec(pool@[e as int]));
                let te = choose|t: int| 0 <= t < donors@.len() && donors@[t].item == e;
                assert(keyed_ahead(donors@[te], donors@[d as int]));
                lemma_best_first_order(donors@, te, d as int);
            }
        }
        let room = match k {
            Some(n) => sel.len() < n,
            None => false,
        };
        if room {
            let mut trial: Vec<usize> = Vec::new();
            let mut t: usize = 0;
            while t < sel.len()
                invariant
                    t <= sel@.len(),
                    trial@ == sel@.take(t as int),
                decreases sel@.len() - t,
            {
                trial.push(sel[t]);
                proof {
                    assert(sel@.take(t + 1) =~= sel@.take(t as int).push(sel@[t as int]));
                }
                t += 1;
            }
            assert(sel@.take(sel@.len() as int) =~= sel@);
            trial.push(donor);
            proof {
                lemma_push_fresh(sel@, donor, pool@.len());
                let a = refs_of(pool@, trial@);
                assert(a.drop_last() =~= refs_of(pool@, sel@));
            }
            assert(trial@ =~= sel@.push(donor));
            if set_is_feasible(cs, pool, trial.as_slice(), k, budget) && requirements_hold(
                reqs,
                pool,
                trial.as_slice(),
                ri,
            ) {
                proof {
                    assert(trial_works(cs@, reqs@, pool@, k, rb, ri as int, sel@.push(donor)));
                    assert(replacement_works(cs@, reqs@, pool@, k, rb, sel@, ri as int, donor));
                    assert(best_donor(cs@, reqs@, pool@, keys@, idv, k, rb, sel@, ri as int, donor));
                    assert(placed(cs@, reqs@, pool@, keys@, idv, k, rb, sel@, ri as int, donor, trial@));
                }
                return Some(trial);
            }
        }
        let mut v: usize = victims.len();
        while v > 0
            invariant
                v <= victims@.len(),
                d < donors@.len(),
                donor == donors@[d as int].item,
                ri < reqs@.len(),
                in_pool(sel@, pool@.len()),
                sel@.no_duplicates(),
                donor < pool@.len(),
                !sel@.contains(donor),
                reqs@[ri as int].matches_spec(pool@[donor as int]),
                match budget {
                    Some((costs, _)) => costs@.len() == pool@.len(),
                    None => true,
                },
                keys@.len() == pool@.len(),
                ids@.len() == pool@.len(),
                idv == id_values(ids@),
                best_first(victims@),
                forall|t: int|
                    0 <= t < victims@.len() ==> (#[trigger] victims@[t]).item < sel@.len()
                        && !reqs@[ri as int].matches_spec(pool@[sel@[victims@[t].item as int] as int])
                        && victims@[t].key == keys@[sel@[victims@[t].item as int] as int]
                        && victims@[t].id@ == ids@[sel@[victims@[t].item as int] as int]@,
                forall|q: int|
                    0 <= q < sel@.len() && !reqs@[ri as int].matches_spec(#[trigger] pool@[sel@[q] as int])
                        ==> exists|t: int| 0 <= t < victims@.len() && victims@[t].item == q,
                forall|e: usize|
                    donor_for(reqs@, pool@, sel@, ri as int, e) && pool_ahead(keys@, idv, e as int, donor as int)
                        ==> !#[trigger] replacement_works(cs@, reqs@, pool@, k, rb, sel@, ri as int, e),
                rb == match budget {
                    Some((costs, limit)) => Some((costs@, limit as nat)),
                    None => None,
                },
                !(match k {
                    Some(n) => sel@.len() < n,
                    None => false,
                } && trial_works(cs@, reqs@, pool@, k, rb, ri as int, sel@.push(donor))),
                forall|u: int|
                    v <= u < victims@.len() ==> !#[trigger] trial_works(
                        cs@,
                        reqs@,
                        pool@,
                        k,
                        rb,
                        ri as int,
                        sel@.remove(victims@[u].item as int).push(donor),
                    ),
            decreases v,
        {
            v -= 1;
            let pos = victims[v].item;
            let mut trial = without_position(sel, pos);
            trial.push(donor);
            proof {
                let rest = sel@.remove(pos as int);
                lemma_remove_keeps(sel@, pos as int, pool@.len());
                lemma_push_fresh(rest, donor, pool@.len());
                lemma_refs_remove(pool@, sel@, pos as int);
                lemma_count_remove(
                    refs_of(pool@, sel@),
                    |c: &C| reqs@[ri as int].matches_spec(c),
                    pos as int,
                );
                let a = refs_of(pool@, trial@);
                assert(a.drop_last() =~= refs_of(pool@, rest));
            }
            if set_is_feasible(cs, pool, trial.as_slice(), k, budget) && requirements_hold(
                reqs,
                pool,
                trial.as_slice(),
                ri,
            ) {
                proof {
                    let q = pos as int;
                    assert(trial@ == sel@.remove(q).push(donor));
                    assert(victim_for(reqs@, pool@, sel@, ri as int, q));
                    assert(trial_works(cs@, reqs@, pool@, k, rb, ri as int, sel@.remove(q).push(donor)));
                    assert(replacement_works(cs@, reqs@, pool@, k, rb, sel@, ri as int, donor));
                    assert forall|p: int|
                        victim_for(reqs@, pool@, sel@, ri as int, p) && pool_ahead(
                            keys@,
                            idv,
                            sel@[q] as int,
                            sel@[p] as int,
                        ) implies !#[trigger] trial_works(
                            cs@,
                            reqs@,
                            pool@,
                            k,
                            rb,
                            ri as int,
                            sel@.remove(p).push(donor),
                        ) by {
                        assert(!reqs@[ri as int].matches_spec(pool@[sel@[p] as int]));
                        let u = choose|t: int| 0 <= t < victims@.len() && victims@[t].item == p;
                        assert(keyed_ahead(victims@[v as int], victims@[u]));
                        lemma_best_first_order(victims@, v as int, u);
                    }
                    assert(placed(cs@, reqs@, pool@, keys@, idv, k, rb, sel@, ri as int, donor, trial@));
                    assert(best_donor(cs@, reqs@, pool@, keys@, idv, k, rb, sel@, ri as int, donor));
                }
                return Some(trial);
            }
        }
        proof {
            assert forall|q: int|
                0 <= q < sel@.len() && !reqs@[ri as int].matches_spec(pool@[sel@[q] as int]) implies !#[trigger] trial_works(
                    cs@,
                    reqs@,
                    pool@,
                    k,
                    rb,
                    ri as int,
                    sel@.remove(q).push(donor),
                ) by {
                assert(!reqs@[ri as int].matches_spec(pool@[sel@[q] as int]));
                let t = choose|t: int| 0 <= t < victims@.len() && victims@[t].item == q;
                assert(!trial_works(cs@, reqs@, pool@, k, rb, ri as int, sel@.remove(victims@[t].item as int).push(donor)));
            }
            assert(!replacement_works(cs@, reqs@, pool@, k, rb, sel@, ri as int, donors@[d as int].item));
        }
        d += 1;
    }
    proof {
        if single_swap_exists(cs@, reqs@, pool@, k, rb, sel@, ri as int) {
            let x = choose|x: usize|
                (x as int) < pool@.len() && !sel@.contains(x) && reqs@[ri as int].matches_spec(pool@[x as int])
                    && #[trigger] replacement_works(cs@, reqs@, pool@, k, rb, sel@, ri as int, x);
            let t = choose|t: int| 0 <= t < donors@.len() && donors@[t].item == x;
            assert(!replacement_works(cs@, reqs@, pool@, k, rb, sel@, ri as int, donors@[t].item));
        }
    }
    None
}

proof fn lemma_push_fresh(sel: Seq<usize>, x: usize, n: nat)
    requires
        in_pool(sel, n),
        sel.no_duplicates(),
        x < n,
        !sel.contains(x),
    ensures
        in_pool(sel.push(x), n),
        sel.push(x).no_duplicates(),
{
    let t = sel.push(x);
    assert forall|a: int, b: int| 0 <= a < b < t.len() implies t[a] != t[b] by {
        if b == sel.len() {
            assert(sel.contains(sel[a]));
        }
    }
}

proof fn lemma_remove_keeps(sel: Seq<usize>, p: int, n: nat)
    requires
        in_pool(sel, n),
        sel.no_duplicates(),
        0 <= p < sel.len(),
    ensures
        in_pool(sel.remove(p), n),
        sel.remove(p).no_duplicates(),
        forall|x: usize| sel.remove(p).contains(x) ==> sel.contains(x),
{
    let t = sel.remove(p);
    assert forall|i: int| 0 <= i < t.len() implies #[trigger] t[i] < n by {
        if i < p {
            assert(t[i] == sel[i]);
        } else {
            assert(t[i] == sel[i + 1]);
        }
    }
    assert forall|a: int, b: int| 0 <= a < b < t.len() implies t[a] != t[b] by {
        let a2 = if a < p { a } else { a + 1 };
        let b2 = if b < p { b } else { b + 1 };
        assert(t[a] == sel[a2] && t[b] == sel[b2]);
    }
    assert forall|x: usize| t.contains(x) implies sel.contains(x) by {
        let i = choose|i: int| 0 <= i < t.len() && t[i] == x;
        let i2 = if i < p { i } else { i + 1 };
        assert(sel[i2] == x);
    }
}

/// Meets the lower-bound requirements by swapping candidates in after greedy selection.
///
/// Requirements are handled in order. While one is short, the best matching unselected
/// candidate is added if there is room, or swapped for the worst non-matching selected one,
/// provided the new set stays feasible and keeps the requirements handled before. On
/// success every requirement holds; the flag tells whether anything changed, and if so the
/// new set is feasible. When no swap helps, the error names a requirement with its needed
/// count and the number of pool candidates that match it.
///
/// Both outcomes come with the run that led there: a sequence of selections from the
/// initial one in which each step is the repair's move for the first short requirement
/// (`repair_path`). On an error the run ends where that requirement is stuck.
pub fn repair_requirements<C>(
    cs: &[Box<dyn SetConstraint<C>>],
    reqs: &[Box<dyn LowerBound<C>>],
    pool: &[&C],
    keys: &[u32],
    ids: &[CandidateId],
    k: Option<usize>,
    budget: Option<(&[u32], u64)>,
    selected: &mut Vec<usize>,
) -> (r: Result<bool, Error>)
    requires
        in_pool(old(selected)@, pool@.len()),
        old(selected)@.no_duplicates(),
        keys@.len() == pool@.len(),
        ids@.len() == pool@.len(),
        match budget {
            Some((costs, _)) => costs@.len() == pool@.len(),
            None => true,
        },
    ensures
        match r {
            Ok(repaired) => {
                &&& in_pool(final(selected)@, pool@.len())
                &&& final(selected)@.no_duplicates()
                &&& requirements_met(reqs@, pool@, final(selected)@, reqs@.len() as int)
                &&& !repaired ==> final(selected)@ == old(selected)@
                &&& repaired ==> set_feasible(
                    cs@,
                    pool@,
                    final(selected)@,
                    k,
                    match budget {
                        Some((costs, limit)) => Some((costs@, limit as nat)),
                        None => None,
                    },
                )
                &&& exists|path: Seq<Seq<usize>>|
                    {
                        &&& #[trigger] repair_path(
                            cs@,
                            reqs@,
                            pool@,
                            keys@,
                            id_values(ids@),
                            k,
                            budget_view(budget),
                            path,
                        )
                        &&& path[0] == old(selected)@
                        &&& path.last() == final(selected)@
                        &&& repaired == (path.len() > 1)
                    }
            },
            Err(e) => exists|ri: int, path: Seq<Seq<usize>>|
                #![trigger repair_path(cs@, reqs@, pool@, keys@, id_values(ids@), k, budget_view(budget), path), stuck_at(cs@, reqs@, pool@, k, budget_view(budget), path.last(), ri)]
                {
                    &&& repair_path(cs@, reqs@, pool@, keys@, id_values(ids@), k, budget_view(budget), path)
                    &&& path[0] == old(selected)@
                    &&& stuck_at(cs@, reqs@, pool@, k, budget_view(budget), path.last(), ri)
                    &&& infeasible_for(e, reqs@, ri, pool@)
                },
        },
        requirements_met(reqs@, pool@, old(selected)@, reqs@.len() as int) ==> r == Ok::<
            bool,
            Error,
        >(false),
{
    let mut repaired = false;
    let ghost start = selected@;
    let ghost idv = id_values(ids@);
    let ghost mut path: Seq<Seq<usize>> = seq![selected@];
    let ghost rb = match budget {
        Some((costs, limit)) => Some((costs@, limit as nat)),
        None => None,
    };
    let mut ri: usize = 0;
    while ri < reqs.len()
        invariant
            ri <= reqs@.len(),
            in_pool(selected@, pool@.len()),
            selected@.no_duplicates(),
            keys@.len() == pool@.len(),
            ids@.len() == pool@.len(),
            rb == match budget {
                Some((costs, limit)) => Some((costs@, limit as nat)),
                None => None,
            },
            match budget {
                Some((costs, _)) => costs@.len() == pool@.len(),
                None => true,
            },
            !repaired ==> selected@ == start,
            repaired ==> set_feasible(cs@, pool@, selected@, k, rb),
            requirements_met(reqs@, pool@, start, reqs@.len() as int) ==> !repaired,
            start == old(selected)@,
            requirements_met(reqs@, pool@, selected@, ri as int),
            idv == id_values(ids@),
            repair_path(cs@, reqs@, pool@, keys@, idv, k, rb, path),
            path[0] == start,
            path.last() == selected@,
            repaired == (path.len() > 1),
        decreases reqs@.len() - ri,
    {
        let needed = reqs[ri].bound_needed();
        loop
            invariant
                ri < reqs@.len(),
                needed == reqs@[ri as int].needed_spec(),
                in_pool(selected@, pool@.len()),
                selected@.no_duplicates(),
                keys@.len() == pool@.len(),
                ids@.len() == pool@.len(),
                rb == match budget {
                    Some((costs, limit)) => Some((costs@, limit as nat)),
                    None => None,
                },
                match budget {
                    Some((costs, _)) => costs@.len() == pool@.len(),
                    None => true,
                },
                !repaired ==> selected@ == start,
                repaired ==> set_feasible(cs@, pool@, selected@, k, rb),
                requirements_met(reqs@, pool@, start, reqs@.len() as int) ==> !repaired,
                start == old(selected)@,
                requirements_met(reqs@, pool@, selected@, ri as int),
                idv == id_values(ids@),
                repair_path(cs@, reqs@, pool@, keys@, idv, k, rb, path),
                path[0] == start,
                path.last() == selected@,
                repaired == (path.len() > 1),
        ensures
            in_pool(selected@, pool@.len()),
            selected@.no_duplicates(),
            !repaired ==> selected@ == start,
            repaired ==> set_feasible(cs@, pool@, selected@, k, rb),
            requirements_met(reqs@, pool@, start, reqs@.len() as int) ==> !repaired,
            requirements_met(reqs@, pool@, selected@, ri as int),
            repair_path(cs@, reqs@, pool@, keys@, idv, k, rb, path),
            path[0] == start,
            path.last() == selected@,
            repaired == (path.len() > 1),
            match_count(reqs@, ri as int, refs_of(pool@, selected@)) >= needed,
            decreases needed - match_count(reqs@, ri as int, refs_of(pool@, selected@)),
        {
            let have = count_matching(reqs, ri, pool, selected.as_slice());
            if have >= needed {
                break;
            }
            match try_swap(cs, reqs, pool, keys, ids, k, budget, selected.as_slice(), ri) {
                Some(trial) => {
                    proof {
                        let np = path.push(trial@);
                        assert(first_short(reqs@, pool@, selected@, ri as int));
                        assert(repair_move(cs@, reqs@, pool@, keys@, idv, k, rb, selected@, trial@));
                        assert forall|j: int| 0 <= j < np.len() - 1 implies #[trigger] repair_move(
                            cs@,
                            reqs@,
                            pool@,
                            keys@,
                            idv,
                            k,
                            rb,
                            np[j],
                            np[j + 1],
                        ) by {
                            if j < path.len() - 1 {
                                assert(np[j] == path[j] && np[j + 1] == path[j + 1]);
                            } else {
                                assert(np[j] == selected@ && np[j + 1] == trial@);
                            }
                        }
                        path = np;
                    }
                    *selected = trial;
                    repaired = true;
                },
                None => {
                    proof {
                        if requirements_met(reqs@, pool@, start, reqs@.len() as int) {
                            assert(match_count(reqs@, ri as int, refs_of(pool@, start))
                                >= reqs@[ri as int].needed_spec());
                        }
                        assert(stuck_at(cs@, reqs@, pool@, k, rb, path.last(), ri as int));
                    }
                    return Err(infeasible(reqs, ri, pool));
                },
            }
        }
        proof {
            assert forall|r: int|
                0 <= r < ri + 1 && r < reqs@.len() implies #[trigger] match_count(
                    reqs@,
                    r,
                    refs_of(pool@, selected@),
                ) >= reqs@[r].needed_spec() by {
                if r < ri {
                    assert(requirements_met(reqs@, pool@, selected@, ri as int));
                }
            }
        }
        ri += 1;
    }
    Ok(repaired)
}

/// Requirement `ri` is the first one short at `s` and no single replacement helps it
/// there, while `s` holds distinct pool positions.
pub open spec fn stuck_at<C>(
    cs: Seq<Box<dyn SetConstraint<C>>>,
    reqs: Seq<Box<dyn LowerBound<C>>>,
    pool: Seq<&C>,
    k: Option<usize>,
    budget: Option<(Seq<u32>, nat)>,
    s: Seq<usize>,
    ri: int,
) -> bool {
    &&& in_pool(s, pool.len())
    &&& s.no_duplicates()
    &&& first_short(reqs, pool, s, ri)
    &&& !single_swap_exists(cs, reqs, pool, k, budget, s, ri)
}

/// The error reports requirement `r` over `pool`: its name, its needed count and how many
/// pool candidates match it.
pub open spec fn infeasible_for<C>(e: Error, reqs: Seq<Box<dyn LowerBound<C>>>, r: int, pool: Seq<&C>) -> bool {
    match e {
        Error::InfeasibleRequirement { id, needed, available } => id@ == reqs[r].id_spec() && needed
            == reqs[r].needed_spec() && available == match_count(reqs, r, pool),
        _ => false,
    }
}

fn infeasible<C>(reqs: &[Box<dyn LowerBound<C>>], r: usize, pool: &[&C]) -> (e: Error)
    requires
        r < reqs@.len(),
    ensures
        infeasible_for(e, reqs@, r as int, pool@),
{
    let mut available: usize = 0;
    let mut i: usize = 0;
    assert(pool@.take(0) =~= Seq::<&C>::empty());
    while i < pool.len()
        invariant
            i <= pool@.len(),
            r < reqs@.len(),
            available == match_count(reqs@, r as int, pool@.take(i as int)),
            available <= i,
        decreases pool@.len() - i,
    {
        proof {
            assert(pool@.take(i + 1).drop_last() =~= pool@.take(i as int));
        }
        if reqs[r].bound_matches(pool[i]) {
            available += 1;
        }
        i += 1;
    }
    assert(pool@.take(pool@.len() as int) =~= pool@);
    let id = reqs[r].bound_id();
    Error::InfeasibleRequirement { id: id.as_str().to_owned(), needed: reqs[r].bound_needed(), available }
}

// ---- guarantees ----------------------------------------------------------------------

/// The structure of the objective.
#[derive(Clone, Copy, PartialEq, Eq, Debug, Structural)]
pub enum Structure {
    /// No set objective: the sum of fused scores, which is modular.
    Modular,
    /// Declared submodular.
    Submodular,
    /// An objective declared not submodular: nothing is guaranteed.
    Unknown,
}

/// An approximation factor of greedy selection.
#[derive(Clone, Copy, PartialEq, Eq, Debug, Structural)]
pub enum Factor {
    /// `1 / n`.
    Reciprocal(usize),
    /// `1 - 1/e`: a submodular objective under a count limit only.
    OneMinusInvE,
    /// `(1 - 1/e) / 2`: a submodular objective under a cost budget only.
    HalfOfOneMinusInvE,
}

/// The documented table of what greedy selection guarantees.
///
/// A repair changes the greedy result after the fact, so nothing remains. An undeclared
/// objective or any non-matroid set constraint gets nothing. Otherwise, with `p` matroids:
/// modular with a count limit is exact for `p <= 1` and `1/p` beyond; submodular with a
/// count limit is `1 - 1/e` for `p = 0`, `1/2` for `p = 1` and `1/(p+1)` beyond; a cost
/// budget alone gives `1/2` (modular) or `(1 - 1/e)/2` (submodular); a cost budget with
/// matroids gives nothing.
pub open spec fn guarantee_table(
    structure: Structure,
    matroids: nat,
    non_matroids: nat,
    knapsack_budget: bool,
    repaired: bool,
) -> (bool, Option<Factor>) {
    if repaired || structure == Structure::Unknown || non_matroids > 0 {
        (false, None)
    } else if knapsack_budget {
        if matroids == 0 {
            if structure == Structure::Modular {
                (false, Some(Factor::Reciprocal(2)))
            } else {
                (false, Some(Factor::HalfOfOneMinusInvE))
            }
        } else {
            (false, None)
        }
    } else if structure == Structure::Modular {
        if matroids <= 1 {
            (true, None)
        } else {
            (false, Some(Factor::Reciprocal(matroids as usize)))
        }
    } else if matroids == 0 {
        (false, Some(Factor::OneMinusInvE))
    } else if matroids == 1 {
        (false, Some(Factor::Reciprocal(2)))
    } else {
        (false, Some(Factor::Reciprocal((matroids + 1) as usize)))
    }
}

/// Whether greedy selection is exact for this combination, and if not, which factor it
/// guarantees, if any.
pub fn guarantee_of(
    structure: Structure,
    matroids: usize,
    non_matroids: usize,
    knapsack_budget: bool,
    repaired: bool,
) -> (r: (bool, Option<Factor>))
    requires
        matroids < usize::MAX,
    ensures
        r == guarantee_table(structure, matroids as nat, non_matroids as nat, knapsack_budget, repaired),
{
    if repaired {
        return (false, None);
    }
    if structure == Structure::Unknown || non_matroids > 0 {
        return (false, None);
    }
    let p = matroids;
    if knapsack_budget {
        if p == 0 {
            if structure == Structure::Modular {
                (false, Some(Factor::Reciprocal(2)))
            } else {
                (false, Some(Factor::HalfOfOneMinusInvE))
            }
        } else {
            (false, None)
        }
    } else if structure == Structure::Modular {
        if p <= 1 {
            (true, None)
        } else {
            (false, Some(Factor::Reciprocal(p)))
        }
    } else if p == 0 {
        (false, Some(Factor::OneMinusInvE))
    } else if p == 1 {
        (false, Some(Factor::Reciprocal(2)))
    } else {
        (false, Some(Factor::Reciprocal(p + 1)))
    }
}

// ---- rank positions --------------------------------------------------------------------

/// Entry `j` comes before entry `i` in the ranking of one axis: both have a value, and `j`
/// ranks ahead, or ties with `i` and comes earlier in the pool.
pub open spec fn placed_before(vals: Seq<Option<u32>>, ids: Seq<IdValue>, j: int, i: int) -> bool {
    vals[j] is Some && vals[i] is Some && (ahead(
        vals[j]->0,
        ids[j],
        vals[i]->0,
        ids[i],
    ) || (vals[j]->0 == vals[i]->0 && ids[j] == ids[i] && j < i))
}

/// How many of the first `n` entries come before entry `i`.
pub open spec fn before_count(vals: Seq<Option<u32>>, ids: Seq<IdValue>, i: int, n: int) -> nat
    decreases n,
{
    if n <= 0 {
        0
    } else {
        before_count(vals, ids, i, n - 1) + if placed_before(vals, ids, n - 1, i) {
            1nat
        } else {
            0nat
        }
    }
}

/// The identifier values of a list of identifiers.
pub open spec fn id_values(ids: Seq<CandidateId>) -> Seq<IdValue> {
    ids.map_values(|c: CandidateId| c@)
}

/// The one-based rank of every entry on one axis: entries without a value get none; the
/// others are ranked by value, higher first, then identifier, then pool position.
pub fn rank_positions(vals: &[Option<u32>], ids: &[CandidateId]) -> (r: Vec<Option<u32>>)
    requires
        vals@.len() == ids@.len(),
        vals@.len() < u32::MAX,
    ensures
        r@.len() == vals@.len(),
        forall|i: int|
            0 <= i < vals@.len() ==> #[trigger] r@[i] == match vals@[i] {
                None => None,
                Some(_) => Some((1 + before_count(vals@, id_values(ids@), i, vals@.len() as int)) as u32),
            },
{
    let ghost iv = id_values(ids@);
    let mut out: Vec<Option<u32>> = Vec::new();
    let mut i: usize = 0;
    while i < vals.len()
        invariant
            i <= vals@.len(),
            vals@.len() == ids@.len(),
            vals@.len() < u32::MAX,
            iv == id_values(ids@),
            out@.len() == i,
            forall|t: int|
                0 <= t < i ==> #[trigger] out@[t] == match vals@[t] {
                    None => None,
                    Some(_) => Some((1 + before_count(vals@, iv, t, vals@.len() as int)) as u32),
                },
        decreases vals@.len() - i,
    {
        match vals[i] {
            None => {
                out.push(None);
            },
            Some(vi) => {
                let mut count: u32 = 0;
                let mut j: usize = 0;
                while j < vals.len()
                    invariant
                        j <= vals@.len(),
                        i < vals@.len(),
                        vals@.len() == ids@.len(),
                        vals@.len() < u32::MAX,
                        vals@[i as int] == Some(vi),
                        iv == id_values(ids@),
                        count == before_count(vals@, iv, i as int, j as int),
                        count <= j,
                    decreases vals@.len() - j,
                {
                    let before = match vals[j] {
                        None => false,
                        Some(vj) => {
                            if vj > vi {
                                true
                            } else if vj < vi {
                                false
                            } else {
                                let o = ids[j].compare(&ids[i]);
                                proof {
                                    crate::order::lemma_id_order_equal(ids@[j as int]@, ids@[i as int]@);
                                }
                                match o {
                                    crate::candidate::IdOrder::Less => true,
                                    crate::candidate::IdOrder::Greater => false,
                                    crate::candidate::IdOrder::Equal => j < i,
                                }
                            }
                        },
                    };
                    proof {
                        assert(iv[j as int] == ids@[j as int]@);
                        assert(iv[i as int] == ids@[i as int]@);
                        assert(before == placed_before(vals@, iv, j as int, i as int));
                    }
                    if before {
                        count = count + 1;
                    }
                    j += 1;
                }
                out.push(Some(count + 1));
            },
        }
        proof {
            assert(out@[i as int] == match vals@[i as int] {
                None => None,
                Some(_) => Some((1 + before_count(vals@, iv, i as int, vals@.len() as int)) as u32),
            });
        }
        i += 1;
    }
    out
}

// ---- laws --------------------------------------------------------------------------------

/// With no set constraint, a best-first pool and no objective, greedy selection takes the
/// pool in order: its r-th pick is the r-th pool position. Top-K is then the answer.
pub proof fn lemma_unconstrained_greedy_is_top_k<C>(
    pool: Seq<&C>,
    gains: FusedGain,
    sel: Seq<usize>,
)
    requires
        gains.keys@.len() == pool.len(),
        pool.len() <= usize::MAX,
        sel.len() <= pool.len(),
        forall|a: int, b: int| 0 <= a < b < pool.len() ==> gains.keys@[b] <= gains.keys@[a],
        in_pool(sel, pool.len()),
        greedy_run(Seq::<Box<dyn SetConstraint<C>>>::empty(), pool, sel, None, 0, gains),
    ensures
        forall|r: int| 0 <= r < sel.len() ==> sel[r] == r,
    decreases sel.len(),
{
    let cs = Seq::<Box<dyn SetConstraint<C>>>::empty();
    if sel.len() > 0 {
        let prev = sel.drop_last();
        assert forall|r: int| 0 <= r < prev.len() implies greedy_choice(
            cs,
            pool,
            prev.take(r),
            None,
            gains,
            #[trigger] prev[r] as int,
        ) by {
            assert(prev.take(r) =~= sel.take(r));
            assert(greedy_choice(cs, pool, sel.take(r), None, gains, sel[r] as int));
        }
        lemma_unconstrained_greedy_is_top_k(pool, gains, prev);
        let n = sel.len() - 1;
        assert(prev =~= sel.take(n));
        assert(greedy_choice(cs, pool, prev, None, gains, sel[n] as int));
        let i = sel[n] as int;
        // Position n is eligible: nothing before it... it is not yet taken.
        assert(!prev.contains(n as usize)) by {
            if prev.contains(n as usize) {
                let t = choose|t: int| 0 <= t < prev.len() && prev[t] == n as usize;
                assert(prev[t] == t);
            }
        }
        assert(admitted(cs, refs_of(pool, prev), pool[i]));
        assert(admitted(cs, refs_of(pool, prev), pool[n]));
        assert(eligible(cs, pool, prev, None, n));
        // Every earlier position is taken, so the pick is at n or later; a pick after n
        // would need a strictly larger key at n... the tie rule picks n.
        if i < n {
            assert(prev[i] == i);
            assert(prev.contains(i as usize));
            assert(!eligible(cs, pool, prev, None, i));
        } else if i > n {
            let r = refs_of(pool, prev);
            assert(gains.gain_spec(r, n) == gains.keys@[n]);
            assert(gains.gain_spec(r, i) == gains.keys@[i]);
            assert(gains.keys@[i] <= gains.keys@[n]);
        }
        assert(sel[n] == n);
        assert forall|r: int| 0 <= r < sel.len() implies sel[r] == r by {
            if r < n {
                assert(sel[r] == prev[r]);
            }
        }
    }
}

/// Every step of a greedy selection is admitted by each set constraint on its own: the
/// candidate taken at step `r` is admitted, next to the ones taken before it, by every
/// registered constraint, not only by some of them.
pub proof fn lemma_greedy_keeps_each_constraint<C, G: GainOracle<C>>(
    cs: Seq<Box<dyn SetConstraint<C>>>,
    pool: Seq<&C>,
    sel: Seq<usize>,
    room: Option<Seq<u32>>,
    limit: nat,
    gains: G,
    r: int,
    j: int,
)
    requires
        greedy_run(cs, pool, sel, room, limit, gains),
        0 <= r < sel.len(),
        0 <= j < cs.len(),
    ensures
        cs[j].admits_spec(refs_of(pool, sel.take(r)), pool[sel[r] as int]),
{
    assert(greedy_choice(
        cs,
        pool,
        sel.take(r),
        match room {
            Some(c) => Some((c, limit)),
            None => None,
        },
        gains,
        sel[r] as int,
    ));
}

/// A registered constraint that refuses every addition to a selection of `cap` or more
/// (such as an overall maximum of `cap`) bounds every greedy selection: it never holds more
/// than `cap` candidates, whatever the other constraints admit.
pub proof fn lemma_greedy_respects_a_cap<C, G: GainOracle<C>>(
    cs: Seq<Box<dyn SetConstraint<C>>>,
    pool: Seq<&C>,
    sel: Seq<usize>,
    room: Option<Seq<u32>>,
    limit: nat,
    gains: G,
    j: int,
    cap: nat,
)
    requires
        greedy_run(cs, pool, sel, room, limit, gains),
        0 <= j < cs.len(),
        forall|s: Seq<&C>, c: &C| #[trigger] cs[j].admits_spec(s, c) ==> s.len() < cap,
    ensures
        sel.len() <= cap,
{
    if sel.len() > 0 {
        let r = sel.len() - 1;
        lemma_greedy_keeps_each_constraint(cs, pool, sel, room, limit, gains, r, j);
        assert(cs[j].admits_spec(refs_of(pool, sel.take(r)), pool[sel[r] as int]));
        assert(refs_of(pool, sel.take(r)).len() == r);
    }
}

/// The guarantee table, row by row.
///
/// A repair, an undeclared objective or any non-matroid constraint leaves no guarantee. A
/// token budget gives a factor only without matroid constraints: 1/2 for a modular
/// objective, (1 - 1/e)/2 for a submodular one; with a matroid constraint it gives none.
/// Under a count limit a modular objective is exact with at most one matroid and gets 1/p
/// with p > 1; a submodular one gets 1 - 1/e, 1/2, or 1/(p + 1) with none, one, or p > 1
/// matroids. Only the modular count-limit cases are exact, and an exact result reports no
/// factor.
pub proof fn lemma_guarantee_rows(
    structure: Structure,
    p: nat,
    non_matroids: nat,
    knapsack: bool,
    repaired: bool,
)
    ensures
        ({
            let g = guarantee_table(structure, p, non_matroids, knapsack, repaired);
            &&& (repaired || structure == Structure::Unknown || non_matroids > 0) ==> g == (
            false,
            Option::<Factor>::None)
            &&& g.0 <==> (!repaired && non_matroids == 0 && !knapsack && structure
                == Structure::Modular && p <= 1)
            &&& g.0 ==> g.1 is None
            &&& knapsack && p >= 1 ==> g == (false, Option::<Factor>::None)
            &&& (!repaired && non_matroids == 0 && knapsack && p == 0) ==> {
                &&& structure == Structure::Modular ==> g == (false, Some(Factor::Reciprocal(2)))
                &&& structure == Structure::Submodular ==> g == (
                    false,
                    Some(Factor::HalfOfOneMinusInvE),
                )
            }
            &&& (!repaired && non_matroids == 0 && !knapsack) ==> {
                &&& structure == Structure::Modular && p > 1 ==> g == (
                    false,
                    Some(Factor::Reciprocal(p as usize)),
                )
                &&& structure == Structure::Submodular && p == 0 ==> g == (
                    false,
                    Some(Factor::OneMinusInvE),
                )
                &&& structure == Structure::Submodular && p == 1 ==> g == (
                    false,
                    Some(Factor::Reciprocal(2)),
                )
                &&& structure == Structure::Submodular && p > 1 ==> g == (
                    false,
                    Some(Factor::Reciprocal((p + 1) as usize)),
                )
            }
        }),
{
}

} // verus!
