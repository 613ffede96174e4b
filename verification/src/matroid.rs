//! Greedy selection under a partition matroid: at most `m` candidates per group, and a
//! count limit.
//!
//! Such a constraint is a matroid, and greedy selection by fixed keys is then optimal in the
//! strongest sense: for every threshold it takes at least as many candidates at or above
//! it as any selection the constraint and the limit allow, so no allowed selection has a
//! larger total under any weighting that grows with the keys.

use vstd::prelude::*;
use vstd::std_specs::cmp::PartialEqSpec;

use crate::constraint::{out_of, same_key_count, MaxPerGroup, MaxTotal, SetConstraint};
use crate::select::{
    admitted, count_sat, eligible, greedy_choice, greedy_run, in_pool, lemma_distinct_in_pool_len,
    nothing_eligible, refs_of, set_feasible, FusedGain, GainOracle,
};

verus! {

broadcast use vstd::seq_lib::group_filter_ensures;

// ---- counting positions ----------------------------------------------------------------

/// The number of positions of `s` that satisfy `p`.
pub open spec fn count_where(s: Seq<usize>, p: spec_fn(usize) -> bool) -> nat
    decreases s.len(),
{
    if s.len() == 0 {
        0
    } else {
        count_where(s.drop_last(), p) + if p(s.last()) {
            1nat
        } else {
            0nat
        }
    }
}

/// Positions whose key is at least `v`.
pub open spec fn key_at_least(keys: Seq<u32>, v: u32) -> spec_fn(usize) -> bool {
    |i: usize| keys[i as int] >= v
}

/// How many of the candidates `s` are in the group of `c`.
pub open spec fn same_count<C>(same: spec_fn(&C, &C) -> bool, s: Seq<&C>, c: &C) -> nat {
    count_sat(s, |x: &C| same(x, c))
}

/// Pool positions whose candidate is in the group of `c`.
pub open spec fn pos_same_as<C>(pool: Seq<&C>, same: spec_fn(&C, &C) -> bool, c: &C) -> spec_fn(
    usize,
) -> bool {
    |y: usize| same(pool[y as int], c)
}

/// Both predicates hold.
pub open spec fn both(p: spec_fn(usize) -> bool, q: spec_fn(usize) -> bool) -> spec_fn(usize) -> bool {
    |x: usize| p(x) && q(x)
}

/// The predicate fails.
pub open spec fn negated(p: spec_fn(usize) -> bool) -> spec_fn(usize) -> bool {
    |x: usize| !p(x)
}

/// `same` is an equivalence relation: it splits the candidates into groups.
pub open spec fn is_equivalence<C>(same: spec_fn(&C, &C) -> bool) -> bool {
    &&& forall|x: &C| #[trigger] same(x, x)
    &&& forall|x: &C, y: &C| #[trigger] same(x, y) ==> same(y, x)
    &&& forall|x: &C, y: &C, z: &C| #[trigger] same(x, y) && #[trigger] same(y, z) ==> same(x, z)
}

/// `cs` is one constraint that admits a candidate exactly when fewer than `m` of the
/// selected candidates are in its group.
pub open spec fn partition_admission<C>(
    cs: Seq<Box<dyn SetConstraint<C>>>,
    same: spec_fn(&C, &C) -> bool,
    m: nat,
) -> bool {
    &&& cs.len() == 1
    &&& forall|s: Seq<&C>, c: &C| #[trigger] cs[0].admits_spec(s, c) == (same_count(same, s, c) < m)
}

proof fn lemma_count_concat(a: Seq<usize>, b: Seq<usize>, p: spec_fn(usize) -> bool)
    ensures
        count_where(a + b, p) == count_where(a, p) + count_where(b, p),
    decreases b.len(),
{
    if b.len() == 0 {
        assert(a + b =~= a);
    } else {
        lemma_count_concat(a, b.drop_last(), p);
        assert((a + b).drop_last() =~= a + b.drop_last());
        assert((a + b).last() == b.last());
    }
}

proof fn lemma_count_split(s: Seq<usize>, p: spec_fn(usize) -> bool, q: spec_fn(usize) -> bool)
    ensures
        count_where(s, p) == count_where(s, both(p, q)) + count_where(s, both(p, negated(q))),
    decreases s.len(),
{
    if s.len() > 0 {
        lemma_count_split(s.drop_last(), p, q);
    }
}

proof fn lemma_count_le_len(s: Seq<usize>, p: spec_fn(usize) -> bool)
    ensures
        count_where(s, p) <= s.len(),
    decreases s.len(),
{
    if s.len() > 0 {
        lemma_count_le_len(s.drop_last(), p);
    }
}

proof fn lemma_count_all(s: Seq<usize>, p: spec_fn(usize) -> bool)
    requires
        forall|i: int| 0 <= i < s.len() ==> p(#[trigger] s[i]),
    ensures
        count_where(s, p) == s.len(),
    decreases s.len(),
{
    if s.len() > 0 {
        let t = s.drop_last();
        assert forall|i: int| 0 <= i < t.len() implies p(#[trigger] t[i]) by {
            assert(t[i] == s[i]);
        }
        lemma_count_all(t, p);
    }
}

/// Predicates that agree on the elements of `s` count the same.
proof fn lemma_count_agree(s: Seq<usize>, p: spec_fn(usize) -> bool, q: spec_fn(usize) -> bool)
    requires
        forall|i: int| 0 <= i < s.len() ==> p(#[trigger] s[i]) == q(s[i]),
    ensures
        count_where(s, p) == count_where(s, q),
    decreases s.len(),
{
    if s.len() > 0 {
        let t = s.drop_last();
        assert forall|i: int| 0 <= i < t.len() implies p(#[trigger] t[i]) == q(t[i]) by {
            assert(t[i] == s[i]);
        }
        lemma_count_agree(t, p, q);
    }
}

proof fn lemma_count_filter(s: Seq<usize>, q: spec_fn(usize) -> bool, p: spec_fn(usize) -> bool)
    ensures
        count_where(s.filter(q), p) == count_where(s, both(p, q)),
        s.filter(q).len() == count_where(s, q),
    decreases s.len(),
{
    if s.len() > 0 {
        let t = s.drop_last();
        lemma_count_filter(t, q, p);
        assert(s =~= t.push(s.last()));
        t.lemma_filter_push(s.last(), q);
        if q(s.last()) {
            assert(s.filter(q).drop_last() =~= t.filter(q));
        }
    }
}

proof fn lemma_filter_distinct(s: Seq<usize>, q: spec_fn(usize) -> bool)
    requires
        s.no_duplicates(),
    ensures
        s.filter(q).no_duplicates(),
    decreases s.len(),
{
    if s.len() > 0 {
        let t = s.drop_last();
        let x = s.last();
        assert(t.no_duplicates()) by {
            assert forall|i: int, j: int| 0 <= i < t.len() && 0 <= j < t.len() && i != j implies t[i]
                != t[j] by {
                assert(t[i] == s[i] && t[j] == s[j]);
            }
        }
        lemma_filter_distinct(t, q);
        assert(s =~= t.push(x));
        t.lemma_filter_push(x, q);
        if q(x) {
            let f = t.filter(q);
            assert(!f.contains(x)) by {
                if f.contains(x) {
                    t.lemma_filter_contains_rev(q, x);
                    let i = choose|i: int| 0 <= i < t.len() && t[i] == x;
                    assert(s[i] == s[s.len() - 1]);
                }
            }
            assert forall|i: int, j: int|
                0 <= i < f.push(x).len() && 0 <= j < f.push(x).len() && i != j implies f.push(x)[i]
                != f.push(x)[j] by {
                if i < f.len() && j < f.len() {
                } else if i < f.len() {
                    assert(f.contains(f[i]));
                } else {
                    assert(f.contains(f[j]));
                }
            }
        }
    }
}

proof fn lemma_in_pool_filter(s: Seq<usize>, q: spec_fn(usize) -> bool, n: nat)
    requires
        in_pool(s, n),
    ensures
        in_pool(s.filter(q), n),
{
    assert forall|t: int| 0 <= t < s.filter(q).len() implies #[trigger] s.filter(q)[t] < n by {
        let f = s.filter(q);
        assert(f.contains(f[t]));
        s.lemma_filter_contains_rev(q, f[t]);
    }
}

/// If every position of `s` that satisfies `p` is a position of `t`, then `s` has no more
/// of them than `t`.
proof fn lemma_count_subset(s: Seq<usize>, t: Seq<usize>, p: spec_fn(usize) -> bool)
    requires
        s.no_duplicates(),
        t.no_duplicates(),
        forall|i: int| 0 <= i < s.len() && p(#[trigger] s[i]) ==> t.contains(s[i]),
    ensures
        count_where(s, p) <= count_where(t, p),
{
    let fs = s.filter(p);
    let ft = t.filter(p);
    lemma_count_filter(s, p, p);
    lemma_count_filter(t, p, p);
    lemma_filter_distinct(s, p);
    lemma_filter_distinct(t, p);
    fs.unique_seq_to_set();
    ft.unique_seq_to_set();
    assert(fs.to_set().subset_of(ft.to_set())) by {
        assert forall|x: usize| fs.to_set().contains(x) implies ft.to_set().contains(x) by {
            assert(fs.contains(x));
            s.lemma_filter_contains_rev(p, x);
            let i = choose|i: int| 0 <= i < fs.len() && fs[i] == x;
            assert(p(fs[i]));
            let j = choose|j: int| 0 <= j < s.len() && s[j] == x;
            assert(t.contains(x));
            let k = choose|k: int| 0 <= k < t.len() && t[k] == x;
            t.lemma_filter_contains(p, k);
        }
    }
    vstd::set_lib::lemma_len_subset(fs.to_set(), ft.to_set());
}

proof fn lemma_count_remove(s: Seq<usize>, i: int, p: spec_fn(usize) -> bool)
    requires
        0 <= i < s.len(),
    ensures
        count_where(s, p) == count_where(s.remove(i), p) + if p(s[i]) {
            1nat
        } else {
            0nat
        },
{
    let a = s.take(i);
    let b = s.skip(i + 1);
    assert(s =~= a + seq![s[i]] + b);
    assert(s.remove(i) =~= a + b);
    lemma_count_concat(a + seq![s[i]], b, p);
    lemma_count_concat(a, seq![s[i]], p);
    lemma_count_concat(a, b, p);
    let one = seq![s[i]];
    assert(one.drop_last() =~= Seq::<usize>::empty());
    assert(one.last() == s[i]);
    assert(count_where(one.drop_last(), p) == 0);
    assert(count_where(one, p) == if p(s[i]) {
        1nat
    } else {
        0nat
    });
}

/// Counting a group among the candidates at some positions is counting the positions.
proof fn lemma_group_count<C>(pool: Seq<&C>, s: Seq<usize>, same: spec_fn(&C, &C) -> bool, c: &C)
    requires
        in_pool(s, pool.len()),
    ensures
        same_count(same, refs_of(pool, s), c) == count_where(s, pos_same_as(pool, same, c)),
    decreases s.len(),
{
    if s.len() > 0 {
        let t = s.drop_last();
        assert(in_pool(t, pool.len())) by {
            assert forall|u: int| 0 <= u < t.len() implies #[trigger] t[u] < pool.len() by {
                assert(t[u] == s[u]);
            }
        }
        lemma_group_count(pool, t, same, c);
        assert(refs_of(pool, s).drop_last() =~= refs_of(pool, t));
    }
}

// ---- the exchange argument -------------------------------------------------------------

/// A selection `tp` that holds at most `m` of any group, each member of which is in `p` or
/// has a group that already holds `m` members in `p`, is no larger than `p`.
proof fn lemma_fill<C>(
    pool: Seq<&C>,
    same: spec_fn(&C, &C) -> bool,
    m: nat,
    tp: Seq<usize>,
    p: Seq<usize>,
)
    requires
        is_equivalence(same),
        in_pool(tp, pool.len()),
        in_pool(p, pool.len()),
        tp.no_duplicates(),
        p.no_duplicates(),
        forall|i: int|
            0 <= i < tp.len() ==> p.contains(#[trigger] tp[i]) || count_where(
                p,
                pos_same_as(pool, same, pool[tp[i] as int]),
            ) >= m,
        forall|i: int|
            0 <= i < tp.len() ==> count_where(tp, pos_same_as(pool, same, pool[#[trigger] tp[i] as int]))
                <= m,
    ensures
        tp.len() <= p.len(),
    decreases tp.len(),
{
    if tp.len() > 0 {
        let t = tp.last();
        let g = pos_same_as(pool, same, pool[t as int]);
        let ng = negated(g);
        let to = tp.filter(ng);
        let po = p.filter(ng);
        let all = |x: usize| true;
        // Sizes split by the group of t.
        lemma_count_filter(tp, g, all);
        lemma_count_filter(tp, ng, all);
        lemma_count_filter(p, g, all);
        lemma_count_filter(p, ng, all);
        lemma_count_split(tp, all, g);
        lemma_count_split(p, all, g);
        lemma_count_all(tp, all);
        lemma_count_all(p, all);
        lemma_count_agree(tp, both(all, g), g);
        lemma_count_agree(tp, both(all, negated(g)), ng);
        lemma_count_agree(p, both(all, g), g);
        lemma_count_agree(p, both(all, negated(g)), ng);
        assert(tp[tp.len() - 1] == t);
        // The group of t: tp holds no more of it than p.
        assert(count_where(tp, g) <= count_where(p, g)) by {
            if count_where(p, g) < m {
                assert forall|i: int| 0 <= i < tp.len() && g(#[trigger] tp[i]) implies p.contains(tp[i]) by {
                    let hx = pos_same_as(pool, same, pool[tp[i] as int]);
                    assert forall|j: int| 0 <= j < p.len() implies hx(#[trigger] p[j]) == g(p[j]) by {
                        let a = pool[p[j] as int];
                        let b = pool[tp[i] as int];
                        let c = pool[t as int];
                        if same(a, b) {
                            assert(same(a, c));
                        }
                        if same(a, c) {
                            assert(same(c, b));
                            assert(same(a, b));
                        }
                    }
                    lemma_count_agree(p, hx, g);
                }
                lemma_count_subset(tp, p, g);
            }
        }
        // The other groups, by induction.
        assert(g(t));
        assert(count_where(tp, g) >= 1) by {
            assert(tp.last() == t);
        }
        lemma_filter_distinct(tp, ng);
        lemma_filter_distinct(p, ng);
        lemma_in_pool_filter(tp, ng, pool.len());
        lemma_in_pool_filter(p, ng, pool.len());
        assert forall|i: int| 0 <= i < to.len() implies po.contains(#[trigger] to[i]) || count_where(
            po,
            pos_same_as(pool, same, pool[to[i] as int]),
        ) >= m by {
            let x = to[i];
            assert(to.contains(x));
            tp.lemma_filter_contains_rev(ng, x);
            let j = choose|j: int| 0 <= j < tp.len() && tp[j] == x;
            assert(ng(x));
            let hx = pos_same_as(pool, same, pool[x as int]);
            if p.contains(x) {
                let k = choose|k: int| 0 <= k < p.len() && p[k] == x;
                p.lemma_filter_contains(ng, k);
            } else {
                assert(count_where(p, hx) >= m);
                lemma_count_filter(p, ng, hx);
                assert forall|u: int| 0 <= u < p.len() implies both(hx, ng)(#[trigger] p[u]) == hx(p[u]) by {
                    let a = pool[p[u] as int];
                    if same(a, pool[x as int]) && same(a, pool[t as int]) {
                        assert(same(pool[x as int], a));
                        assert(same(pool[x as int], pool[t as int]));
                    }
                }
                lemma_count_agree(p, both(hx, ng), hx);
            }
        }
        assert forall|i: int| 0 <= i < to.len() implies count_where(
            to,
            pos_same_as(pool, same, pool[#[trigger] to[i] as int]),
        ) <= m by {
            let x = to[i];
            assert(to.contains(x));
            tp.lemma_filter_contains_rev(ng, x);
            let j = choose|j: int| 0 <= j < tp.len() && tp[j] == x;
            let hx = pos_same_as(pool, same, pool[x as int]);
            lemma_count_filter(tp, ng, hx);
            lemma_count_split(tp, hx, ng);
            assert(count_where(tp, pos_same_as(pool, same, pool[tp[j] as int])) <= m);
        }
        lemma_fill(pool, same, m, to, po);
    }
}

// ---- the law ----------------------------------------------------------------------------

proof fn lemma_run_distinct<C>(
    cs: Seq<Box<dyn SetConstraint<C>>>,
    pool: Seq<&C>,
    sel: Seq<usize>,
    gains: FusedGain,
)
    requires
        greedy_run(cs, pool, sel, None, 0, gains),
    ensures
        sel.no_duplicates(),
{
    assert forall|i: int, j: int| 0 <= i < sel.len() && 0 <= j < sel.len() && i != j implies sel[i]
        != sel[j] by {
        let (a, b) = if i < j { (i, j) } else { (j, i) };
        assert(greedy_choice(cs, pool, sel.take(b), None, gains, sel[b] as int));
        assert(sel.take(b)[a] == sel[a]);
        assert(sel.take(b).contains(sel[a]));
    }
}

/// The first position of `s` whose key is below `v`, or its length.
pub open spec fn first_below(keys: Seq<u32>, s: Seq<usize>, v: u32) -> nat
    decreases s.len(),
{
    if s.len() == 0 {
        0
    } else if keys[s[0] as int] < v {
        0
    } else {
        1 + first_below(keys, s.drop_first(), v)
    }
}

proof fn lemma_first_below(keys: Seq<u32>, s: Seq<usize>, v: u32)
    ensures
        first_below(keys, s, v) <= s.len(),
        forall|r: int| 0 <= r < first_below(keys, s, v) ==> keys[#[trigger] s[r] as int] >= v,
        first_below(keys, s, v) < s.len() ==> keys[s[first_below(keys, s, v) as int] as int] < v,
    decreases s.len(),
{
    if s.len() > 0 && keys[s[0] as int] >= v {
        let t = s.drop_first();
        lemma_first_below(keys, t, v);
        assert forall|r: int| 0 <= r < first_below(keys, s, v) implies keys[#[trigger] s[r] as int] >= v by {
            if r > 0 {
                assert(s[r] == t[r - 1]);
            }
        }
        if first_below(keys, s, v) < s.len() {
            assert(s[first_below(keys, s, v) as int] == t[first_below(keys, t, v) as int]);
        }
    }
}

/// Greedy selection under a partition matroid is optimal.
///
/// Under one constraint that admits a candidate exactly when fewer than `m` of the
/// selected ones share its group, and a count limit `k`, a selection that greedy selection
/// by fixed keys produced (as [`crate::select::cardinality`] guarantees of its result) holds,
/// for every threshold `v`, at least as many candidates with key at least `v` as any other
/// selection of distinct pool candidates that the constraint and the limit allow.
pub proof fn lemma_greedy_dominates_under_partition<C>(
    cs: Seq<Box<dyn SetConstraint<C>>>,
    pool: Seq<&C>,
    gains: FusedGain,
    same: spec_fn(&C, &C) -> bool,
    m: nat,
    k: Option<usize>,
    sel: Seq<usize>,
    other: Seq<usize>,
    v: u32,
)
    requires
        partition_admission(cs, same, m),
        is_equivalence(same),
        gains.keys@.len() == pool.len(),
        in_pool(sel, pool.len()),
        sel.len() <= match k {
            Some(n) => if n < pool.len() { n as nat } else { pool.len() },
            None => pool.len(),
        },
        greedy_run(cs, pool, sel, None, 0, gains),
        sel.len() < match k {
            Some(n) => if n < pool.len() { n as nat } else { pool.len() },
            None => pool.len(),
        } ==> nothing_eligible(cs, pool, sel, None),
        in_pool(other, pool.len()),
        other.no_duplicates(),
        set_feasible(cs, pool, other, k, None),
    ensures
        count_where(sel, key_at_least(gains.keys@, v)) >= count_where(
            other,
            key_at_least(gains.keys@, v),
        ),
{
    let keys = gains.keys@;
    let a = key_at_least(keys, v);
    let n = pool.len();
    let cap: nat = match k {
        Some(c) => if c < n { c as nat } else { n },
        None => n,
    };
    lemma_run_distinct(cs, pool, sel, gains);
    lemma_first_below(keys, sel, v);
    let cut = first_below(keys, sel, v) as int;
    let p = sel.take(cut);
    // The greedy picks before the cut all have key at least v.
    assert(count_where(sel, a) >= cut) by {
        assert(sel =~= p + sel.skip(cut));
        lemma_count_concat(p, sel.skip(cut), a);
        assert forall|i: int| 0 <= i < p.len() implies a(#[trigger] p[i]) by {
            assert(p[i] == sel[i]);
        }
        lemma_count_all(p, a);
    }
    lemma_count_le_len(other, a);
    if cut == sel.len() && sel.len() == cap && cap < n {
        // The count limit was reached with keys at least v.
        assert(other.len() <= cap);
    } else {
        assert(p.no_duplicates()) by {
            assert forall|i: int, j: int| 0 <= i < p.len() && 0 <= j < p.len() && i != j implies p[i]
                != p[j] by {
                assert(p[i] == sel[i] && p[j] == sel[j]);
            }
        }
        assert(in_pool(p, n)) by {
            assert forall|t: int| 0 <= t < p.len() implies #[trigger] p[t] < n by {
                assert(p[t] == sel[t]);
            }
        }
        // Every candidate with key at least v is in p or its group is full in p.
        assert forall|x: usize| x < n && #[trigger] a(x) implies p.contains(x) || count_where(
            p,
            pos_same_as(pool, same, pool[x as int]),
        ) >= m by {
            let hx = pos_same_as(pool, same, pool[x as int]);
            if cut == sel.len() && sel.len() == cap {
                // The whole pool was taken.
                if !sel.contains(x) {
                    assert(in_pool(sel.push(x), n)) by {
                        assert forall|t: int| 0 <= t < sel.push(x).len() implies #[trigger] sel.push(x)[t]
                            < n by {
                            if t < sel.len() {
                                assert(sel.push(x)[t] == sel[t]);
                            }
                        }
                    }
                    assert(sel.push(x).no_duplicates()) by {
                        assert forall|i: int, j: int|
                            0 <= i < sel.push(x).len() && 0 <= j < sel.push(x).len() && i != j implies sel.push(
                                x,
                            )[i] != sel.push(x)[j] by {
                            if i < sel.len() && j < sel.len() {
                            } else if i < sel.len() {
                                assert(sel.contains(sel[i]));
                            } else {
                                assert(sel.contains(sel[j]));
                            }
                        }
                    }
                    lemma_distinct_in_pool_len(sel.push(x), n);
                }
                assert(p =~= sel);
            } else {
                // Either the greedy choice after p has key below v, or nothing was eligible.
                if cut < sel.len() {
                    assert(greedy_choice(cs, pool, sel.take(cut), None, gains, sel[cut] as int));
                    assert(keys[sel[cut] as int] < v);
                } else {
                    assert(p =~= sel);
                }
                if !p.contains(x) {
                    assert(!eligible(cs, pool, p, None, x as int));
                    assert(!admitted(cs, refs_of(pool, p), pool[x as int]));
                    assert(!cs[0].admits_spec(refs_of(pool, p), pool[x as int]));
                    lemma_group_count(pool, p, same, pool[x as int]);
                }
            }
        }
        // The candidates of `other` with key at least v.
        let tp = other.filter(a);
        lemma_filter_distinct(other, a);
        lemma_in_pool_filter(other, a, n);
        lemma_count_filter(other, a, a);
        assert forall|i: int| 0 <= i < tp.len() implies count_where(
            tp,
            pos_same_as(pool, same, pool[#[trigger] tp[i] as int]),
        ) <= m by {
            let x = tp[i];
            assert(tp.contains(x));
            other.lemma_filter_contains_rev(a, x);
            let j = choose|j: int| 0 <= j < other.len() && other[j] == x;
            let hx = pos_same_as(pool, same, pool[x as int]);
            lemma_count_filter(other, a, hx);
            lemma_count_split(other, hx, a);
            // `other` is allowed: x was admitted next to the rest of it.
            assert(admitted(cs, refs_of(pool, other.remove(j)), pool[other[j] as int]));
            assert(cs[0].admits_spec(refs_of(pool, other.remove(j)), pool[x as int]));
            assert(in_pool(other.remove(j), n)) by {
                assert forall|t: int| 0 <= t < other.remove(j).len() implies #[trigger] other.remove(
                    j,
                )[t] < n by {
                    if t < j {
                        assert(other.remove(j)[t] == other[t]);
                    } else {
                        assert(other.remove(j)[t] == other[t + 1]);
                    }
                }
            }
            lemma_group_count(pool, other.remove(j), same, pool[x as int]);
            lemma_count_remove(other, j, hx);
            assert(hx(x));
        }
        assert forall|i: int| 0 <= i < tp.len() implies p.contains(#[trigger] tp[i]) || count_where(
            p,
            pos_same_as(pool, same, pool[tp[i] as int]),
        ) >= m by {
            let x = tp[i];
            assert(tp.contains(x));
            other.lemma_filter_contains_rev(a, x);
            assert(a(x));
        }
        lemma_fill(pool, same, m, tp, p);
    }
}

proof fn lemma_same_key_count_groups<C, K: PartialEq, F: Fn(&C) -> K>(
    g: MaxPerGroup<C, K, F>,
    same: spec_fn(&C, &C) -> bool,
    s: Seq<&C>,
    c: &C,
)
    requires
        forall|x: &C, y: &C| #[trigger] same(x, y) == out_of(g.key_fn(), x).eq_spec(&out_of(g.key_fn(), y)),
    ensures
        same_key_count(g.key_fn(), s, g.group_of(c)) == same_count(same, s, c),
    decreases s.len(),
{
    if s.len() > 0 {
        lemma_same_key_count_groups(g, same, s.drop_last(), c);
        assert(same(s.last(), c) == out_of(g.key_fn(), s.last()).eq_spec(&out_of(g.key_fn(), c)));
    }
}

/// A per-group maximum admits as a partition matroid does, with the classes of equal keys
/// as its groups, when key equality is an equivalence.
pub proof fn lemma_max_per_group_is_partition<C, K: PartialEq, F: Fn(&C) -> K>(
    g: MaxPerGroup<C, K, F>,
    same: spec_fn(&C, &C) -> bool,
)
    requires
        vstd::laws_eq::obeys_eq_spec_properties::<K>(),
        forall|t: K| #[trigger] t.eq_spec(&t),
        forall|x: &C, y: &C| #[trigger] same(x, y) == out_of(g.key_fn(), x).eq_spec(&out_of(g.key_fn(), y)),
    ensures
        is_equivalence(same),
        forall|s: Seq<&C>, c: &C| #[trigger] g.admits_spec(s, c) == (same_count(same, s, c) < g.limit()),
{
    reveal(vstd::laws_eq::obeys_eq_spec_properties);
    assert forall|x: &C| #[trigger] same(x, x) by {
        assert(out_of(g.key_fn(), x).eq_spec(&out_of(g.key_fn(), x)));
    }
    assert forall|x: &C, y: &C| #[trigger] same(x, y) implies same(y, x) by {
        assert(out_of(g.key_fn(), x).eq_spec(&out_of(g.key_fn(), y)));
    }
    assert forall|x: &C, y: &C, z: &C| #[trigger] same(x, y) && #[trigger] same(y, z) implies same(x, z) by {
        assert(out_of(g.key_fn(), y).eq_spec(&out_of(g.key_fn(), z)));
    }
    assert forall|s: Seq<&C>, c: &C| #[trigger] g.admits_spec(s, c) == (same_count(same, s, c) < g.limit()) by {
        lemma_same_key_count_groups(g, same, s, c);
    }
}

proof fn lemma_count_everything<C>(same: spec_fn(&C, &C) -> bool, s: Seq<&C>, c: &C)
    requires
        forall|x: &C, y: &C| #[trigger] same(x, y),
    ensures
        same_count(same, s, c) == s.len(),
    decreases s.len(),
{
    if s.len() > 0 {
        lemma_count_everything(same, s.drop_last(), c);
        assert(same(s.last(), c));
    }
}

/// An overall maximum admits as a partition matroid with a single group does.
pub proof fn lemma_max_total_is_partition<C>(t: MaxTotal, same: spec_fn(&C, &C) -> bool)
    requires
        forall|x: &C, y: &C| #[trigger] same(x, y),
    ensures
        is_equivalence(same),
        forall|s: Seq<&C>, c: &C|
            #[trigger] SetConstraint::<C>::admits_spec(&t, s, c) == (same_count(same, s, c) < t.limit()),
{
    assert forall|s: Seq<&C>, c: &C|
        #[trigger] SetConstraint::<C>::admits_spec(&t, s, c) == (same_count(same, s, c) < t.limit()) by {
        lemma_count_everything(same, s, c);
    }
}

} // verus!
