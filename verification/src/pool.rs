//! The stage-one pool: keeps the best M of a stream.
//!
//! Candidates arrive one by one; the pool holds at most M of them, best first, and hands
//! back whichever candidate has to leave. Memory stays O(M) however long the stream is.

use vstd::prelude::*;

use crate::candidate::CandidateId;
use crate::order::{
    best_first, ids_identify, insert_in_place, insert_pos, insert_ranked, keyed_ahead,
    lemma_ahead, lemma_best_first_unique, lemma_insert_ranked, lemma_ranked_all, ranked_all,
    ranks_ahead, Keyed,
};

verus! {

broadcast use {vstd::seq_lib::group_to_multiset_ensures, vstd::multiset::group_multiset_axioms};

/// What happened to a candidate offered to the pool.
#[derive(Debug)]
pub enum Admission<T> {
    /// It was taken and nothing had to leave.
    Kept,
    /// It was taken and the worst candidate held so far left; here it is.
    Evicted(Keyed<T>),
    /// It was not taken; here it is back.
    Refused(Keyed<T>),
}

/// At most `capacity` candidates, best first.
pub struct BoundedPool<T> {
    capacity: usize,
    slots: Vec<Keyed<T>>,
}

/// What a pool holds and how many it may hold.
pub struct PoolState<T> {
    /// The capacity M.
    pub capacity: nat,
    /// The held candidates, best first.
    pub slots: Seq<Keyed<T>>,
}

/// The state after offering `x` to `s`, and what came back.
pub open spec fn offer<T>(s: PoolState<T>, x: Keyed<T>) -> (PoolState<T>, Option<Keyed<T>>) {
    if s.slots.len() < s.capacity {
        (PoolState { capacity: s.capacity, slots: insert_ranked(s.slots, x) }, None)
    } else if s.slots.len() == 0 {
        (s, Some(x))
    } else if keyed_ahead(x, s.slots.last()) {
        (
            PoolState { capacity: s.capacity, slots: insert_ranked(s.slots.drop_last(), x) },
            Some(s.slots.last()),
        )
    } else {
        (s, Some(x))
    }
}

impl<T> View for BoundedPool<T> {
    type V = PoolState<T>;

    closed spec fn view(&self) -> PoolState<T> {
        PoolState { capacity: self.capacity as nat, slots: self.slots@ }
    }
}

impl<T> BoundedPool<T> {
    #[verifier::type_invariant]
    spec fn well_formed(self) -> bool {
        &&& best_first(self.slots@)
        &&& self.slots@.len() <= self.capacity
    }

    /// An empty pool for at most `capacity` candidates.
    pub fn new(capacity: usize) -> (p: Self)
        ensures
            p@.capacity == capacity,
            p@.slots.len() == 0,
    {
        BoundedPool { capacity, slots: Vec::new() }
    }

    /// How many candidates are held.
    pub fn len(&self) -> (n: usize)
        ensures
            n == self@.slots.len(),
    {
        self.slots.len()
    }

    /// Offers a candidate.
    ///
    /// While there is room it is taken. When full, it is taken only if it ranks strictly
    /// ahead of the worst held candidate, which then leaves; otherwise it is refused.
    pub fn push(&mut self, key: u32, id: CandidateId, item: T) -> (r: Admission<T>)
        ensures
            ({
                let x = Keyed { key, id, item };
                let (next, out) = offer(old(self)@, x);
                &&& final(self)@ == next
                &&& best_first(next.slots)
                &&& next.slots.len() <= next.capacity
                &&& match r {
                    Admission::Kept => out is None,
                    Admission::Evicted(e) => out == Some(e) && e != x,
                    Admission::Refused(e) => out == Some(e) && e == x,
                }
            }),
    {
        proof {
            use_type_invariant(&*self);
        }
        let x = Keyed { key, id, item };
        if self.slots.len() < self.capacity {
            let mut slots = Vec::new();
            std::mem::swap(&mut slots, &mut self.slots);
            proof {
                lemma_insert_ranked(slots@, x);
            }
            insert_in_place(&mut slots, x);
            self.slots = slots;
            return Admission::Kept;
        }
        if self.slots.len() == 0 {
            return Admission::Refused(x);
        }
        let last = self.slots.len() - 1;
        if ranks_ahead(&x, &self.slots[last]) {
            let mut slots = Vec::new();
            std::mem::swap(&mut slots, &mut self.slots);
            let ghost before = slots@;
            let worst = slots.pop().unwrap();
            proof {
                assert(slots@ =~= before.drop_last());
                assert forall|i: int, j: int| 0 <= i < j < slots@.len() implies !keyed_ahead(
                    #[trigger] slots@[j],
                    #[trigger] slots@[i],
                ) by {
                    assert(slots@[i] == before[i] && slots@[j] == before[j]);
                }
                lemma_insert_ranked(slots@, x);
                lemma_ahead(x, worst, x);
            }
            insert_in_place(&mut slots, x);
            self.slots = slots;
            Admission::Evicted(worst)
        } else {
            Admission::Refused(x)
        }
    }

    /// The held candidates, best first.
    pub fn into_sorted(self) -> (v: Vec<Keyed<T>>)
        ensures
            v@ == self@.slots,
            best_first(v@),
    {
        proof {
            use_type_invariant(&self);
        }
        self.slots
    }
}

// ---- what a stream of offers leaves behind ------------------------------------------

/// The pool state and the candidates turned away after offering `xs` in order to an empty
/// pool of capacity `capacity`.
pub open spec fn run_offers<T>(capacity: nat, xs: Seq<Keyed<T>>) -> (PoolState<T>, Seq<Keyed<T>>)
    decreases xs.len(),
{
    if xs.len() == 0 {
        (PoolState { capacity, slots: Seq::empty() }, Seq::empty())
    } else {
        let (s, out) = run_offers(capacity, xs.drop_last());
        let (s2, o) = offer(s, xs.last());
        match o {
            Some(e) => (s2, out.push(e)),
            None => (s2, out),
        }
    }
}

/// Offering a whole stream to the pool: it keeps `min(M, n)` candidates, best first;
/// nothing is lost (kept and turned away together are exactly the stream); and no
/// candidate that was turned away ranks ahead of one that was kept.
pub proof fn lemma_pool_keeps_the_best<T>(capacity: nat, xs: Seq<Keyed<T>>)
    ensures
        ({
            let (s, out) = run_offers(capacity, xs);
            &&& best_first(s.slots)
            &&& s.capacity == capacity
            &&& s.slots.len() == if xs.len() < capacity { xs.len() } else { capacity }
            &&& s.slots.to_multiset().add(out.to_multiset()) == xs.to_multiset()
            &&& forall|k: int, o: int|
                0 <= k < s.slots.len() && 0 <= o < out.len() ==> !keyed_ahead(
                    #[trigger] out[o],
                    #[trigger] s.slots[k],
                )
        }),
    decreases xs.len(),
{
    if xs.len() > 0 {
        let prev = xs.drop_last();
        let x = xs.last();
        lemma_pool_keeps_the_best(capacity, prev);
        let (s, out) = run_offers(capacity, prev);
        let (s2, o) = offer(s, x);
        assert(xs =~= prev.push(x));
        if s.slots.len() < capacity {
            lemma_insert_ranked(s.slots, x);
            // The pool was not yet full, so nothing had been turned away.
            assert(out.len() == 0) by {
                if out.len() > 0 {
                    assert(s.slots.to_multiset().len() + out.to_multiset().len()
                        == prev.to_multiset().len());
                }
            }
        } else if s.slots.len() == 0 {
        } else if keyed_ahead(x, s.slots.last()) {
            let kept = s.slots.drop_last();
            let w = s.slots.last();
            assert(s.slots =~= kept.push(w));
            assert(best_first(kept)) by {
                assert forall|i: int, j: int| 0 <= i < j < kept.len() implies !keyed_ahead(
                    #[trigger] kept[j],
                    #[trigger] kept[i],
                ) by {
                    assert(kept[i] == s.slots[i] && kept[j] == s.slots[j]);
                }
            }
            lemma_insert_ranked(kept, x);
            let p = crate::order::insert_pos(kept, x);
            let t = insert_ranked(kept, x);
            let out2 = out.push(w);
            assert forall|k: int, q: int| 0 <= k < t.len() && 0 <= q < out2.len() implies !keyed_ahead(
                #[trigger] out2[q],
                #[trigger] t[k],
            ) by {
                let last = s.slots.len() - 1;
                if k == p {
                    // t[k] is x, which ranks ahead of w, which no turned-away one beats.
                    if q < out.len() {
                        assert(!keyed_ahead(out[q], s.slots[last]));
                        lemma_ahead(out[q], x, w);
                    } else {
                        lemma_ahead(w, x, w);
                    }
                } else {
                    let src = if k < p { k } else { k - 1 };
                    assert(t[k] == kept[src]);
                    assert(kept[src] == s.slots[src]);
                    if q < out.len() {
                        assert(out2[q] == out[q]);
                    } else {
                        // w was last of a best-first sequence.
                        assert(out2[q] == w);
                        assert(!keyed_ahead(s.slots[last], s.slots[src]));
                    }
                }
            }
        } else {
            let w = s.slots.last();
            let out2 = out.push(x);
            assert forall|k: int, q: int| 0 <= k < s.slots.len() && 0 <= q < out2.len() implies !keyed_ahead(
                #[trigger] out2[q],
                #[trigger] s.slots[k],
            ) by {
                if q == out.len() {
                    assert(out2[q] == x);
                    let last = s.slots.len() - 1;
                    assert(!keyed_ahead(x, w));
                    if k < last {
                        assert(!keyed_ahead(s.slots[last], s.slots[k]));
                        lemma_ahead(w, x, s.slots[k]);
                        lemma_ahead(x, w, s.slots[k]);
                    }
                } else {
                    assert(out2[q] == out[q]);
                }
            }
        }
    }
}

/// What a stream leaves in the pool is the best `min(M, n)` of it: the first `min(M, n)`
/// of its best-first arrangement.
pub proof fn lemma_pool_is_top<T>(capacity: nat, xs: Seq<Keyed<T>>)
    ensures
        run_offers(capacity, xs).0.slots == ranked_all(xs).take(
            if xs.len() < capacity { xs.len() as int } else { capacity as int },
        ),
    decreases xs.len(),
{
    lemma_ranked_all(xs);
    if xs.len() > 0 {
        let prev = xs.drop_last();
        let x = xs.last();
        lemma_pool_is_top(capacity, prev);
        lemma_pool_keeps_the_best(capacity, prev);
        lemma_ranked_all(prev);
        let sp = ranked_all(prev);
        let (s, out) = run_offers(capacity, prev);
        lemma_insert_ranked(sp, x);
        let p = insert_pos(sp, x);
        let whole = insert_ranked(sp, x);
        assert(ranked_all(xs) == whole);
        if s.slots.len() < capacity {
            assert(s.slots =~= sp);
            assert(whole.take(xs.len() as int) =~= whole);
        } else if s.slots.len() == 0 {
            assert(capacity == 0);
            assert(whole.take(0) =~= Seq::<Keyed<T>>::empty());
        } else {
            let m = capacity as int;
            assert(s.slots =~= sp.take(m));
            assert(s.slots.last() == sp[m - 1]);
            if keyed_ahead(x, sp[m - 1]) {
                assert(p <= m - 1);
                let head = sp.take(m - 1);
                assert(s.slots.drop_last() =~= head);
                assert forall|i: int| 0 <= i < p implies !keyed_ahead(x, #[trigger] head[i]) by {
                    assert(head[i] == sp[i]);
                }
                crate::order::lemma_insert_pos(head, x, p);
                assert(insert_ranked(head, x) =~= whole.take(m));
            } else {
                assert(p >= m) by {
                    if p < m {
                        assert(keyed_ahead(x, sp[p]));
                        lemma_ahead(sp[p], sp[m - 1], x);
                        lemma_ahead(x, sp[p], sp[m - 1]);
                        if p < m - 1 {
                            assert(!keyed_ahead(sp[m - 1], sp[p]));
                        }
                    }
                }
                assert(whole.take(m) =~= sp.take(m));
            }
        }
    } else {
        assert(ranked_all(xs).take(0) =~= Seq::<Keyed<T>>::empty());
    }
}

/// Arrival order does not change what the pool keeps. Two streams with the same candidates,
/// in which an identifier names one candidate, leave the same pool, best first, and turn
/// away the same candidates.
pub proof fn lemma_arrival_order_irrelevant<T>(capacity: nat, xs: Seq<Keyed<T>>, ys: Seq<Keyed<T>>)
    requires
        xs.to_multiset() == ys.to_multiset(),
        ids_identify(xs),
    ensures
        run_offers(capacity, xs).0.slots == run_offers(capacity, ys).0.slots,
        run_offers(capacity, xs).0.capacity == run_offers(capacity, ys).0.capacity,
        run_offers(capacity, xs).1.to_multiset() == run_offers(capacity, ys).1.to_multiset(),
{
    lemma_ranked_all(xs);
    lemma_ranked_all(ys);
    lemma_pool_is_top(capacity, xs);
    lemma_pool_is_top(capacity, ys);
    lemma_pool_keeps_the_best(capacity, xs);
    lemma_pool_keeps_the_best(capacity, ys);
    let rx = ranked_all(xs);
    let ry = ranked_all(ys);
    assert(xs.len() == ys.len()) by {
        assert(xs.to_multiset().len() == xs.len() && ys.to_multiset().len() == ys.len());
    }
    assert(ids_identify(rx)) by {
        assert forall|i: int, j: int|
            0 <= i < rx.len() && 0 <= j < rx.len() && #[trigger] rx[i].id@ == #[trigger] rx[j].id@ implies rx[i]
            == rx[j] by {
            assert(rx.to_multiset().count(rx[i]) > 0 && rx.to_multiset().count(rx[j]) > 0);
            assert(xs.contains(rx[i]) && xs.contains(rx[j]));
            let a = choose|a: int| 0 <= a < xs.len() && xs[a] == rx[i];
            let b = choose|b: int| 0 <= b < xs.len() && xs[b] == rx[j];
            assert(xs[a].id@ == xs[b].id@);
        }
    }
    lemma_best_first_unique(rx, ry);
    let (s1, o1) = run_offers(capacity, xs);
    let (s2, o2) = run_offers(capacity, ys);
    assert(s1.slots == s2.slots);
    assert(o1.to_multiset() =~= o2.to_multiset()) by {
        assert forall|v: Keyed<T>| #[trigger] o1.to_multiset().count(v) == o2.to_multiset().count(v) by {
            assert(s1.slots.to_multiset().add(o1.to_multiset()).count(v) == xs.to_multiset().count(v));
            assert(s2.slots.to_multiset().add(o2.to_multiset()).count(v) == ys.to_multiset().count(v));
        }
    }
}

} // verus!
