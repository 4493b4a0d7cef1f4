//! A stable sort that asks for its comparisons one at a time.
//!
//! The sorter never compares items itself. It names the two items it wants
//! compared, takes the answer, and names the next pair, until every item is
//! placed. Whoever drives it may answer from keys held in memory or from a
//! collation service; the sorter works by binary insertion, so it asks for
//! about `n log n` comparisons.

use vstd::prelude::*;
use crate::order::{
    comes_before, in_stable_order, is_permutation, is_stable_order, is_strict_weak_order,
    lemma_permutation_bound, lemma_stable_order_is, stable_order,
};

verus! {

/// An insertion sort in progress, as a mathematical value.
///
/// The items are the indices below `total`. Those below `placed.len()` are
/// placed already, in the order `placed`; the item `placed.len()` is being
/// inserted, and its place is known to lie between `lo` and `hi`.
pub struct Insertion {
    pub total: nat,
    pub placed: Seq<usize>,
    pub lo: int,
    pub hi: int,
}

impl Insertion {
    /// The item that is being inserted.
    pub open spec fn incoming(self) -> usize {
        self.placed.len() as usize
    }

    /// Whether every item is placed.
    pub open spec fn is_done(self) -> bool {
        self.placed.len() >= self.total
    }

    /// The position in `placed` that the next comparison looks at.
    pub open spec fn probe(self) -> int {
        self.lo + (self.hi - self.lo) / 2
    }

    /// The next comparison: a placed item, and the incoming one.
    pub open spec fn pending(self) -> (usize, usize) {
        (self.placed[self.probe()], self.incoming())
    }

    /// The structural invariant of a sort in progress.
    pub open spec fn wf(self) -> bool {
        &&& self.total <= usize::MAX
        &&& self.placed.len() <= self.total
        &&& is_permutation(self.placed, self.placed.len())
        &&& 0 <= self.lo <= self.hi <= self.placed.len()
        &&& !self.is_done() ==> self.lo < self.hi
    }

    /// The state after the answer to the pending comparison: the place of the
    /// incoming item is below the probe if the placed item sorts after it, and
    /// above the probe otherwise.
    pub open spec fn narrowed(self, left_after: bool) -> Self {
        if left_after {
            Insertion { hi: self.probe(), ..self }
        } else {
            Insertion { lo: self.probe() + 1, ..self }
        }
    }

    /// The state once the incoming item is placed, if its place is known.
    pub open spec fn settled(self) -> Self {
        if !self.is_done() && self.lo == self.hi {
            Insertion {
                total: self.total,
                placed: self.placed.insert(self.lo, self.incoming()),
                lo: 0,
                hi: self.placed.len() as int + 1,
            }
        } else {
            self
        }
    }

    /// The state in which a sort of `total` items starts: the first item is
    /// placed without a comparison.
    pub open spec fn start(total: nat) -> Self {
        Insertion { total, placed: Seq::empty(), lo: 0, hi: 0 }.settled()
    }

    /// The transition: a finished sort ignores an answer, an unfinished one
    /// narrows the search and places the item once the search has closed.
    pub open spec fn step(self, left_after: bool) -> Self {
        if self.is_done() {
            self
        } else {
            self.narrowed(left_after).settled()
        }
    }

    /// A bound on the number of answers that the sort still needs.
    pub open spec fn steps_left(self) -> nat {
        if self.is_done() {
            0
        } else {
            ((self.total - self.placed.len()) * (self.total + 1) + (self.hi - self.lo)) as nat
        }
    }

    /// Whether the sort stands as the order `after` would have it: the placed
    /// items are in its stable sorted order, and the search bounds enclose the
    /// place that it gives the incoming item. A sort starts in this state and
    /// stays in it as long as each answer is the one that `after` gives.
    pub open spec fn agrees_with(self, after: spec_fn(usize, usize) -> bool) -> bool {
        &&& is_strict_weak_order(after)
        &&& in_stable_order(self.placed, after)
        &&& !self.is_done() ==> {
            &&& forall|k: int|
                0 <= k < self.lo ==> !after(#[trigger] self.placed[k], self.incoming())
            &&& forall|k: int|
                self.hi <= k < self.placed.len() ==> after(
                    #[trigger] self.placed[k],
                    self.incoming(),
                )
        }
    }
}

/// Placing the incoming item keeps the structure.
pub proof fn lemma_settled_wf(s: Insertion)
    requires
        s.total <= usize::MAX,
        s.placed.len() <= s.total,
        is_permutation(s.placed, s.placed.len()),
        0 <= s.lo <= s.hi <= s.placed.len(),
    ensures
        s.settled().wf(),
{
    if !s.is_done() && s.lo == s.hi {
        let x = s.incoming();
        let old = s.placed;
        let new = old.insert(s.lo, x);
        assert(!old.contains(x));
        assert forall|a: int, b: int|
            0 <= a < new.len() && 0 <= b < new.len() && a != b implies new[a] != new[b] by {
            let oa = if a < s.lo { a } else { a - 1 };
            let ob = if b < s.lo { b } else { b - 1 };
            if a != s.lo {
                assert(new[a] == old[oa]);
                assert(old.contains(old[oa]));
            }
            if b != s.lo {
                assert(new[b] == old[ob]);
                assert(old.contains(old[ob]));
            }
        }
        assert forall|v: usize| v < new.len() <==> #[trigger] new.contains(v) by {
            if v < new.len() {
                if v == x {
                    assert(new[s.lo] == v);
                } else {
                    assert(old.contains(v));
                    let k = choose|k: int| 0 <= k < old.len() && old[k] == v;
                    let nk = if k < s.lo { k } else { k + 1 };
                    assert(new[nk] == v);
                }
            }
            if new.contains(v) {
                let k = choose|k: int| 0 <= k < new.len() && new[k] == v;
                if k != s.lo {
                    let ok = if k < s.lo { k } else { k - 1 };
                    assert(new[k] == old[ok]);
                    assert(old.contains(v));
                }
            }
        }
    }
}

/// A sort starts well formed, whatever the number of items.
pub proof fn lemma_start_wf(total: nat)
    requires
        total <= usize::MAX,
    ensures
        Insertion::start(total).wf(),
{
    let s = Insertion { total, placed: Seq::<usize>::empty(), lo: 0, hi: 0 };
    lemma_settled_wf(s);
}

/// An answer keeps the structure, whatever it is.
pub proof fn lemma_step_wf(s: Insertion, left_after: bool)
    requires
        s.wf(),
    ensures
        s.step(left_after).wf(),
{
    if !s.is_done() {
        lemma_settled_wf(s.narrowed(left_after));
    }
}

/// Each answer brings an unfinished sort closer to its end.
pub proof fn lemma_step_decreases(s: Insertion, left_after: bool)
    requires
        s.wf(),
        !s.is_done(),
    ensures
        s.step(left_after).steps_left() < s.steps_left(),
{
    let n = s.narrowed(left_after);
    let rest = s.total - s.placed.len();
    if n.lo == n.hi {
        assert(rest * (s.total + 1) == (rest - 1) * (s.total + 1) + (s.total + 1))
            by (nonlinear_arith);
        assert((rest - 1) * (s.total + 1) >= 0) by (nonlinear_arith)
            requires
                rest >= 1,
                s.total >= 0,
        ;
    }
}

/// A sort starts in agreement with every order.
pub proof fn lemma_start_agrees(total: nat, after: spec_fn(usize, usize) -> bool)
    requires
        is_strict_weak_order(after),
    ensures
        Insertion::start(total).agrees_with(after),
{
    let s = Insertion::start(total);
    if total > 0 {
        assert(s.placed.len() == 1);
        assert(s.placed[0] == 0);
        if !s.is_done() {
            assert(s.lo == 0 && s.hi == 1);
        }
    }
}

/// An answer that the order gives keeps the sort in agreement with it.
pub proof fn lemma_step_agrees(s: Insertion, after: spec_fn(usize, usize) -> bool, left_after: bool)
    requires
        s.wf(),
        s.agrees_with(after),
        !s.is_done() ==> left_after == after(s.pending().0, s.pending().1),
    ensures
        s.step(left_after).agrees_with(after),
{
    if !s.is_done() {
        let x = s.incoming();
        let mid = s.probe();
        let n = s.narrowed(left_after);
        assert(n.agrees_with(after)) by {
            if left_after {
                assert forall|k: int| n.hi <= k < n.placed.len() implies after(
                    #[trigger] n.placed[k],
                    x,
                ) by {
                    if k > mid {
                        assert(comes_before(after, s.placed[mid], s.placed[k]));
                        assert(!after(s.placed[mid], s.placed[k]));
                    }
                }
            } else {
                assert forall|k: int| 0 <= k < n.lo implies !after(#[trigger] n.placed[k], x) by {
                    if k < mid {
                        assert(comes_before(after, s.placed[k], s.placed[mid]));
                        assert(!after(s.placed[k], s.placed[mid]));
                    }
                }
            }
        }
        if n.lo == n.hi {
            let t = n.settled();
            let old = n.placed;
            assert(is_permutation(old, old.len()));
            assert forall|a: int, b: int| 0 <= a < b < t.placed.len() implies comes_before(
                after,
                #[trigger] t.placed[a],
                #[trigger] t.placed[b],
            ) by {
                let oa = if a < n.lo { a } else { a - 1 };
                let ob = if b < n.lo { b } else { b - 1 };
                if a == n.lo {
                    assert(t.placed[b] == old[ob]);
                } else if b == n.lo {
                    assert(t.placed[a] == old[oa]);
                    assert(old.contains(old[oa]));
                } else {
                    assert(t.placed[a] == old[oa]);
                    assert(t.placed[b] == old[ob]);
                }
            }
        }
    }
}

/// A finished sort that agrees with an order has found its stable sorted
/// order.
pub proof fn lemma_done_is_stable_order(s: Insertion, after: spec_fn(usize, usize) -> bool)
    requires
        s.wf(),
        s.is_done(),
        s.agrees_with(after),
    ensures
        is_stable_order(s.placed, s.total, after),
{
}

proof fn lemma_run_to_end(s: Insertion, after: spec_fn(usize, usize) -> bool) -> (p: Seq<usize>)
    requires
        s.wf(),
        s.agrees_with(after),
    ensures
        is_stable_order(p, s.total, after),
    decreases s.steps_left(),
{
    if s.is_done() {
        s.placed
    } else {
        let left_after = after(s.pending().0, s.pending().1);
        lemma_step_wf(s, left_after);
        lemma_step_agrees(s, after, left_after);
        lemma_step_decreases(s, left_after);
        lemma_run_to_end(s.step(left_after), after)
    }
}

/// Every list has a stable sorted order: the one that a sort answered from
/// the order itself arrives at.
pub proof fn lemma_stable_order_exists(n: nat, after: spec_fn(usize, usize) -> bool)
    requires
        n <= usize::MAX,
        is_strict_weak_order(after),
    ensures
        is_stable_order(stable_order(n, after), n, after),
{
    lemma_start_wf(n);
    lemma_start_agrees(n, after);
    let p = lemma_run_to_end(Insertion::start(n), after);
    lemma_stable_order_is(p, n, after);
}

/// A stable sort that is driven from outside: it names the comparison it
/// needs, and takes the answer.
pub struct StableSorter {
    total: usize,
    sorted: Vec<usize>,
    lo: usize,
    hi: usize,
}

impl View for StableSorter {
    type V = Insertion;

    closed spec fn view(&self) -> Insertion {
        Insertion {
            total: self.total as nat,
            placed: self.sorted@,
            lo: self.lo as int,
            hi: self.hi as int,
        }
    }
}

impl StableSorter {
    /// Starts a sort of the items `0..total`.
    pub fn new(total: usize) -> (s: Self)
        ensures
            s@ == Insertion::start(total as nat),
            s@.wf(),
    {
        let mut sorted: Vec<usize> = Vec::new();
        let mut hi: usize = 0;
        if total > 0 {
            sorted.push(0);
            hi = 1;
        }
        let s = StableSorter { total, sorted, lo: 0, hi };
        proof {
            lemma_start_wf(total as nat);
            assert(s@.placed =~= Insertion::start(total as nat).placed);
        }
        s
    }

    /// Tells whether every item is placed.
    pub fn is_done(&self) -> (done: bool)
        requires
            self@.wf(),
        ensures
            done == self@.is_done(),
    {
        self.sorted.len() >= self.total
    }

    /// The comparison that the sort needs next: a placed item and the item
    /// that is being inserted. `None` once the sort is done.
    pub fn next_pair(&self) -> (pair: Option<(usize, usize)>)
        requires
            self@.wf(),
        ensures
            pair == if self@.is_done() {
                None
            } else {
                Some(self@.pending())
            },
            pair matches Some((left, right)) ==> left < right < self@.total,
    {
        proof {
            lemma_permutation_bound(self@.placed, self@.placed.len());
        }
        if self.sorted.len() >= self.total {
            None
        } else {
            let mid: usize = self.lo + (self.hi - self.lo) / 2;
            Some((self.sorted[mid], self.sorted.len()))
        }
    }

    /// Takes the answer to the pending comparison: whether the placed item
    /// sorts strictly after the incoming one. A finished sort ignores it.
    pub fn answer(&mut self, left_after: bool)
        requires
            old(self)@.wf(),
        ensures
            final(self)@ == old(self)@.step(left_after),
            final(self)@.wf(),
    {
        proof {
            lemma_step_wf(self@, left_after);
        }
        if self.sorted.len() >= self.total {
            return;
        }
        let mid: usize = self.lo + (self.hi - self.lo) / 2;
        if left_after {
            self.hi = mid;
        } else {
            self.lo = mid + 1;
        }
        if self.lo == self.hi {
            let incoming: usize = self.sorted.len();
            self.sorted.insert(self.lo, incoming);
            self.lo = 0;
            self.hi = self.sorted.len();
        }
    }

    /// The arrangement found so far.
    pub fn placed(&self) -> (order: &Vec<usize>)
        ensures
            order@ == self@.placed,
    {
        &self.sorted
    }

    /// The arrangement found so far; the whole of it once the sort is done.
    pub fn into_order(self) -> (order: Vec<usize>)
        ensures
            order@ == self@.placed,
    {
        self.sorted
    }
}

} // verus!
