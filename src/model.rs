//! The abstract state of the sketch and the decision procedure over it.
use vstd::prelude::*;
use vstd::std_specs::cmp::PartialEqSpec;

use crate::element::{
    lemma_place_sorted, lemma_rank, lemma_remove_sorted, place, rank, sorted, CellFSS, Element,
};

verus! {

broadcast use {vstd::multiset::group_multiset_axioms, vstd::seq_lib::group_to_multiset_ensures};

/// What a sketch holds, as mathematical values.
pub struct Sketch<T> {
    /// The monitored candidates, weakest first.
    pub list: Seq<Element<T>>,
    /// For each candidate, the filter slot it was counted under when promoted.
    pub slots: Seq<usize>,
    /// The filter cells.
    pub filter: Seq<CellFSS>,
    /// The number of filter cells fixed at construction.
    pub width: nat,
    /// The capacity of the monitored list: the k of top-k.
    pub k: nat,
    /// The admission threshold.
    pub mu: u64,
}

/// The threshold of a list with capacity `k`: 0 until the list is full, then the
/// estimate of its front element.
pub open spec fn mu_of<T>(list: Seq<Element<T>>, k: nat) -> u64 {
    if list.len() == k && k > 0 {
        list[0].estimated_count
    } else {
        0
    }
}

/// `e` with its estimate raised by one.
pub open spec fn bumped<T>(e: Element<T>) -> Element<T> {
    Element {
        value: e.value,
        estimated_count: (e.estimated_count + 1) as u64,
        associated_error: e.associated_error,
    }
}

/// The first position of `s` whose value equals `v`.
pub open spec fn index_of<T: PartialEq>(s: Seq<Element<T>>, v: T) -> Option<int>
    decreases s.len(),
{
    if s.len() == 0 {
        None
    } else {
        match index_of(s.drop_last(), v) {
            Some(i) => Some(i),
            None => if s.last().value.eq_spec(&v) {
                Some(s.len() - 1)
            } else {
                None
            },
        }
    }
}

/// A found position as a mathematical integer.
pub open spec fn as_index(r: Option<usize>) -> Option<int> {
    match r {
        Some(i) => Some(i as int),
        None => None,
    }
}

impl<T> Sketch<T> {
    /// Shape, order and slot bookkeeping: the filter has its fixed width, the
    /// list holds at most k candidates weakest first, and every slot carries at
    /// least as many counts as there are candidates recorded under it.
    pub open spec fn ordered(self) -> bool {
        &&& self.width > 0
        &&& self.filter.len() == self.width
        &&& self.k > 0
        &&& self.list.len() <= self.k
        &&& self.slots.len() == self.list.len()
        &&& forall|i: int| 0 <= i < self.slots.len() ==> #[trigger] self.slots[i] < self.width
        &&& sorted(self.list)
        &&& forall|j: usize|
            j < self.width ==> self.slots.to_multiset().count(j)
                <= #[trigger] self.filter[j as int].count
    }

    /// Every reachable state: ordered, with the threshold that the list gives.
    pub open spec fn inv(self) -> bool {
        &&& self.ordered()
        &&& self.mu == mu_of(self.list, self.k)
    }

    /// No counter exceeds `b`: the filter's errors and counts, and the
    /// candidates' estimates.
    pub open spec fn within(self, b: nat) -> bool {
        &&& forall|j: int|
            0 <= j < self.filter.len() ==> (#[trigger] self.filter[j]).error <= b
                && self.filter[j].count <= b
        &&& forall|i: int| 0 <= i < self.list.len() ==> (#[trigger] self.list[i]).estimated_count <= b
    }

    pub open spec fn with_mu(self) -> Self {
        Sketch { mu: mu_of(self.list, self.k), ..self }
    }

    pub open spec fn with_cell(self, j: int, c: CellFSS) -> Self {
        Sketch { filter: self.filter.update(j, c), ..self }
    }

    pub open spec fn bump_count(self, j: int) -> Self {
        self.with_cell(j, CellFSS { error: self.filter[j].error, count: (self.filter[j].count + 1) as u64 })
    }

    pub open spec fn drop_count(self, j: int) -> Self {
        self.with_cell(j, CellFSS { error: self.filter[j].error, count: (self.filter[j].count - 1) as u64 })
    }

    pub open spec fn set_error(self, j: int, error: u64) -> Self {
        self.with_cell(j, CellFSS { error, count: self.filter[j].count })
    }

    pub open spec fn bump_error(self, j: int) -> Self {
        self.set_error(j, (self.filter[j].error + 1) as u64)
    }

    /// The candidate at `i` taken out, with its slot.
    pub open spec fn lifted(self, i: int) -> Self {
        Sketch { list: self.list.remove(i), slots: self.slots.remove(i), ..self }
    }

    /// `e` joined at its rank, with its slot beside it.
    pub open spec fn placed(self, e: Element<T>, slot: usize, ties_first: bool) -> Self {
        let p = rank(self.list, e, ties_first);
        Sketch { list: self.list.insert(p, e), slots: self.slots.insert(p, slot), ..self }
    }

    /// A direct hit on the candidate at `i`, whose value hashes to `slot`.
    pub open spec fn after_hit(self, i: int, slot: usize) -> Self {
        self.lifted(i).placed(bumped(self.list[i]), self.slots[i], true).bump_count(
            slot as int,
        ).with_mu()
    }

    /// `e`, whose value hashes to `slot`, promoted into a list with room.
    pub open spec fn after_insert(self, e: Element<T>, slot: usize) -> Self {
        self.bump_count(slot as int).placed(e, slot, false).with_mu()
    }

    /// `e`, whose value hashes to `slot`, promoted in place of the weakest
    /// candidate; the evicted candidate's slot gives up one count and keeps
    /// `e`'s estimate as its error.
    pub open spec fn after_replace(self, e: Element<T>, slot: usize) -> Self {
        let s0 = self.slots[0] as int;
        self.lifted(0).drop_count(s0).set_error(s0, e.estimated_count).bump_count(
            slot as int,
        ).placed(e, slot, true).with_mu()
    }

    /// The candidate built for `v` from the cell at `slot`.
    pub open spec fn candidate(self, v: T, slot: usize) -> Element<T> {
        let c = self.filter[slot as int];
        Element { value: v, estimated_count: c.error, associated_error: (c.error + 1) as u64 }
    }
}

impl<T: PartialEq> Sketch<T> {
    /// The candidate that a value hashed to `slot` hits directly, if any.
    pub open spec fn hit(self, v: T, slot: usize) -> Option<int> {
        if self.filter[slot as int].count > 0 {
            index_of(self.list, v)
        } else {
            None
        }
    }

    /// Whether a value hashed to `slot` that hits nothing is promoted.
    pub open spec fn promotes(self, slot: usize) -> bool {
        self.filter[slot as int].error + 1 >= self.mu
    }

    /// The state after the value `v`, hashed to `slot`, arrives.
    pub open spec fn step(self, v: T, slot: usize) -> Self {
        match self.hit(v, slot) {
            Some(i) => self.after_hit(i, slot),
            None => if self.promotes(slot) {
                if self.list.len() == self.k {
                    self.after_replace(self.candidate(v, slot), slot)
                } else {
                    self.after_insert(self.candidate(v, slot), slot)
                }
            } else {
                self.bump_error(slot as int)
            },
        }
    }

    /// The state after the values `vs` arrive in order, hashed to `slots`.
    pub open spec fn run(self, vs: Seq<T>, slots: Seq<usize>) -> Self
        decreases vs.len(),
    {
        if vs.len() == 0 || slots.len() != vs.len() {
            self
        } else {
            self.run(vs.drop_last(), slots.drop_last()).step(vs.last(), slots.last())
        }
    }
}

/// Joining keeps the list sorted beside its slots, adds the slot to the
/// recorded ones and brings no estimate above the larger of `b` and `e`'s.
pub proof fn lemma_placed<T>(s: Sketch<T>, e: Element<T>, slot: usize, ties_first: bool, b: nat)
    requires
        sorted(s.list),
        s.slots.len() == s.list.len(),
    ensures
        ({
            let t = s.placed(e, slot, ties_first);
            &&& sorted(t.list)
            &&& t.list.len() == s.list.len() + 1
            &&& t.slots.len() == t.list.len()
            &&& t.slots.to_multiset() == s.slots.to_multiset().insert(slot)
            &&& (forall|i: int| 0 <= i < s.slots.len() ==> s.slots[i] < s.width) && slot < s.width
                ==> forall|i: int| 0 <= i < t.slots.len() ==> #[trigger] t.slots[i] < s.width
            &&& (forall|i: int| 0 <= i < s.list.len() ==> (#[trigger] s.list[i]).estimated_count <= b)
                && e.estimated_count <= b ==> forall|i: int|
                0 <= i < t.list.len() ==> (#[trigger] t.list[i]).estimated_count <= b
        }),
{
    lemma_rank(s.list, e, ties_first);
    lemma_place_sorted(s.list, e, ties_first);
    let p = rank(s.list, e, ties_first);
    let t = s.placed(e, slot, ties_first);
    assert(t.list == place(s.list, e, ties_first));
    if (forall|i: int| 0 <= i < s.slots.len() ==> s.slots[i] < s.width) && slot < s.width {
        assert forall|i: int| 0 <= i < t.slots.len() implies #[trigger] t.slots[i] < s.width by {
            if i > p {
                assert(t.slots[i] == s.slots[i - 1]);
            }
        }
    }
    if (forall|i: int| 0 <= i < s.list.len() ==> (#[trigger] s.list[i]).estimated_count <= b)
        && e.estimated_count <= b {
        assert forall|i: int| 0 <= i < t.list.len() implies (#[trigger] t.list[i]).estimated_count
            <= b by {
            if i > p {
                assert(t.list[i] == s.list[i - 1]);
            }
        }
    }
}

/// Taking a candidate out keeps the rest sorted and removes its slot from the
/// recorded ones.
pub proof fn lemma_lifted<T>(s: Sketch<T>, i: int)
    requires
        s.ordered(),
        0 <= i < s.list.len(),
    ensures
        ({
            let t = s.lifted(i);
            &&& sorted(t.list)
            &&& t.list.len() + 1 == s.list.len()
            &&& t.slots.len() == t.list.len()
            &&& t.slots.to_multiset() == s.slots.to_multiset().remove(s.slots[i])
            &&& s.slots.to_multiset().count(s.slots[i]) >= 1
            &&& forall|q: int| 0 <= q < t.slots.len() ==> #[trigger] t.slots[q] < s.width
            &&& forall|b: nat|
                s.within(b) ==> forall|q: int|
                    0 <= q < t.list.len() ==> (#[trigger] t.list[q]).estimated_count <= b
        }),
{
    lemma_remove_sorted(s.list, i);
    let t = s.lifted(i);
    assert(s.slots.to_multiset().contains(s.slots[i]));
    assert forall|q: int| 0 <= q < t.slots.len() implies #[trigger] t.slots[q] < s.width by {
        if q >= i {
            assert(t.slots[q] == s.slots[q + 1]);
        }
    }
    assert forall|b: nat| s.within(b) implies forall|q: int|
        0 <= q < t.list.len() ==> (#[trigger] t.list[q]).estimated_count <= b by {
        assert forall|q: int| 0 <= q < t.list.len() implies (#[trigger] t.list[q]).estimated_count
            <= b by {
            if q >= i {
                assert(t.list[q] == s.list[q + 1]);
            }
        }
    }
}

/// A direct hit keeps the invariant, and raises no counter by more than one.
pub proof fn lemma_hit<T>(s: Sketch<T>, i: int, slot: usize)
    requires
        s.inv(),
        0 <= i < s.list.len(),
        slot < s.width,
        s.within((u64::MAX - 1) as nat),
    ensures
        s.after_hit(i, slot).inv(),
        forall|b: nat| s.within(b) ==> #[trigger] s.after_hit(i, slot).within(b + 1),
{
    let e = bumped(s.list[i]);
    let t1 = s.lifted(i);
    lemma_lifted(s, i);
    let t2 = t1.placed(e, s.slots[i], true);
    lemma_placed(t1, e, s.slots[i], true, 0);
    let t3 = t2.bump_count(slot as int);
    let r = t3.with_mu();
    assert(r == s.after_hit(i, slot));
    assert(t2.slots.to_multiset() =~= s.slots.to_multiset());
    assert forall|j: usize| j < r.width implies r.slots.to_multiset().count(j)
        <= #[trigger] r.filter[j as int].count by {
        assert(s.slots.to_multiset().count(j) <= s.filter[j as int].count);
    }
    assert forall|b: nat| s.within(b) implies #[trigger] r.within(b + 1) by {
        lemma_placed(t1, e, s.slots[i], true, b + 1);
        assert(s.list[i].estimated_count <= b);
    }
}

/// Promotion into a list with room keeps the invariant.
pub proof fn lemma_insert<T>(s: Sketch<T>, e: Element<T>, slot: usize)
    requires
        s.inv(),
        s.list.len() < s.k,
        slot < s.width,
        s.filter[slot as int].count < u64::MAX,
    ensures
        s.after_insert(e, slot).inv(),
        forall|b: nat|
            s.within(b) && e.estimated_count <= b + 1 ==> #[trigger] s.after_insert(e, slot).within(
                b + 1,
            ),
{
    let t1 = s.bump_count(slot as int);
    lemma_placed(t1, e, slot, false, 0);
    let t2 = t1.placed(e, slot, false);
    let r = t2.with_mu();
    assert(r.slots.to_multiset() == s.slots.to_multiset().insert(slot));
    assert(r.filter[slot as int].count == s.filter[slot as int].count + 1);
    assert(r == s.after_insert(e, slot));
    assert forall|j: usize| j < r.width implies r.slots.to_multiset().count(j)
        <= #[trigger] r.filter[j as int].count by {
        assert(s.slots.to_multiset().count(j) <= s.filter[j as int].count);
    }
    assert forall|b: nat| s.within(b) && e.estimated_count <= b + 1 implies #[trigger] r.within(
        b + 1,
    ) by {
        lemma_placed(t1, e, slot, false, b + 1);
    }
}

/// Promotion in place of the weakest candidate keeps the invariant.
pub proof fn lemma_replace<T>(s: Sketch<T>, e: Element<T>, slot: usize)
    requires
        s.inv(),
        s.list.len() == s.k,
        slot < s.width,
        s.filter[slot as int].count < u64::MAX,
    ensures
        s.filter[s.slots[0] as int].count >= 1,
        s.after_replace(e, slot).inv(),
        forall|b: nat|
            s.within(b) && e.estimated_count <= b ==> #[trigger] s.after_replace(e, slot).within(
                b + 1,
            ),
{
    let s0 = s.slots[0] as int;
    lemma_lifted(s, 0);
    assert(s.slots.to_multiset().count(s.slots[0]) <= s.filter[s0].count);
    let t1 = s.lifted(0).drop_count(s0).set_error(s0, e.estimated_count).bump_count(slot as int);
    lemma_placed(t1, e, slot, true, 0);
    let r = t1.placed(e, slot, true).with_mu();
    assert(r == s.after_replace(e, slot));
    assert(r.slots.to_multiset() == s.slots.to_multiset().remove(s.slots[0]).insert(slot));
    assert forall|j: usize| j < r.width implies r.slots.to_multiset().count(j)
        <= #[trigger] r.filter[j as int].count by {
        assert(s.slots.to_multiset().count(j) <= s.filter[j as int].count);
    }
    assert forall|b: nat| s.within(b) && e.estimated_count <= b implies #[trigger] r.within(
        b + 1,
    ) by {
        lemma_placed(t1, e, slot, true, b + 1);
    }
}

/// A bump of a filter error alone keeps the invariant.
pub proof fn lemma_bump_error<T>(s: Sketch<T>, slot: usize)
    requires
        s.inv(),
        slot < s.width,
        s.filter[slot as int].error < u64::MAX,
    ensures
        s.bump_error(slot as int).inv(),
        forall|b: nat| s.within(b) ==> #[trigger] s.bump_error(slot as int).within(b + 1),
{
    let r = s.bump_error(slot as int);
    assert forall|j: usize| j < r.width implies r.slots.to_multiset().count(j)
        <= #[trigger] r.filter[j as int].count by {
        assert(s.slots.to_multiset().count(j) <= s.filter[j as int].count);
    }
}

/// A match found in a prefix is the first match of the whole sequence.
pub proof fn lemma_index_of_prefix<T: PartialEq>(s: Seq<Element<T>>, v: T, n: int)
    requires
        0 <= n <= s.len(),
        index_of(s.take(n), v) is Some,
    ensures
        index_of(s, v) == index_of(s.take(n), v),
    decreases s.len(),
{
    if n == s.len() {
        assert(s.take(n) =~= s);
    } else {
        assert(s.drop_last().take(n) =~= s.take(n));
        lemma_index_of_prefix(s.drop_last(), v, n);
    }
}

} // verus!
