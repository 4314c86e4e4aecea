//! What holds of every run of the sketch.
use vstd::prelude::*;

use crate::element::{place, sorted, CellFSS, Element};
use crate::model::{bumped, index_of, lemma_bump_error, lemma_hit, lemma_insert, lemma_replace, Sketch};

verus! {

/// One arrival keeps the invariant and raises no counter by more than one.
pub proof fn lemma_step_invariant<T: PartialEq>(s: Sketch<T>, v: T, slot: usize)
    requires
        s.inv(),
        slot < s.width,
        s.within((u64::MAX - 1) as nat),
    ensures
        s.step(v, slot).inv(),
        s.step(v, slot).width == s.width,
        s.step(v, slot).k == s.k,
        forall|b: nat| s.within(b) ==> #[trigger] s.step(v, slot).within(b + 1),
{
    match s.hit(v, slot) {
        Some(i) => {
            lemma_index_of_bounds(s.list, v);
            lemma_hit(s, i, slot);
        },
        None => {
            if s.promotes(slot) {
                let e = s.candidate(v, slot);
                if s.list.len() == s.k {
                    lemma_replace(s, e, slot);
                } else {
                    lemma_insert(s, e, slot);
                }
            } else {
                lemma_bump_error(s, slot);
            }
        },
    }
}

/// A position that `index_of` finds lies in the sequence and holds the value.
pub proof fn lemma_index_of_bounds<T: PartialEq>(s: Seq<Element<T>>, v: T)
    ensures
        index_of(s, v) matches Some(i) ==> 0 <= i < s.len(),
    decreases s.len(),
{
    if s.len() > 0 {
        lemma_index_of_bounds(s.drop_last(), v);
    }
}

/// Every state reached by feeding a stream keeps its shape: the monitored list
/// never holds more than k candidates, the filter keeps its width, and the list
/// stays ordered weakest first (estimate ascending, then error descending).
pub proof fn lemma_reachable_states<T: PartialEq>(s: Sketch<T>, vs: Seq<T>, slots: Seq<usize>)
    requires
        s.inv(),
        vs.len() <= u64::MAX,
        s.within((u64::MAX - vs.len()) as nat),
        slots.len() == vs.len(),
        forall|i: int| 0 <= i < slots.len() ==> #[trigger] slots[i] < s.width,
    ensures
        ({
            let r = s.run(vs, slots);
            &&& r.inv()
            &&& r.width == s.width
            &&& r.k == s.k
            &&& r.list.len() <= r.k
            &&& r.filter.len() == r.width
            &&& sorted(r.list)
            &&& forall|b: nat| #[trigger] s.within(b) ==> r.within(b + vs.len())
        }),
    decreases vs.len(),
{
    if vs.len() > 0 {
        let n = vs.len();
        lemma_reachable_states(s, vs.drop_last(), slots.drop_last());
        let m = s.run(vs.drop_last(), slots.drop_last());
        assert(slots.last() < s.width);
        assert(m.within((u64::MAX - 1) as nat)) by {
            assert(s.within((u64::MAX - n) as nat));
        }
        lemma_step_invariant(m, vs.last(), slots.last());
        let r = s.run(vs, slots);
        assert forall|b: nat| #[trigger] s.within(b) implies r.within(b + n) by {
            let b1: nat = b + vs.drop_last().len();
            assert(m.within(b1));
            assert(r == m.step(vs.last(), slots.last()));
            assert(m.step(vs.last(), slots.last()).within(b1 + 1));
        }
    }
}

/// The threshold is 0 while the list has room, and once it is full it is the
/// least estimate in the list.
pub proof fn lemma_mu_is_minimum<T>(s: Sketch<T>)
    requires
        s.inv(),
    ensures
        s.list.len() < s.k ==> s.mu == 0,
        s.list.len() == s.k ==> (forall|i: int|
            0 <= i < s.list.len() ==> s.mu <= #[trigger] s.list[i].estimated_count)
            && exists|i: int| 0 <= i < s.list.len() && s.list[i].estimated_count == s.mu,
{
    if s.list.len() == s.k {
        assert forall|i: int| 0 <= i < s.list.len() implies s.mu <= #[trigger] s.list[i].estimated_count by {
            if i > 0 {
                assert(!crate::element::weaker(s.list[i], s.list[0]));
            }
        }
        assert(s.list[0].estimated_count == s.mu);
    }
}

/// Feeding again a monitored value, in the slot it was counted under, keeps the
/// length of the list: its candidate's estimate goes up by one (the candidate
/// moves to its new rank, the others stay as they were), its slot's count goes
/// up by one, and no other filter cell changes.
pub proof fn lemma_direct_hit<T: PartialEq>(s: Sketch<T>, v: T, i: int)
    requires
        s.inv(),
        s.within((u64::MAX - 1) as nat),
        index_of(s.list, v) == Some(i),
    ensures
        ({
            let slot = s.slots[i];
            let r = s.step(v, slot);
            &&& r.list.len() == s.list.len()
            &&& r.list == place(s.list.remove(i), bumped(s.list[i]), true)
            &&& r.filter == s.filter.update(
                slot as int,
                CellFSS { error: s.filter[slot as int].error, count: (s.filter[slot as int].count + 1) as u64 },
            )
            &&& r.slots.to_multiset() == s.slots.to_multiset()
        }),
{
    lemma_index_of_bounds(s.list, v);
    let slot = s.slots[i];
    crate::model::lemma_lifted(s, i);
    assert(s.slots.to_multiset().count(slot) <= s.filter[slot as int].count);
    assert(s.hit(v, slot) == Some(i));
    lemma_hit(s, i, slot);
    crate::model::lemma_placed(s.lifted(i), bumped(s.list[i]), slot, true, 0);
}

/// When a value that hits nothing is promoted into a full list, the weakest
/// candidate is evicted: its slot gives up one count and takes the new
/// candidate's estimate as its error, and the new value's slot gains one count.
pub proof fn lemma_replace_reconciles<T: PartialEq>(s: Sketch<T>, v: T, slot: usize)
    requires
        s.inv(),
        slot < s.width,
        s.within((u64::MAX - 1) as nat),
        s.hit(v, slot) is None,
        s.promotes(slot),
        s.list.len() == s.k,
    ensures
        ({
            let r = s.step(v, slot);
            let e = s.candidate(v, slot);
            let s0 = s.slots[0] as int;
            &&& r.list == place(s.list.remove(0), e, true)
            &&& r.filter[s0].error == e.estimated_count
            &&& s0 != slot ==> r.filter[s0].count == s.filter[s0].count - 1
            &&& s0 != slot ==> r.filter[slot as int].count == s.filter[slot as int].count + 1
            &&& s0 == slot ==> r.filter[s0].count == s.filter[s0].count
            &&& forall|j: int| 0 <= j < s.width && j != s0 && j != slot ==> #[trigger] r.filter[j] == s.filter[j]
        }),
{
    let e = s.candidate(v, slot);
    lemma_replace(s, e, slot);
}

} // verus!
