//! The Filtered Space-Saving sketch.
use std::collections::hash_map::DefaultHasher;
use std::hash::{Hash, Hasher};
use vstd::prelude::*;
use vstd::std_specs::cmp::PartialEqSpec;

use crate::element::{
    lemma_rank, precedes, goes_before, rank, BitmapCounter, CellFSS, Element, MonitoredList,
};
use crate::model::{
    as_index, bumped, index_of, lemma_bump_error, lemma_hit, lemma_index_of_prefix, lemma_insert,
    lemma_replace, Sketch,
};

verus! {

broadcast use {vstd::multiset::group_multiset_axioms, vstd::seq_lib::group_to_multiset_ensures};

/// Top-k heavy hitters of a stream: a filter of hashed counters in front of a
/// bounded list of candidates.
pub struct FilterdSpaceSaving<T> {
    /// The candidates, weakest first.
    pub monitored_list: MonitoredList<T>,
    /// The filter.
    pub bitmap_counter: BitmapCounter,
    pub bitmap_counter_size: usize,
    /// The k of top-k.
    pub monitored_list_size_max: usize,
    /// The admission threshold.
    pub mu: u64,
    /// For each candidate, in list order, the filter slot its value was
    /// counted under when it was promoted.
    pub monitored_slots: Vec<usize>,
}

impl<T> View for FilterdSpaceSaving<T> {
    type V = Sketch<T>;

    open spec fn view(&self) -> Sketch<T> {
        Sketch {
            list: self.monitored_list@,
            slots: self.monitored_slots@,
            filter: self.bitmap_counter@,
            width: self.bitmap_counter_size as nat,
            k: self.monitored_list_size_max as nat,
            mu: self.mu,
        }
    }
}

/// Relies on `Hash::hash` of the value's type, writing the value into std's
/// `DefaultHasher`. What is written is up to that impl, so nothing is stated of
/// the hasher afterwards.
#[verifier::external_body]
fn write_value<T: Hash>(value: &T, state: &mut DefaultHasher) {
    value.hash(state)
}

/// Whether `e` goes in front of `x` (see `goes_before`).
fn goes_before_exec<T>(e: &Element<T>, x: &Element<T>, ties_first: bool) -> (r: bool)
    ensures
        r == goes_before(*e, *x, ties_first),
{
    if ties_first {
        !precedes(x, e)
    } else {
        precedes(e, x)
    }
}

/// The position at which `e` joins `list`.
fn rank_in<T>(list: &Vec<Element<T>>, e: &Element<T>, ties_first: bool) -> (p: usize)
    ensures
        p == rank(list@, *e, ties_first),
{
    let mut p: usize = list.len();
    assert(list@.take(p as int) =~= list@);
    while p > 0 && goes_before_exec(e, &list[p - 1], ties_first)
        invariant
            p <= list@.len(),
            rank(list@.take(p as int), *e, ties_first) == rank(list@, *e, ties_first),
        decreases p,
    {
        assert(list@.take(p as int).drop_last() =~= list@.take(p - 1));
        p -= 1;
    }
    assert(list@.take(0) =~= Seq::<Element<T>>::empty());
    p
}

impl<T: PartialEq + Hash> FilterdSpaceSaving<T> {
    /// A sketch with `bmc_size` filter cells and room for `ml_size_max` candidates.
    pub fn new(bmc_size: usize, ml_size_max: usize) -> (r: Self)
        requires
            bmc_size > 0,
            ml_size_max > 0,
        ensures
            r@.inv(),
            r@.within(0),
            r@.width == bmc_size,
            r@.k == ml_size_max,
            r@.mu == 0,
            r@.list.len() == 0,
            r@.filter == Seq::new(bmc_size as nat, |j: int| CellFSS { error: 0, count: 0 }),
    {
        let mut bitmap_counter: Vec<CellFSS> = Vec::new();
        let mut j: usize = 0;
        while j < bmc_size
            invariant
                j <= bmc_size,
                bitmap_counter@ == Seq::new(j as nat, |x: int| CellFSS { error: 0, count: 0 }),
            decreases bmc_size - j,
        {
            bitmap_counter.push(CellFSS::new());
            j += 1;
            assert(bitmap_counter@ =~= Seq::new(j as nat, |x: int| CellFSS { error: 0, count: 0 }));
        }
        let r = FilterdSpaceSaving {
            monitored_list: Vec::new(),
            bitmap_counter,
            bitmap_counter_size: bmc_size,
            monitored_list_size_max: ml_size_max,
            mu: 0,
            monitored_slots: Vec::new(),
        };
        assert(r@.slots.to_multiset() =~= vstd::multiset::Multiset::empty());
        r
    }

    /// Sets the threshold from the list: 0 until it is full, then the front
    /// estimate.
    pub fn update_mu(&mut self)
        requires
            old(self)@.ordered(),
        ensures
            final(self)@ == old(self)@.with_mu(),
    {
        if self.monitored_list.len() != self.monitored_list_size_max {
            self.mu = 0;
        } else {
            self.mu = self.monitored_list[0].estimated_count;
        }
    }

    /// The filter slot of `value`: its `DefaultHasher` digest modulo the width.
    pub fn hash_fn(&self, value: &T) -> (r: usize)
        requires
            self.bitmap_counter_size > 0,
        ensures
            r < self.bitmap_counter_size,
    {
        let mut s = DefaultHasher::new();
        write_value(value, &mut s);
        let h = s.finish();
        (h as usize) % self.bitmap_counter_size
    }

    /// Joins `e` at its rank, with `slot` beside it.
    fn place(&mut self, e: Element<T>, slot: usize, ties_first: bool)
        requires
            old(self).monitored_slots@.len() == old(self).monitored_list@.len(),
        ensures
            final(self)@ == old(self)@.placed(e, slot, ties_first),
    {
        let p = rank_in(&self.monitored_list, &e, ties_first);
        proof {
            lemma_rank(self.monitored_list@, e, ties_first);
        }
        self.monitored_list.insert(p, e);
        self.monitored_slots.insert(p, slot);
    }

    /// Adds one to the count of filter cell `bmc_idx`.
    pub fn increase_bitmap_counter_count(&mut self, bmc_idx: usize)
        requires
            bmc_idx < old(self).bitmap_counter@.len(),
            old(self).bitmap_counter@[bmc_idx as int].count < u64::MAX,
        ensures
            final(self)@ == old(self)@.bump_count(bmc_idx as int),
    {
        let c = self.bitmap_counter[bmc_idx];
        self.bitmap_counter.set(bmc_idx, CellFSS { error: c.error, count: c.count + 1 });
    }

    /// Takes one from the count of filter cell `bmc_idx`, which must hold one.
    pub fn decrease_bitmap_counter_count(&mut self, bmc_idx: usize)
        requires
            bmc_idx < old(self).bitmap_counter@.len(),
            old(self).bitmap_counter@[bmc_idx as int].count > 0,
        ensures
            final(self)@ == old(self)@.drop_count(bmc_idx as int),
    {
        let c = self.bitmap_counter[bmc_idx];
        self.bitmap_counter.set(bmc_idx, CellFSS { error: c.error, count: c.count - 1 });
    }
    /// The first position of the list whose value equals `value`.
    pub fn find_element_in_monitored_list(&self, value: &T) -> (r: Option<usize>)
        ensures
            r matches Some(i) ==> i < self.monitored_list@.len(),
            T::obeys_eq_spec() ==> as_index(r) == index_of(self.monitored_list@, *value),
    {
        let mut i: usize = 0;
        while i < self.monitored_list.len()
            invariant
                i <= self.monitored_list@.len(),
                T::obeys_eq_spec() ==> index_of(self.monitored_list@.take(i as int), *value) is None,
            decreases self.monitored_list@.len() - i,
        {
            let list = Ghost(self.monitored_list@);
            assert(list@.take(i + 1).drop_last() =~= list@.take(i as int));
            if self.monitored_list[i].value == *value {
                proof {
                    if T::obeys_eq_spec() {
                        lemma_index_of_prefix(list@, *value, i + 1);
                    }
                }
                return Some(i);
            }
            i += 1;
        }
        assert(self.monitored_list@.take(i as int) =~= self.monitored_list@);
        None
    }

    /// Raises the estimate of the candidate at `ml_idx` by one and moves it to
    /// its new rank, ahead of the candidates that now rank equally with it.
    pub fn increase_monitor_list_count(&mut self, ml_idx: usize)
        requires
            old(self)@.ordered(),
            ml_idx < old(self).monitored_list@.len(),
            old(self).monitored_list@[ml_idx as int].estimated_count < u64::MAX,
        ensures
            final(self)@ == old(self)@.lifted(ml_idx as int).placed(
                bumped(old(self).monitored_list@[ml_idx as int]),
                old(self).monitored_slots@[ml_idx as int],
                true,
            ),
    {
        let e = self.monitored_list.remove(ml_idx);
        let slot = self.monitored_slots.remove(ml_idx);
        let b = Element {
            value: e.value,
            estimated_count: e.estimated_count + 1,
            associated_error: e.associated_error,
        };
        self.place(b, slot, true);
    }

    /// Promotes `element`, whose value hashes to `slot`, into a list with room.
    pub fn insert_with_slot(&mut self, element: Element<T>, slot: usize)
        requires
            old(self)@.inv(),
            old(self)@.list.len() < old(self)@.k,
            slot < old(self)@.width,
            old(self)@.filter[slot as int].count < u64::MAX,
        ensures
            final(self)@ == old(self)@.after_insert(element, slot),
            final(self)@.inv(),
    {
        proof {
            lemma_insert(self@, element, slot);
        }
        self.increase_bitmap_counter_count(slot);
        self.place(element, slot, false);
        self.update_mu();
    }

    /// Promotes `element` into a list with room, counting it in its value's slot.
    pub fn insert_into_monitored_list(&mut self, element: Element<T>)
        requires
            old(self)@.inv(),
            old(self)@.list.len() < old(self)@.k,
            forall|j: int| 0 <= j < old(self)@.width ==> #[trigger] old(self)@.filter[j].count < u64::MAX,
        ensures
            exists|slot: usize| slot < old(self)@.width && final(self)@ == old(self)@.after_insert(element, slot),
            final(self)@.inv(),
    {
        let slot = self.hash_fn(&element.value);
        self.insert_with_slot(element, slot);
    }

    /// Promotes `new_element`, whose value hashes to `slot`, in place of the
    /// weakest candidate. The evicted candidate's slot gives up one count and
    /// takes the new estimate as its error.
    pub fn replace_with_slot(&mut self, new_element: Element<T>, slot: usize)
        requires
            old(self)@.inv(),
            old(self)@.list.len() == old(self)@.k,
            slot < old(self)@.width,
            old(self)@.filter[slot as int].count < u64::MAX,
        ensures
            final(self)@ == old(self)@.after_replace(new_element, slot),
            final(self)@.inv(),
    {
        proof {
            lemma_replace(self@, new_element, slot);
        }
        let old_slot = self.monitored_slots[0];
        let _ = self.monitored_list.remove(0);
        let _ = self.monitored_slots.remove(0);
        self.decrease_bitmap_counter_count(old_slot);
        let c = self.bitmap_counter[old_slot];
        self.bitmap_counter.set(old_slot, CellFSS { error: new_element.estimated_count, count: c.count });
        self.increase_bitmap_counter_count(slot);
        self.place(new_element, slot, true);
        self.update_mu();
    }

    /// Promotes `new_element` in place of the weakest candidate, counting it in
    /// its value's slot.
    pub fn replace_elemnt_in_monitored_list(&mut self, new_element: Element<T>)
        requires
            old(self)@.inv(),
            old(self)@.list.len() == old(self)@.k,
            forall|j: int| 0 <= j < old(self)@.width ==> #[trigger] old(self)@.filter[j].count < u64::MAX,
        ensures
            exists|slot: usize| slot < old(self)@.width && final(self)@ == old(self)@.after_replace(new_element, slot),
            final(self)@.inv(),
    {
        let slot = self.hash_fn(&new_element.value);
        self.replace_with_slot(new_element, slot);
    }
    /// Processes one stream value whose filter slot is `slot`: a direct hit
    /// bumps its candidate; otherwise a slot with enough evidence promotes the
    /// value (into a free place, or in place of the weakest candidate), and one
    /// without only gains error.
    pub fn deal_with_value_in_slot(&mut self, value: T, slot: usize)
        requires
            old(self)@.inv(),
            slot < old(self)@.width,
            old(self)@.within((u64::MAX - 1) as nat),
        ensures
            final(self)@.inv(),
            final(self)@.width == old(self)@.width,
            final(self)@.k == old(self)@.k,
            forall|b: nat| #[trigger] old(self)@.within(b) ==> final(self)@.within(b + 1),
            T::obeys_eq_spec() ==> final(self)@ == old(self)@.step(value, slot),
    {
        let ghost s = self@;
        if self.bitmap_counter[slot].count > 0 {
            match self.find_element_in_monitored_list(&value) {
                Some(i) => {
                    proof {
                        lemma_hit(s, i as int, slot);
                    }
                    self.increase_monitor_list_count(i);
                    self.increase_bitmap_counter_count(slot);
                    self.update_mu();
                    return;
                },
                None => {},
            }
        }
        let error = self.bitmap_counter[slot].error;
        if error + 1 >= self.mu {
            let element = Element::new(value, error, error + 1);
            proof {
                assert(element == s.candidate(value, slot));
            }
            if self.monitored_list.len() == self.monitored_list_size_max {
                proof {
                    lemma_replace(s, element, slot);
                }
                self.replace_with_slot(element, slot);
            } else {
                proof {
                    lemma_insert(s, element, slot);
                }
                self.insert_with_slot(element, slot);
            }
        } else {
            proof {
                lemma_bump_error(s, slot);
            }
            let c = self.bitmap_counter[slot];
            self.bitmap_counter.set(slot, CellFSS { error: error + 1, count: c.count });
        }
    }

    /// Processes one stream value.
    pub fn deal_with_new_value(&mut self, value: T)
        requires
            old(self)@.inv(),
            old(self)@.within((u64::MAX - 1) as nat),
        ensures
            final(self)@.inv(),
            final(self)@.width == old(self)@.width,
            final(self)@.k == old(self)@.k,
            forall|b: nat| #[trigger] old(self)@.within(b) ==> final(self)@.within(b + 1),
            T::obeys_eq_spec() ==> exists|slot: usize|
                slot < old(self)@.width && final(self)@ == old(self)@.step(value, slot),
    {
        let slot = self.hash_fn(&value);
        self.deal_with_value_in_slot(value, slot);
    }

    /// Processes the values of `stream` in order, as one call each of
    /// `deal_with_new_value` would.
    pub fn deal_with_a_stream(&mut self, stream: Vec<T>)
        requires
            old(self)@.inv(),
            old(self)@.within((u64::MAX - stream@.len()) as nat),
        ensures
            final(self)@.inv(),
            final(self)@.width == old(self)@.width,
            final(self)@.k == old(self)@.k,
            forall|b: nat| #[trigger] old(self)@.within(b) ==> final(self)@.within(b + stream@.len()),
            T::obeys_eq_spec() ==> exists|slots: Seq<usize>|
                slots.len() == stream@.len() && (forall|i: int|
                    0 <= i < slots.len() ==> #[trigger] slots[i] < old(self)@.width)
                    && final(self)@ == old(self)@.run(stream@, slots),
    {
        let ghost start = self@;
        let ghost values = stream@;
        let n = stream.len();
        // Reverse the stream so that popping yields its values in order.
        let mut rest = stream;
        let mut pending: Vec<T> = Vec::new();
        while rest.len() > 0
            invariant
                rest@.len() + pending@.len() == n,
                n == values.len(),
                rest@ == values.take(rest@.len() as int),
                forall|i: int| 0 <= i < pending@.len() ==> #[trigger] pending@[i] == values[n - 1 - i],
            decreases rest@.len(),
        {
            let v = rest.pop().unwrap();
            assert(rest@ =~= values.take(rest@.len() as int));
            pending.push(v);
        }
        let ghost mut slots: Seq<usize> = Seq::empty();
        while pending.len() > 0
            invariant
                n == values.len(),
                pending@.len() <= n,
                forall|i: int| 0 <= i < pending@.len() ==> #[trigger] pending@[i] == values[n - 1 - i],
                slots.len() == n - pending@.len(),
                forall|i: int| 0 <= i < slots.len() ==> #[trigger] slots[i] < start.width,
                self@.inv(),
                self@.width == start.width,
                self@.k == start.k,
                forall|b: nat| #[trigger] start.within(b) ==> self@.within(b + slots.len()),
                start.within((u64::MAX - n) as nat),
                T::obeys_eq_spec() ==> self@ == start.run(values.take(slots.len() as int), slots),
            decreases pending@.len(),
        {
            let ghost done = slots.len();
            let v = pending.pop().unwrap();
            assert(v == values[done as int]);
            assert(self@.within((u64::MAX - 1) as nat)) by {
                assert(start.within((u64::MAX - n) as nat));
                assert(self@.within((u64::MAX - n + done) as nat));
            }
            let slot = self.hash_fn(&v);
            let ghost before = self@;
            self.deal_with_value_in_slot(v, slot);
            proof {
                let next = slots.push(slot);
                let taken = values.take((done + 1) as int);
                assert(taken.drop_last() =~= values.take(done as int));
                assert(next.drop_last() =~= slots);
                slots = next;
                assert forall|b: nat| #[trigger] start.within(b) implies self@.within(b + slots.len()) by {
                    assert(before.within(b + done));
                }
            }
        }
        assert(values.take(n as int) =~= values);
    }
}

} // verus!
