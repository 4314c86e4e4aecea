//! Filter cells, top-k candidates and the order that ranks candidates.
use std::cmp::Ordering;
use vstd::prelude::*;

verus! {

/// One slot of the filter.
///
/// `count` is how many tracked occurrences the slot carries; `error` is the
/// estimate seeded into a value of this slot when it is promoted.
#[derive(Clone, Copy, Debug)]
pub struct CellFSS {
    pub error: u64,
    pub count: u64,
}

impl CellFSS {
    /// A cell that has seen nothing.
    pub fn new() -> (r: Self)
        ensures
            r.error == 0,
            r.count == 0,
    {
        CellFSS { error: 0, count: 0 }
    }
}

/// The filter: one cell per slot.
pub type BitmapCounter = Vec<CellFSS>;

/// A top-k candidate: a value with its estimated count and the bound on how far
/// that estimate may overstate the truth.
#[derive(Clone, Copy, Debug)]
pub struct Element<T> {
    pub value: T,
    pub estimated_count: u64,
    pub associated_error: u64,
}

/// `a` ranks strictly below `b`: a lower estimate, or the same estimate with a
/// larger error. The value plays no part.
pub open spec fn weaker<T>(a: Element<T>, b: Element<T>) -> bool {
    ||| a.estimated_count < b.estimated_count
    ||| (a.estimated_count == b.estimated_count && a.associated_error > b.associated_error)
}

/// Two elements rank equally when both counters agree.
pub open spec fn same_rank<T>(a: Element<T>, b: Element<T>) -> bool {
    a.estimated_count == b.estimated_count && a.associated_error == b.associated_error
}

/// The total order on elements, as an `Ordering`.
pub open spec fn rank_order<T>(a: Element<T>, b: Element<T>) -> Ordering {
    if weaker(a, b) {
        Ordering::Less
    } else if weaker(b, a) {
        Ordering::Greater
    } else {
        Ordering::Equal
    }
}

/// Weakest first: no element ranks strictly below one in front of it.
pub open spec fn sorted<T>(s: Seq<Element<T>>) -> bool {
    forall|i: int, j: int| 0 <= i < j < s.len() ==> !weaker(#[trigger] s[j], #[trigger] s[i])
}

/// Whether `e` is to stand in front of `x` when it joins a sorted list. With
/// `ties_first` it goes in front of every element that ranks equally with it;
/// otherwise behind them.
pub open spec fn goes_before<T>(e: Element<T>, x: Element<T>, ties_first: bool) -> bool {
    if ties_first {
        !weaker(x, e)
    } else {
        weaker(e, x)
    }
}

/// Where `e` joins `s`: in front of the run at the back of `s` whose elements it
/// goes before.
pub open spec fn rank<T>(s: Seq<Element<T>>, e: Element<T>, ties_first: bool) -> int
    decreases s.len(),
{
    if s.len() > 0 && goes_before(e, s.last(), ties_first) {
        rank(s.drop_last(), e, ties_first)
    } else {
        s.len() as int
    }
}

/// `s` with `e` joined at its rank.
pub open spec fn place<T>(s: Seq<Element<T>>, e: Element<T>, ties_first: bool) -> Seq<Element<T>> {
    s.insert(rank(s, e, ties_first), e)
}

pub proof fn lemma_rank<T>(s: Seq<Element<T>>, e: Element<T>, ties_first: bool)
    ensures
        0 <= rank(s, e, ties_first) <= s.len(),
        forall|j: int|
            rank(s, e, ties_first) <= j < s.len() ==> goes_before(e, #[trigger] s[j], ties_first),
        rank(s, e, ties_first) > 0 ==> !goes_before(e, s[rank(s, e, ties_first) - 1], ties_first),
    decreases s.len(),
{
    if s.len() > 0 && goes_before(e, s.last(), ties_first) {
        let t = s.drop_last();
        lemma_rank(t, e, ties_first);
        assert forall|j: int| rank(s, e, ties_first) <= j < s.len() implies goes_before(
            e,
            #[trigger] s[j],
            ties_first,
        ) by {
            if j < t.len() {
                assert(s[j] == t[j]);
            }
        }
    }
}

/// Joining an element at its rank keeps a list sorted.
pub proof fn lemma_place_sorted<T>(s: Seq<Element<T>>, e: Element<T>, ties_first: bool)
    requires
        sorted(s),
    ensures
        sorted(place(s, e, ties_first)),
        place(s, e, ties_first).len() == s.len() + 1,
{
    lemma_rank(s, e, ties_first);
    let p = rank(s, e, ties_first);
    let r = place(s, e, ties_first);
    assert forall|i: int, j: int| 0 <= i < j < r.len() implies !weaker(#[trigger] r[j], #[trigger] r[i]) by {
        if i < p && j == p {
            assert(!weaker(e, s[p - 1]));
        } else if i == p && j > p {
            assert(goes_before(e, s[j - 1], ties_first));
        }
    }
}

/// Taking an element out keeps a list sorted.
pub proof fn lemma_remove_sorted<T>(s: Seq<Element<T>>, i: int)
    requires
        sorted(s),
        0 <= i < s.len(),
    ensures
        sorted(s.remove(i)),
{
    let r = s.remove(i);
    assert forall|a: int, b: int| 0 <= a < b < r.len() implies !weaker(#[trigger] r[b], #[trigger] r[a]) by {
        let a0 = if a < i { a } else { a + 1 };
        let b0 = if b < i { b } else { b + 1 };
        assert(r[a] == s[a0] && r[b] == s[b0]);
    }
}

impl<T> Element<T> {
    pub fn new(value: T, estimated_count: u64, associated_error: u64) -> (r: Self)
        ensures
            r.value == value,
            r.estimated_count == estimated_count,
            r.associated_error == associated_error,
    {
        Element { value, estimated_count, associated_error }
    }

    /// Compares by rank: estimate ascending, then error descending.
    pub fn cmp(&self, other: &Self) -> (r: Ordering)
        ensures
            r == rank_order(*self, *other),
    {
        if precedes(self, other) {
            Ordering::Less
        } else if precedes(other, self) {
            Ordering::Greater
        } else {
            Ordering::Equal
        }
    }
}

/// Whether `a` ranks strictly below `b`.
pub fn precedes<T>(a: &Element<T>, b: &Element<T>) -> (r: bool)
    ensures
        r == weaker(*a, *b),
{
    a.estimated_count < b.estimated_count || (a.estimated_count == b.estimated_count
        && a.associated_error > b.associated_error)
}

impl<T> PartialEq for Element<T> {
    fn eq(&self, other: &Self) -> (r: bool) {
        self.estimated_count == other.estimated_count && self.associated_error
            == other.associated_error
    }
}

impl<T> vstd::std_specs::cmp::PartialEqSpecImpl for Element<T> {
    open spec fn obeys_eq_spec() -> bool {
        true
    }

    open spec fn eq_spec(&self, other: &Element<T>) -> bool {
        same_rank(*self, *other)
    }
}

/// The monitored list: candidates, weakest first.
pub type MonitoredList<T> = Vec<Element<T>>;

} // verus!
