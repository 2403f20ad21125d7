//! The graph index's own priority queue as the queue of candidates.

use vstd::prelude::*;
use crate::candidate::Candidate;
use crate::ordered_f32::OrderedF32;
use diskann::neighbor::{Neighbor, NeighborPriorityQueue};

verus! {

/// A queue of candidates, nearest first, which remembers which of them it has
/// handed out. It holds a `diskann::neighbor::NeighborPriorityQueue` that grows
/// as needed.
#[verifier::external_body]
pub struct CandidateQueue {
    inner: NeighborPriorityQueue<u32>,
}

/// The candidates in the queue, each with a mark that is set once the queue has
/// handed it out.
pub uninterp spec fn queue_entries(q: CandidateQueue) -> Seq<(Candidate, bool)>;

/// How many of the first candidates the queue considers for handing out.
pub uninterp spec fn queue_limit(q: CandidateQueue) -> nat;

/// The first position from `i` on whose candidate was not handed out, or the
/// length if there is none.
pub open spec fn first_open(entries: Seq<(Candidate, bool)>, i: int) -> int
    decreases entries.len() - i,
{
    if i >= entries.len() || !entries[i].1 {
        i
    } else {
        first_open(entries, i + 1)
    }
}

/// The first position from `i` on whose candidate is not nearer than `d`, or
/// the length if there is none.
pub open spec fn place_for(entries: Seq<(Candidate, bool)>, d: OrderedF32, i: int) -> int
    decreases entries.len() - i,
{
    if i >= entries.len() || !entries[i].0.distance.less(d) {
        i
    } else {
        place_for(entries, d, i + 1)
    }
}

/// Whether the queue has a candidate to hand out.
pub open spec fn has_open(entries: Seq<(Candidate, bool)>, limit: nat) -> bool {
    first_open(entries, 0) < entries.len() && first_open(entries, 0) < limit
}

/// The entries after a candidate was put in its place. A NaN has no place.
pub open spec fn with_entry(entries: Seq<(Candidate, bool)>, c: Candidate) -> Seq<
    (Candidate, bool),
> {
    if c.distance.is_nan() {
        entries
    } else {
        entries.insert(place_for(entries, c.distance, 0), (c, false))
    }
}

/// No two entries have the same id.
pub open spec fn entries_once(entries: Seq<(Candidate, bool)>) -> bool {
    forall|i: int, j: int|
        0 <= i < j < entries.len() ==> (#[trigger] entries[i]).0.id != (#[trigger] entries[j]).0.id
}

/// No entry is nearer than one before it, and none is a NaN.
pub open spec fn sorted(entries: Seq<(Candidate, bool)>) -> bool {
    &&& forall|i: int| 0 <= i < entries.len() ==> !(#[trigger] entries[i]).0.distance.is_nan()
    &&& forall|i: int, j: int|
        0 <= i < j < entries.len() ==> !(#[trigger] entries[j]).0.distance.less(
            (#[trigger] entries[i]).0.distance,
        )
}

/// Where a place is: all before it are nearer, and the one there, if any, is not.
pub proof fn lemma_place_for(entries: Seq<(Candidate, bool)>, d: OrderedF32, i: int)
    requires
        0 <= i <= entries.len(),
    ensures
        i <= place_for(entries, d, i) <= entries.len(),
        forall|j: int|
            i <= j < place_for(entries, d, i) ==> (#[trigger] entries[j]).0.distance.less(d),
        place_for(entries, d, i) < entries.len() ==> !entries[place_for(
            entries,
            d,
            i,
        )].0.distance.less(d),
    decreases entries.len() - i,
{
    if i < entries.len() && entries[i].0.distance.less(d) {
        lemma_place_for(entries, d, i + 1);
    }
}

/// Where the first open entry is: all before it were handed out, and it was not.
pub proof fn lemma_first_open(entries: Seq<(Candidate, bool)>, i: int)
    requires
        0 <= i <= entries.len(),
    ensures
        i <= first_open(entries, i) <= entries.len(),
        forall|j: int| i <= j < first_open(entries, i) ==> (#[trigger] entries[j]).1,
        first_open(entries, i) < entries.len() ==> !entries[first_open(entries, i)].1,
    decreases entries.len() - i,
{
    if i < entries.len() && entries[i].1 {
        lemma_first_open(entries, i + 1);
    }
}

/// A candidate with a new id keeps the entries sorted and the ids unique, and is
/// the only one that comes in.
pub proof fn lemma_with_entry(entries: Seq<(Candidate, bool)>, c: Candidate)
    requires
        sorted(entries),
        entries_once(entries),
        forall|i: int| 0 <= i < entries.len() ==> (#[trigger] entries[i]).0.id != c.id,
    ensures
        sorted(with_entry(entries, c)),
        entries_once(with_entry(entries, c)),
        with_entry(entries, c).len() <= entries.len() + 1,
        forall|i: int|
            0 <= i < with_entry(entries, c).len() ==> {
                let e = #[trigger] with_entry(entries, c)[i];
                entries.contains(e) || e == (c, false)
            },
{
    if !c.distance.is_nan() {
        let p = place_for(entries, c.distance, 0);
        lemma_place_for(entries, c.distance, 0);
        let after = with_entry(entries, c);
        assert forall|i: int| 0 <= i < after.len() implies (#[trigger] after[i]) == if i < p {
            entries[i]
        } else if i == p {
            (c, false)
        } else {
            entries[i - 1]
        } by {}
        assert forall|i: int, j: int| 0 <= i < j < after.len() implies !(#[trigger] after[j]).0.distance.less(
            (#[trigger] after[i]).0.distance,
        ) by {
            if i == p && j > p + 1 {
                assert(!entries[j - 1].0.distance.less(entries[p].0.distance));
            }
        }
    }
}

/// The next candidate to hand out is one that no other waiting one is nearer than.
pub proof fn lemma_next_is_nearest(entries: Seq<(Candidate, bool)>)
    requires
        sorted(entries),
        first_open(entries, 0) < entries.len(),
    ensures
        0 <= first_open(entries, 0),
        !entries[first_open(entries, 0)].1,
        forall|i: int|
            0 <= i < entries.len() && !(#[trigger] entries[i]).1 ==> first_open(entries, 0) <= i
                && !entries[i].0.distance.less(entries[first_open(entries, 0)].0.distance),
{
    lemma_first_open(entries, 0);
}

impl CandidateQueue {
    /// `NeighborPriorityQueue::auto_resizable_with_search_param_l`: an empty
    /// queue with the given limit. It sets aside room for as many entries as
    /// the limit says, of at most eight bytes each, so that many must fit.
    #[verifier::external_body]
    pub(crate) fn new(limit: usize) -> (q: Self)
        requires
            limit * 8 <= isize::MAX,
        ensures
            queue_entries(q) == Seq::<(Candidate, bool)>::empty(),
            queue_limit(q) == limit,
    {
        CandidateQueue {
            inner: NeighborPriorityQueue::auto_resizable_with_search_param_l(limit),
        }
    }

    /// `NeighborPriorityQueue::insert`: puts a candidate before the first one
    /// that is not nearer; a candidate whose distance is NaN is ignored. The
    /// queue must not hold the id already, and must have room to grow by half,
    /// which its vectors may round up to three times their size. The distance
    /// is handed over bit by bit.
    #[verifier::external_body]
    pub(crate) fn insert(&mut self, c: Candidate)
        requires
            forall|i: int|
                0 <= i < queue_entries(*old(self)).len() ==> (#[trigger] queue_entries(
                    *old(self),
                )[i]).0.id != c.id,
            (queue_entries(*old(self)).len() + 1) * 32 <= isize::MAX,
        ensures
            queue_entries(*final(self)) == with_entry(queue_entries(*old(self)), c),
            queue_limit(*final(self)) == queue_limit(*old(self)),
    {
        self.inner.insert(Neighbor::new(c.id, bytemuck::cast(c.distance.bits)));
    }

    /// `NeighborPriorityQueue::has_notvisited_node`: whether one of the
    /// candidates within the limit was not handed out yet and comes before all
    /// others that were not.
    #[verifier::external_body]
    pub(crate) fn has_notvisited_node(&self) -> (r: bool)
        ensures
            r == has_open(queue_entries(*self), queue_limit(*self)),
    {
        self.inner.has_notvisited_node()
    }

    /// `NeighborPriorityQueue::closest_notvisited`: hands out the first
    /// candidate that was not handed out yet, if it is within the limit.
    #[verifier::external_body]
    pub(crate) fn closest_notvisited(&mut self) -> (r: Option<Candidate>)
        ensures
            queue_limit(*final(self)) == queue_limit(*old(self)),
            has_open(queue_entries(*old(self)), queue_limit(*old(self))) ==> {
                let i = first_open(queue_entries(*old(self)), 0);
                let c = queue_entries(*old(self))[i].0;
                r == Some(c) && queue_entries(*final(self)) == queue_entries(*old(self)).update(
                    i,
                    (c, true),
                )
            },
            !has_open(queue_entries(*old(self)), queue_limit(*old(self))) ==> r is None
                && queue_entries(*final(self)) == queue_entries(*old(self)),
    {
        match self.inner.closest_notvisited() {
            Some(n) => Some(
                Candidate { id: n.id, distance: OrderedF32 { bits: bytemuck::cast(n.distance) } },
            ),
            None => None,
        }
    }

    /// `NeighborPriorityQueue::size`: the number of candidates in the queue,
    /// handed out or not.
    #[verifier::external_body]
    pub(crate) fn size(&self) -> (n: usize)
        ensures
            n == queue_entries(*self).len(),
    {
        self.inner.size()
    }
}

} // verus!
