//! What a heap is for: it gives back what it was given, the highest first.

use vstd::prelude::*;
use crate::candidate::{Candidate, Nearest};
use crate::heap::RankHeap;

verus! {

/// A new heap holds nothing.
pub proof fn law_new_heap(h: RankHeap<Candidate>, x: Candidate)
    requires
        call_ensures(RankHeap::<Candidate>::new, (), h),
    ensures
        h.wf(),
        h@.len() == 0,
        h@.count(x) == 0,
{
    broadcast use vstd::multiset::group_multiset_axioms;

}

/// A push adds one item, and no other changes.
pub proof fn law_push(h: &mut RankHeap<Candidate>, x: Candidate, other: Candidate)
    requires
        call_ensures(RankHeap::<Candidate>::push, (h, x), ()),
    ensures
        final(h).wf(),
        final(h)@.len() == old(h)@.len() + 1,
        final(h)@.count(x) == old(h)@.count(x) + 1,
        other != x ==> final(h)@.count(other) == old(h)@.count(other),
{
    broadcast use vstd::multiset::group_multiset_axioms;

}

/// A pop of a heap of candidates takes the farthest one out, and no other changes.
pub proof fn law_pop_farthest(
    h: &mut RankHeap<Candidate>,
    other: Candidate,
    r: Option<Candidate>,
)
    requires
        call_ensures(RankHeap::<Candidate>::pop, (h,), r),
    ensures
        final(h).wf(),
        r is None <==> old(h)@.len() == 0,
        r is None ==> final(h)@ == old(h)@,
        r matches Some(x) ==> {
            &&& old(h)@.count(x) > 0
            &&& old(h)@.count(other) > 0 ==> !crate::laws::distances::past(other, x)
            &&& final(h)@.count(x) == old(h)@.count(x) - 1
            &&& final(h)@.len() == old(h)@.len() - 1
            &&& other != x ==> final(h)@.count(other) == old(h)@.count(other)
        },
{
    broadcast use vstd::multiset::group_multiset_axioms;

    if r is Some {
        crate::laws::distances::lemma_places(other, r->0);
    }
}

/// A pop of a heap of candidates to expand takes the nearest one out, and no other
/// changes.
pub proof fn law_pop_nearest(h: &mut RankHeap<Nearest>, other: Nearest, r: Option<Nearest>)
    requires
        call_ensures(RankHeap::<Nearest>::pop, (h,), r),
    ensures
        final(h).wf(),
        r is None <==> old(h)@.len() == 0,
        r is None ==> final(h)@ == old(h)@,
        r matches Some(x) ==> {
            &&& old(h)@.count(x) > 0
            &&& old(h)@.count(other) > 0 ==> !crate::laws::distances::past(
                x.candidate,
                other.candidate,
            )
            &&& final(h)@.count(x) == old(h)@.count(x) - 1
            &&& final(h)@.len() == old(h)@.len() - 1
            &&& other != x ==> final(h)@.count(other) == old(h)@.count(other)
        },
{
    broadcast use vstd::multiset::group_multiset_axioms;

    if r is Some {
        crate::laws::distances::lemma_places(r->0.candidate, other.candidate);
    }
}

/// A peek shows the farthest candidate, and the length is how many there are.
pub proof fn law_peek(
    h: RankHeap<Candidate>,
    other: Candidate,
    r: Option<Candidate>,
    n: usize,
)
    requires
        call_ensures(RankHeap::<Candidate>::peek, (&h,), r),
        call_ensures(RankHeap::<Candidate>::len, (&h,), n),
    ensures
        n == h@.len(),
        r is None <==> n == 0,
        r matches Some(x) ==> h@.count(x) > 0 && (h@.count(other) > 0
            ==> !crate::laws::distances::past(other, x)),
{
    if r is Some {
        crate::laws::distances::lemma_places(other, r->0);
    }
}

/// Sorting gives back every candidate that the heap holds, as often as it holds
/// it, the nearest first.
pub proof fn law_into_sorted(h: RankHeap<Candidate>, r: Vec<Candidate>, x: Candidate)
    requires
        call_ensures(RankHeap::<Candidate>::into_sorted, (h,), r),
    ensures
        r@.len() == h@.len(),
        r@.to_multiset().count(x) == h@.count(x),
        forall|i: int, j: int|
            0 <= i < j < r@.len() ==> !crate::laws::distances::past(
                #[trigger] r@[i],
                #[trigger] r@[j],
            ),
{
    r@.to_multiset_ensures();
    assert forall|i: int, j: int| 0 <= i < j < r@.len() implies !crate::laws::distances::past(
        #[trigger] r@[i],
        #[trigger] r@[j],
    ) by {
        crate::laws::distances::lemma_places(r@[i], r@[j]);
    }
}

} // verus!
