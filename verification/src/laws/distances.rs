//! Which of two distances is smaller, and which of two candidates comes first.

use vstd::prelude::*;
use std::cmp::Ordering;
use crate::candidate::{Candidate, Nearest};
use crate::heap::Ranked;
use crate::ordered_f32::OrderedF32;

verus! {

/// The bit pattern is that of a number, finite or not.
pub open spec fn is_number(d: OrderedF32) -> bool {
    d.bits % 0x8000_0000 <= 0x7f80_0000
}

/// Numbers are ordered as their bit patterns without the sign, and the other way
/// round where the sign is set.
pub open spec fn value(d: OrderedF32) -> int {
    if d.bits >= 0x8000_0000 {
        0x8000_0000 - d.bits
    } else {
        d.bits as int
    }
}

/// `a` is a smaller number than `b`.
pub open spec fn below(a: OrderedF32, b: OrderedF32) -> bool {
    is_number(a) && is_number(b) && value(a) < value(b)
}

/// `a` comes after `b`: it is farther, or as far with a larger id. What has no
/// number for a distance comes last.
pub open spec fn past(a: Candidate, b: Candidate) -> bool {
    if is_number(a.distance) && is_number(b.distance) {
        value(a.distance) > value(b.distance) || (value(a.distance) == value(b.distance) && a.id
            > b.id)
    } else if is_number(a.distance) {
        false
    } else if is_number(b.distance) {
        true
    } else {
        a.id > b.id
    }
}

/// Distances compare as their bit patterns say.
pub proof fn lemma_distances(a: OrderedF32, b: OrderedF32)
    ensures
        a.is_nan() == !is_number(a),
        a.less(b) == below(a, b),
        a.same(b) == (is_number(a) && is_number(b) && value(a) == value(b)),
{
    crate::ordered_f32::lemma_key_orders(a, b);
}

/// Places are in the order of candidates.
pub proof fn lemma_places(a: Candidate, b: Candidate)
    ensures
        past(a, b) ==> a.place() > b.place(),
        a.place() <= b.place() ==> !past(a, b),
{
    crate::ordered_f32::lemma_key_orders(a.distance, b.distance);
}

/// One distance is less than another exactly if both are numbers and the first
/// is the smaller one; the two zeros are equal.
pub proof fn law_lt(a: OrderedF32, b: OrderedF32, r: bool)
    requires
        call_ensures(OrderedF32::lt, (a, b), r),
    ensures
        r == below(a, b),
{
    lemma_distances(a, b);
}

/// One distance is greater than another exactly if both are numbers and the
/// first is the larger one.
pub proof fn law_gt(a: OrderedF32, b: OrderedF32, r: bool)
    requires
        call_ensures(OrderedF32::gt, (a, b), r),
    ensures
        r == below(b, a),
{
    lemma_distances(b, a);
}

/// Order keys are in the order of numbers, and what is no number has the largest.
pub proof fn law_order_key(a: OrderedF32, b: OrderedF32, x: u32, y: u32)
    requires
        call_ensures(OrderedF32::order_key, (a,), x),
        call_ensures(OrderedF32::order_key, (b,), y),
    ensures
        is_number(a) && is_number(b) ==> (x < y <==> value(a) < value(b)) && (x == y <==> value(a)
            == value(b)),
        is_number(a) && !is_number(b) ==> x < y,
        !is_number(a) && !is_number(b) ==> x == y,
{
    crate::ordered_f32::lemma_key_orders(a, b);
}

/// The total order is that of numbers; what is no number comes last, and all
/// such patterns are equal.
pub proof fn law_cmp(a: OrderedF32, b: OrderedF32, r: Ordering)
    requires
        call_ensures(OrderedF32::cmp, (&a, &b), r),
    ensures
        match r {
            Ordering::Less => below(a, b) || (is_number(a) && !is_number(b)),
            Ordering::Equal => if is_number(a) {
                is_number(b) && value(a) == value(b)
            } else {
                !is_number(b)
            },
            Ordering::Greater => below(b, a) || (!is_number(a) && is_number(b)),
        },
{
    lemma_distances(a, b);
    lemma_distances(b, a);
}

/// Two distances are equal exactly if both are numbers and the same number; what is
/// no number equals nothing.
pub proof fn law_eq(a: OrderedF32, b: OrderedF32, r: bool)
    requires
        call_ensures(OrderedF32::eq, (&a, &b), r),
    ensures
        r == (is_number(a) && is_number(b) && value(a) == value(b)),
{
    lemma_distances(a, b);
}

/// The partial order never declines to tell, and is the total order.
pub proof fn law_partial_cmp(a: OrderedF32, b: OrderedF32, r: Option<Ordering>)
    requires
        call_ensures(OrderedF32::partial_cmp, (&a, &b), r),
    ensures
        r is Some,
        r == Some(Ordering::Less) <==> below(a, b) || (is_number(a) && !is_number(b)),
        r == Some(Ordering::Greater) <==> below(b, a) || (!is_number(a) && is_number(b)),
{
    lemma_distances(a, b);
    lemma_distances(b, a);
}

/// A distance keeps the bit pattern that it is made of.
pub proof fn law_from_bits(bits: u32, r: OrderedF32)
    requires
        call_ensures(OrderedF32::from_bits, (bits,), r),
    ensures
        r.bits == bits,
{
}

/// The largest finite number is a number, and every finite number is at most as
/// large.
pub proof fn law_max_finite(r: OrderedF32, d: OrderedF32)
    requires
        call_ensures(OrderedF32::max_finite, (), r),
        d.bits % 0x8000_0000 < 0x7f80_0000,
    ensures
        is_number(r),
        r.bits % 0x8000_0000 < 0x7f80_0000,
        value(d) <= value(r),
{
}

/// Of two candidates the farther one comes after the other, of two that are as
/// far the one with the larger id.
pub proof fn law_comes_after(a: Candidate, b: Candidate, r: bool)
    requires
        call_ensures(Candidate::comes_after, (a, b), r),
    ensures
        past(a, b) ==> r,
        r ==> !past(b, a),
{
    lemma_places(a, b);
    lemma_places(b, a);
}

/// Of two different candidates exactly one comes after the other, and none comes
/// after itself.
pub proof fn law_comes_after_is_total(a: Candidate, b: Candidate, r: bool, s: bool)
    requires
        call_ensures(Candidate::comes_after, (a, b), r),
        call_ensures(Candidate::comes_after, (b, a), s),
    ensures
        a == b ==> !r && !s,
        a != b ==> r != s,
{
    if !r && !s {
        Candidate::rank_is_injective(a, b);
    }
}

/// What comes after what comes after a candidate comes after that candidate.
pub proof fn law_comes_after_is_transitive(
    a: Candidate,
    b: Candidate,
    c: Candidate,
    r: bool,
    s: bool,
    t: bool,
)
    requires
        call_ensures(Candidate::comes_after, (a, b), r),
        call_ensures(Candidate::comes_after, (b, c), s),
        call_ensures(Candidate::comes_after, (a, c), t),
    ensures
        r && s ==> t,
{
}

/// Candidates outrank those that they come after, so that the farthest is on top
/// of a heap.
pub proof fn law_farthest_outranks(a: Candidate, b: Candidate, r: bool)
    requires
        call_ensures(<Candidate as Ranked>::outranks, (a, b), r),
    ensures
        past(a, b) ==> r,
        r ==> !past(b, a),
{
    lemma_places(a, b);
    lemma_places(b, a);
}

/// Candidates to expand outrank those that come after them, so that the nearest
/// is on top of a heap.
pub proof fn law_nearest_outranks(a: Nearest, b: Nearest, r: bool)
    requires
        call_ensures(<Nearest as Ranked>::outranks, (a, b), r),
    ensures
        past(b.candidate, a.candidate) ==> r,
        r ==> !past(a.candidate, b.candidate),
{
    lemma_places(a.candidate, b.candidate);
    lemma_places(b.candidate, a.candidate);
}

} // verus!
