//! What filter checks are for: who is asked about which candidates, and which of
//! them are kept.

use vstd::prelude::*;
use vstd::multiset::Multiset;
use crate::candidate::Candidate;
use crate::filter::{
    FilterCallbacks,
    FilteredResults,
    PendingCandidate,
    Tally,
    filter_candidates_batch,
    filter_candidates_batch_with_attrs,
    without_attrs,
};
use crate::ordered_f32::OrderedF32;

verus! {

/// A candidate is not worth a check: as many are kept as may be, and each of
/// them is nearer.
pub open spec fn beyond(list: Multiset<Candidate>, cap: nat, c: Candidate) -> bool {
    list.len() >= cap && forall|x: Candidate| #[trigger]
        list.count(x) > 0 ==> crate::laws::distances::below(x.distance, c.distance)
}

/// None comes after `d`, which is one of them.
pub open spec fn is_farthest(d: Candidate, list: Multiset<Candidate>) -> bool {
    list.count(d) > 0 && forall|x: Candidate| #[trigger]
        list.count(x) > 0 ==> !crate::laws::distances::past(x, d)
}

/// What becomes of the list with one candidate: it comes in if the answer on it
/// is yes; where there is no room, the farthest of all leaves.
pub open spec fn takes_up(
    before: Multiset<Candidate>,
    cap: nat,
    c: Candidate,
    yes: bool,
    after: Multiset<Candidate>,
) -> bool {
    if beyond(before, cap, c) || !yes {
        after == before
    } else if before.len() < cap {
        after == before.insert(c)
    } else {
        exists|d: Candidate| #[trigger]
            is_farthest(d, before.insert(c)) && after == before.insert(c).remove(d)
    }
}

/// Checks with what came of them: the answers, the host between the calls, and
/// the list between the candidates.
pub struct Checks<C> {
    pub yes: Seq<bool>,
    pub hosts: Seq<C>,
    pub lists: Seq<Multiset<Candidate>>,
}

/// How many of the first `n` candidates were worth a check.
pub open spec fn tried<C>(w: Checks<C>, cap: nat, cs: Seq<Candidate>, n: int) -> int
    decreases n,
{
    if n <= 0 {
        0
    } else if beyond(w.lists[n - 1], cap, cs[n - 1]) {
        tried(w, cap, cs, n - 1)
    } else {
        tried(w, cap, cs, n - 1) + 1
    }
}

/// How many of them got a yes.
pub open spec fn agreed<C>(w: Checks<C>, cap: nat, cs: Seq<Candidate>, n: int) -> int
    decreases n,
{
    if n <= 0 {
        0
    } else if !beyond(w.lists[n - 1], cap, cs[n - 1]) && w.yes[n - 1] {
        agreed(w, cap, cs, n - 1) + 1
    } else {
        agreed(w, cap, cs, n - 1)
    }
}

/// Each candidate is taken up in turn.
pub open spec fn take_turns<C>(w: Checks<C>, cap: nat, cs: Seq<Candidate>) -> bool {
    &&& w.yes.len() == cs.len()
    &&& w.hosts.len() == cs.len() + 1
    &&& w.lists.len() == cs.len() + 1
    &&& forall|i: int|
        0 <= i < cs.len() ==> takes_up(
            w.lists[i],
            cap,
            #[trigger] cs[i],
            w.yes[i],
            w.lists[i + 1],
        )
}

/// Checks lead from one host and list to another, and count.
pub open spec fn leads<C>(
    w: Checks<C>,
    cap: nat,
    cs: Seq<Candidate>,
    host: C,
    after: C,
    t: Tally,
    end: Tally,
) -> bool {
    &&& w.hosts[0] == host
    &&& w.hosts[cs.len() as int] == after
    &&& w.lists[0] == t.results
    &&& w.lists[cs.len() as int] == end.results
    &&& end.evals == t.evals + tried(w, cap, cs, cs.len() as int)
    &&& end.passed == t.passed + agreed(w, cap, cs, cs.len() as int)
}

/// One call about one candidate: any byte but zero is a yes.
pub open spec fn one_call<C, F: Fn(C, u64, u32) -> (C, u8)>(
    f: F,
    context_id: u64,
    c: Candidate,
    yes: bool,
    before: C,
    after: C,
) -> bool {
    exists|r: u8| #[trigger]
        call_ensures(f, (before, context_id, c.id), (after, r)) && yes == (r != 0)
}

/// One call about one candidate and its attributes.
pub open spec fn one_attr_call<C, F: Fn(C, u64, u32, &[u8]) -> (C, u8)>(
    f: F,
    context_id: u64,
    c: Candidate,
    attrs: Seq<u8>,
    yes: bool,
    before: C,
    after: C,
) -> bool {
    exists|a: &[u8], r: u8| #[trigger]
        call_ensures(f, (before, context_id, c.id, a), (after, r)) && a@ == attrs && yes == (r
            != 0)
}

/// One call about the candidates from `start` up to `end`: one byte for each,
/// and any but zero is a yes.
pub open spec fn one_batch_call<C, B: Fn(C, u64, &Vec<u32>) -> (C, Vec<u8>)>(
    b: B,
    context_id: u64,
    cs: Seq<Candidate>,
    start: int,
    end: int,
    yes: Seq<bool>,
    before: C,
    after: C,
) -> bool {
    exists|v: Vec<u32>, r: Vec<u8>|
        {
            &&& #[trigger] call_ensures(b, (before, context_id, &v), (after, r))
            &&& v@.len() == end - start
            &&& r@.len() == end - start
            &&& forall|j: int|
                start <= j < end ==> #[trigger] cs[j].id == v@[j - start] && yes[j] == (r@[j
                    - start] != 0)
        }
}

/// One call about the candidates from `start` up to `end` and their attributes.
pub open spec fn one_attr_batch_call<
    C,
    B: Fn(C, u64, &Vec<u32>, &Vec<&[u8]>) -> (C, Vec<u8>),
>(
    b: B,
    context_id: u64,
    cs: Seq<Candidate>,
    attrs: Seq<Seq<u8>>,
    start: int,
    end: int,
    yes: Seq<bool>,
    before: C,
    after: C,
) -> bool {
    exists|v: Vec<u32>, a: Vec<&[u8]>, r: Vec<u8>|
        {
            &&& #[trigger] call_ensures(b, (before, context_id, &v, &a), (after, r))
            &&& v@.len() == end - start
            &&& a@.len() == end - start
            &&& r@.len() == end - start
            &&& forall|j: int|
                start <= j < end ==> #[trigger] cs[j].id == v@[j - start] && a@[j - start]@
                    == attrs[j] && yes[j] == (r@[j - start] != 0)
        }
}

/// `start` and `end` bound a run of `size` candidates, the last one perhaps
/// shorter.
pub open spec fn is_run(start: int, end: int, size: int, len: int) -> bool {
    &&& 0 <= start < len
    &&& start % size == 0
    &&& end == if start + size < len {
        start + size
    } else {
        len
    }
}

/// A candidate is asked about in a call of its own unless it is not worth it.
pub open spec fn asked_alone<C, F: Fn(C, u64, u32) -> (C, u8)>(
    f: F,
    context_id: u64,
    cap: nat,
    list: Multiset<Candidate>,
    c: Candidate,
    yes: bool,
    before: C,
    after: C,
) -> bool {
    if beyond(list, cap, c) {
        after == before
    } else {
        one_call(f, context_id, c, yes, before, after)
    }
}

/// A candidate is asked about with its attributes unless it is not worth it.
pub open spec fn asked_alone_attr<C, F: Fn(C, u64, u32, &[u8]) -> (C, u8)>(
    f: F,
    context_id: u64,
    cap: nat,
    list: Multiset<Candidate>,
    c: Candidate,
    attrs: Seq<u8>,
    yes: bool,
    before: C,
    after: C,
) -> bool {
    if beyond(list, cap, c) {
        after == before
    } else {
        one_attr_call(f, context_id, c, attrs, yes, before, after)
    }
}

/// The batch callback is asked, a run of candidates at a time, if there is one
/// and runs hold more than one candidate. Else the single callback is asked,
/// about each candidate that is worth it, in order.
pub open spec fn plain_calls<
    C,
    F: Fn(C, u64, u32) -> (C, u8),
    B: Fn(C, u64, &Vec<u32>) -> (C, Vec<u8>),
>(
    f: F,
    b: Option<B>,
    context_id: u64,
    size: usize,
    cap: nat,
    cs: Seq<Candidate>,
    w: Checks<C>,
) -> bool {
    if size > 1 && b is Some {
        forall|start: int, end: int| #[trigger]
            is_run(start, end, size as int, cs.len() as int) ==> one_batch_call(
                b->0,
                context_id,
                cs,
                start,
                end,
                w.yes,
                w.hosts[start],
                w.hosts[end],
            )
    } else {
        forall|i: int|
            0 <= i < cs.len() ==> asked_alone(
                f,
                context_id,
                cap,
                w.lists[i],
                #[trigger] cs[i],
                w.yes[i],
                w.hosts[i],
                w.hosts[i + 1],
            )
    }
}

/// The callbacks that take attributes are asked before those that take none, and
/// of either kind the one that takes several candidates, where runs hold more
/// than one, before the one that takes one.
pub open spec fn attr_calls<
    C,
    F: Fn(C, u64, u32) -> (C, u8),
    B: Fn(C, u64, &Vec<u32>) -> (C, Vec<u8>),
    G: Fn(C, u64, u32, &[u8]) -> (C, u8),
    H: Fn(C, u64, &Vec<u32>, &Vec<&[u8]>) -> (C, Vec<u8>),
>(
    callbacks: FilterCallbacks<F, B, G, H>,
    context_id: u64,
    size: usize,
    cap: nat,
    cs: Seq<Candidate>,
    attrs: Seq<Seq<u8>>,
    w: Checks<C>,
) -> bool {
    if size > 1 && callbacks.batch_filter_with_attr is Some {
        forall|start: int, end: int| #[trigger]
            is_run(start, end, size as int, cs.len() as int) ==> one_attr_batch_call(
                callbacks.batch_filter_with_attr->0,
                context_id,
                cs,
                attrs,
                start,
                end,
                w.yes,
                w.hosts[start],
                w.hosts[end],
            )
    } else if callbacks.filter_with_attr is Some {
        forall|i: int|
            0 <= i < cs.len() ==> asked_alone_attr(
                callbacks.filter_with_attr->0,
                context_id,
                cap,
                w.lists[i],
                #[trigger] cs[i],
                attrs[i],
                w.yes[i],
                w.hosts[i],
                w.hosts[i + 1],
            )
    } else {
        plain_calls(callbacks.filter, callbacks.batch_filter, context_id, size, cap, cs, w)
    }
}

/// A candidate is passed over exactly if it is not worth a check.
pub proof fn lemma_beyond(list: Multiset<Candidate>, cap: nat, c: Candidate)
    requires
        cap > 0,
    ensures
        crate::filter::skips(list, cap, c) == beyond(list, cap, c),
{
    if list.len() >= cap {
        crate::heap::lemma_greatest_exists(list);
        let g = crate::heap::greatest(list);
        crate::laws::distances::lemma_distances(g.distance, c.distance);
        if crate::filter::skips(list, cap, c) {
            assert forall|x: Candidate| #[trigger]
                list.count(x) > 0 implies crate::laws::distances::below(x.distance, c.distance) by {
                crate::laws::distances::lemma_places(x, g);
            }
        }
    }
}

/// The greatest candidate is the farthest one.
pub proof fn lemma_farthest(list: Multiset<Candidate>)
    requires
        list.len() > 0,
    ensures
        is_farthest(crate::heap::greatest(list), list),
{
    crate::heap::lemma_greatest_exists(list);
    let g = crate::heap::greatest(list);
    assert forall|x: Candidate| #[trigger] list.count(x) > 0 implies !crate::laws::distances::past(
        x,
        g,
    ) by {
        crate::laws::distances::lemma_places(x, g);
    }
}

proof fn lemma_takes_up(t: Tally, cap: nat, c: Candidate, yes: bool)
    requires
        cap > 0,
    ensures
        takes_up(t.results, cap, c, yes, crate::filter::settle(t, cap, c, yes).results),
        crate::filter::settle(t, cap, c, yes).evals == t.evals + if beyond(t.results, cap, c) {
            0int
        } else {
            1
        },
        crate::filter::settle(t, cap, c, yes).passed == t.passed + if beyond(t.results, cap, c)
            || !yes {
            0int
        } else {
            1
        },
{
    broadcast use vstd::multiset::group_multiset_axioms;

    lemma_beyond(t.results, cap, c);
    lemma_farthest(t.results.insert(c));
}

/// The list between checks.
spec fn lists_of(t: Tally, cap: nat, cs: Seq<Candidate>, verdicts: Seq<bool>) -> Seq<
    Multiset<Candidate>,
> {
    Seq::new(
        cs.len() + 1,
        |i: int| crate::filter::settle_first(t, cap, cs, verdicts, i).results,
    )
}

proof fn lemma_turns<C>(
    t: Tally,
    cap: nat,
    cs: Seq<Candidate>,
    verdicts: Seq<bool>,
    w: Checks<C>,
    n: int,
)
    requires
        cap > 0,
        verdicts.len() == cs.len(),
        w.hosts.len() == cs.len() + 1,
        w.yes == verdicts,
        w.lists == lists_of(t, cap, cs, verdicts),
        0 <= n <= cs.len(),
    ensures
        take_turns(w, cap, cs),
        crate::filter::settle_first(t, cap, cs, verdicts, n).evals == t.evals + tried(
            w,
            cap,
            cs,
            n,
        ),
        crate::filter::settle_first(t, cap, cs, verdicts, n).passed == t.passed + agreed(
            w,
            cap,
            cs,
            n,
        ),
    decreases n,
{
    if n > 0 {
        lemma_turns(t, cap, cs, verdicts, w, n - 1);
        lemma_takes_up(
            crate::filter::settle_first(t, cap, cs, verdicts, n - 1),
            cap,
            cs[n - 1],
            verdicts[n - 1],
        );
    } else {
        assert forall|i: int| 0 <= i < cs.len() implies takes_up(
            w.lists[i],
            cap,
            #[trigger] cs[i],
            w.yes[i],
            w.lists[i + 1],
        ) by {
            lemma_takes_up(
                crate::filter::settle_first(t, cap, cs, verdicts, i),
                cap,
                cs[i],
                verdicts[i],
            );
        }
    }
}

/// How plain checks go.
pub proof fn lemma_plain<
    C,
    F: Fn(C, u64, u32) -> (C, u8),
    B: Fn(C, u64, &Vec<u32>) -> (C, Vec<u8>),
>(
    f: F,
    b: Option<B>,
    context_id: u64,
    size: usize,
    t: Tally,
    cap: nat,
    cs: Seq<Candidate>,
    verdicts: Seq<bool>,
    hosts: Seq<C>,
) -> (w: Checks<C>)
    requires
        cap > 0,
        crate::filter::plain_checks(f, b, context_id, size, t, cap, cs, verdicts, hosts),
    ensures
        w.yes == verdicts,
        w.hosts == hosts,
        w.lists[0] == t.results,
        w.lists[cs.len() as int] == crate::filter::settle_first(
            t,
            cap,
            cs,
            verdicts,
            cs.len() as int,
        ).results,
        take_turns(w, cap, cs),
        plain_calls(f, b, context_id, size, cap, cs, w),
        crate::filter::settle_first(t, cap, cs, verdicts, cs.len() as int).evals == t.evals
            + tried(w, cap, cs, cs.len() as int),
        crate::filter::settle_first(t, cap, cs, verdicts, cs.len() as int).passed == t.passed
            + agreed(w, cap, cs, cs.len() as int),
{
    let w = Checks { yes: verdicts, hosts, lists: lists_of(t, cap, cs, verdicts) };
    let len = cs.len() as int;
    lemma_turns(t, cap, cs, verdicts, w, len);
    if size > 1 && b is Some {
        assert forall|start: int, end: int| #[trigger]
            is_run(start, end, size as int, len) implies one_batch_call(
            b->0,
            context_id,
            cs,
            start,
            end,
            w.yes,
            w.hosts[start],
            w.hosts[end],
        ) by {
            assert(end == crate::filter::chunk_end(start, size as int, len));
            let ids = crate::filter::ids_of(cs).subrange(start, end);
            let answers = verdicts.subrange(start, end);
            let (v, r) = choose|v: Vec<u32>, r: Vec<u8>| #[trigger]
                call_ensures(b->0, (hosts[start], context_id, &v), (hosts[end], r)) && v@ == ids
                    && r@.len() == ids.len() && answers == crate::filter::verdicts_of(r@);
            assert(call_ensures(b->0, (hosts[start], context_id, &v), (hosts[end], r)));
            assert forall|j: int| start <= j < end implies #[trigger] cs[j].id == v@[j - start]
                && w.yes[j] == (r@[j - start] != 0) by {
                assert(ids[j - start] == cs[j].id);
                assert(answers[j - start] == verdicts[j]);
            }
        }
    } else {
        assert forall|i: int| 0 <= i < cs.len() implies asked_alone(
            f,
            context_id,
            cap,
            w.lists[i],
            #[trigger] cs[i],
            w.yes[i],
            w.hosts[i],
            w.hosts[i + 1],
        ) by {
            lemma_beyond(w.lists[i], cap, cs[i]);
        }
    }
    w
}

proof fn lemma_attr_batch<C, B: Fn(C, u64, &Vec<u32>, &Vec<&[u8]>) -> (C, Vec<u8>)>(
    b: B,
    context_id: u64,
    ids: Seq<u32>,
    some: Seq<Seq<u8>>,
    answers: Seq<bool>,
    before: C,
    after: C,
    cs: Seq<Candidate>,
    attrs: Seq<Seq<u8>>,
    yes: Seq<bool>,
    start: int,
    end: int,
)
    requires
        crate::filter::asks_attr_batch(b, context_id, ids, some, answers, before, after),
        0 <= start <= end <= cs.len(),
        cs.len() == attrs.len() == yes.len(),
        ids == crate::filter::ids_of(cs).subrange(start, end),
        some == attrs.subrange(start, end),
        answers == yes.subrange(start, end),
    ensures
        one_attr_batch_call(b, context_id, cs, attrs, start, end, yes, before, after),
{
    let (v, a, r) = choose|v: Vec<u32>, a: Vec<&[u8]>, r: Vec<u8>| #[trigger]
        call_ensures(b, (before, context_id, &v, &a), (after, r)) && v@ == ids && a@.len()
            == some.len() && (forall|j: int| 0 <= j < some.len() ==> (#[trigger] a@[j])@ == some[j])
            && r@.len() == ids.len() && answers == crate::filter::verdicts_of(r@);
    assert(exists|v: Vec<u32>, a: Vec<&[u8]>, r: Vec<u8>| #[trigger]
        call_ensures(b, (before, context_id, &v, &a), (after, r)) && v@ == ids && a@.len()
            == some.len() && (forall|j: int| 0 <= j < some.len() ==> (#[trigger] a@[j])@ == some[j])
            && r@.len() == ids.len() && answers == crate::filter::verdicts_of(r@)) by {
        let (v, a, r) = choose|v: Vec<u32>, a: Vec<&[u8]>, r: Vec<u8>| #[trigger]
            call_ensures(b, (before, context_id, &v, &a), (after, r)) && v@ == ids
                && crate::filter::views_of(a@) == some && r@.len() == ids.len() && answers
                == crate::filter::verdicts_of(r@);
        assert(call_ensures(b, (before, context_id, &v, &a), (after, r)));
        assert forall|j: int| 0 <= j < some.len() implies (#[trigger] a@[j])@ == some[j] by {
            assert(crate::filter::views_of(a@)[j] == some[j]);
        }
    }
    assert(call_ensures(b, (before, context_id, &v, &a), (after, r)));
    assert forall|j: int| start <= j < end implies #[trigger] cs[j].id == v@[j - start] && a@[j
        - start]@ == attrs[j] && yes[j] == (r@[j - start] != 0) by {
        assert(ids[j - start] == cs[j].id);
        assert(a@[j - start]@ == some[j - start]);
        assert(answers[j - start] == yes[j]);
    }
}

/// How checks with attributes go.
pub proof fn lemma_attr<
    C,
    F: Fn(C, u64, u32) -> (C, u8),
    B: Fn(C, u64, &Vec<u32>) -> (C, Vec<u8>),
    G: Fn(C, u64, u32, &[u8]) -> (C, u8),
    H: Fn(C, u64, &Vec<u32>, &Vec<&[u8]>) -> (C, Vec<u8>),
>(
    callbacks: FilterCallbacks<F, B, G, H>,
    context_id: u64,
    size: usize,
    t: Tally,
    cap: nat,
    ps: Seq<PendingCandidate>,
    buffer: Seq<u8>,
    cs: Seq<Candidate>,
    attrs: Seq<Seq<u8>>,
    verdicts: Seq<bool>,
    hosts: Seq<C>,
) -> (w: Checks<C>)
    requires
        cap > 0,
        callbacks.attr_checks(context_id, size, t, cap, ps, buffer, verdicts, hosts),
        cs == crate::filter::candidates_of(ps),
        attrs == crate::filter::attrs_of(ps, buffer),
    ensures
        w.yes == verdicts,
        w.hosts == hosts,
        w.lists[0] == t.results,
        w.lists[cs.len() as int] == crate::filter::settle_first(
            t,
            cap,
            cs,
            verdicts,
            cs.len() as int,
        ).results,
        take_turns(w, cap, cs),
        attr_calls(callbacks, context_id, size, cap, cs, attrs, w),
        crate::filter::settle_first(t, cap, cs, verdicts, cs.len() as int).evals == t.evals
            + tried(w, cap, cs, cs.len() as int),
        crate::filter::settle_first(t, cap, cs, verdicts, cs.len() as int).passed == t.passed
            + agreed(w, cap, cs, cs.len() as int),
{
    let len = cs.len() as int;
    if size > 1 && callbacks.batch_filter_with_attr is Some {
        let w = Checks { yes: verdicts, hosts, lists: lists_of(t, cap, cs, verdicts) };
        lemma_turns(t, cap, cs, verdicts, w, len);
        let b = callbacks.batch_filter_with_attr->0;
        assert forall|start: int, end: int| #[trigger]
            is_run(start, end, size as int, len) implies one_attr_batch_call(
            b,
            context_id,
            cs,
            attrs,
            start,
            end,
            w.yes,
            w.hosts[start],
            w.hosts[end],
        ) by {
            assert(end == crate::filter::chunk_end(start, size as int, len));
            let ids = crate::filter::ids_of(cs).subrange(start, end);
            let some = attrs.subrange(start, end);
            let answers = verdicts.subrange(start, end);
            assert(crate::filter::asks_attr_batch(
                b,
                context_id,
                ids,
                some,
                answers,
                hosts[start],
                hosts[end],
            ));
            lemma_attr_batch(
                b,
                context_id,
                ids,
                some,
                answers,
                hosts[start],
                hosts[end],
                cs,
                attrs,
                w.yes,
                start,
                end,
            );
        }
        w
    } else if callbacks.filter_with_attr is Some {
        let w = Checks { yes: verdicts, hosts, lists: lists_of(t, cap, cs, verdicts) };
        lemma_turns(t, cap, cs, verdicts, w, len);
        assert forall|i: int| 0 <= i < cs.len() implies asked_alone_attr(
            callbacks.filter_with_attr->0,
            context_id,
            cap,
            w.lists[i],
            #[trigger] cs[i],
            attrs[i],
            w.yes[i],
            w.hosts[i],
            w.hosts[i + 1],
        ) by {
            lemma_beyond(w.lists[i], cap, cs[i]);
            let p = ps[i];
            assert(p.candidate == cs[i]);
        }
        w
    } else {
        lemma_plain(
            callbacks.filter,
            callbacks.batch_filter,
            context_id,
            size,
            t,
            cap,
            cs,
            verdicts,
            hosts,
        )
    }
}

/// Checks on some candidates: who is asked, in which calls and in which order,
/// what becomes of the list with each answer, and how many checks count.
pub proof fn law_filter_candidates_batch<
    C,
    F: Fn(C, u64, u32) -> (C, u8),
    B: Fn(C, u64, &Vec<u32>) -> (C, Vec<u8>),
>(
    host: C,
    context_id: u64,
    pending: Vec<Candidate>,
    f: F,
    b: Option<B>,
    size: usize,
    results: &mut FilteredResults,
    r: C,
)
    requires
        old(results).wf(),
        call_ensures(
            filter_candidates_batch::<C, F, B>,
            (host, context_id, &pending, &f, &b, size, results),
            r,
        ),
    ensures
        final(results).limit() == old(results).limit(),
        exists|w: Checks<C>|
            {
                &&& #[trigger] take_turns(w, old(results).limit(), pending@)
                &&& plain_calls(f, b, context_id, size, old(results).limit(), pending@, w)
                &&& leads(
                    w,
                    old(results).limit(),
                    pending@,
                    host,
                    r,
                    old(results)@,
                    final(results)@,
                )
            },
{
    let t = old(results)@;
    let cap = old(results).limit();
    let end = final(results)@;
    old(results).lemma_wf();
    let (verdicts, hosts) = choose|verdicts: Seq<bool>, hosts: Seq<C>|
        {
            &&& #[trigger] crate::filter::plain_checks(
                f,
                b,
                context_id,
                size,
                t,
                cap,
                pending@,
                verdicts,
                hosts,
            )
            &&& end == crate::filter::settle_first(
                t,
                cap,
                pending@,
                verdicts,
                pending@.len() as int,
            )
            &&& hosts[0] == host
            &&& hosts[pending@.len() as int] == r
        };
    let w = lemma_plain(f, b, context_id, size, t, cap, pending@, verdicts, hosts);
    assert(take_turns(w, cap, pending@));
}

/// Checks on some candidates with their attributes: as those without, and each
/// candidate is asked about with the bytes of the buffer that are its own.
pub proof fn law_filter_candidates_batch_with_attrs<
    C,
    F: Fn(C, u64, u32) -> (C, u8),
    B: Fn(C, u64, &Vec<u32>) -> (C, Vec<u8>),
    G: Fn(C, u64, u32, &[u8]) -> (C, u8),
    H: Fn(C, u64, &Vec<u32>, &Vec<&[u8]>) -> (C, Vec<u8>),
>(
    host: C,
    context_id: u64,
    pending: Vec<PendingCandidate>,
    buffer: Vec<u8>,
    callbacks: FilterCallbacks<F, B, G, H>,
    size: usize,
    results: &mut FilteredResults,
    r: C,
    cs: Seq<Candidate>,
    attrs: Seq<Seq<u8>>,
)
    requires
        old(results).wf(),
        call_ensures(
            filter_candidates_batch_with_attrs::<C, F, B, G, H>,
            (host, context_id, &pending, &buffer, &callbacks, size, results),
            r,
        ),
        cs.len() == pending@.len(),
        attrs.len() == pending@.len(),
        forall|i: int| 0 <= i < cs.len() ==> #[trigger] cs[i] == pending@[i].candidate,
        forall|i: int|
            0 <= i < attrs.len() ==> #[trigger] attrs[i] == if pending@[i].attr_len == 0 {
                Seq::empty()
            } else {
                buffer@.subrange(
                    pending@[i].attr_offset as int,
                    pending@[i].attr_offset + pending@[i].attr_len,
                )
            },
    ensures
        final(results).limit() == old(results).limit(),
        exists|w: Checks<C>|
            {
                &&& #[trigger] take_turns(w, old(results).limit(), cs)
                &&& attr_calls(callbacks, context_id, size, old(results).limit(), cs, attrs, w)
                &&& leads(w, old(results).limit(), cs, host, r, old(results)@, final(results)@)
            },
{
    let t = old(results)@;
    let cap = old(results).limit();
    let end = final(results)@;
    old(results).lemma_wf();
    assert(cs =~= crate::filter::candidates_of(pending@));
    assert(attrs =~= crate::filter::attrs_of(pending@, buffer@));
    let (verdicts, hosts) = choose|verdicts: Seq<bool>, hosts: Seq<C>|
        {
            &&& #[trigger] callbacks.attr_checks(
                context_id,
                size,
                t,
                cap,
                pending@,
                buffer@,
                verdicts,
                hosts,
            )
            &&& end == crate::filter::settle_first(
                t,
                cap,
                crate::filter::candidates_of(pending@),
                verdicts,
                pending@.len() as int,
            )
            &&& hosts[0] == host
            &&& hosts[pending@.len() as int] == r
        };
    let w = lemma_attr(
        callbacks,
        context_id,
        size,
        t,
        cap,
        pending@,
        buffer@,
        cs,
        attrs,
        verdicts,
        hosts,
    );
    assert(take_turns(w, cap, cs));
}

/// Candidates come in order, from the nearest on.
pub open spec fn nearest_first(cs: Seq<Candidate>) -> bool {
    forall|i: int, j: int|
        0 <= i < j < cs.len() ==> !crate::laws::distances::past(#[trigger] cs[i], #[trigger] cs[j])
}

/// `few` are the nearest `k` of `all`, or all of them if there are no more.
pub open spec fn are_nearest(
    few: Multiset<Candidate>,
    all: Multiset<Candidate>,
    k: nat,
) -> bool {
    &&& forall|x: Candidate| #[trigger] few.count(x) <= all.count(x)
    &&& few.len() == if all.len() < k {
        all.len()
    } else {
        k
    }
    &&& forall|x: Candidate, y: Candidate| #[trigger]
        few.count(x) > 0 && #[trigger] few.count(y) < all.count(y) ==> !crate::laws::distances::past(
            x,
            y,
        )
}

/// What the list knows to be nearest is nearest.
pub proof fn lemma_are_nearest(few: Multiset<Candidate>, all: Multiset<Candidate>, k: nat)
    requires
        crate::filter::nearest_of(few, all, k),
    ensures
        are_nearest(few, all, k),
{
    assert forall|x: Candidate, y: Candidate| #[trigger]
        few.count(x) > 0 && #[trigger] few.count(y) < all.count(y)
        implies !crate::laws::distances::past(x, y) by {
        assert(all.count(y) > few.count(y));
        crate::laws::distances::lemma_places(x, y);
    }
    assert forall|x: Candidate| #[trigger] few.count(x) <= all.count(x) by {}
}

/// Ascending candidates come in order.
pub proof fn lemma_nearest_first(cs: Seq<Candidate>)
    requires
        crate::filter::ascending(cs),
    ensures
        nearest_first(cs),
{
    assert forall|i: int, j: int| 0 <= i < j < cs.len() implies !crate::laws::distances::past(
        #[trigger] cs[i],
        #[trigger] cs[j],
    ) by {
        crate::laws::distances::lemma_places(cs[i], cs[j]);
    }
}

/// The candidates that a list gives back are the nearest of those kept, in order.
pub proof fn law_into_nearest(list: FilteredResults, k: usize, r: Vec<Candidate>)
    requires
        call_ensures(FilteredResults::into_nearest, (list, k), r),
    ensures
        nearest_first(r@),
        are_nearest(r@.to_multiset(), list@.results, k as nat),
{
    lemma_nearest_first(r@);
    lemma_are_nearest(r@.to_multiset(), list@.results, k as nat);
}

/// A new list is empty.
pub proof fn law_new_list(
    cap: usize,
    list: FilteredResults,
    len: usize,
    evals: u32,
    passed: u32,
    worst: Option<OrderedF32>,
)
    requires
        call_ensures(FilteredResults::new, (cap,), list),
        call_ensures(FilteredResults::len, (&list,), len),
        call_ensures(FilteredResults::filter_evals, (&list,), evals),
        call_ensures(FilteredResults::filter_passed, (&list,), passed),
        call_ensures(FilteredResults::worst, (&list,), worst),
    ensures
        list.limit() == cap,
        list@.results == Multiset::<Candidate>::empty(),
        len == 0,
        evals == 0,
        passed == 0,
        worst is None,
{
    broadcast use vstd::multiset::group_multiset_axioms;

}

/// A list tells how many candidates it keeps, how many checks counted and how
/// many passed, and the distance of its farthest candidate.
pub proof fn law_list_tells(
    list: FilteredResults,
    len: usize,
    evals: u32,
    passed: u32,
    worst: Option<OrderedF32>,
)
    requires
        call_ensures(FilteredResults::len, (&list,), len),
        call_ensures(FilteredResults::filter_evals, (&list,), evals),
        call_ensures(FilteredResults::filter_passed, (&list,), passed),
        call_ensures(FilteredResults::worst, (&list,), worst),
    ensures
        len == list@.results.len(),
        evals == list@.evals,
        passed == list@.passed,
        worst is None <==> list@.results.len() == 0,
        worst matches Some(d) ==> exists|c: Candidate| #[trigger]
            is_farthest(c, list@.results) && c.distance == d,
{
    if list@.results.len() > 0 {
        lemma_farthest(list@.results);
    }
}

/// The callbacks take attributes exactly if one of the two that do is there.
pub proof fn law_has_attr_callbacks<F, B, G, H>(
    callbacks: FilterCallbacks<F, B, G, H>,
    r: bool,
)
    requires
        call_ensures(FilterCallbacks::<F, B, G, H>::has_attr_callbacks, (&callbacks,), r),
    ensures
        r <==> callbacks.filter_with_attr is Some || callbacks.batch_filter_with_attr is Some,
{
}

/// Candidates are told apart from their attributes.
pub proof fn law_without_attrs(pending: Vec<PendingCandidate>, r: Vec<Candidate>)
    requires
        call_ensures(without_attrs, (&pending,), r),
    ensures
        r@.len() == pending@.len(),
        forall|i: int| 0 <= i < r@.len() ==> #[trigger] r@[i] == pending@[i].candidate,
{
}

} // verus!
