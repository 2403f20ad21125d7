//! What filtering during a traversal is for: both predicates must agree, what the
//! callback rejects is dropped, and what is left is copied until the output is full.

use vstd::prelude::*;
use crate::candidate::Candidate;
use crate::hybrid::{CallbackFilterPrecision, ComposedPredicate, CopyExternalIds};
use crate::ordered_f32::OrderedF32;
use crate::output::Sink;

verus! {

/// A composed predicate asks both: the callback of the strategy, in its context,
/// and the outer one.
pub proof fn law_compose<P, F>(
    strategy: CallbackFilterPrecision<F>,
    outer: P,
    r: ComposedPredicate<'_, P, F>,
)
    requires
        call_ensures(CallbackFilterPrecision::<F>::compose::<P>, (&strategy, outer), r),
    ensures
        r.outer == outer,
        *r.callback == strategy.callback,
        r.context_raw == strategy.context_raw,
{
}

/// The callback is asked about an id first. If it answers zero, the answer is no,
/// and nothing else is asked; else the outer predicate has the last word.
pub proof fn law_eval<
    'a,
    C,
    P: Fn(C, u32) -> (C, bool),
    F: Fn(C, u64, u32) -> (C, u8),
>(p: ComposedPredicate<'a, P, F>, host: C, item: u32, r: (C, bool)) -> (t: (u8, C))
    requires
        call_ensures(ComposedPredicate::<'a, P, F>::eval::<C>, (&p, host, item), r),
    ensures
        call_ensures(*p.callback, (host, p.context_raw, item), (t.1, t.0)),
        t.0 == 0 ==> r == (t.1, false),
        t.0 != 0 ==> call_ensures(p.outer, (t.1, item), r),
{
    let (passes, asked) = choose|passes: bool, asked: C|
        {
            &&& #[trigger] crate::filter::asks(
                *p.callback,
                p.context_raw,
                item,
                passes,
                host,
                asked,
            )
            &&& if passes {
                call_ensures(p.outer, (asked, item), r)
            } else {
                r == (asked, false)
            }
        };
    let byte = choose|byte: u8| #[trigger]
        call_ensures(*p.callback, (host, p.context_raw, item), (asked, byte)) && passes == (byte
            != 0);
    (byte, asked)
}

/// The same with an outer predicate that remembers: what it remembers is as it was
/// where it is not asked.
pub proof fn law_eval_mut<
    'a,
    C,
    V,
    P: Fn(C, V, u32) -> (C, V, bool),
    F: Fn(C, u64, u32) -> (C, u8),
>(
    p: ComposedPredicate<'a, P, F>,
    host: C,
    memory: V,
    item: u32,
    r: (C, V, bool),
) -> (t: (u8, C))
    requires
        call_ensures(
            ComposedPredicate::<'a, P, F>::eval_mut::<C, V>,
            (&p, host, memory, item),
            r,
        ),
    ensures
        call_ensures(*p.callback, (host, p.context_raw, item), (t.1, t.0)),
        t.0 == 0 ==> r == (t.1, memory, false),
        t.0 != 0 ==> call_ensures(p.outer, (t.1, memory, item), r),
{
    let (passes, asked) = choose|passes: bool, asked: C|
        {
            &&& #[trigger] crate::filter::asks(
                *p.callback,
                p.context_raw,
                item,
                passes,
                host,
                asked,
            )
            &&& if passes {
                call_ensures(p.outer, (asked, memory, item), r)
            } else {
                r == (asked, memory, false)
            }
        };
    let byte = choose|byte: u8| #[trigger]
        call_ensures(*p.callback, (host, p.context_raw, item), (asked, byte)) && passes == (byte
            != 0);
    (byte, asked)
}

/// The few are the candidates at these places, which are in order.
pub open spec fn are_picked(few: Seq<Candidate>, all: Seq<Candidate>, at: Seq<int>) -> bool {
    &&& at.len() == few.len()
    &&& forall|j: int|
        0 <= j < at.len() ==> 0 <= #[trigger] at[j] < all.len() && few[j] == all[at[j]]
    &&& forall|i: int, j: int| 0 <= i < j < at.len() ==> #[trigger] at[i] < #[trigger] at[j]
}

/// What a filter of candidates did: the callback was asked about each, once, in
/// order, and those stay, in order, on which it said yes. `at` has their places.
pub struct Picking<C> {
    pub yes: Seq<bool>,
    pub hosts: Seq<C>,
    pub at: Seq<int>,
}

/// The callback was asked about each candidate, and those on which it said yes are
/// the few.
pub open spec fn picks<C, F: Fn(C, u64, u32) -> (C, u8)>(
    f: F,
    context: u64,
    all: Seq<Candidate>,
    few: Seq<Candidate>,
    host: C,
    then_host: C,
    w: Picking<C>,
) -> bool {
    let n = all.len() as int;
    &&& w.yes.len() == n
    &&& w.hosts.len() == n + 1
    &&& w.hosts[0] == host
    &&& w.hosts[n] == then_host
    &&& forall|i: int|
        0 <= i < n ==> crate::laws::checks::one_call(
            f,
            context,
            #[trigger] all[i],
            w.yes[i],
            w.hosts[i],
            w.hosts[i + 1],
        )
    &&& are_picked(few, all, w.at)
    &&& forall|i: int| 0 <= i < n ==> (#[trigger] w.yes[i] <==> w.at.contains(i))
}

proof fn lemma_kept(cs: Seq<Candidate>, yes: Seq<bool>, n: int) -> (at: Seq<int>)
    requires
        0 <= n <= cs.len(),
        yes.len() == cs.len(),
    ensures
        are_picked(crate::hybrid::kept(cs, yes, n), cs, at),
        forall|j: int| 0 <= j < at.len() ==> #[trigger] at[j] < n,
        forall|i: int| 0 <= i < n ==> (#[trigger] yes[i] <==> at.contains(i)),
    decreases n,
{
    if n <= 0 {
        Seq::empty()
    } else {
        let before = lemma_kept(cs, yes, n - 1);
        if yes[n - 1] {
            let at = before.push(n - 1);
            assert forall|i: int| 0 <= i < n implies (#[trigger] yes[i] <==> at.contains(i)) by {
                if i < n - 1 {
                    if yes[i] {
                        let j = choose|j: int| 0 <= j < before.len() && before[j] == i;
                        assert(at[j] == i);
                    } else if at.contains(i) {
                        let j = choose|j: int| 0 <= j < at.len() && at[j] == i;
                        assert(before[j] == i);
                    }
                } else {
                    assert(at[before.len() as int] == i);
                }
            }
            at
        } else {
            assert(!before.contains(n - 1));
            before
        }
    }
}

/// A filter of candidates drops exactly those on which the callback says no, and
/// keeps the order of the others.
pub proof fn law_post_filter<C, F: Fn(C, u64, u32) -> (C, u8)>(
    strategy: CallbackFilterPrecision<F>,
    host: C,
    candidates: Vec<Candidate>,
    r: (C, Vec<Candidate>),
) -> (w: Picking<C>)
    requires
        call_ensures(
            CallbackFilterPrecision::<F>::post_filter::<C>,
            (&strategy, host, &candidates),
            r,
        ),
    ensures
        picks(
            strategy.callback,
            strategy.context_raw,
            candidates@,
            r.1@,
            host,
            r.0,
            w,
        ),
{
    let cs = candidates@;
    let n = cs.len() as int;
    let f = strategy.callback;
    let context = strategy.context_raw;
    let (yes, hosts) = choose|verdicts: Seq<bool>, hosts: Seq<C>|
        {
            &&& #[trigger] crate::hybrid::all_asked(f, context, cs, verdicts, hosts)
            &&& hosts[0] == host
            &&& hosts[cs.len() as int] == r.0
            &&& r.1@ == crate::hybrid::kept(cs, verdicts, cs.len() as int)
        };
    let at = lemma_kept(cs, yes, n);
    assert forall|i: int| 0 <= i < n implies crate::laws::checks::one_call(
        f,
        context,
        #[trigger] cs[i],
        yes[i],
        hosts[i],
        hosts[i + 1],
    ) by {
        let byte = choose|byte: u8| #[trigger]
            call_ensures(f, (hosts[i], context, cs[i].id), (hosts[i + 1], byte)) && yes[i] == (
            byte != 0);
        assert(call_ensures(f, (hosts[i], context, cs[i].id), (hosts[i + 1], byte)));
    }
    Picking { yes, hosts, at }
}

/// The copying of results: how many were copied, the outputs between them, and
/// whether the last one filled the output.
pub struct Copying<O> {
    pub outs: Seq<O>,
    pub full: bool,
}

/// Candidates are copied in order, each under its external id and with its own
/// distance. The copying ends when all are copied or the output is full, with the
/// number of results that came in; or with the error of the first candidate
/// without an external id.
pub open spec fn copies<
    O,
    E,
    D,
    X: Fn(O, u32) -> (O, Result<E, D>),
    P: Fn(O, E, OrderedF32) -> (O, bool),
    L: Fn(&O) -> usize,
>(
    sink: Sink<X, P, L>,
    cs: Seq<Candidate>,
    output: O,
    r: (O, Result<usize, D>),
    w: Copying<O>,
) -> bool {
    let n = w.outs.len() - 1;
    &&& 0 <= n <= cs.len()
    &&& w.outs[0] == output
    &&& w.full ==> n > 0
    &&& forall|i: int|
        0 <= i < n ==> crate::laws::outputs::goes_out(
            sink,
            #[trigger] cs[i],
            w.outs[i],
            w.outs[i + 1],
            Some(w.full && i == n - 1),
        )
    &&& match r.1 {
        Ok(count) => {
            &&& n == cs.len() || w.full
            &&& r.0 == w.outs[n]
            &&& came_in(sink, output, r.0, count)
        },
        Err(e) => {
            &&& n < cs.len()
            &&& !w.full
            &&& call_ensures(sink.to_external_id, (w.outs[n], cs[n].id), (r.0, Err::<E, D>(e)))
        },
    }
}

/// So many results came in between two outputs.
pub open spec fn came_in<O, X, P, L: Fn(&O) -> usize>(
    sink: Sink<X, P, L>,
    before: O,
    after: O,
    count: usize,
) -> bool {
    exists|first: usize, last: usize|
        #![trigger call_ensures(sink.current_len, (&before,), first), call_ensures(
            sink.current_len,
            (&after,),
            last,
        )]
        call_ensures(sink.current_len, (&before,), first) && call_ensures(
            sink.current_len,
            (&after,),
            last,
        ) && first + count == last
}

/// What the copying of results does.
pub proof fn law_post_process<
    O,
    E,
    D,
    X: Fn(O, u32) -> (O, Result<E, D>),
    P: Fn(O, E, OrderedF32) -> (O, bool),
    L: Fn(&O) -> usize,
>(
    copier: CopyExternalIds,
    candidates: Vec<Candidate>,
    sink: Sink<X, P, L>,
    output: O,
    r: (O, Result<usize, D>),
) -> (w: Copying<O>)
    requires
        call_ensures(
            CopyExternalIds::post_process::<O, E, D, X, P, L>,
            (&copier, &candidates, &sink, output),
            r,
        ),
    ensures
        copies(sink, candidates@, output, r, w),
{
    let cs = candidates@;
    let (n, outs, full) = choose|n: int, outs: Seq<O>, full: bool| #[trigger]
        crate::hybrid::copying_ends(sink, cs, n, outs, full, r) && outs[0] == output;
    assert forall|i: int| 0 <= i < n implies crate::laws::outputs::goes_out(
        sink,
        #[trigger] cs[i],
        outs[i],
        outs[i + 1],
        Some(full && i == n - 1),
    ) by {
        crate::laws::outputs::lemma_goes_out(
            sink,
            cs[i],
            outs[i],
            outs[i + 1],
            Some(full && i == n - 1),
        );
    }
    if r.1 is Ok {
        let count = r.1->Ok_0;
        let (first, last) = choose|first: usize, last: usize|
            #![trigger call_ensures(sink.current_len, (&outs[0],), first), call_ensures(
                sink.current_len,
                (&outs[n],),
                last,
            )]
            call_ensures(sink.current_len, (&outs[0],), first) && call_ensures(
                sink.current_len,
                (&outs[n],),
                last,
            ) && count == last - first;
        assert(call_ensures(sink.current_len, (&output,), first));
        assert(call_ensures(sink.current_len, (&r.0,), last));
    }
    Copying { outs, full }
}

} // verus!
