//! Filtering during traversal: a callback joined to the traversal's own
//! predicate, and the copying of what the traversal found.

use vstd::prelude::*;
use crate::candidate::Candidate;
use crate::ordered_f32::OrderedF32;
use crate::output::Sink;

verus! {

/// A search strategy that asks a callback about every neighbor before it joins
/// the frontier, and once more about every result before it is copied.
pub struct CallbackFilterPrecision<F> {
    pub context_raw: u64,
    pub callback: F,
    pub max_effort: usize,
}

impl<F> CallbackFilterPrecision<F> {
    /// Joins the callback to the traversal's predicate.
    pub fn compose<P>(&self, outer: P) -> (r: ComposedPredicate<'_, P, F>)
        ensures
            r.outer == outer,
            *r.callback == self.callback,
            r.context_raw == self.context_raw,
    {
        ComposedPredicate { outer, callback: &self.callback, context_raw: self.context_raw }
    }

    /// Drops the candidates that the callback rejects. Asks about each one once,
    /// in order. Gives the host back as the calls left it.
    pub fn post_filter<C>(&self, host: C, candidates: &Vec<Candidate>) -> (r: (C, Vec<Candidate>))
        where
            F: Fn(C, u64, u32) -> (C, u8),
        requires
            forall|h: C, i: int|
                #![trigger call_requires(self.callback, (h, self.context_raw, candidates@[i].id))]
                0 <= i < candidates@.len() ==> call_requires(
                    self.callback,
                    (h, self.context_raw, candidates@[i].id),
                ),
        ensures
            exists|verdicts: Seq<bool>, hosts: Seq<C>|
                {
                    &&& #[trigger] all_asked(
                        self.callback,
                        self.context_raw,
                        candidates@,
                        verdicts,
                        hosts,
                    )
                    &&& hosts[0] == host
                    &&& hosts[candidates@.len() as int] == r.0
                    &&& r.1@ == kept(candidates@, verdicts, candidates@.len() as int)
                },
    {
        let mut few: Vec<Candidate> = Vec::new();
        let ghost mut verdicts = Seq::<bool>::empty();
        let ghost mut hosts = seq![host];
        let mut at = host;
        let mut i: usize = 0;
        while i < candidates.len()
            invariant
                i <= candidates@.len(),
                verdicts.len() == i,
                hosts.len() == i + 1,
                hosts[0] == host,
                hosts[i as int] == at,
                forall|h: C, i: int|
                    #![trigger call_requires(self.callback, (h, self.context_raw, candidates@[i].id))]
                    0 <= i < candidates@.len() ==> call_requires(
                        self.callback,
                        (h, self.context_raw, candidates@[i].id),
                    ),
                forall|j: int|
                    0 <= j < i ==> crate::filter::asks(
                        self.callback,
                        self.context_raw,
                        (#[trigger] candidates@[j]).id,
                        verdicts[j],
                        hosts[j],
                        hosts[j + 1],
                    ),
                few@ == kept(candidates@, verdicts, i as int),
            decreases candidates@.len() - i,
        {
            let c = candidates[i];
            let ghost before = at;
            let ghost trail = hosts;
            assert(call_requires(
                self.callback,
                (at, self.context_raw, candidates@[i as int].id),
            ));
            let (after, answer) = (self.callback)(at, self.context_raw, c.id);
            at = after;
            let passes = answer != 0;
            proof {
                let more = verdicts.push(passes);
                let known = verdicts;
                assert(call_ensures(
                    self.callback,
                    (before, self.context_raw, c.id),
                    (after, answer),
                ));
                assert(crate::filter::asks(
                    self.callback,
                    self.context_raw,
                    c.id,
                    passes,
                    before,
                    after,
                ));
                lemma_kept_frame(candidates@, verdicts, more, i as int);
                verdicts = more;
                hosts = trail.push(after);
                assert forall|j: int| 0 <= j < i + 1 implies crate::filter::asks(
                    self.callback,
                    self.context_raw,
                    (#[trigger] candidates@[j]).id,
                    verdicts[j],
                    hosts[j],
                    hosts[j + 1],
                ) by {
                    if j < i {
                        let same = candidates@[j];
                        assert(verdicts[j] == known[j]);
                        assert(hosts[j] == trail[j] && hosts[j + 1] == trail[j + 1]);
                    }
                }
            }
            if passes {
                few.push(c);
            }
            i = i + 1;
        }
        assert(all_asked(self.callback, self.context_raw, candidates@, verdicts, hosts));
        (at, few)
    }
}

/// The first `n` candidates without the ones whose outcome is a rejection.
pub open spec fn kept(cs: Seq<Candidate>, verdicts: Seq<bool>, n: int) -> Seq<Candidate>
    decreases n,
{
    if n <= 0 {
        Seq::empty()
    } else if verdicts[n - 1] {
        kept(cs, verdicts, n - 1).push(cs[n - 1])
    } else {
        kept(cs, verdicts, n - 1)
    }
}

/// The calls are these: one of the callback for each candidate, in order. They
/// lead the host through `hosts`.
pub open spec fn all_asked<C, F: Fn(C, u64, u32) -> (C, u8)>(
    callback: F,
    context_raw: u64,
    cs: Seq<Candidate>,
    verdicts: Seq<bool>,
    hosts: Seq<C>,
) -> bool {
    &&& verdicts.len() == cs.len()
    &&& hosts.len() == cs.len() + 1
    &&& forall|i: int|
        0 <= i < cs.len() ==> crate::filter::asks(
            callback,
            context_raw,
            (#[trigger] cs[i]).id,
            verdicts[i],
            hosts[i],
            hosts[i + 1],
        )
}

/// Only the first `n` outcomes matter to the first `n` candidates.
pub proof fn lemma_kept_frame(cs: Seq<Candidate>, v: Seq<bool>, w: Seq<bool>, n: int)
    requires
        forall|i: int| 0 <= i < n ==> v[i] == w[i],
    ensures
        kept(cs, v, n) == kept(cs, w, n),
    decreases n,
{
    if n > 0 {
        lemma_kept_frame(cs, v, w, n - 1);
    }
}

/// One of the callback's answers, among the calls that were made, is a yes on
/// `id`.
pub open spec fn said_yes<C, F: Fn(C, u64, u32) -> (C, u8)>(
    callback: F,
    context_raw: u64,
    hosts: Seq<C>,
    id: u32,
) -> bool {
    exists|i: int|
        0 <= i < hosts.len() - 1 && #[trigger] crate::filter::asks(
            callback,
            context_raw,
            id,
            true,
            hosts[i],
            hosts[i + 1],
        )
}

/// What is kept after the callback was asked has passed it.
pub proof fn lemma_kept_pass<C, F: Fn(C, u64, u32) -> (C, u8)>(
    callback: F,
    context_raw: u64,
    cs: Seq<Candidate>,
    verdicts: Seq<bool>,
    hosts: Seq<C>,
    n: int,
)
    requires
        all_asked(callback, context_raw, cs, verdicts, hosts),
        0 <= n <= cs.len(),
    ensures
        forall|i: int|
            0 <= i < kept(cs, verdicts, n).len() ==> said_yes(
                callback,
                context_raw,
                hosts,
                (#[trigger] kept(cs, verdicts, n)[i]).id,
            ),
        kept(cs, verdicts, n).len() <= n,
    decreases n,
{
    if n > 0 {
        lemma_kept_pass(callback, context_raw, cs, verdicts, hosts, n - 1);
        let c = cs[n - 1];
        assert(crate::filter::asks(
            callback,
            context_raw,
            c.id,
            verdicts[n - 1],
            hosts[n - 1],
            hosts[n - 1 + 1],
        ));
        let before = kept(cs, verdicts, n - 1);
        let after = kept(cs, verdicts, n);
        assert forall|i: int| 0 <= i < after.len() implies said_yes(
            callback,
            context_raw,
            hosts,
            (#[trigger] after[i]).id,
        ) by {
            if i < before.len() {
                assert(after[i] == before[i]);
            }
        }
    }
}

/// Two predicates in one: the callback, and where it agrees the outer one.
pub struct ComposedPredicate<'a, P, F> {
    pub outer: P,
    pub callback: &'a F,
    pub context_raw: u64,
}

impl<'a, P, F> ComposedPredicate<'a, P, F> {
    /// Whether both predicates accept an id. The callback is asked first, once;
    /// the outer predicate is asked next, once, where the callback agrees, and
    /// not at all where it rejects. Gives the host back as the calls left it.
    pub fn eval<C>(&self, host: C, item: u32) -> (r: (C, bool))
        where
            F: Fn(C, u64, u32) -> (C, u8),
            P: Fn(C, u32) -> (C, bool),
        requires
            call_requires(*self.callback, (host, self.context_raw, item)),
            forall|h: C| #[trigger] call_requires(self.outer, (h, item)),
        ensures
            exists|passes: bool, asked: C|
                {
                    &&& #[trigger] crate::filter::asks(
                        *self.callback,
                        self.context_raw,
                        item,
                        passes,
                        host,
                        asked,
                    )
                    &&& if passes {
                        call_ensures(self.outer, (asked, item), r)
                    } else {
                        r == (asked, false)
                    }
                },
    {
        let ghost before = host;
        let (asked, answer) = (self.callback)(host, self.context_raw, item);
        let passes = answer != 0;
        proof {
            assert(call_ensures(
                *self.callback,
                (before, self.context_raw, item),
                (asked, answer),
            ));
            assert(crate::filter::asks(
                *self.callback,
                self.context_raw,
                item,
                passes,
                before,
                asked,
            ));
        }
        if passes {
            (self.outer)(asked, item)
        } else {
            (asked, false)
        }
    }

    /// Whether both predicates accept an id, as `eval` does. The outer one
    /// passes what it remembers along, and forgets nothing where the callback
    /// rejects.
    pub fn eval_mut<C, V>(&self, host: C, memory: V, item: u32) -> (r: (C, V, bool))
        where
            F: Fn(C, u64, u32) -> (C, u8),
            P: Fn(C, V, u32) -> (C, V, bool),
        requires
            call_requires(*self.callback, (host, self.context_raw, item)),
            forall|h: C| #[trigger] call_requires(self.outer, (h, memory, item)),
        ensures
            exists|passes: bool, asked: C|
                {
                    &&& #[trigger] crate::filter::asks(
                        *self.callback,
                        self.context_raw,
                        item,
                        passes,
                        host,
                        asked,
                    )
                    &&& if passes {
                        call_ensures(self.outer, (asked, memory, item), r)
                    } else {
                        r == (asked, memory, false)
                    }
                },
    {
        let ghost before = host;
        let (asked, answer) = (self.callback)(host, self.context_raw, item);
        let passes = answer != 0;
        proof {
            assert(call_ensures(
                *self.callback,
                (before, self.context_raw, item),
                (asked, answer),
            ));
            assert(crate::filter::asks(
                *self.callback,
                self.context_raw,
                item,
                passes,
                before,
                asked,
            ));
        }
        if passes {
            (self.outer)(asked, memory, item)
        } else {
            (asked, memory, false)
        }
    }
}

/// The copying of results to the output under their external ids.
pub struct CopyExternalIds;

/// `size` is how many results an output holds, and neither a push nor the look up
/// of an external id lowers it.
pub open spec fn keeps_results<
    O,
    E,
    D,
    X: Fn(O, u32) -> (O, Result<E, D>),
    P: Fn(O, E, OrderedF32) -> (O, bool),
    L: Fn(&O) -> usize,
>(sink: Sink<X, P, L>, size: spec_fn(O) -> usize) -> bool {
    &&& forall|o: O, len: usize| #[trigger]
        call_ensures(sink.current_len, (&o,), len) ==> len == size(o)
    &&& forall|o: O, e: E, d: OrderedF32, after: O, full: bool| #[trigger]
        call_ensures(sink.push, (o, e, d), (after, full)) ==> size(o) <= size(after)
    &&& forall|o: O, id: u32, after: O, r: Result<E, D>| #[trigger]
        call_ensures(sink.to_external_id, (o, id), (after, r)) ==> size(o) <= size(after)
}

/// The first `n` candidates were copied, in order, which led through `outs`;
/// `full` says whether the last of them filled the output.
pub open spec fn copies<
    O,
    E,
    D,
    X: Fn(O, u32) -> (O, Result<E, D>),
    P: Fn(O, E, OrderedF32) -> (O, bool),
    L: Fn(&O) -> usize,
>(sink: Sink<X, P, L>, cs: Seq<Candidate>, n: int, outs: Seq<O>, full: bool) -> bool {
    &&& 0 <= n <= cs.len()
    &&& outs.len() == n + 1
    &&& full ==> n > 0
    &&& forall|i: int|
        0 <= i < n ==> crate::output::may_deliver(
            sink,
            #[trigger] cs[i],
            outs[i],
            outs[i + 1],
            Some(full && i == n - 1),
        )
}

/// The copying ends when all candidates are copied or the output is full, with
/// the number of results it added; or with the error of the first candidate
/// without an external id.
pub open spec fn copying_ends<
    O,
    E,
    D,
    X: Fn(O, u32) -> (O, Result<E, D>),
    P: Fn(O, E, OrderedF32) -> (O, bool),
    L: Fn(&O) -> usize,
>(
    sink: Sink<X, P, L>,
    cs: Seq<Candidate>,
    n: int,
    outs: Seq<O>,
    full: bool,
    r: (O, Result<usize, D>),
) -> bool {
    &&& copies(sink, cs, n, outs, full)
    &&& match r.1 {
        Ok(count) => (n == cs.len() || full) && r.0 == outs[n] && exists|initial: usize, len: usize|
            #![trigger call_ensures(sink.current_len, (&outs[0],), initial), call_ensures(
                sink.current_len,
                (&outs[n],),
                len,
            )]
            call_ensures(sink.current_len, (&outs[0],), initial) && call_ensures(
                sink.current_len,
                (&outs[n],),
                len,
            ) && count == len - initial,
        Err(e) => n < cs.len() && !full && call_ensures(
            sink.to_external_id,
            (outs[n], cs[n].id),
            (r.0, Err(e)),
        ),
    }
}

impl CopyExternalIds {
    /// Copies candidates to the output, in order, until it is full.
    pub fn post_process<
        O,
        E,
        D,
        X: Fn(O, u32) -> (O, Result<E, D>),
        P: Fn(O, E, OrderedF32) -> (O, bool),
        L: Fn(&O) -> usize,
    >(&self, candidates: &Vec<Candidate>, sink: &Sink<X, P, L>, output: O) -> (r: (
        O,
        Result<usize, D>,
    ))
        requires
            crate::output::sink_usable::<O, E, D, X, P, L>(*sink),
            exists|size: spec_fn(O) -> usize| keeps_results(*sink, size),
        ensures
            exists|n: int, outs: Seq<O>, full: bool| #[trigger]
                copying_ends(*sink, candidates@, n, outs, full, r) && outs[0] == output,
    {
        let ghost size = choose|size: spec_fn(O) -> usize| keeps_results(*sink, size);
        let initial = (sink.current_len)(&output);
        let mut out = output;
        let mut i: usize = 0;
        let mut full = false;
        let ghost mut outs = seq![output];
        while i < candidates.len() && !full
            invariant
                crate::output::sink_usable::<O, E, D, X, P, L>(*sink),
                keeps_results(*sink, size),
                copies(*sink, candidates@, i as int, outs, full),
                outs[0] == output,
                outs[i as int] == out,
                size(output) <= size(out),
            decreases candidates@.len() - i,
        {
            let c = candidates[i];
            let ghost before = out;
            let (found, eid) = (sink.to_external_id)(out, c.id);
            let ghost between = found;
            assert(call_ensures(sink.to_external_id, (before, c.id), (between, eid)));
            match eid {
                Err(e) => {
                    let r: (O, Result<usize, D>) = (found, Err(e));
                    assert(call_ensures(
                        sink.to_external_id,
                        (outs[i as int], candidates@[i as int].id),
                        (r.0, Err(e)),
                    ));
                    assert(copying_ends(*sink, candidates@, i as int, outs, full, r));
                    return r;
                },
                Ok(e) => {
                    let (after, is_full) = (sink.push)(found, e, c.distance);
                    proof {
                        assert(call_ensures(
                            sink.push,
                            (between, e, c.distance),
                            (after, is_full),
                        ));
                        assert(crate::output::may_deliver(*sink, c, before, after, Some(is_full)));
                        let longer = outs.push(after);
                        let n = i + 1;
                        assert forall|j: int| 0 <= j < n implies crate::output::may_deliver(
                            *sink,
                            #[trigger] candidates@[j],
                            longer[j],
                            longer[j + 1],
                            Some(is_full && j == n - 1),
                        ) by {
                            if j < i {
                                let same = candidates@[j];
                                assert(longer[j] == outs[j] && longer[j + 1] == outs[j + 1]);
                            }
                        }
                        outs = longer;
                    }
                    out = after;
                    full = is_full;
                },
            }
            i = i + 1;
        }
        let len = (sink.current_len)(&out);
        let r: (O, Result<usize, D>) = (out, Ok(len - initial));
        assert(copying_ends(*sink, candidates@, i as int, outs, full, r));
        r
    }
}

} // verus!
