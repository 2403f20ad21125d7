//! Handing results over: what the caller's output takes, and what a search
//! reports.

use vstd::prelude::*;
use crate::candidate::Candidate;
use crate::ordered_f32::OrderedF32;

verus! {

/// Where results go. The output itself, of a type `O`, is passed along: the look
/// up of an external id and a push take the output and give it back.
pub struct Sink<X, P, L> {
    /// The external id of an internal one, of a type `E`, or an error.
    pub to_external_id: X,
    /// Pushes an external id with its distance, and says whether the output is
    /// full.
    pub push: P,
    /// How many results the output holds.
    pub current_len: L,
}

/// The sink can be called with anything.
pub open spec fn sink_usable<
    O,
    E,
    D,
    X: Fn(O, u32) -> (O, Result<E, D>),
    P: Fn(O, E, OrderedF32) -> (O, bool),
    L: Fn(&O) -> usize,
>(sink: Sink<X, P, L>) -> bool {
    &&& forall|o: O, id: u32| #[trigger] call_requires(sink.to_external_id, (o, id))
    &&& forall|o: O, e: E, d: OrderedF32| #[trigger] call_requires(sink.push, (o, e, d))
    &&& forall|o: O| #[trigger] call_requires(sink.current_len, (&o,))
}

/// Handing `c` over may turn `before` into `after`. The calls are these: one that
/// looks its external id up, and one that pushes it; `full` says whether that
/// filled the output. Where it has none, nothing is pushed.
pub open spec fn may_deliver<
    O,
    E,
    D,
    X: Fn(O, u32) -> (O, Result<E, D>),
    P: Fn(O, E, OrderedF32) -> (O, bool),
    L: Fn(&O) -> usize,
>(sink: Sink<X, P, L>, c: Candidate, before: O, after: O, full: Option<bool>) -> bool {
    exists|between: O, r: Result<E, D>|
        {
            &&& #[trigger] call_ensures(sink.to_external_id, (before, c.id), (between, r))
            &&& match r {
                Ok(e) => full is Some && call_ensures(
                    sink.push,
                    (between, e, c.distance),
                    (after, full->0),
                ),
                Err(_) => full is None && after == between,
            }
        }
}

/// Handing `c` over may turn `before` into `after`.
pub open spec fn delivers<
    O,
    E,
    D,
    X: Fn(O, u32) -> (O, Result<E, D>),
    P: Fn(O, E, OrderedF32) -> (O, bool),
    L: Fn(&O) -> usize,
>(sink: Sink<X, P, L>, c: Candidate, before: O, after: O) -> bool {
    exists|full: Option<bool>| may_deliver(sink, c, before, after, full)
}

/// Handing the first `n` candidates over, in order, may lead through `outs`.
pub open spec fn delivers_all<
    O,
    E,
    D,
    X: Fn(O, u32) -> (O, Result<E, D>),
    P: Fn(O, E, OrderedF32) -> (O, bool),
    L: Fn(&O) -> usize,
>(sink: Sink<X, P, L>, cs: Seq<Candidate>, n: int, outs: Seq<O>) -> bool {
    &&& outs.len() == n + 1
    &&& forall|i: int|
        0 <= i < n ==> delivers(sink, #[trigger] cs[i], outs[i], outs[i + 1])
}

/// Hands one candidate over. A candidate without an external id is passed over.
pub(crate) fn deliver<
    O,
    E,
    D,
    X: Fn(O, u32) -> (O, Result<E, D>),
    P: Fn(O, E, OrderedF32) -> (O, bool),
    L: Fn(&O) -> usize,
>(sink: &Sink<X, P, L>, output: O, c: Candidate) -> (r: (O, Option<bool>))
    requires
        sink_usable::<O, E, D, X, P, L>(*sink),
    ensures
        may_deliver(*sink, c, output, r.0, r.1),
{
    let ghost before = output;
    let (out, eid) = (sink.to_external_id)(output, c.id);
    let ghost between = out;
    assert(call_ensures(sink.to_external_id, (before, c.id), (between, eid)));
    match eid {
        Ok(e) => {
            let (after, full) = (sink.push)(out, e, c.distance);
            let r = (after, Some(full));
            assert(call_ensures(sink.push, (between, e, c.distance), (r.0, r.1->0)));
            r
        },
        Err(_) => (out, None),
    }
}

/// Hands candidates over, in order, whether the output fills or not.
pub(crate) fn deliver_all<
    O,
    E,
    D,
    X: Fn(O, u32) -> (O, Result<E, D>),
    P: Fn(O, E, OrderedF32) -> (O, bool),
    L: Fn(&O) -> usize,
>(sink: &Sink<X, P, L>, output: O, cs: &Vec<Candidate>) -> (r: O)
    requires
        sink_usable::<O, E, D, X, P, L>(*sink),
    ensures
        exists|outs: Seq<O>|
            #![trigger delivers_all(*sink, cs@, cs@.len() as int, outs)]
            delivers_all(*sink, cs@, cs@.len() as int, outs) && outs[0] == output
                && outs[cs@.len() as int] == r,
{
    let mut out = output;
    let ghost mut outs = seq![out];
    let mut i: usize = 0;
    while i < cs.len()
        invariant
            i <= cs@.len(),
            sink_usable::<O, E, D, X, P, L>(*sink),
            delivers_all(*sink, cs@, i as int, outs),
            outs[0] == output,
            outs[i as int] == out,
        decreases cs@.len() - i,
    {
        let c = cs[i];
        let (after, full) = deliver(sink, out, c);
        proof {
            let longer = outs.push(after);
            assert forall|j: int| 0 <= j < i + 1 implies delivers(
                *sink,
                #[trigger] cs@[j],
                longer[j],
                longer[j + 1],
            ) by {
                if j < i {
                    assert(delivers(*sink, cs@[j], outs[j], outs[j + 1]));
                } else {
                    assert(may_deliver(*sink, c, out, after, full));
                }
            }
            outs = longer;
        }
        out = after;
        i = i + 1;
    }
    out
}

} // verus!
