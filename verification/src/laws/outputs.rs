//! What handing results over is for: each goes to the output under its external
//! id, in order, and what has none is passed over.

use vstd::prelude::*;
use crate::candidate::Candidate;
use crate::ordered_f32::OrderedF32;
use crate::output::Sink;
use crate::report::SearchStats;

verus! {

/// One candidate goes to the output: its external id is looked up, and pushed with
/// its distance; `full` is what the push says. Where there is no external id
/// nothing is pushed.
pub open spec fn goes_out<
    O,
    E,
    D,
    X: Fn(O, u32) -> (O, Result<E, D>),
    P: Fn(O, E, OrderedF32) -> (O, bool),
    L,
>(sink: Sink<X, P, L>, c: Candidate, before: O, after: O, full: Option<bool>) -> bool {
    exists|between: O, r: Result<E, D>|
        {
            &&& #[trigger] call_ensures(sink.to_external_id, (before, c.id), (between, r))
            &&& match r {
                Ok(e) => full matches Some(b) && call_ensures(
                    sink.push,
                    (between, e, c.distance),
                    (after, b),
                ),
                Err(_) => full is None && after == between,
            }
        }
}

/// One candidate goes to the output, whatever the push says.
pub open spec fn goes<
    O,
    E,
    D,
    X: Fn(O, u32) -> (O, Result<E, D>),
    P: Fn(O, E, OrderedF32) -> (O, bool),
    L,
>(sink: Sink<X, P, L>, c: Candidate, before: O, after: O) -> bool {
    exists|full: Option<bool>| goes_out(sink, c, before, after, full)
}

/// Candidates go to the output in order, each once.
pub open spec fn all_go_out<
    O,
    E,
    D,
    X: Fn(O, u32) -> (O, Result<E, D>),
    P: Fn(O, E, OrderedF32) -> (O, bool),
    L,
>(sink: Sink<X, P, L>, cs: Seq<Candidate>, outs: Seq<O>) -> bool {
    &&& outs.len() == cs.len() + 1
    &&& forall|i: int| 0 <= i < cs.len() ==> goes(sink, #[trigger] cs[i], outs[i], outs[i + 1])
}

/// Statistics hold what was counted, and how many results the output holds, as far
/// as 32 bits hold it.
pub open spec fn stats_are<O, X, P, L: Fn(&O) -> usize>(
    sink: Sink<X, P, L>,
    output: O,
    comparisons: int,
    hops: int,
    stats: SearchStats,
) -> bool {
    &&& stats.cmps == comparisons
    &&& stats.hops == hops
    &&& !stats.range_search_second_round
    &&& exists|len: usize, over: int| #[trigger]
        call_ensures(sink.current_len, (&output,), len) && #[trigger] carried(over) + stats.result_count
            == len
}

/// What does not fit into 32 bits.
pub open spec fn carried(over: int) -> int {
    over * 0x1_0000_0000
}

pub proof fn lemma_goes_out<
    O,
    E,
    D,
    X: Fn(O, u32) -> (O, Result<E, D>),
    P: Fn(O, E, OrderedF32) -> (O, bool),
    L: Fn(&O) -> usize,
>(sink: Sink<X, P, L>, c: Candidate, before: O, after: O, full: Option<bool>)
    requires
        crate::output::may_deliver(sink, c, before, after, full),
    ensures
        goes_out(sink, c, before, after, full),
{
}

pub proof fn lemma_all_go_out<
    O,
    E,
    D,
    X: Fn(O, u32) -> (O, Result<E, D>),
    P: Fn(O, E, OrderedF32) -> (O, bool),
    L: Fn(&O) -> usize,
>(sink: Sink<X, P, L>, cs: Seq<Candidate>, outs: Seq<O>)
    requires
        crate::output::delivers_all(sink, cs, cs.len() as int, outs),
    ensures
        all_go_out(sink, cs, outs),
{
    assert forall|i: int| 0 <= i < cs.len() implies goes(
        sink,
        #[trigger] cs[i],
        outs[i],
        outs[i + 1],
    ) by {
        let c = cs[i];
        let full = choose|full: Option<bool>|
            #[trigger] crate::output::may_deliver(sink, c, outs[i], outs[i + 1], full);
        lemma_goes_out(sink, c, outs[i], outs[i + 1], full);
    }
}

pub proof fn lemma_stats<O, X, P, L: Fn(&O) -> usize>(
    sink: Sink<X, P, L>,
    output: O,
    len: usize,
    comparisons: int,
    hops: int,
    stats: SearchStats,
)
    requires
        call_ensures(sink.current_len, (&output,), len),
        stats.tells(comparisons, hops, len),
    ensures
        stats_are(sink, output, comparisons, hops, stats),
{
    let over = len as int / 0x1_0000_0000;
    assert(carried(over) + stats.result_count == len);
}

/// New statistics hold the counts, and the length as far as 32 bits hold it.
pub proof fn law_new_stats(comparisons: u32, hops: u32, len: usize, r: SearchStats)
    requires
        call_ensures(SearchStats::new, (comparisons, hops, len), r),
    ensures
        r.cmps == comparisons,
        r.hops == hops,
        (len - r.result_count) % 0x1_0000_0000 == 0,
        !r.range_search_second_round,
{
}

} // verus!
