//! What a search reports about itself.

use vstd::prelude::*;
use crate::candidate::Candidate;
use crate::ordered_f32::OrderedF32;
use crate::output::{Sink, deliver_all};
use crate::walk::{Walk, WalkModel};

verus! {

/// The statistics that every search returns.
#[derive(Clone, Copy, Debug)]
pub struct SearchStats {
    /// How many distances were computed.
    pub cmps: u32,
    /// How many vectors were expanded.
    pub hops: u32,
    /// How many results the output holds.
    pub result_count: u32,
    pub range_search_second_round: bool,
}

/// What a two-queue search reports besides its statistics.
#[derive(Clone, Copy, Debug)]
pub struct SearchReport {
    pub stats: SearchStats,
    /// How many vectors were visited.
    pub visited: usize,
    pub filter_evals: u32,
    pub filter_passed: u32,
    /// How many results were handed over.
    pub found: usize,
    /// The most candidates that waited at one time.
    pub max_cand_q: usize,
    /// The most results that were kept at one time.
    pub max_result_q: usize,
    /// Whether the search ended because nothing nearer was left.
    pub converged: bool,
}

/// A length as statistics hold it, in 32 bits.
pub open spec fn low_bits(len: usize) -> int {
    len as int % 0x1_0000_0000
}

/// A length as statistics hold it, in 32 bits.
fn result_count(len: usize) -> (r: u32)
    ensures
        r == low_bits(len),
{
    let wide: u64 = len as u64;
    assert(wide as u32 == wide % 0x1_0000_0000) by (bit_vector);
    #[verifier::truncate]
    let r: u32 = wide as u32;
    r
}

impl SearchStats {
    /// The statistics hold these counts.
    pub open spec fn tells(self, comparisons: int, hops: int, len: usize) -> bool {
        &&& self.cmps == comparisons
        &&& self.hops == hops
        &&& self.result_count == low_bits(len)
        &&& !self.range_search_second_round
    }

    /// The statistics of a search that made so many comparisons and hops and
    /// left so many results in the output.
    pub fn new(comparisons: u32, hops: u32, current_len: usize) -> (r: Self)
        ensures
            r.tells(comparisons as int, hops as int, current_len),
    {
        let result_count = result_count(current_len);
        Self::with_count(comparisons, hops, result_count)
    }

    fn with_count(comparisons: u32, hops: u32, result_count: u32) -> (r: Self)
        ensures
            r.cmps == comparisons,
            r.hops == hops,
            r.result_count == result_count,
            !r.range_search_second_round,
    {
        SearchStats { cmps: comparisons, hops, result_count, range_search_second_round: false }
    }
}

impl SearchReport {
    /// The report tells the state in which a search ended, how many results it
    /// handed over, and how many the output holds.
    pub open spec fn tells(self, m: WalkModel, found: int, len: usize) -> bool {
        &&& self.stats.tells(m.comparisons, m.hops, len)
        &&& self.visited == m.visited.len()
        &&& self.filter_evals == m.tally.evals
        &&& self.filter_passed == m.tally.passed
        &&& self.found == found
        &&& self.max_cand_q == m.max_cand_size
        &&& self.max_result_q == m.max_result_q
        &&& self.converged == m.converged
    }
}

/// A search that ended in the state `m` handed over the `k` nearest results,
/// from the nearest on, which turned the output from `before` into `after`, and
/// reported `report`.
pub open spec fn concludes<
    O,
    E,
    D,
    X: Fn(O, u32) -> (O, Result<E, D>),
    P: Fn(O, E, OrderedF32) -> (O, bool),
    L: Fn(&O) -> usize,
>(
    m: WalkModel,
    k: nat,
    sink: Sink<X, P, L>,
    before: O,
    after: O,
    report: SearchReport,
) -> bool {
    exists|nearest: Seq<Candidate>, outs: Seq<O>, len: usize|
        {
            &&& #[trigger] crate::output::delivers_all(sink, nearest, nearest.len() as int, outs)
            &&& #[trigger] call_ensures(sink.current_len, (&after,), len)
            &&& crate::filter::ascending(nearest)
            &&& crate::filter::nearest_of(nearest.to_multiset(), m.tally.results, k)
            &&& outs[0] == before
            &&& outs[nearest.len() as int] == after
            &&& report.tells(m, nearest.len() as int, len)
        }
}

impl Walk {
    /// Ends a search: hands the nearest results over and reports.
    pub(crate) fn conclude<
        O,
        E,
        D,
        X: Fn(O, u32) -> (O, Result<E, D>),
        P: Fn(O, E, OrderedF32) -> (O, bool),
        L: Fn(&O) -> usize,
    >(self, k: usize, sink: &Sink<X, P, L>, output: O) -> (r: (O, SearchReport))
        requires
            self.wf(),
            crate::output::sink_usable::<O, E, D, X, P, L>(*sink),
        ensures
            concludes(self@, k as nat, *sink, output, r.0, r.1),
    {
        let (results, counts) = self.into_parts();
        let nearest = results.into_nearest(k);
        let after = deliver_all(sink, output, &nearest);
        let len = (sink.current_len)(&after);
        let stats = SearchStats::new(counts.comparisons, counts.hops, len);
        let report = SearchReport {
            stats,
            visited: counts.visited,
            filter_evals: counts.filter_evals,
            filter_passed: counts.filter_passed,
            found: nearest.len(),
            max_cand_q: counts.max_cand_size,
            max_result_q: counts.max_result_q,
            converged: counts.converged,
        };
        (after, report)
    }
}

} // verus!
