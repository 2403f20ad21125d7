//! Which search a request leads to, and with what parameters.

use vstd::prelude::*;
use crate::candidate::Candidate;
use crate::filter::FilterCallbacks;
use crate::native::two_queue_native_search;
use crate::ordered_f32::OrderedF32;
use crate::output::Sink;
use crate::paged::{Effort, PagedReport, paged_filter_loop_unlimited};
use crate::report::SearchReport;
use crate::two_queue::{RESULTS_PER_K, two_queue_filtered_search};
use crate::walk::{GraphAccess, VectorRead};
use diskann::graph::search::{Knn, KnnSearchError};

verus! {

/// How many candidates a batch callback is asked about at once.
pub const BATCH_SIZE: usize = 10;

/// The largest beam width of a search with a separate budget of checks.
pub const BEAM_CAP: usize = 2000;

/// The parameters of a search for the nearest neighbors.
#[derive(Clone, Copy, Debug, PartialEq, Eq, Structural)]
pub struct KnnParams {
    /// How many results are asked for.
    pub k_value: usize,
    /// How long the list of the search is.
    pub l_value: usize,
    /// How many vectors are expanded at once.
    pub beam_width: usize,
}

/// Why parameters are not accepted.
#[derive(Clone, Copy, Debug, PartialEq, Eq, Structural)]
pub enum KnnError {
    /// The list of the search is shorter than the results asked for.
    LLessThanK { l_value: usize, k_value: usize },
    BeamWidthZero,
    KZero,
    LZero,
}

/// The parameters if they are accepted, or else the first thing that is wrong.
/// Without a beam width, one vector is expanded at once.
pub open spec fn accepted_params(
    k_value: usize,
    l_value: usize,
    beam_width: Option<usize>,
) -> Result<KnnParams, KnnError> {
    if k_value == 0 {
        Err(KnnError::KZero)
    } else if l_value == 0 {
        Err(KnnError::LZero)
    } else if k_value > l_value {
        Err(KnnError::LLessThanK { l_value, k_value })
    } else if beam_width == Some(0usize) {
        Err(KnnError::BeamWidthZero)
    } else {
        Ok(
            KnnParams {
                k_value,
                l_value,
                beam_width: match beam_width {
                    Some(width) => width,
                    None => 1,
                },
            },
        )
    }
}

/// `diskann::graph::search::Knn::new`: checks parameters, first that `k` and
/// `l` are not zero, next that `l` is not less than `k`, last that the beam
/// width is not zero; a beam width that is not given is one. What it accepts
/// is read back with `k_value`, `l_value` and `beam_width`.
#[verifier::external_body]
fn checked_params(k_value: usize, l_value: usize, beam_width: Option<usize>) -> (r: Result<
    KnnParams,
    KnnError,
>)
    ensures
        r == accepted_params(k_value, l_value, beam_width),
{
    match Knn::new(k_value, l_value, beam_width) {
        Ok(p) => Ok(KnnParams {
            k_value: p.k_value().get(),
            l_value: p.l_value().get(),
            beam_width: p.beam_width().get(),
        }),
        Err(KnnSearchError::LLessThanK { l_value: l, k_value: k }) => {
            Err(KnnError::LLessThanK { l_value: l, k_value: k })
        },
        Err(KnnSearchError::BeamWidthZero) => Err(KnnError::BeamWidthZero),
        Err(KnnSearchError::KZero) => Err(KnnError::KZero),
        Err(KnnSearchError::LZero) => Err(KnnError::LZero),
    }
}

impl KnnParams {
    /// Parameters, if they are accepted.
    pub fn new(k_value: usize, l_value: usize, beam_width: Option<usize>) -> (r: Result<
        Self,
        KnnError,
    >)
        ensures
            r == accepted_params(k_value, l_value, beam_width),
    {
        checked_params(k_value, l_value, beam_width)
    }

    /// The parameters with the effort as the length of the list, if there is a
    /// limit to the effort.
    pub fn scaled(&self, max_effort: usize) -> (r: Result<Self, KnnError>)
        ensures
            r == accepted_params(
                self.k_value,
                if max_effort > 0 {
                    max_effort
                } else {
                    self.l_value
                },
                Some(self.beam_width),
            ),
    {
        let l_value: usize = if max_effort > 0 {
            max_effort
        } else {
            self.l_value
        };
        checked_params(self.k_value, l_value, Some(self.beam_width))
    }

    /// The beam width of a search with a separate budget of checks.
    pub fn decoupled_beam(&self) -> (r: usize)
        ensures
            r == if self.l_value <= BEAM_CAP {
                self.l_value
            } else {
                BEAM_CAP
            },
    {
        if self.l_value <= BEAM_CAP {
            self.l_value
        } else {
            BEAM_CAP
        }
    }
}

/// Whether a setting asks for the graph index's own queue.
pub fn asks_for_native_queue(setting: &Option<String>) -> (r: bool)
    ensures
        r == (setting matches Some(s) && s@ == seq!['1']),
{
    match setting {
        None => false,
        Some(s) => {
            let text = s.as_str();
            let r = text.unicode_len() == 1 && text.get_char(0) == '1';
            assert(r ==> s@ =~= seq!['1']);
            r
        },
    }
}

/// How many vectors an index holds, going by the largest id that it gave out.
pub fn approximate_count(max_internal_id: u32) -> (n: u64)
    ensures
        n == max_internal_id,
{
    max_internal_id as u64
}

/// The search that a filtered request leads to.
#[derive(Clone, Copy, Debug, PartialEq, Eq, Structural)]
pub enum FilteredPlan {
    /// Pages without a limit to the effort.
    Paged { l_value: usize, batch_size: usize },
    /// The two-queue search with the graph index's own queue.
    Native { ef: usize, batch_size: usize, max_candidates: usize },
    /// The two-queue search with a heap.
    Heap { ef: usize, batch_size: usize, max_candidates: usize },
}

/// The search that a filtered request leads to: pages if there is no limit to
/// the effort, else a two-queue search whose effort is at least `ef`.
pub open spec fn plan_for(ef: usize, max_effort: usize, use_native_queue: bool) -> FilteredPlan {
    let max_candidates = if ef >= max_effort {
        ef
    } else {
        max_effort
    };
    if max_effort == 0 {
        FilteredPlan::Paged { l_value: ef, batch_size: BATCH_SIZE }
    } else if use_native_queue {
        FilteredPlan::Native { ef, batch_size: BATCH_SIZE, max_candidates }
    } else {
        FilteredPlan::Heap { ef, batch_size: BATCH_SIZE, max_candidates }
    }
}

/// The search that a filtered request leads to.
pub fn plan_filtered_search(ef: usize, max_effort: usize, use_native_queue: bool) -> (r:
    FilteredPlan)
    ensures
        r == plan_for(ef, max_effort, use_native_queue),
{
    if max_effort == 0 {
        FilteredPlan::Paged { l_value: ef, batch_size: BATCH_SIZE }
    } else {
        let max_candidates: usize = if ef >= max_effort {
            ef
        } else {
            max_effort
        };
        if use_native_queue {
            FilteredPlan::Native { ef, batch_size: BATCH_SIZE, max_candidates }
        } else {
            FilteredPlan::Heap { ef, batch_size: BATCH_SIZE, max_candidates }
        }
    }
}

/// What a filtered search reports.
#[derive(Clone, Copy, Debug)]
pub enum FilteredReport {
    Paged(PagedReport),
    TwoQueue(SearchReport),
}

/// The report of a paged search, or its error.
pub open spec fn as_paged<T>(r: Result<FilteredReport, T>) -> Result<PagedReport, T> {
    match r {
        Ok(FilteredReport::Paged(report)) => Ok(report),
        Ok(FilteredReport::TwoQueue(_)) => arbitrary(),
        Err(e) => Err(e),
    }
}

/// Searches with a filter: in pages if there is no limit to the effort, else
/// with two queues. A paged search that cannot be started leaves the output as
/// it is. Gives the host back as the calls left it.
pub fn search_vector_filtered<
    C,
    N: Fn(C, u32) -> (C, Vec<u32>),
    R: Fn(C, &Vec<u32>) -> (C, Vec<VectorRead>),
    F: Fn(C, u64, u32) -> (C, u8),
    B: Fn(C, u64, &Vec<u32>) -> (C, Vec<u8>),
    G: Fn(C, u64, u32, &[u8]) -> (C, u8),
    H: Fn(C, u64, &Vec<u32>, &Vec<&[u8]>) -> (C, Vec<u8>),
    A: Fn(C, usize) -> (C, Result<S, T>),
    W: Fn(&S) -> (u32, u32),
    S,
    T,
    Q: Fn(S, C) -> (S, C, Result<Vec<Candidate>, T>),
    O,
    E,
    D,
    X: Fn(O, u32) -> (O, Result<E, D>),
    P: Fn(O, E, OrderedF32) -> (O, bool),
    L: Fn(&O) -> usize,
>(
    host: C,
    graph: &GraphAccess<N, R>,
    start_paged_search: &A,
    next: &Q,
    scratch: &W,
    context_id: u64,
    params: &KnnParams,
    callbacks: &FilterCallbacks<F, B, G, H>,
    max_effort: usize,
    use_native_queue: bool,
    sink: &Sink<X, P, L>,
    output: O,
) -> (r: (C, O, Result<FilteredReport, T>))
    requires
        0 < params.k_value <= params.l_value,
        crate::output::sink_usable::<O, E, D, X, P, L>(*sink),
        match plan_for(params.l_value, max_effort, use_native_queue) {
            FilteredPlan::Paged { l_value, batch_size } => {
                &&& crate::filter::plain_usable::<C, F, B>(
                    callbacks.filter,
                    callbacks.batch_filter,
                    context_id,
                    batch_size,
                )
                &&& call_requires(*start_paged_search, (host, l_value))
                &&& forall|started: C, s: S| #[trigger]
                    call_ensures(*start_paged_search, (host, l_value), (started, Ok(s)))
                        ==> crate::paged::drains_soon::<S, C, T, Q>(*next, s)
                &&& forall|s: S| #[trigger] call_requires(*scratch, (&s,))
            },
            FilteredPlan::Native { ef, batch_size, max_candidates } => {
                &&& graph.usable::<C>()
                &&& callbacks.usable::<C>(context_id, batch_size)
                &&& call_requires(callbacks.filter, (host, context_id, crate::walk::START_ID))
                &&& ef * 8 <= isize::MAX
                &&& (graph.max_id + 65) * 32 <= isize::MAX
            },
            FilteredPlan::Heap { ef, batch_size, max_candidates } => {
                &&& graph.usable::<C>()
                &&& callbacks.usable::<C>(context_id, batch_size)
                &&& call_requires(callbacks.filter, (host, context_id, crate::walk::START_ID))
                &&& params.k_value * RESULTS_PER_K <= usize::MAX
            },
        },
    ensures
        match plan_for(params.l_value, max_effort, use_native_queue) {
            FilteredPlan::Paged { l_value, batch_size } => {
                ||| exists|e: T| #[trigger]
                    call_ensures(*start_paged_search, (host, l_value), (r.0, Err(e))) && r.1
                        == output && r.2 == Err::<FilteredReport, T>(e)
                ||| exists|started: C, s: S, later: S| #[trigger]
                    paged_ends(
                        *start_paged_search,
                        *next,
                        *scratch,
                        *sink,
                        params.k_value,
                        l_value,
                        *callbacks,
                        context_id,
                        batch_size,
                        host,
                        started,
                        r.0,
                        s,
                        output,
                        r.1,
                        later,
                        r.2,
                    )
            },
            FilteredPlan::Native { ef, batch_size, max_candidates } => {
                r.2 matches Ok(FilteredReport::TwoQueue(report)) && crate::native::search_ends(
                    *graph,
                    context_id,
                    params.k_value,
                    ef,
                    *callbacks,
                    batch_size,
                    max_candidates,
                    *sink,
                    host,
                    r.0,
                    output,
                    r.1,
                    report,
                )
            },
            FilteredPlan::Heap { ef, batch_size, max_candidates } => {
                r.2 matches Ok(FilteredReport::TwoQueue(report)) && crate::two_queue::search_ends(
                    *graph,
                    context_id,
                    params.k_value,
                    ef,
                    *callbacks,
                    batch_size,
                    max_candidates,
                    *sink,
                    host,
                    r.0,
                    output,
                    r.1,
                    report,
                )
            },
        },
{
    let k = params.k_value;
    match plan_filtered_search(params.l_value, max_effort, use_native_queue) {
        FilteredPlan::Paged { l_value, batch_size } => {
            let ghost given = host;
            let (started, start) = start_paged_search(host, l_value);
            match start {
                Err(e) => {
                    let r = (started, output, Err(e));
                    assert(call_ensures(*start_paged_search, (given, l_value), (r.0, Err(e))));
                    r
                },
                Ok(state) => {
                    let ghost from = started;
                    let ghost before = output;
                    assert(call_ensures(
                        *start_paged_search,
                        (given, l_value),
                        (from, Ok(state)),
                    ));
                    let (after, later, last, result) = paged_filter_loop_unlimited(
                        next,
                        state,
                        started,
                        scratch,
                        context_id,
                        k,
                        &callbacks.filter,
                        &callbacks.batch_filter,
                        batch_size,
                        sink,
                        output,
                    );
                    let reported: Result<FilteredReport, T> = match result {
                        Ok(report) => Ok(FilteredReport::Paged(report)),
                        Err(e) => Err(e),
                    };
                    assert(as_paged(reported) == result);
                    let r = (last, after, reported);
                    assert(paged_ends(
                        *start_paged_search,
                        *next,
                        *scratch,
                        *sink,
                        params.k_value,
                        l_value,
                        *callbacks,
                        context_id,
                        batch_size,
                        given,
                        from,
                        r.0,
                        state,
                        before,
                        r.1,
                        later,
                        r.2,
                    ));
                    r
                },
            }
        },
        FilteredPlan::Native { ef, batch_size, max_candidates } => {
            let (last, after, report) = two_queue_native_search(
                host,
                graph,
                context_id,
                k,
                ef,
                callbacks,
                batch_size,
                max_candidates,
                sink,
                output,
            );
            (last, after, Ok(FilteredReport::TwoQueue(report)))
        },
        FilteredPlan::Heap { ef, batch_size, max_candidates } => {
            let (last, after, report) = two_queue_filtered_search(
                host,
                graph,
                context_id,
                k,
                ef,
                callbacks,
                batch_size,
                max_candidates,
                sink,
                output,
            );
            (last, after, Ok(FilteredReport::TwoQueue(report)))
        },
    }
}

/// A paged search without a limit may start from `state` and end in `later`,
/// turn the output from `output` into `after`, and report `r`. Its calls are one
/// that starts it, which leads the host from `host` to `started`, and those of
/// the pages and their checks, which lead it on to `last`.
pub open spec fn paged_ends<
    C,
    F: Fn(C, u64, u32) -> (C, u8),
    B: Fn(C, u64, &Vec<u32>) -> (C, Vec<u8>),
    G,
    H,
    A: Fn(C, usize) -> (C, Result<S, T>),
    W: Fn(&S) -> (u32, u32),
    S,
    T,
    Q: Fn(S, C) -> (S, C, Result<Vec<Candidate>, T>),
    O,
    E,
    D,
    X: Fn(O, u32) -> (O, Result<E, D>),
    P: Fn(O, E, OrderedF32) -> (O, bool),
    L: Fn(&O) -> usize,
>(
    start_paged_search: A,
    next: Q,
    scratch: W,
    sink: Sink<X, P, L>,
    k: usize,
    l_value: usize,
    callbacks: FilterCallbacks<F, B, G, H>,
    context_id: u64,
    batch_size: usize,
    host: C,
    started: C,
    last: C,
    state: S,
    output: O,
    after: O,
    later: S,
    r: Result<FilteredReport, T>,
) -> bool {
    &&& call_ensures(start_paged_search, (host, l_value), (started, Ok(state)))
    &&& r matches Ok(report) ==> report is Paged
    &&& crate::paged::pages_end(
        next,
        sink,
        k,
        Effort::Unlimited,
        crate::paged::from_callbacks::<S, C, O, F, B>(
            callbacks.filter,
            callbacks.batch_filter,
            context_id,
            batch_size,
        ),
        state,
        started,
        output,
        (after, later, last, crate::paged::counts_of(as_paged(r))),
    )
    &&& as_paged(r) matches Ok(report) ==> exists|comparisons: u32, hops: u32| #[trigger]
        call_ensures(scratch, (&later,), (comparisons, hops)) && crate::paged::stats_told(
            sink,
            after,
            comparisons as int,
            hops as int,
            report.stats,
        )
}

} // verus!
