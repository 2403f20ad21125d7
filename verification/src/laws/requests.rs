//! What a filtered request comes to: the search that was planned for it, from its
//! first call to its report.

use vstd::prelude::*;
use crate::candidate::Candidate;
use crate::filter::FilterCallbacks;
use crate::laws::heap_search::HeapEnd;
use crate::laws::native_search::NativeEnd;
use crate::ordered_f32::OrderedF32;
use crate::output::Sink;
use crate::paged::{Effort, PageLog};
use crate::plan::{FilteredReport, KnnParams, search_vector_filtered};
use crate::walk::{GraphAccess, VectorRead};

verus! {

/// A paged search that could not be started: its error is handed on, and the
/// output is as it was.
pub open spec fn does_not_start<C, A: Fn(C, usize) -> (C, Result<S, T>), S, T, O>(
    start: A,
    l: usize,
    host: C,
    output: O,
    r: (C, O, Result<FilteredReport, T>),
) -> bool {
    r.1 == output && r.2 is Err && call_ensures(
        start,
        (host, l),
        (r.0, Err::<S, T>(r.2->Err_0)),
    )
}

/// A paged search without a limit, from the call that starts it.
pub open spec fn searches_pages<
    C,
    F: Fn(C, u64, u32) -> (C, u8),
    B: Fn(C, u64, &Vec<u32>) -> (C, Vec<u8>),
    G,
    H,
    A: Fn(C, usize) -> (C, Result<S, T>),
    W: Fn(&S) -> (u32, u32),
    S,
    T,
    Q: Fn(S, C) -> (S, C, Result<Vec<Candidate>, T>),
    O,
    E,
    D,
    X: Fn(O, u32) -> (O, Result<E, D>),
    P: Fn(O, E, OrderedF32) -> (O, bool),
    L: Fn(&O) -> usize,
>(
    start: A,
    next: Q,
    scratch: W,
    context_id: u64,
    k: usize,
    l: usize,
    callbacks: FilterCallbacks<F, B, G, H>,
    sink: Sink<X, P, L>,
    host: C,
    output: O,
    r: (C, O, Result<FilteredReport, T>),
    t: PagesRun<S, C, O>,
) -> bool {
    &&& call_ensures(start, (host, l), (t.started, Ok(t.state)))
    &&& r.2 matches Ok(report) ==> report is Paged
    &&& crate::laws::pages::ends(
        next,
        sink,
        k,
        None,
        t.state,
        t.started,
        output,
        r.1,
        t.then_state,
        r.0,
        match r.2 {
            Ok(report) => Ok(report->Paged_0.counts),
            Err(e) => Err(e),
        },
        t.pages,
    )
    &&& forall|i: int|
        0 <= i < t.pages.len() ==> crate::laws::pages::callbacks_asked(
            callbacks.filter,
            callbacks.batch_filter,
            context_id,
            10,
            #[trigger] t.pages[i],
        )
    &&& r.2 matches Ok(report) ==> crate::laws::pages::is_told(
        sink,
        scratch,
        t.then_state,
        r.1,
        report->Paged_0,
    )
}

/// A paged search: the host and the state after the call that starts it, the
/// pages, and the state at the end.
pub struct PagesRun<S, C, O> {
    pub started: C,
    pub state: S,
    pub pages: Seq<PageLog<S, C, O>>,
    pub then_state: S,
}

/// What a request leads to, of which only the one that was planned means anything.
pub struct Outcome<S, C, O> {
    pub effort: usize,
    pub heap: HeapEnd<C, O>,
    pub native: NativeEnd<C, O>,
    pub paged: PagesRun<S, C, O>,
}

/// A filtered request without a limit to its effort is answered by pages. Any other
/// is answered by a two-queue search, with the queue that was asked for, which may
/// make at least `max_effort` and at least as many expansions as its list is long,
/// and no more than the larger of the two.
pub proof fn law_search_vector_filtered<
    C,
    N: Fn(C, u32) -> (C, Vec<u32>),
    R: Fn(C, &Vec<u32>) -> (C, Vec<VectorRead>),
    F: Fn(C, u64, u32) -> (C, u8),
    B: Fn(C, u64, &Vec<u32>) -> (C, Vec<u8>),
    G: Fn(C, u64, u32, &[u8]) -> (C, u8),
    H: Fn(C, u64, &Vec<u32>, &Vec<&[u8]>) -> (C, Vec<u8>),
    A: Fn(C, usize) -> (C, Result<S, T>),
    W: Fn(&S) -> (u32, u32),
    S,
    T,
    Q: Fn(S, C) -> (S, C, Result<Vec<Candidate>, T>),
    O,
    E,
    D,
    X: Fn(O, u32) -> (O, Result<E, D>),
    P: Fn(O, E, OrderedF32) -> (O, bool),
    L: Fn(&O) -> usize,
>(
    host: C,
    graph: GraphAccess<N, R>,
    start: A,
    next: Q,
    scratch: W,
    context_id: u64,
    params: KnnParams,
    callbacks: FilterCallbacks<F, B, G, H>,
    max_effort: usize,
    native: bool,
    sink: Sink<X, P, L>,
    output: O,
    r: (C, O, Result<FilteredReport, T>),
) -> (t: Outcome<S, C, O>)
    requires
        0 < params.k_value <= params.l_value,
        max_effort > 0 ==> graph.elem_size > 0,
        call_ensures(
            search_vector_filtered::<C, N, R, F, B, G, H, A, W, S, T, Q, O, E, D, X, P, L>,
            (
                host,
                &graph,
                &start,
                &next,
                &scratch,
                context_id,
                &params,
                &callbacks,
                max_effort,
                native,
                &sink,
                output,
            ),
            r,
        ),
    ensures
        max_effort == 0 ==> does_not_start::<C, A, S, T, O>(
            start,
            params.l_value,
            host,
            output,
            r,
        ) || searches_pages(
            start,
            next,
            scratch,
            context_id,
            params.k_value,
            params.l_value,
            callbacks,
            sink,
            host,
            output,
            r,
            t.paged,
        ),
        max_effort > 0 ==> crate::laws::plans::is_effort(t.effort, params.l_value, max_effort)
            && r.2 is Ok && r.2->Ok_0 is TwoQueue,
        max_effort > 0 && native ==> crate::laws::native_search::searches(
            host,
            graph,
            context_id,
            params.k_value as int,
            params.l_value as int,
            callbacks,
            10,
            t.effort as int,
            sink,
            output,
            r.0,
            r.1,
            r.2->Ok_0->TwoQueue_0,
            t.native,
        ),
        max_effort > 0 && !native ==> crate::laws::heap_search::searches(
            host,
            graph,
            context_id,
            params.k_value as int,
            params.l_value as int,
            callbacks,
            10,
            t.effort as int,
            sink,
            output,
            r.0,
            r.1,
            r.2->Ok_0->TwoQueue_0,
            t.heap,
        ),
{
    let effort: usize = if params.l_value >= max_effort {
        params.l_value
    } else {
        max_effort
    };
    let none = Outcome {
        effort,
        heap: arbitrary(),
        native: arbitrary(),
        paged: arbitrary(),
    };
    if max_effort == 0 {
        if does_not_start::<C, A, S, T, O>(start, params.l_value, host, output, r) {
            none
        } else {
            let (started, state, then_state) = choose|started: C, s: S, later: S| #[trigger]
                crate::plan::paged_ends(
                    start,
                    next,
                    scratch,
                    sink,
                    params.k_value,
                    params.l_value,
                    callbacks,
                    context_id,
                    10,
                    host,
                    started,
                    r.0,
                    s,
                    output,
                    r.1,
                    later,
                    r.2,
                );
            let pages = crate::laws::pages::lemma_ends(
                next,
                sink,
                params.k_value,
                Effort::Unlimited,
                crate::paged::from_callbacks::<S, C, O, F, B>(
                    callbacks.filter,
                    callbacks.batch_filter,
                    context_id,
                    10,
                ),
                state,
                started,
                output,
                (
                    r.1,
                    then_state,
                    r.0,
                    crate::paged::counts_of(crate::plan::as_paged(r.2)),
                ),
            );
            assert forall|i: int|
                0 <= i < pages.len() implies crate::laws::pages::callbacks_asked(
                callbacks.filter,
                callbacks.batch_filter,
                context_id,
                10,
                #[trigger] pages[i],
            ) by {
                crate::laws::pages::lemma_callbacks_asked(
                    callbacks.filter,
                    callbacks.batch_filter,
                    context_id,
                    10,
                    pages[i],
                );
            }
            if r.2 is Ok {
                crate::laws::pages::lemma_is_told(
                    sink,
                    scratch,
                    then_state,
                    r.1,
                    r.2->Ok_0->Paged_0,
                );
            }
            Outcome { paged: PagesRun { started, state, pages, then_state }, ..none }
        }
    } else if native {
        let e = crate::laws::native_search::lemma_search_ends(
            host,
            graph,
            context_id,
            params.k_value,
            params.l_value,
            callbacks,
            10,
            effort,
            sink,
            output,
            r.0,
            r.1,
            r.2->Ok_0->TwoQueue_0,
        );
        Outcome { native: e, ..none }
    } else {
        let e = crate::laws::heap_search::lemma_search_ends(
            host,
            graph,
            context_id,
            params.k_value,
            params.l_value,
            callbacks,
            10,
            effort,
            sink,
            output,
            r.0,
            r.1,
            r.2->Ok_0->TwoQueue_0,
        );
        Outcome { heap: e, ..none }
    }
}

} // verus!
