//! What a paged search is for: it hands over the candidates that pass, in the order
//! in which they come, until there are enough, nothing more comes, or its budget of
//! checks is spent.

use vstd::prelude::*;
use crate::candidate::Candidate;
use crate::labels::{
    AtomicCacheLabelProvider,
    BitmapLabelProvider,
    CachedCallbackLabelProvider,
};
use crate::ordered_f32::OrderedF32;
use crate::output::Sink;
use crate::paged::{
    Effort,
    PageCounts,
    PageLog,
    PagedReport,
    paged_filter_loop_bitmap,
    paged_filter_loop_cached,
    paged_filter_loop_capped,
    paged_filter_loop_unlimited,
    paged_filter_loop_unlimited_atomic,
};

verus! {

/// How many checks the first `n` pages took.
pub open spec fn checks_in<S, C, O>(pages: Seq<PageLog<S, C, O>>, n: int) -> int
    decreases n,
{
    if n <= 0 {
        0
    } else {
        checks_in(pages, n - 1) + pages[n - 1].verdicts.len()
    }
}

/// How many candidates the first `n` pages held.
pub open spec fn candidates_in<S, C, O>(pages: Seq<PageLog<S, C, O>>, n: int) -> int
    decreases n,
{
    if n <= 0 {
        0
    } else {
        candidates_in(pages, n - 1) + pages[n - 1].cands.len()
    }
}

/// How many of the first `n` are true.
pub open spec fn trues(bits: Seq<bool>, n: int) -> int
    decreases n,
{
    if n <= 0 {
        0
    } else if bits[n - 1] {
        trues(bits, n - 1) + 1
    } else {
        trues(bits, n - 1)
    }
}

/// How many candidates of the first `n` pages passed.
pub open spec fn passes_in<S, C, O>(pages: Seq<PageLog<S, C, O>>, n: int) -> int
    decreases n,
{
    if n <= 0 {
        0
    } else {
        passes_in(pages, n - 1) + trues(
            pages[n - 1].verdicts,
            pages[n - 1].verdicts.len() as int,
        )
    }
}

/// How many outcomes of the first `n` pages were known before.
pub open spec fn known_in<S, C, O>(pages: Seq<PageLog<S, C, O>>, n: int) -> int
    decreases n,
{
    if n <= 0 {
        0
    } else {
        known_in(pages, n - 1) + trues(pages[n - 1].known, pages[n - 1].known.len() as int)
    }
}

/// The output is full or holds enough after a push that said `full`.
pub open spec fn is_enough<O, X, P, L: Fn(&O) -> usize>(
    sink: Sink<X, P, L>,
    k: usize,
    after: O,
    full: Option<bool>,
    enough: bool,
) -> bool {
    match full {
        None => !enough,
        Some(true) => enough,
        Some(false) => exists|len: usize| #[trigger]
            call_ensures(sink.current_len, (&after,), len) && (enough <==> len >= k),
    }
}

/// One candidate that was checked: if it passed, it goes to the output; any other
/// changes nothing. `enough` says that the search need not go on.
pub open spec fn is_settled<
    O,
    E,
    D,
    X: Fn(O, u32) -> (O, Result<E, D>),
    P: Fn(O, E, OrderedF32) -> (O, bool),
    L: Fn(&O) -> usize,
>(
    sink: Sink<X, P, L>,
    k: usize,
    c: Candidate,
    yes: bool,
    before: O,
    after: O,
    enough: bool,
) -> bool {
    if yes {
        exists|full: Option<bool>| #[trigger]
            crate::laws::outputs::goes_out(sink, c, before, after, full) && is_enough(
                sink,
                k,
                after,
                full,
                enough,
            )
    } else {
        after == before && !enough
    }
}

/// A page came from one call.
pub open spec fn is_fetched<S, C, T, Q: Fn(S, C) -> (S, C, Result<Vec<Candidate>, T>), O>(
    next: Q,
    state: S,
    host: C,
    page: PageLog<S, C, O>,
) -> bool {
    exists|v: Vec<Candidate>| #[trigger]
        call_ensures(next, (state, host), (page.after, page.fetched, Ok(v))) && v@ == page.cands
}

/// A budget of checks holds.
pub open spec fn within(budget: Option<usize>, checks: int) -> bool {
    budget matches Some(max) ==> checks <= max
}

/// A budget of checks is spent.
pub open spec fn is_spent(budget: Option<usize>, checks: int) -> bool {
    budget matches Some(max) && checks >= max
}

/// The search of one page after `done` checks. Its candidates are checked in
/// order, all of them unless there is enough or the budget is spent.
pub open spec fn is_searched<
    S,
    C,
    T,
    Q: Fn(S, C) -> (S, C, Result<Vec<Candidate>, T>),
    O,
    E,
    D,
    X: Fn(O, u32) -> (O, Result<E, D>),
    P: Fn(O, E, OrderedF32) -> (O, bool),
    L: Fn(&O) -> usize,
>(
    next: Q,
    sink: Sink<X, P, L>,
    k: usize,
    budget: Option<usize>,
    done: int,
    state: S,
    host: C,
    output: O,
    page: PageLog<S, C, O>,
) -> bool {
    let n = page.verdicts.len() as int;
    &&& is_fetched::<S, C, T, Q, O>(next, state, host, page)
    &&& n <= page.cands.len()
    &&& page.outs.len() == n + 1
    &&& page.outs[0] == output
    &&& page.known.len() == n
    &&& within(budget, done + n)
    &&& !page.stopped && !is_spent(budget, done + n) ==> n == page.cands.len()
    &&& page.stopped ==> n > 0
    &&& forall|i: int|
        0 <= i < n ==> is_settled(
            sink,
            k,
            #[trigger] page.cands[i],
            page.verdicts[i],
            page.outs[i],
            page.outs[i + 1],
            page.stopped && i == n - 1,
        )
}

/// What is there before page `i`: what was there at first, or what the page before
/// left.
pub open spec fn state_at<S, C, O>(state: S, pages: Seq<PageLog<S, C, O>>, i: int) -> S {
    if i == 0 {
        state
    } else {
        pages[i - 1].after
    }
}

/// The host before page `i`.
pub open spec fn host_at<S, C, O>(host: C, pages: Seq<PageLog<S, C, O>>, i: int) -> C {
    if i == 0 {
        host
    } else {
        pages[i - 1].end
    }
}

/// The output before page `i`.
pub open spec fn output_at<S, C, O>(output: O, pages: Seq<PageLog<S, C, O>>, i: int) -> O {
    if i == 0 {
        output
    } else {
        pages[i - 1].outs[pages[i - 1].verdicts.len() as int]
    }
}

/// Page `i` does not end the search: it held something, there is not enough, and
/// the budget is not spent.
pub open spec fn is_passed_over<S, C, O>(
    budget: Option<usize>,
    pages: Seq<PageLog<S, C, O>>,
    i: int,
) -> bool {
    &&& pages[i].cands.len() > 0
    &&& !pages[i].stopped
    &&& !is_spent(budget, checks_in(pages, i + 1))
}

/// Pages are fetched and searched one after the other, and none but the last ends
/// the search.
pub open spec fn are_searched<
    S,
    C,
    T,
    Q: Fn(S, C) -> (S, C, Result<Vec<Candidate>, T>),
    O,
    E,
    D,
    X: Fn(O, u32) -> (O, Result<E, D>),
    P: Fn(O, E, OrderedF32) -> (O, bool),
    L: Fn(&O) -> usize,
>(
    next: Q,
    sink: Sink<X, P, L>,
    k: usize,
    budget: Option<usize>,
    state: S,
    host: C,
    output: O,
    pages: Seq<PageLog<S, C, O>>,
) -> bool {
    &&& forall|i: int|
        0 <= i < pages.len() ==> is_searched(
            next,
            sink,
            k,
            budget,
            checks_in(pages, i),
            state_at(state, pages, i),
            host_at(host, pages, i),
            output_at(output, pages, i),
            #[trigger] pages[i],
        )
    &&& forall|i: int| 0 <= i < pages.len() - 1 ==> #[trigger] is_passed_over(budget, pages, i)
}

/// Counts are those of some pages.
pub open spec fn are_counts<S, C, O>(counts: PageCounts, pages: Seq<PageLog<S, C, O>>) -> bool {
    let n = pages.len() as int;
    &&& counts.pages == n
    &&& counts.candidates == candidates_in(pages, n)
    &&& counts.evaluated == checks_in(pages, n)
    &&& counts.passed == passes_in(pages, n)
    &&& counts.cache_hits == known_in(pages, n)
    &&& counts.cache_misses + counts.cache_hits == counts.evaluated
    &&& counts.early_exit == (n > 0 && pages[n - 1].stopped)
}

/// The counts in a report.
pub open spec fn counts_in<T>(r: Result<PagedReport, T>) -> Result<PageCounts, T> {
    match r {
        Ok(report) => Ok(report.counts),
        Err(e) => Err(e),
    }
}

/// A search of pages ends with a page that ends it, and tells its counts; or with
/// a page that could not be fetched.
pub open spec fn ends<
    S,
    C,
    T,
    Q: Fn(S, C) -> (S, C, Result<Vec<Candidate>, T>),
    O,
    E,
    D,
    X: Fn(O, u32) -> (O, Result<E, D>),
    P: Fn(O, E, OrderedF32) -> (O, bool),
    L: Fn(&O) -> usize,
>(
    next: Q,
    sink: Sink<X, P, L>,
    k: usize,
    budget: Option<usize>,
    state: S,
    host: C,
    output: O,
    then_output: O,
    then_state: S,
    then_host: C,
    r: Result<PageCounts, T>,
    pages: Seq<PageLog<S, C, O>>,
) -> bool {
    let n = pages.len() as int;
    &&& are_searched(next, sink, k, budget, state, host, output, pages)
    &&& then_output == output_at(output, pages, n)
    &&& match r {
        Ok(counts) => {
            &&& n > 0
            &&& !is_passed_over(budget, pages, n - 1)
            &&& then_state == state_at(state, pages, n)
            &&& then_host == host_at(host, pages, n)
            &&& are_counts(counts, pages)
        },
        Err(e) => {
            &&& n > 0 ==> is_passed_over(budget, pages, n - 1)
            &&& call_ensures(
                next,
                (state_at(state, pages, n), host_at(host, pages, n)),
                (then_state, then_host, Err(e)),
            )
        },
    }
}

/// The budget of an effort.
pub open spec fn budget_of(effort: Effort) -> Option<usize> {
    match effort {
        Effort::Unlimited => None,
        Effort::Limited(max) => Some(max),
    }
}

proof fn lemma_trues(bits: Seq<bool>, n: int)
    ensures
        crate::labels::count_set(bits, n) == trues(bits, n),
    decreases n,
{
    if n > 0 {
        lemma_trues(bits, n - 1);
    }
}

proof fn lemma_frame<S, C, O>(
    a: Seq<PageLog<S, C, O>>,
    b: Seq<PageLog<S, C, O>>,
    n: int,
)
    requires
        n <= a.len(),
        n <= b.len(),
        forall|i: int| 0 <= i < n ==> a[i] == b[i],
    ensures
        checks_in(a, n) == checks_in(b, n),
        candidates_in(a, n) == candidates_in(b, n),
        passes_in(a, n) == passes_in(b, n),
        known_in(a, n) == known_in(b, n),
    decreases n,
{
    if n > 0 {
        lemma_frame(a, b, n - 1);
    }
}

proof fn lemma_counts<S, C, O>(pages: Seq<PageLog<S, C, O>>)
    ensures
        crate::paged::checked(pages) == checks_in(pages, pages.len() as int),
        crate::paged::came(pages) == candidates_in(pages, pages.len() as int),
        crate::paged::passed(pages) == passes_in(pages, pages.len() as int),
        crate::paged::were_known(pages) == known_in(pages, pages.len() as int),
    decreases pages.len(),
{
    if pages.len() > 0 {
        let rest = pages.drop_last();
        lemma_counts(rest);
        lemma_frame(rest, pages, rest.len() as int);
        lemma_trues(pages.last().verdicts, pages.last().verdicts.len() as int);
        lemma_trues(pages.last().known, pages.last().known.len() as int);
    }
}

proof fn lemma_settled<
    O,
    E,
    D,
    X: Fn(O, u32) -> (O, Result<E, D>),
    P: Fn(O, E, OrderedF32) -> (O, bool),
    L: Fn(&O) -> usize,
>(
    sink: Sink<X, P, L>,
    k: usize,
    c: Candidate,
    yes: bool,
    before: O,
    after: O,
    enough: bool,
)
    requires
        crate::paged::settles(sink, k, c, yes, before, after, enough),
    ensures
        is_settled(sink, k, c, yes, before, after, enough),
{
    if yes {
        let full = choose|full: Option<bool>| #[trigger]
            crate::output::may_deliver(sink, c, before, after, full) && match full {
                None => !enough,
                Some(true) => enough,
                Some(false) => exists|len: usize| #[trigger]
                    call_ensures(sink.current_len, (&after,), len) && enough == (len >= k),
            };
        crate::laws::outputs::lemma_goes_out(sink, c, before, after, full);
        if full == Some(false) {
            let len = choose|len: usize| #[trigger]
                call_ensures(sink.current_len, (&after,), len) && enough == (len >= k);
            assert(call_ensures(sink.current_len, (&after,), len));
        }
        assert(is_enough(sink, k, after, full, enough));
    }
}

proof fn lemma_searched<
    S,
    C,
    T,
    Q: Fn(S, C) -> (S, C, Result<Vec<Candidate>, T>),
    O,
    E,
    D,
    X: Fn(O, u32) -> (O, Result<E, D>),
    P: Fn(O, E, OrderedF32) -> (O, bool),
    L: Fn(&O) -> usize,
>(
    next: Q,
    sink: Sink<X, P, L>,
    k: usize,
    effort: Effort,
    origin: spec_fn(PageLog<S, C, O>) -> bool,
    state: S,
    host: C,
    output: O,
    pages: Seq<PageLog<S, C, O>>,
)
    requires
        crate::paged::pages_follow(
            next,
            sink,
            k,
            effort,
            origin,
            state,
            host,
            output,
            pages,
        ),
    ensures
        are_searched(next, sink, k, budget_of(effort), state, host, output, pages),
        forall|i: int| 0 <= i < pages.len() ==> origin(#[trigger] pages[i]),
        state_at(state, pages, pages.len() as int) == crate::paged::state_after(state, pages),
        host_at(host, pages, pages.len() as int) == crate::paged::host_after(host, pages),
        output_at(output, pages, pages.len() as int) == crate::paged::output_after(
            output,
            pages,
        ),
        within(budget_of(effort), checks_in(pages, pages.len() as int)),
        crate::paged::goes_on(effort, pages) <==> (pages.len() > 0 ==> is_passed_over(
            budget_of(effort),
            pages,
            pages.len() - 1,
        )),
    decreases pages.len(),
{
    let budget = budget_of(effort);
    lemma_counts(pages);
    if pages.len() > 0 {
        let rest = pages.drop_last();
        let n = rest.len() as int;
        let page = pages.last();
        lemma_searched(next, sink, k, effort, origin, state, host, output, rest);
        lemma_counts(rest);
        lemma_frame(rest, pages, n);
        let v = choose|v: Vec<Candidate>| #[trigger]
            call_ensures(
                next,
                (page.before, page.start),
                (page.after, page.fetched, Ok(v)),
            ) && v@ == page.cands;
        assert(is_fetched::<S, C, T, Q, O>(next, page.before, page.start, page)) by {
            assert(call_ensures(
                next,
                (page.before, page.start),
                (page.after, page.fetched, Ok(v)),
            ));
        }
        assert forall|i: int| 0 <= i < page.verdicts.len() implies is_settled(
            sink,
            k,
            #[trigger] page.cands[i],
            page.verdicts[i],
            page.outs[i],
            page.outs[i + 1],
            page.stopped && i == page.verdicts.len() - 1,
        ) by {
            lemma_settled(
                sink,
                k,
                page.cands[i],
                page.verdicts[i],
                page.outs[i],
                page.outs[i + 1],
                page.stopped && i == page.verdicts.len() - 1,
            );
        }
        assert(is_searched(
            next,
            sink,
            k,
            budget,
            checks_in(rest, n),
            state_at(state, rest, n),
            host_at(host, rest, n),
            output_at(output, rest, n),
            page,
        ));
        assert forall|i: int| 0 <= i < pages.len() implies is_searched(
            next,
            sink,
            k,
            budget,
            checks_in(pages, i),
            state_at(state, pages, i),
            host_at(host, pages, i),
            output_at(output, pages, i),
            #[trigger] pages[i],
        ) && origin(pages[i]) by {
            lemma_frame(rest, pages, i);
            if i < n {
                assert(pages[i] == rest[i]);
            }
            if i > 0 {
                assert(pages[i - 1] == rest[i - 1]);
            }
        }
        assert forall|i: int| 0 <= i < pages.len() - 1 implies #[trigger] is_passed_over(
            budget,
            pages,
            i,
        ) by {
            lemma_frame(rest, pages, i + 1);
            assert(pages[i] == rest[i]);
            assert(is_passed_over(budget, rest, i));
        }
    }
}

/// The pages of a search that ends.
pub proof fn lemma_ends<
    S,
    C,
    T,
    Q: Fn(S, C) -> (S, C, Result<Vec<Candidate>, T>),
    O,
    E,
    D,
    X: Fn(O, u32) -> (O, Result<E, D>),
    P: Fn(O, E, OrderedF32) -> (O, bool),
    L: Fn(&O) -> usize,
>(
    next: Q,
    sink: Sink<X, P, L>,
    k: usize,
    effort: Effort,
    origin: spec_fn(PageLog<S, C, O>) -> bool,
    state: S,
    host: C,
    output: O,
    r: (O, S, C, Result<PageCounts, T>),
) -> (pages: Seq<PageLog<S, C, O>>)
    requires
        crate::paged::pages_end(next, sink, k, effort, origin, state, host, output, r),
    ensures
        ends(
            next,
            sink,
            k,
            budget_of(effort),
            state,
            host,
            output,
            r.0,
            r.1,
            r.2,
            r.3,
            pages,
        ),
        forall|i: int| 0 <= i < pages.len() ==> origin(#[trigger] pages[i]),
{
    let pages = choose|pages: Seq<PageLog<S, C, O>>|
        {
            &&& #[trigger] crate::paged::pages_follow(
                next,
                sink,
                k,
                effort,
                origin,
                state,
                host,
                output,
                pages,
            )
            &&& r.0 == crate::paged::output_after(output, pages)
            &&& match r.3 {
                Ok(counts) => !crate::paged::goes_on(effort, pages) && r.1
                    == crate::paged::state_after(state, pages) && r.2 == crate::paged::host_after(
                    host,
                    pages,
                ) && counts.tells(pages),
                Err(e) => crate::paged::goes_on(effort, pages) && call_ensures(
                    next,
                    (
                        crate::paged::state_after(state, pages),
                        crate::paged::host_after(host, pages),
                    ),
                    (r.1, r.2, Err(e)),
                ),
            }
        };
    lemma_searched(next, sink, k, effort, origin, state, host, output, pages);
    lemma_counts(pages);
    pages
}

/// The checks of a page were made one after the other by the callback: one call
/// for each candidate that was checked, and none for any other.
pub open spec fn one_by_one<S, C, O, F: Fn(C, u64, u32) -> (C, u8)>(
    f: F,
    context_id: u64,
    page: PageLog<S, C, O>,
) -> bool {
    let n = page.verdicts.len() as int;
    &&& page.hosts.len() == n + 1
    &&& page.hosts[0] == page.fetched
    &&& page.hosts[n] == page.end
    &&& forall|i: int|
        0 <= i < n ==> crate::laws::checks::one_call(
            f,
            context_id,
            #[trigger] page.cands[i],
            page.verdicts[i],
            page.hosts[i],
            page.hosts[i + 1],
        ) && !page.known[i]
}

/// The checks of a page were made a run of candidates at a time by the batch
/// callback: one call for each run that holds a candidate that was checked, on all
/// candidates of that run, and none for any other. `answers` has
/// what the calls said.
pub open spec fn in_runs<S, C, O, B: Fn(C, u64, &Vec<u32>) -> (C, Vec<u8>)>(
    b: B,
    context_id: u64,
    size: int,
    page: PageLog<S, C, O>,
    answers: Seq<bool>,
) -> bool {
    let n = page.verdicts.len() as int;
    let len = page.cands.len() as int;
    &&& answers.len() == len
    &&& forall|i: int| 0 <= i < n ==> #[trigger] page.verdicts[i] == answers[i] && !page.known[i]
    &&& page.hosts[0] == page.fetched
    &&& n == 0 ==> page.end == page.fetched
    &&& forall|start: int, end: int| #[trigger]
        crate::laws::checks::is_run(start, end, size, len) && start < n
            ==> crate::laws::checks::one_batch_call(
            b,
            context_id,
            page.cands,
            start,
            end,
            answers,
            page.hosts[start],
            page.hosts[end],
        ) && (end >= n ==> page.hosts[end] == page.end)
}

proof fn lemma_none_known(known: Seq<bool>, n: int, i: int)
    requires
        trues(known, n) == 0,
        0 <= i < n,
    ensures
        !known[i],
    decreases n,
{
    lemma_trues_bound(known, n - 1);
    if i < n - 1 {
        lemma_none_known(known, n - 1, i);
    }
}

proof fn lemma_trues_bound(bits: Seq<bool>, n: int)
    ensures
        trues(bits, n) >= 0,
    decreases n,
{
    if n > 0 {
        lemma_trues_bound(bits, n - 1);
    }
}

proof fn lemma_in_runs<S, C, O, B: Fn(C, u64, &Vec<u32>) -> (C, Vec<u8>)>(
    b: B,
    context_id: u64,
    size: int,
    page: PageLog<S, C, O>,
) -> (answers: Seq<bool>)
    requires
        size > 0,
        page.verdicts.len() <= page.cands.len(),
        page.known.len() == page.verdicts.len(),
        crate::paged::from_chunks::<S, C, O, B>(b, context_id, size)(page),
    ensures
        in_runs(b, context_id, size, page, answers),
{
    let n = page.verdicts.len() as int;
    let len = page.cands.len() as int;
    let cands = page.cands;
    let hosts = page.hosts;
    let answers = choose|answers: Seq<bool>|
        {
            &&& answers.len() == cands.len()
            &&& #[trigger] answers.subrange(0, page.verdicts.len() as int) == page.verdicts
            &&& forall|start: int|
                #![trigger crate::filter::chunk_end(start, size, cands.len() as int)]
                0 <= start < page.verdicts.len() && start % size == 0
                    ==> crate::filter::asks_batch(
                    b,
                    context_id,
                    crate::filter::ids_of(cands).subrange(
                        start,
                        crate::filter::chunk_end(start, size, cands.len() as int),
                    ),
                    answers.subrange(
                        start,
                        crate::filter::chunk_end(start, size, cands.len() as int),
                    ),
                    hosts[start],
                    hosts[crate::filter::chunk_end(start, size, cands.len() as int)],
                )
        };
    lemma_trues(page.known, n);
    assert forall|i: int| 0 <= i < n implies #[trigger] page.verdicts[i] == answers[i]
        && !page.known[i] by {
        assert(answers.subrange(0, n)[i] == answers[i]);
        lemma_none_known(page.known, n, i);
    }
    assert forall|start: int, end: int| #[trigger]
        crate::laws::checks::is_run(start, end, size, len) && start < n implies
        crate::laws::checks::one_batch_call(
        b,
        context_id,
        page.cands,
        start,
        end,
        answers,
        page.hosts[start],
        page.hosts[end],
    ) && (end >= n ==> page.hosts[end] == page.end) by {
        assert(end == crate::filter::chunk_end(start, size, len));
        let ids = crate::filter::ids_of(cands).subrange(start, end);
        let got = answers.subrange(start, end);
        let (v, r) = choose|v: Vec<u32>, r: Vec<u8>| #[trigger]
            call_ensures(b, (hosts[start], context_id, &v), (hosts[end], r)) && v@ == ids
                && r@.len() == ids.len() && got == crate::filter::verdicts_of(r@);
        assert(call_ensures(b, (hosts[start], context_id, &v), (hosts[end], r)));
        assert forall|j: int| start <= j < end implies #[trigger] cands[j].id == v@[j - start]
            && answers[j] == (r@[j - start] != 0) by {
            assert(ids[j - start] == cands[j].id);
            assert(got[j - start] == answers[j]);
        }
        if end >= n {
            lemma_run_holds(start, size, n - 1);
        }
    }
    answers
}

proof fn lemma_run_holds(start: int, size: int, i: int)
    requires
        size > 0,
        start >= 0,
        start % size == 0,
        start <= i < start + size,
    ensures
        i - i % size == start,
{
    vstd::arithmetic::div_mod::lemma_fundamental_div_mod(start, size);
    let q = start / size;
    assert(i == q * size + (i - start)) by (nonlinear_arith)
        requires
            start == size * q + 0,
    ;
    vstd::arithmetic::div_mod::lemma_fundamental_div_mod_converse(i, size, q, i - start);
}

/// The calls of the checks of a search without a limit: of the batch callback, a
/// run at a time, if there is one and runs hold more than one candidate; else of
/// the single callback.
pub open spec fn callbacks_asked<
    S,
    C,
    O,
    F: Fn(C, u64, u32) -> (C, u8),
    B: Fn(C, u64, &Vec<u32>) -> (C, Vec<u8>),
>(f: F, b: Option<B>, context_id: u64, size: usize, page: PageLog<S, C, O>) -> bool {
    if size > 1 && b is Some {
        exists|answers: Seq<bool>| in_runs(b->0, context_id, size as int, page, answers)
    } else {
        one_by_one(f, context_id, page)
    }
}

proof fn lemma_one_by_one<S, C, O, F: Fn(C, u64, u32) -> (C, u8)>(
    f: F,
    context_id: u64,
    page: PageLog<S, C, O>,
)
    requires
        crate::paged::from_callback::<S, C, O, F>(f, context_id)(page),
    ensures
        one_by_one(f, context_id, page),
{
    assert forall|i: int|
        0 <= i < page.verdicts.len() implies crate::laws::checks::one_call(
        f,
        context_id,
        #[trigger] page.cands[i],
        page.verdicts[i],
        page.hosts[i],
        page.hosts[i + 1],
    ) && !page.known[i] by {
        let c = page.cands[i];
        assert(crate::filter::asks(
            f,
            context_id,
            c.id,
            page.verdicts[i],
            page.hosts[i],
            page.hosts[i + 1],
        ));
        let byte = choose|byte: u8| #[trigger]
            call_ensures(f, (page.hosts[i], context_id, c.id), (page.hosts[i + 1], byte))
                && page.verdicts[i] == (byte != 0);
        assert(call_ensures(
            f,
            (page.hosts[i], context_id, c.id),
            (page.hosts[i + 1], byte),
        ));
    }
}

/// Pages of a search by callbacks made these calls.
pub proof fn lemma_callbacks_asked<
    S,
    C,
    O,
    F: Fn(C, u64, u32) -> (C, u8),
    B: Fn(C, u64, &Vec<u32>) -> (C, Vec<u8>),
>(f: F, b: Option<B>, context_id: u64, size: usize, page: PageLog<S, C, O>)
    requires
        page.verdicts.len() <= page.cands.len(),
        page.known.len() == page.verdicts.len(),
        crate::paged::from_callbacks::<S, C, O, F, B>(f, b, context_id, size)(page),
    ensures
        callbacks_asked(f, b, context_id, size, page),
{
    if size > 1 && b is Some {
        let answers = lemma_in_runs(b->0, context_id, size as int, page);
        assert(in_runs(b->0, context_id, size as int, page, answers));
    } else {
        lemma_one_by_one(f, context_id, page);
    }
}

/// The statistics of a search that took its counts from `scratch`.
pub open spec fn is_told<S, O, X, P, L: Fn(&O) -> usize, W: Fn(&S) -> (u32, u32)>(
    sink: Sink<X, P, L>,
    scratch: W,
    state: S,
    output: O,
    report: PagedReport,
) -> bool {
    exists|comparisons: u32, hops: u32| #[trigger]
        call_ensures(scratch, (&state,), (comparisons, hops)) && crate::laws::outputs::stats_are(
            sink,
            output,
            comparisons as int,
            hops as int,
            report.stats,
        )
}

proof fn lemma_told<O, X, P, L: Fn(&O) -> usize>(
    sink: Sink<X, P, L>,
    output: O,
    comparisons: int,
    hops: int,
    report: PagedReport,
)
    requires
        crate::paged::stats_told(sink, output, comparisons, hops, report.stats),
    ensures
        crate::laws::outputs::stats_are(sink, output, comparisons, hops, report.stats),
{
    let stats = report.stats;
    let len = choose|len: usize| #[trigger]
        call_ensures(sink.current_len, (&output,), len) && stats.tells(comparisons, hops, len);
    crate::laws::outputs::lemma_stats(sink, output, len, comparisons, hops, stats);
}

/// Statistics that came from `scratch`.
pub proof fn lemma_is_told<S, O, X, P, L: Fn(&O) -> usize, W: Fn(&S) -> (u32, u32)>(
    sink: Sink<X, P, L>,
    scratch: W,
    state: S,
    output: O,
    report: PagedReport,
)
    requires
        exists|comparisons: u32, hops: u32| #[trigger]
            call_ensures(scratch, (&state,), (comparisons, hops)) && crate::paged::stats_told(
                sink,
                output,
                comparisons as int,
                hops as int,
                report.stats,
            ),
    ensures
        is_told(sink, scratch, state, output, report),
{
    let stats = report.stats;
    let (comparisons, hops) = choose|comparisons: u32, hops: u32| #[trigger]
        call_ensures(scratch, (&state,), (comparisons, hops)) && crate::paged::stats_told(
            sink,
            output,
            comparisons as int,
            hops as int,
            stats,
        );
    lemma_told(sink, output, comparisons as int, hops as int, report);
    assert(call_ensures(scratch, (&state,), (comparisons, hops)));
}

/// A search without a limit fetches pages until there is enough or an empty page
/// comes, and hands over the candidates on which the callback says yes.
pub proof fn law_paged_filter_loop_unlimited<
    C,
    F: Fn(C, u64, u32) -> (C, u8),
    B: Fn(C, u64, &Vec<u32>) -> (C, Vec<u8>),
    W: Fn(&S) -> (u32, u32),
    S,
    T,
    Q: Fn(S, C) -> (S, C, Result<Vec<Candidate>, T>),
    O,
    E,
    D,
    X: Fn(O, u32) -> (O, Result<E, D>),
    P: Fn(O, E, OrderedF32) -> (O, bool),
    L: Fn(&O) -> usize,
>(
    next: Q,
    state: S,
    host: C,
    scratch: W,
    context_id: u64,
    k: usize,
    f: F,
    b: Option<B>,
    size: usize,
    sink: Sink<X, P, L>,
    output: O,
    r: (O, S, C, Result<PagedReport, T>),
) -> (pages: Seq<PageLog<S, C, O>>)
    requires
        call_ensures(
            paged_filter_loop_unlimited::<C, F, B, W, S, T, Q, O, E, D, X, P, L>,
            (
                &next,
                state,
                host,
                &scratch,
                context_id,
                k,
                &f,
                &b,
                size,
                &sink,
                output,
            ),
            r,
        ),
    ensures
        ends(
            next,
            sink,
            k,
            None,
            state,
            host,
            output,
            r.0,
            r.1,
            r.2,
            counts_in(r.3),
            pages,
        ),
        forall|i: int|
            0 <= i < pages.len() ==> callbacks_asked(
                f,
                b,
                context_id,
                size,
                #[trigger] pages[i],
            ),
        r.3 matches Ok(report) ==> is_told(sink, scratch, r.1, r.0, report),
{
    let pages = lemma_ends(
        next,
        sink,
        k,
        Effort::Unlimited,
        crate::paged::from_callbacks::<S, C, O, F, B>(f, b, context_id, size),
        state,
        host,
        output,
        (r.0, r.1, r.2, counts_in(r.3)),
    );
    assert forall|i: int| 0 <= i < pages.len() implies callbacks_asked(
        f,
        b,
        context_id,
        size,
        #[trigger] pages[i],
    ) by {
        lemma_callbacks_asked(f, b, context_id, size, pages[i]);
    }
    if r.3 is Ok {
        lemma_is_told(sink, scratch, r.1, r.0, r.3->Ok_0);
    }
    pages
}

/// A search with a budget of checks hands over the candidates on which the callback
/// says yes, and makes no check beyond its budget.
pub proof fn law_paged_filter_loop_capped<
    C,
    F: Fn(C, u64, u32) -> (C, u8),
    S,
    T,
    Q: Fn(S, C) -> (S, C, Result<Vec<Candidate>, T>),
    O,
    E,
    D,
    X: Fn(O, u32) -> (O, Result<E, D>),
    P: Fn(O, E, OrderedF32) -> (O, bool),
    L: Fn(&O) -> usize,
>(
    next: Q,
    state: S,
    host: C,
    context_id: u64,
    k: usize,
    max_effort: usize,
    f: F,
    sink: Sink<X, P, L>,
    output: O,
    r: (O, S, C, Result<PagedReport, T>),
) -> (pages: Seq<PageLog<S, C, O>>)
    requires
        call_ensures(
            paged_filter_loop_capped::<C, F, S, T, Q, O, E, D, X, P, L>,
            (&next, state, host, context_id, k, max_effort, &f, &sink, output),
            r,
        ),
    ensures
        ends(
            next,
            sink,
            k,
            Some(max_effort),
            state,
            host,
            output,
            r.0,
            r.1,
            r.2,
            counts_in(r.3),
            pages,
        ),
        forall|i: int|
            0 <= i < pages.len() ==> one_by_one(f, context_id, #[trigger] pages[i]),
        r.3 matches Ok(report) ==> crate::laws::outputs::stats_are(sink, r.0, 0, 0, report.stats),
{
    let pages = lemma_ends(
        next,
        sink,
        k,
        Effort::Limited(max_effort),
        crate::paged::from_callback::<S, C, O, F>(f, context_id),
        state,
        host,
        output,
        (r.0, r.1, r.2, counts_in(r.3)),
    );
    assert forall|i: int| 0 <= i < pages.len() implies one_by_one(
        f,
        context_id,
        #[trigger] pages[i],
    ) by {
        lemma_one_by_one(f, context_id, pages[i]);
    }
    if r.3 is Ok {
        lemma_told(sink, r.0, 0, 0, r.3->Ok_0);
    }
    pages
}

/// The outcomes of a page are those that the callback gave on the very ids while
/// the bitmap was built. No call is made.
pub open spec fn looked_up<S, C, O>(max_id: u32, bytes: Seq<u8>, page: PageLog<S, C, O>) -> bool {
    &&& page.end == page.fetched
    &&& forall|i: int|
        0 <= i < page.verdicts.len() ==> (page.verdicts[i] <==> (#[trigger] page.cands[i]).id
            < max_id && bytes[page.cands[i].id as int] != 0) && !page.known[i]
}

/// A search with a bitmap that was built over the ids below `max_id` hands over
/// exactly those candidates, of the ones it checks, on which the callback said yes
/// while the bitmap was built. It makes no call of it.
pub proof fn law_paged_filter_loop_bitmap<
    A,
    C,
    F: Fn(A, u64, u32) -> (A, u8),
    S,
    T,
    Q: Fn(S, C) -> (S, C, Result<Vec<Candidate>, T>),
    O,
    E,
    D,
    X: Fn(O, u32) -> (O, Result<E, D>),
    P: Fn(O, E, OrderedF32) -> (O, bool),
    L: Fn(&O) -> usize,
>(
    f: F,
    context: u64,
    max_id: u32,
    asked: A,
    built: (A, BitmapLabelProvider),
    next: Q,
    state: S,
    host: C,
    k: usize,
    sink: Sink<X, P, L>,
    output: O,
    r: (O, S, C, Result<PagedReport, T>),
) -> (t: (Seq<PageLog<S, C, O>>, Seq<u8>, Seq<A>))
    requires
        call_ensures(
            BitmapLabelProvider::build::<A, F>,
            (asked, &f, context, max_id),
            built,
        ),
        call_ensures(
            paged_filter_loop_bitmap::<C, S, T, Q, O, E, D, X, P, L>,
            (&next, state, host, k, &built.1, &sink, output),
            r,
        ),
    ensures
        crate::laws::answers::asked_of_each(f, context, max_id, t.1, t.2),
        t.2[0] == asked,
        t.2[max_id as int] == built.0,
        ends(
            next,
            sink,
            k,
            None,
            state,
            host,
            output,
            r.0,
            r.1,
            r.2,
            counts_in(r.3),
            t.0,
        ),
        forall|i: int| 0 <= i < t.0.len() ==> looked_up(max_id, t.1, #[trigger] t.0[i]),
        r.3 matches Ok(report) ==> crate::laws::outputs::stats_are(sink, r.0, 0, 0, report.stats),
{
    let (bytes, hosts) = crate::laws::answers::lemma_build(asked, f, context, max_id, built);
    let pages = lemma_ends(
        next,
        sink,
        k,
        Effort::Unlimited,
        crate::paged::from_bitmap::<S, C, O>(built.1),
        state,
        host,
        output,
        (r.0, r.1, r.2, counts_in(r.3)),
    );
    assert forall|i: int| 0 <= i < pages.len() implies looked_up(
        max_id,
        bytes,
        #[trigger] pages[i],
    ) by {
        let page = pages[i];
        assert forall|j: int| 0 <= j < page.verdicts.len() implies (page.verdicts[j] <==> (
        #[trigger] page.cands[j]).id < max_id && bytes[page.cands[j].id as int] != 0)
            && !page.known[j] by {
            let id = page.cands[j].id;
        }
    }
    if r.3 is Ok {
        lemma_told(sink, r.0, 0, 0, r.3->Ok_0);
    }
    (pages, bytes, hosts)
}

/// The checks of a page were made one after the other by a check with cells.
pub open spec fn by_cells<S, C, O, F: Fn(C, u64, u32) -> (C, u8)>(
    page: PageLog<S, (AtomicCacheLabelProvider<F>, C), O>,
) -> bool {
    let n = page.verdicts.len() as int;
    &&& page.hosts.len() == n + 1
    &&& page.hosts[0] == page.fetched
    &&& page.hosts[n] == page.end
    &&& forall|i: int|
        0 <= i < n ==> crate::laws::answers::cell_answers(
            page.hosts[i].0,
            page.hosts[i].1,
            (#[trigger] page.cands[i]).id,
            page.verdicts[i],
            page.hosts[i + 1].1,
            page.hosts[i + 1].0,
        ) && !page.known[i]
}

/// A search with a check with cells hands over the candidates on which that check
/// says yes; no id that has a cell is asked about twice.
pub proof fn law_paged_filter_loop_unlimited_atomic<
    C,
    F: Fn(C, u64, u32) -> (C, u8),
    S,
    T,
    Q: Fn(S, (AtomicCacheLabelProvider<F>, C)) -> (
        S,
        (AtomicCacheLabelProvider<F>, C),
        Result<Vec<Candidate>, T>,
    ),
    O,
    E,
    D,
    X: Fn(O, u32) -> (O, Result<E, D>),
    P: Fn(O, E, OrderedF32) -> (O, bool),
    L: Fn(&O) -> usize,
>(
    next: Q,
    state: S,
    labels: AtomicCacheLabelProvider<F>,
    host: C,
    k: usize,
    sink: Sink<X, P, L>,
    output: O,
    r: (O, S, (AtomicCacheLabelProvider<F>, C), Result<PagedReport, T>),
) -> (pages: Seq<PageLog<S, (AtomicCacheLabelProvider<F>, C), O>>)
    requires
        call_ensures(
            paged_filter_loop_unlimited_atomic::<C, F, S, T, Q, O, E, D, X, P, L>,
            (&next, state, labels, host, k, &sink, output),
            r,
        ),
    ensures
        ends(
            next,
            sink,
            k,
            None,
            state,
            (labels, host),
            output,
            r.0,
            r.1,
            r.2,
            counts_in(r.3),
            pages,
        ),
        forall|i: int| 0 <= i < pages.len() ==> by_cells(#[trigger] pages[i]),
        r.3 matches Ok(report) ==> crate::laws::outputs::stats_are(sink, r.0, 0, 0, report.stats),
{
    let pages = lemma_ends(
        next,
        sink,
        k,
        Effort::Unlimited,
        crate::paged::from_cells::<S, C, O, F>(),
        state,
        (labels, host),
        output,
        (r.0, r.1, r.2, counts_in(r.3)),
    );
    assert forall|i: int| 0 <= i < pages.len() implies by_cells(#[trigger] pages[i]) by {
        let page = pages[i];
        assert forall|j: int|
            0 <= j < page.verdicts.len() implies crate::laws::answers::cell_answers(
            page.hosts[j].0,
            page.hosts[j].1,
            (#[trigger] page.cands[j]).id,
            page.verdicts[j],
            page.hosts[j + 1].1,
            page.hosts[j + 1].0,
        ) && !page.known[j] by {
            crate::laws::answers::lemma_cell_answers(
                page.hosts[j].0,
                page.hosts[j].1,
                page.cands[j].id,
                page.verdicts[j],
                page.hosts[j + 1].1,
                page.hosts[j + 1].0,
            );
        }
    }
    if r.3 is Ok {
        lemma_told(sink, r.0, 0, 0, r.3->Ok_0);
    }
    pages
}

/// The checks of a page were made one after the other by a check that remembers
/// all. Those count as known whose answer it had.
pub open spec fn by_memory<S, C, O, F: Fn(C, u64, u32) -> (C, u8)>(
    page: PageLog<S, (CachedCallbackLabelProvider<F>, C), O>,
) -> bool {
    let n = page.verdicts.len() as int;
    &&& page.hosts.len() == n + 1
    &&& page.hosts[0] == page.fetched
    &&& page.hosts[n] == page.end
    &&& forall|i: int|
        0 <= i < n ==> crate::laws::answers::memory_answers(
            page.hosts[i].0,
            page.hosts[i].1,
            (#[trigger] page.cands[i]).id,
            page.verdicts[i],
            page.hosts[i + 1].1,
            page.hosts[i + 1].0,
        ) && (page.known[i] <==> page.hosts[i].0.answers().contains_key(page.cands[i].id))
}

/// A search with a check that remembers all hands over the candidates on which that
/// check says yes, and makes no check beyond its budget; no id is asked about
/// twice.
pub proof fn law_paged_filter_loop_cached<
    C,
    F: Fn(C, u64, u32) -> (C, u8),
    S,
    T,
    Q: Fn(S, (CachedCallbackLabelProvider<F>, C)) -> (
        S,
        (CachedCallbackLabelProvider<F>, C),
        Result<Vec<Candidate>, T>,
    ),
    O,
    E,
    D,
    X: Fn(O, u32) -> (O, Result<E, D>),
    P: Fn(O, E, OrderedF32) -> (O, bool),
    L: Fn(&O) -> usize,
>(
    next: Q,
    state: S,
    labels: CachedCallbackLabelProvider<F>,
    host: C,
    k: usize,
    max_effort: usize,
    sink: Sink<X, P, L>,
    output: O,
    r: (O, S, (CachedCallbackLabelProvider<F>, C), Result<PagedReport, T>),
) -> (pages: Seq<PageLog<S, (CachedCallbackLabelProvider<F>, C), O>>)
    requires
        call_ensures(
            paged_filter_loop_cached::<C, F, S, T, Q, O, E, D, X, P, L>,
            (&next, state, labels, host, k, max_effort, &sink, output),
            r,
        ),
    ensures
        ends(
            next,
            sink,
            k,
            Some(max_effort),
            state,
            (labels, host),
            output,
            r.0,
            r.1,
            r.2,
            counts_in(r.3),
            pages,
        ),
        forall|i: int| 0 <= i < pages.len() ==> by_memory(#[trigger] pages[i]),
        r.3 matches Ok(report) ==> crate::laws::outputs::stats_are(sink, r.0, 0, 0, report.stats),
{
    let pages = lemma_ends(
        next,
        sink,
        k,
        Effort::Limited(max_effort),
        crate::paged::from_cache::<S, C, O, F>(),
        state,
        (labels, host),
        output,
        (r.0, r.1, r.2, counts_in(r.3)),
    );
    assert forall|i: int| 0 <= i < pages.len() implies by_memory(#[trigger] pages[i]) by {
        let page = pages[i];
        assert forall|j: int|
            0 <= j < page.verdicts.len() implies crate::laws::answers::memory_answers(
            page.hosts[j].0,
            page.hosts[j].1,
            (#[trigger] page.cands[j]).id,
            page.verdicts[j],
            page.hosts[j + 1].1,
            page.hosts[j + 1].0,
        ) && (page.known[j] <==> page.hosts[j].0.answers().contains_key(page.cands[j].id)) by {
            crate::laws::answers::lemma_memory_answers(
                page.hosts[j].0,
                page.hosts[j].1,
                page.cands[j].id,
                page.verdicts[j],
                page.hosts[j + 1].1,
                page.hosts[j + 1].0,
            );
        }
    }
    if r.3 is Ok {
        lemma_told(sink, r.0, 0, 0, r.3->Ok_0);
    }
    pages
}

} // verus!
