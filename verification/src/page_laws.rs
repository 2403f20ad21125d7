//! What holds of whole searches of pages: that a shared cache asks about each id
//! once, and that a larger budget only adds results.

use vstd::prelude::*;
use crate::candidate::Candidate;
use crate::labels::{AtomicCacheLabelProvider, CachedCallbackLabelProvider};
use crate::ordered_f32::OrderedF32;
use crate::output::Sink;
use crate::paged::{Effort, PageLog};

verus! {

/// `calls` counts the calls of a callback: each adds one, and fetching a page
/// adds none.
pub open spec fn counts_checks<
    C,
    F: Fn(C, u64, u32) -> (C, u8),
    S,
    T,
    Q: Fn(S, C) -> (S, C, Result<Vec<Candidate>, T>),
>(next: Q, f: F, context_id: u64, calls: spec_fn(C) -> int) -> bool {
    &&& forall|s: S, h: C, later: S, after: C, r: Result<Vec<Candidate>, T>| #[trigger]
        call_ensures(next, (s, h), (later, after, r)) ==> calls(after) == calls(h)
    &&& forall|id: u32, verdict: bool, h: C, after: C| #[trigger]
        crate::filter::asks(f, context_id, id, verdict, h, after) ==> calls(after) == calls(h) + 1
}

/// Each check of a page by a callback is one call.
proof fn lemma_page_calls_are_counted<
    C,
    F: Fn(C, u64, u32) -> (C, u8),
    S,
    T,
    Q: Fn(S, C) -> (S, C, Result<Vec<Candidate>, T>),
    O,
>(
    next: Q,
    f: F,
    context_id: u64,
    calls: spec_fn(C) -> int,
    log: PageLog<S, C, O>,
    n: int,
)
    requires
        counts_checks::<C, F, S, T, Q>(next, f, context_id, calls),
        crate::paged::from_callback::<S, C, O, F>(f, context_id)(log),
        0 <= n <= log.verdicts.len(),
    ensures
        calls(log.hosts[n]) == calls(log.fetched) + n,
    decreases n,
{
    if n > 0 {
        lemma_page_calls_are_counted::<C, F, S, T, Q, O>(next, f, context_id, calls, log, n - 1);
        let c = log.cands[n - 1];
        assert(crate::filter::asks(
            f,
            context_id,
            c.id,
            log.verdicts[n - 1],
            log.hosts[n - 1],
            log.hosts[n - 1 + 1],
        ));
    }
}

/// A search by a callback calls it as often as its counts say candidates were
/// checked, and within a budget no more often than that allows.
pub proof fn lemma_checks_are_calls<
    C,
    F: Fn(C, u64, u32) -> (C, u8),
    S,
    T,
    Q: Fn(S, C) -> (S, C, Result<Vec<Candidate>, T>),
    O,
    E,
    D,
    X: Fn(O, u32) -> (O, Result<E, D>),
    P: Fn(O, E, OrderedF32) -> (O, bool),
    L: Fn(&O) -> usize,
>(
    next: Q,
    sink: Sink<X, P, L>,
    k: usize,
    effort: Effort,
    f: F,
    context_id: u64,
    state: S,
    host: C,
    output: O,
    logs: Seq<PageLog<S, C, O>>,
    calls: spec_fn(C) -> int,
)
    requires
        counts_checks::<C, F, S, T, Q>(next, f, context_id, calls),
        crate::paged::pages_follow(
            next,
            sink,
            k,
            effort,
            crate::paged::from_callback::<S, C, O, F>(f, context_id),
            state,
            host,
            output,
            logs,
        ),
    ensures
        calls(crate::paged::host_after(host, logs)) == calls(host) + crate::paged::checked(logs),
        effort matches Effort::Limited(max) ==> calls(crate::paged::host_after(host, logs))
            <= calls(host) + max,
    decreases logs.len(),
{
    let origin = crate::paged::from_callback::<S, C, O, F>(f, context_id);
    crate::paged::lemma_effort_bounds_checks(
        next,
        sink,
        k,
        effort,
        origin,
        state,
        host,
        output,
        logs,
    );
    if logs.len() > 0 {
        let log = logs.last();
        lemma_checks_are_calls(
            next,
            sink,
            k,
            effort,
            f,
            context_id,
            state,
            host,
            output,
            logs.drop_last(),
            calls,
        );
        let page = choose|page: Vec<Candidate>| #[trigger]
            call_ensures(next, (log.before, log.start), (log.after, log.fetched, Ok(page)))
                && page@ == log.cands;
        assert(calls(log.fetched) == calls(log.start));
        lemma_page_calls_are_counted::<C, F, S, T, Q, O>(
            next,
            f,
            context_id,
            calls,
            log,
            log.verdicts.len() as int,
        );
    }
}

/// The candidates that passed and were handed over, in order.
pub open spec fn handed<S, C, O>(logs: Seq<PageLog<S, C, O>>) -> Seq<Candidate>
    decreases logs.len(),
{
    if logs.len() == 0 {
        Seq::empty()
    } else {
        handed(logs.drop_last()) + crate::hybrid::kept(
            logs.last().cands,
            logs.last().verdicts,
            logs.last().verdicts.len() as int,
        )
    }
}

/// A page searched only as far as its first `n` checks.
spec fn cut_page<S, C, O>(log: PageLog<S, C, O>, n: int) -> PageLog<S, C, O> {
    PageLog {
        verdicts: log.verdicts.subrange(0, n),
        known: log.known.subrange(0, n),
        hosts: log.hosts.subrange(0, n + 1),
        end: log.hosts[n],
        outs: log.outs.subrange(0, n + 1),
        stopped: false,
        ..log
    }
}

/// The first of the candidates that are kept are those of the first outcomes.
proof fn lemma_kept_prefix(cs: Seq<Candidate>, v: Seq<bool>, n: int, m: int)
    requires
        0 <= n <= m <= v.len(),
    ensures
        crate::hybrid::kept(cs, v.subrange(0, n), n).is_prefix_of(crate::hybrid::kept(cs, v, m)),
    decreases m,
{
    if m > n {
        lemma_kept_prefix(cs, v, n, m - 1);
        let few = crate::hybrid::kept(cs, v.subrange(0, n), n);
        let more = crate::hybrid::kept(cs, v, m - 1);
        let most = crate::hybrid::kept(cs, v, m);
        assert(few =~= most.subrange(0, few.len() as int)) by {
            assert(few == more.subrange(0, few.len() as int));
        }
    } else {
        crate::hybrid::lemma_kept_frame(cs, v.subrange(0, n), v, n);
        assert(crate::hybrid::kept(cs, v, n) =~= crate::hybrid::kept(cs, v, n).subrange(
            0,
            crate::hybrid::kept(cs, v, n).len() as int,
        ));
    }
}

/// A larger budget only extends what a search by a callback hands over: from the
/// same answers, a search with a smaller budget hands over the first of what a
/// search with a larger one does, and nothing else. Where the search with the
/// larger budget ends, so does the one with the smaller.
pub proof fn lemma_larger_budget_extends<
    F: Fn(C, u64, u32) -> (C, u8),
    S,
    C,
    T,
    Q: Fn(S, C) -> (S, C, Result<Vec<Candidate>, T>),
    O,
    E,
    D,
    X: Fn(O, u32) -> (O, Result<E, D>),
    P: Fn(O, E, OrderedF32) -> (O, bool),
    L: Fn(&O) -> usize,
>(
    next: Q,
    sink: Sink<X, P, L>,
    k: usize,
    f: F,
    context_id: u64,
    small: usize,
    large: usize,
    state: S,
    host: C,
    output: O,
    logs: Seq<PageLog<S, C, O>>,
) -> (fewer: Seq<PageLog<S, C, O>>)
    requires
        small <= large,
        crate::paged::pages_follow(
            next,
            sink,
            k,
            Effort::Limited(large),
            crate::paged::from_callback::<S, C, O, F>(f, context_id),
            state,
            host,
            output,
            logs,
        ),
    ensures
        crate::paged::pages_follow(
            next,
            sink,
            k,
            Effort::Limited(small),
            crate::paged::from_callback::<S, C, O, F>(f, context_id),
            state,
            host,
            output,
            fewer,
        ),
        !crate::paged::goes_on(Effort::Limited(large), logs) ==> !crate::paged::goes_on(
            Effort::Limited(small),
            fewer,
        ),
        logs.len() > 0 && crate::paged::checked(logs) >= small ==> !crate::paged::goes_on(
            Effort::Limited(small),
            fewer,
        ),
        handed(fewer).is_prefix_of(handed(logs)),
        crate::paged::checked(fewer) <= crate::paged::checked(logs),
        crate::paged::checked(logs) < small || logs.len() == 0 ==> fewer == logs,
    decreases logs.len(),
{
    let origin = crate::paged::from_callback::<S, C, O, F>(f, context_id);
    let less = Effort::Limited(small);
    if logs.len() == 0 {
        assert(handed(logs) =~= handed(logs).subrange(0, 0));
        logs
    } else {
        let log = logs.last();
        let rest = logs.drop_last();
        let fewer = lemma_larger_budget_extends(
            next,
            sink,
            k,
            f,
            context_id,
            small,
            large,
            state,
            host,
            output,
            rest,
        );
        crate::paged::lemma_counts(
            next,
            sink,
            k,
            Effort::Limited(large),
            origin,
            state,
            host,
            output,
            rest,
        );
        let kept = crate::hybrid::kept(log.cands, log.verdicts, log.verdicts.len() as int);
        if rest.len() > 0 && crate::paged::checked(rest) >= small {
            assert(handed(fewer) =~= handed(logs).subrange(0, handed(fewer).len() as int)) by {
                assert(handed(fewer) == handed(rest).subrange(0, handed(fewer).len() as int));
            }
            fewer
        } else {
            assert(fewer == rest);
            assert(crate::paged::goes_on(less, rest));
            let n = less.allows(crate::paged::checked(rest), log.cands.len() as int);
            if log.verdicts.len() <= n {
                assert(handed(logs) =~= handed(logs).subrange(0, handed(logs).len() as int));
                logs
            } else {
                let short = cut_page(log, n);
                let r = rest.push(short);
                assert(r.drop_last() =~= rest);
                assert(r.last() == short);
                assert(crate::paged::page_came::<S, C, T, Q, O>(next, short)) by {
                    let page = choose|page: Vec<Candidate>| #[trigger]
                        call_ensures(
                            next,
                            (log.before, log.start),
                            (log.after, log.fetched, Ok(page)),
                        ) && page@ == log.cands;
                    assert(call_ensures(
                        next,
                        (short.before, short.start),
                        (short.after, short.fetched, Ok(page)),
                    ));
                }
                assert forall|i: int| 0 <= i < n implies crate::paged::settles(
                    sink,
                    k,
                    #[trigger] short.cands[i],
                    short.verdicts[i],
                    short.outs[i],
                    short.outs[i + 1],
                    short.stopped && i == n - 1,
                ) by {
                    let same = log.cands[i];
                    assert(!(log.stopped && i == log.verdicts.len() - 1));
                }
                assert(origin(short)) by {
                    assert forall|i: int| 0 <= i < short.verdicts.len() implies crate::filter::asks(
                        f,
                        context_id,
                        (#[trigger] short.cands[i]).id,
                        short.verdicts[i],
                        short.hosts[i],
                        short.hosts[i + 1],
                    ) && !short.known[i] by {
                        let same = log.cands[i];
                    }
                }
                lemma_kept_prefix(log.cands, log.verdicts, n, log.verdicts.len() as int);
                let few = crate::hybrid::kept(short.cands, short.verdicts, n);
                assert(handed(r) == handed(rest) + few);
                assert(handed(r) =~= handed(logs).subrange(0, handed(r).len() as int)) by {
                    assert(few == kept.subrange(0, few.len() as int));
                }
                r
            }
        }
    }
}

/// A cache holds the answer `verdict` on `id`.
pub open spec fn remembers<F>(
    cache: CachedCallbackLabelProvider<F>,
    id: u32,
    verdict: bool,
) -> bool {
    cache.answers().contains_key(id) && cache.answers()[id] == verdict
}

/// The calls that fetch pages lose no answer of the cache that goes through them.
pub open spec fn fetching_keeps_answers<
    C,
    F,
    S,
    T,
    Q: Fn(S, (CachedCallbackLabelProvider<F>, C)) -> (
        S,
        (CachedCallbackLabelProvider<F>, C),
        Result<Vec<Candidate>, T>,
    ),
>(next: Q) -> bool {
    forall|
        s: S,
        given: (CachedCallbackLabelProvider<F>, C),
        later: S,
        after: (CachedCallbackLabelProvider<F>, C),
        page: Vec<Candidate>,
    | #[trigger]
        call_ensures(next, (s, given), (later, after, Ok(page))) ==> forall|
            id: u32,
            v: bool,
        | #[trigger]
            remembers(given.0, id, v) ==> remembers(after.0, id, v)
}

/// Checks keep the answers that a cache has, and add their outcomes.
proof fn lemma_checks_are_remembered<S, C, O, F: Fn(C, u64, u32) -> (C, u8)>(
    log: PageLog<S, (CachedCallbackLabelProvider<F>, C), O>,
    n: int,
)
    requires
        crate::paged::from_cache::<S, C, O, F>()(log),
        0 <= n <= log.verdicts.len(),
    ensures
        forall|id: u32, v: bool| #[trigger]
            remembers(log.fetched.0, id, v) ==> remembers(log.hosts[n].0, id, v),
        forall|i: int|
            0 <= i < n ==> remembers(
                log.hosts[n].0,
                (#[trigger] log.cands[i]).id,
                log.verdicts[i],
            ),
    decreases n,
{
    if n > 0 {
        lemma_checks_are_remembered::<S, C, O, F>(log, n - 1);
        let last = log.cands[n - 1];
        assert(log.hosts[n - 1].0.answers_on(
            log.hosts[n - 1].1,
            last.id,
            log.verdicts[n - 1],
            log.hosts[n - 1 + 1].1,
            log.hosts[n - 1 + 1].0,
        ));
        assert forall|id: u32, v: bool| #[trigger]
            remembers(log.fetched.0, id, v) implies remembers(log.hosts[n].0, id, v) by {
            assert(remembers(log.hosts[n - 1].0, id, v));
        }
        assert forall|i: int| 0 <= i < n implies remembers(
            log.hosts[n].0,
            (#[trigger] log.cands[i]).id,
            log.verdicts[i],
        ) by {
            if i < n - 1 {
                assert(remembers(log.hosts[n - 1].0, log.cands[i].id, log.verdicts[i]));
            }
        }
    }
}

/// One check comes before another.
pub open spec fn comes_before(a: int, i: int, b: int, j: int) -> bool {
    a < b || (a == b && i < j)
}

/// A search whose pages and checks share a cache remembers the outcome of every
/// check, and asks about no id twice: a check on an id that was checked before
/// has the same outcome, and makes no call.
pub proof fn lemma_cached_search_asks_once<
    C,
    F: Fn(C, u64, u32) -> (C, u8),
    S,
    T,
    Q: Fn(S, (CachedCallbackLabelProvider<F>, C)) -> (
        S,
        (CachedCallbackLabelProvider<F>, C),
        Result<Vec<Candidate>, T>,
    ),
    O,
    E,
    D,
    X: Fn(O, u32) -> (O, Result<E, D>),
    P: Fn(O, E, OrderedF32) -> (O, bool),
    L: Fn(&O) -> usize,
>(
    next: Q,
    sink: Sink<X, P, L>,
    k: usize,
    effort: Effort,
    state: S,
    labels: CachedCallbackLabelProvider<F>,
    host: C,
    output: O,
    logs: Seq<PageLog<S, (CachedCallbackLabelProvider<F>, C), O>>,
)
    requires
        fetching_keeps_answers::<C, F, S, T, Q>(next),
        crate::paged::pages_follow(
            next,
            sink,
            k,
            effort,
            crate::paged::from_cache::<S, C, O, F>(),
            state,
            (labels, host),
            output,
            logs,
        ),
    ensures
        forall|a: int, i: int|
            0 <= a < logs.len() && 0 <= i < logs[a].verdicts.len() ==> remembers(
                crate::paged::host_after((labels, host), logs).0,
                (#[trigger] logs[a].cands[i]).id,
                logs[a].verdicts[i],
            ),
        forall|a: int, i: int, b: int, j: int|
            0 <= a < logs.len() && 0 <= i < logs[a].verdicts.len() && 0 <= b < logs.len() && 0 <= j
                < logs[b].verdicts.len() && #[trigger] comes_before(a, i, b, j)
                && logs[a].cands[i].id == logs[b].cands[j].id ==> {
                &&& logs[b].known[j]
                &&& logs[b].verdicts[j] == logs[a].verdicts[i]
                &&& logs[b].hosts[j + 1].1 == logs[b].hosts[j].1
            },
    decreases logs.len(),
{
    if logs.len() > 0 {
        let log = logs.last();
        let rest = logs.drop_last();
        let n = log.verdicts.len() as int;
        let last = logs.len() - 1;
        lemma_cached_search_asks_once(next, sink, k, effort, state, labels, host, output, rest);
        let page = choose|page: Vec<Candidate>| #[trigger]
            call_ensures(next, (log.before, log.start), (log.after, log.fetched, Ok(page)))
                && page@ == log.cands;
        lemma_checks_are_remembered::<S, C, O, F>(log, n);
        assert(crate::paged::host_after((labels, host), logs) == log.hosts[n]);
        assert forall|a: int, i: int|
            0 <= a < logs.len() && 0 <= i < logs[a].verdicts.len() implies remembers(
            log.hosts[n].0,
            (#[trigger] logs[a].cands[i]).id,
            logs[a].verdicts[i],
        ) by {
            if a < last {
                assert(rest[a] == logs[a]);
                assert(remembers(log.start.0, rest[a].cands[i].id, rest[a].verdicts[i]));
                assert(remembers(log.fetched.0, logs[a].cands[i].id, logs[a].verdicts[i]));
            } else {
                let same = log.cands[i];
            }
        }
        assert forall|a: int, i: int, b: int, j: int|
            0 <= a < logs.len() && 0 <= i < logs[a].verdicts.len() && 0 <= b < logs.len() && 0 <= j
                < logs[b].verdicts.len() && #[trigger] comes_before(a, i, b, j)
                && logs[a].cands[i].id == logs[b].cands[j].id implies {
            &&& logs[b].known[j]
            &&& logs[b].verdicts[j] == logs[a].verdicts[i]
            &&& logs[b].hosts[j + 1].1 == logs[b].hosts[j].1
        } by {
            if b < last {
                assert(rest[a] == logs[a] && rest[b] == logs[b]);
                assert(comes_before(a, i, b, j));
            } else {
                lemma_checks_are_remembered::<S, C, O, F>(log, j);
                if a < last {
                    assert(rest[a] == logs[a]);
                    assert(remembers(log.start.0, rest[a].cands[i].id, rest[a].verdicts[i]));
                    assert(remembers(log.fetched.0, logs[a].cands[i].id, logs[a].verdicts[i]));
                } else {
                    assert(remembers(log.hosts[j].0, log.cands[i].id, log.verdicts[i]));
                }
                assert(remembers(log.hosts[j].0, log.cands[j].id, logs[a].verdicts[i]));
            }
        }
    }
}

/// A cell holds the answer `verdict` on `id`.
pub open spec fn cell_remembers<F>(
    cache: AtomicCacheLabelProvider<F>,
    id: u32,
    verdict: bool,
) -> bool {
    cache.knows(id) && cache.answers()[id as int] == Some(verdict)
}

/// The calls that fetch pages lose no cell and no answer of the cache that goes
/// through them.
pub open spec fn fetching_keeps_cells<
    C,
    F,
    S,
    T,
    Q: Fn(S, (AtomicCacheLabelProvider<F>, C)) -> (
        S,
        (AtomicCacheLabelProvider<F>, C),
        Result<Vec<Candidate>, T>,
    ),
>(next: Q) -> bool {
    forall|
        s: S,
        given: (AtomicCacheLabelProvider<F>, C),
        later: S,
        after: (AtomicCacheLabelProvider<F>, C),
        page: Vec<Candidate>,
    | #[trigger]
        call_ensures(next, (s, given), (later, after, Ok(page))) ==> after.0.answers().len()
            == given.0.answers().len() && forall|id: u32, v: bool| #[trigger]
            cell_remembers(given.0, id, v) ==> cell_remembers(after.0, id, v)
}

/// Checks keep the answers that cells have, and add their outcomes.
proof fn lemma_checks_fill_cells<S, C, O, F: Fn(C, u64, u32) -> (C, u8)>(
    log: PageLog<S, (AtomicCacheLabelProvider<F>, C), O>,
    n: int,
)
    requires
        crate::paged::from_cells::<S, C, O, F>()(log),
        0 <= n <= log.verdicts.len(),
    ensures
        log.hosts[n].0.answers().len() == log.fetched.0.answers().len(),
        forall|id: u32, v: bool| #[trigger]
            cell_remembers(log.fetched.0, id, v) ==> cell_remembers(log.hosts[n].0, id, v),
        forall|i: int|
            0 <= i < n && log.cands[i].id < log.fetched.0.answers().len() ==> cell_remembers(
                log.hosts[n].0,
                (#[trigger] log.cands[i]).id,
                log.verdicts[i],
            ),
    decreases n,
{
    if n > 0 {
        lemma_checks_fill_cells::<S, C, O, F>(log, n - 1);
        let last = log.cands[n - 1];
        assert(log.hosts[n - 1].0.answers_on(
            log.hosts[n - 1].1,
            last.id,
            log.verdicts[n - 1],
            log.hosts[n - 1 + 1].1,
            log.hosts[n - 1 + 1].0,
        ));
        assert forall|id: u32, v: bool| #[trigger]
            cell_remembers(log.fetched.0, id, v) implies cell_remembers(log.hosts[n].0, id, v) by {
            assert(cell_remembers(log.hosts[n - 1].0, id, v));
        }
        assert forall|i: int|
            0 <= i < n && log.cands[i].id < log.fetched.0.answers().len() implies cell_remembers(
            log.hosts[n].0,
            (#[trigger] log.cands[i]).id,
            log.verdicts[i],
        ) by {
            if i < n - 1 {
                assert(cell_remembers(log.hosts[n - 1].0, log.cands[i].id, log.verdicts[i]));
            }
        }
    }
}

/// A search whose pages and checks share the cells of a cache remembers the
/// outcome of every check on an id that has a cell, and asks about no such id
/// twice: a check on one that was checked before has the same outcome, and
/// makes no call.
pub proof fn lemma_atomic_search_asks_once<
    C,
    F: Fn(C, u64, u32) -> (C, u8),
    S,
    T,
    Q: Fn(S, (AtomicCacheLabelProvider<F>, C)) -> (
        S,
        (AtomicCacheLabelProvider<F>, C),
        Result<Vec<Candidate>, T>,
    ),
    O,
    E,
    D,
    X: Fn(O, u32) -> (O, Result<E, D>),
    P: Fn(O, E, OrderedF32) -> (O, bool),
    L: Fn(&O) -> usize,
>(
    next: Q,
    sink: Sink<X, P, L>,
    k: usize,
    effort: Effort,
    state: S,
    labels: AtomicCacheLabelProvider<F>,
    host: C,
    output: O,
    logs: Seq<PageLog<S, (AtomicCacheLabelProvider<F>, C), O>>,
)
    requires
        fetching_keeps_cells::<C, F, S, T, Q>(next),
        crate::paged::pages_follow(
            next,
            sink,
            k,
            effort,
            crate::paged::from_cells::<S, C, O, F>(),
            state,
            (labels, host),
            output,
            logs,
        ),
    ensures
        crate::paged::host_after((labels, host), logs).0.answers().len() == labels.answers().len(),
        forall|a: int, i: int|
            0 <= a < logs.len() && 0 <= i < logs[a].verdicts.len() && logs[a].cands[i].id
                < labels.answers().len() ==> cell_remembers(
                crate::paged::host_after((labels, host), logs).0,
                (#[trigger] logs[a].cands[i]).id,
                logs[a].verdicts[i],
            ),
        forall|a: int, i: int, b: int, j: int|
            0 <= a < logs.len() && 0 <= i < logs[a].verdicts.len() && 0 <= b < logs.len() && 0 <= j
                < logs[b].verdicts.len() && #[trigger] comes_before(a, i, b, j)
                && logs[a].cands[i].id == logs[b].cands[j].id && logs[a].cands[i].id
                < labels.answers().len() ==> {
                &&& logs[b].verdicts[j] == logs[a].verdicts[i]
                &&& logs[b].hosts[j + 1].1 == logs[b].hosts[j].1
            },
    decreases logs.len(),
{
    if logs.len() > 0 {
        let log = logs.last();
        let rest = logs.drop_last();
        let n = log.verdicts.len() as int;
        let last = logs.len() - 1;
        lemma_atomic_search_asks_once(next, sink, k, effort, state, labels, host, output, rest);
        let page = choose|page: Vec<Candidate>| #[trigger]
            call_ensures(next, (log.before, log.start), (log.after, log.fetched, Ok(page)))
                && page@ == log.cands;
        lemma_checks_fill_cells::<S, C, O, F>(log, n);
        assert(crate::paged::host_after((labels, host), logs) == log.hosts[n]);
        assert forall|a: int, i: int|
            0 <= a < logs.len() && 0 <= i < logs[a].verdicts.len() && logs[a].cands[i].id
                < labels.answers().len() implies cell_remembers(
            log.hosts[n].0,
            (#[trigger] logs[a].cands[i]).id,
            logs[a].verdicts[i],
        ) by {
            if a < last {
                assert(rest[a] == logs[a]);
                assert(cell_remembers(log.start.0, rest[a].cands[i].id, rest[a].verdicts[i]));
                assert(cell_remembers(log.fetched.0, logs[a].cands[i].id, logs[a].verdicts[i]));
            } else {
                let same = log.cands[i];
            }
        }
        assert forall|a: int, i: int, b: int, j: int|
            0 <= a < logs.len() && 0 <= i < logs[a].verdicts.len() && 0 <= b < logs.len() && 0 <= j
                < logs[b].verdicts.len() && #[trigger] comes_before(a, i, b, j)
                && logs[a].cands[i].id == logs[b].cands[j].id && logs[a].cands[i].id
                < labels.answers().len() implies {
            &&& logs[b].verdicts[j] == logs[a].verdicts[i]
            &&& logs[b].hosts[j + 1].1 == logs[b].hosts[j].1
        } by {
            if b < last {
                assert(rest[a] == logs[a] && rest[b] == logs[b]);
                assert(comes_before(a, i, b, j));
            } else {
                lemma_checks_fill_cells::<S, C, O, F>(log, j);
                if a < last {
                    assert(rest[a] == logs[a]);
                    assert(cell_remembers(log.start.0, rest[a].cands[i].id, rest[a].verdicts[i]));
                    assert(cell_remembers(log.fetched.0, logs[a].cands[i].id, logs[a].verdicts[i]));
                } else {
                    assert(cell_remembers(log.hosts[j].0, log.cands[i].id, log.verdicts[i]));
                }
                assert(cell_remembers(log.hosts[j].0, log.cands[j].id, logs[a].verdicts[i]));
            }
        }
    }
}

/// What a fetched page is, what a callback answers and what the handing over of a
/// candidate comes to depends on what is passed along, and on nothing else.
pub open spec fn answers_alike<
    F: Fn(C, u64, u32) -> (C, u8),
    S,
    C,
    T,
    Q: Fn(S, C) -> (S, C, Result<Vec<Candidate>, T>),
    O,
    E,
    D,
    X: Fn(O, u32) -> (O, Result<E, D>),
    P: Fn(O, E, OrderedF32) -> (O, bool),
    L: Fn(&O) -> usize,
>(next: Q, sink: Sink<X, P, L>, k: usize, f: F, context_id: u64) -> bool {
    &&& forall|
        s: S,
        h: C,
        x: (S, C, Result<Vec<Candidate>, T>),
        y: (S, C, Result<Vec<Candidate>, T>),
    |
        #![trigger call_ensures(next, (s, h), x), call_ensures(next, (s, h), y)]
        call_ensures(next, (s, h), x) && call_ensures(next, (s, h), y) ==> x.0 == y.0 && x.1 == y.1
            && match (x.2, y.2) {
            (Ok(p), Ok(q)) => p@ == q@,
            (Err(_), Err(_)) => true,
            _ => false,
        }
    &&& forall|id: u32, h: C, v: bool, x: C, w: bool, y: C|
        #![trigger crate::filter::asks(f, context_id, id, v, h, x), crate::filter::asks(
            f,
            context_id,
            id,
            w,
            h,
            y,
        )]
        crate::filter::asks(f, context_id, id, v, h, x) && crate::filter::asks(
            f,
            context_id,
            id,
            w,
            h,
            y,
        ) ==> v == w && x == y
    &&& forall|c: Candidate, o: O, x: O, a: bool, y: O, b: bool|
        #![trigger crate::paged::hands_over(sink, k, c, o, x, a), crate::paged::hands_over(
            sink,
            k,
            c,
            o,
            y,
            b,
        )]
        crate::paged::hands_over(sink, k, c, o, x, a) && crate::paged::hands_over(
            sink,
            k,
            c,
            o,
            y,
            b,
        ) ==> x == y && a == b
}

/// Two searches of one page have come to the same after `i` checks.
spec fn agree_at<S, C, O>(x: PageLog<S, C, O>, y: PageLog<S, C, O>, i: int) -> bool {
    x.hosts[i] == y.hosts[i] && x.outs[i] == y.outs[i]
}

/// Two searches of one page agree as far as both go.
proof fn lemma_checks_agree<
    F: Fn(C, u64, u32) -> (C, u8),
    S,
    C,
    T,
    Q: Fn(S, C) -> (S, C, Result<Vec<Candidate>, T>),
    O,
    E,
    D,
    X: Fn(O, u32) -> (O, Result<E, D>),
    P: Fn(O, E, OrderedF32) -> (O, bool),
    L: Fn(&O) -> usize,
>(
    next: Q,
    sink: Sink<X, P, L>,
    k: usize,
    f: F,
    context_id: u64,
    x: PageLog<S, C, O>,
    y: PageLog<S, C, O>,
    n: int,
)
    requires
        answers_alike::<F, S, C, T, Q, O, E, D, X, P, L>(next, sink, k, f, context_id),
        crate::paged::from_callback::<S, C, O, F>(f, context_id)(x),
        crate::paged::from_callback::<S, C, O, F>(f, context_id)(y),
        crate::paged::checks_run(sink, k, x.cands, x.verdicts, x.outs, x.stopped),
        crate::paged::checks_run(sink, k, y.cands, y.verdicts, y.outs, y.stopped),
        x.cands == y.cands,
        x.fetched == y.fetched,
        x.outs[0] == y.outs[0],
        0 <= n <= x.verdicts.len(),
        n <= y.verdicts.len(),
    ensures
        forall|i: int| 0 <= i < n ==> #[trigger] x.verdicts[i] == y.verdicts[i],
        forall|i: int| 0 <= i <= n ==> #[trigger] agree_at(x, y, i),
        n > 0 ==> (x.stopped && n == x.verdicts.len()) == (y.stopped && n == y.verdicts.len()),
    decreases n,
{
    if n > 0 {
        lemma_checks_agree::<F, S, C, T, Q, O, E, D, X, P, L>(
            next,
            sink,
            k,
            f,
            context_id,
            x,
            y,
            n - 1,
        );
        assert(agree_at(x, y, n - 1));
        let c = x.cands[n - 1];
        let h = x.hosts[n - 1];
        let d = y.cands[n - 1];
        let xs = x.stopped && n - 1 == x.verdicts.len() - 1;
        let ys = y.stopped && n - 1 == y.verdicts.len() - 1;
        assert(crate::filter::asks(
            f,
            context_id,
            c.id,
            x.verdicts[n - 1],
            h,
            x.hosts[n - 1 + 1],
        ));
        assert(crate::filter::asks(
            f,
            context_id,
            c.id,
            y.verdicts[n - 1],
            h,
            y.hosts[n - 1 + 1],
        ));
        assert(crate::paged::settles(
            sink,
            k,
            c,
            x.verdicts[n - 1],
            x.outs[n - 1],
            x.outs[n - 1 + 1],
            xs,
        ));
        assert(crate::paged::settles(
            sink,
            k,
            c,
            y.verdicts[n - 1],
            y.outs[n - 1],
            y.outs[n - 1 + 1],
            ys,
        ));
        assert(agree_at(x, y, n));
    } else {
        assert(agree_at(x, y, 0));
    }
}

/// Two searches of one page, as far as the effort allows, are the same.
proof fn lemma_pages_agree<
    F: Fn(C, u64, u32) -> (C, u8),
    S,
    C,
    T,
    Q: Fn(S, C) -> (S, C, Result<Vec<Candidate>, T>),
    O,
    E,
    D,
    X: Fn(O, u32) -> (O, Result<E, D>),
    P: Fn(O, E, OrderedF32) -> (O, bool),
    L: Fn(&O) -> usize,
>(
    next: Q,
    sink: Sink<X, P, L>,
    k: usize,
    f: F,
    context_id: u64,
    allowed: int,
    x: PageLog<S, C, O>,
    y: PageLog<S, C, O>,
)
    requires
        answers_alike::<F, S, C, T, Q, O, E, D, X, P, L>(next, sink, k, f, context_id),
        crate::paged::from_callback::<S, C, O, F>(f, context_id)(x),
        crate::paged::from_callback::<S, C, O, F>(f, context_id)(y),
        crate::paged::checks_run(sink, k, x.cands, x.verdicts, x.outs, x.stopped),
        crate::paged::checks_run(sink, k, y.cands, y.verdicts, y.outs, y.stopped),
        x.known.len() == x.verdicts.len() <= allowed,
        y.known.len() == y.verdicts.len() <= allowed,
        !x.stopped ==> x.verdicts.len() == allowed,
        !y.stopped ==> y.verdicts.len() == allowed,
        x.before == y.before,
        x.after == y.after,
        x.start == y.start,
        x.fetched == y.fetched,
        x.cands == y.cands,
        x.outs[0] == y.outs[0],
    ensures
        x == y,
{
    let n = if x.verdicts.len() <= y.verdicts.len() {
        x.verdicts.len() as int
    } else {
        y.verdicts.len() as int
    };
    lemma_checks_agree::<F, S, C, T, Q, O, E, D, X, P, L>(
        next,
        sink,
        k,
        f,
        context_id,
        x,
        y,
        n,
    );
    assert(x.verdicts =~= y.verdicts);
    assert forall|i: int| 0 <= i <= n implies x.hosts[i] == y.hosts[i] && x.outs[i]
        == y.outs[i] by {
        assert(agree_at(x, y, i));
    }
    assert(x.hosts =~= y.hosts);
    assert(x.outs =~= y.outs);
    assert(x.known =~= y.known) by {
        assert forall|i: int| 0 <= i < n implies x.known[i] == y.known[i] by {
            let c = x.cands[i];
            let d = y.cands[i];
        }
    }
}

/// Of two searches with the same effort, one makes the first pages of the other.
proof fn lemma_runs_agree<
    F: Fn(C, u64, u32) -> (C, u8),
    S,
    C,
    T,
    Q: Fn(S, C) -> (S, C, Result<Vec<Candidate>, T>),
    O,
    E,
    D,
    X: Fn(O, u32) -> (O, Result<E, D>),
    P: Fn(O, E, OrderedF32) -> (O, bool),
    L: Fn(&O) -> usize,
>(
    next: Q,
    sink: Sink<X, P, L>,
    k: usize,
    f: F,
    context_id: u64,
    effort: Effort,
    state: S,
    host: C,
    output: O,
    few: Seq<PageLog<S, C, O>>,
    logs: Seq<PageLog<S, C, O>>,
)
    requires
        answers_alike::<F, S, C, T, Q, O, E, D, X, P, L>(next, sink, k, f, context_id),
        crate::paged::pages_follow(
            next,
            sink,
            k,
            effort,
            crate::paged::from_callback::<S, C, O, F>(f, context_id),
            state,
            host,
            output,
            few,
        ),
        crate::paged::pages_follow(
            next,
            sink,
            k,
            effort,
            crate::paged::from_callback::<S, C, O, F>(f, context_id),
            state,
            host,
            output,
            logs,
        ),
        few.len() <= logs.len(),
    ensures
        few == logs.subrange(0, few.len() as int),
        few.len() < logs.len() ==> crate::paged::goes_on(effort, few),
    decreases few.len() + logs.len(),
{
    if few.len() < logs.len() {
        lemma_runs_agree(
            next,
            sink,
            k,
            f,
            context_id,
            effort,
            state,
            host,
            output,
            few,
            logs.drop_last(),
        );
        assert(few =~= logs.subrange(0, few.len() as int));
        if few.len() == logs.len() - 1 {
            assert(few =~= logs.drop_last());
        }
    } else if few.len() > 0 {
        lemma_runs_agree(
            next,
            sink,
            k,
            f,
            context_id,
            effort,
            state,
            host,
            output,
            few.drop_last(),
            logs.drop_last(),
        );
        let rest = logs.drop_last();
        assert(few.drop_last() =~= rest);
        let x = few.last();
        let y = logs.last();
        let p = choose|page: Vec<Candidate>| #[trigger]
            call_ensures(next, (x.before, x.start), (x.after, x.fetched, Ok(page))) && page@
                == x.cands;
        let q = choose|page: Vec<Candidate>| #[trigger]
            call_ensures(next, (y.before, y.start), (y.after, y.fetched, Ok(page))) && page@
                == y.cands;
        assert(call_ensures(next, (x.before, x.start), (x.after, x.fetched, Ok(p))));
        assert(call_ensures(next, (x.before, x.start), (y.after, y.fetched, Ok(q))));
        let allowed = effort.allows(crate::paged::checked(rest), x.cands.len() as int);
        lemma_pages_agree::<F, S, C, T, Q, O, E, D, X, P, L>(
            next,
            sink,
            k,
            f,
            context_id,
            allowed,
            x,
            y,
        );
        assert(few =~= logs.subrange(0, few.len() as int)) by {
            assert forall|i: int| 0 <= i < few.len() implies few[i] == logs[i] by {
                if i < few.len() - 1 {
                    assert(few.drop_last()[i] == rest[i]);
                }
            }
        }
    } else {
        assert(few =~= logs.subrange(0, 0));
    }
}

/// Two searches by a callback, one with a smaller budget than the other, from the
/// same start, where answers depend on nothing but what is passed along: the
/// one with the smaller budget hands over the first of what the other does, and
/// nothing else.
pub proof fn lemma_smaller_budget_hands_over_first<
    F: Fn(C, u64, u32) -> (C, u8),
    S,
    C,
    T,
    Q: Fn(S, C) -> (S, C, Result<Vec<Candidate>, T>),
    O,
    E,
    D,
    X: Fn(O, u32) -> (O, Result<E, D>),
    P: Fn(O, E, OrderedF32) -> (O, bool),
    L: Fn(&O) -> usize,
>(
    next: Q,
    sink: Sink<X, P, L>,
    k: usize,
    f: F,
    context_id: u64,
    small: usize,
    large: usize,
    state: S,
    host: C,
    output: O,
    fewer: Seq<PageLog<S, C, O>>,
    logs: Seq<PageLog<S, C, O>>,
)
    requires
        small <= large,
        answers_alike::<F, S, C, T, Q, O, E, D, X, P, L>(next, sink, k, f, context_id),
        crate::paged::pages_follow(
            next,
            sink,
            k,
            Effort::Limited(small),
            crate::paged::from_callback::<S, C, O, F>(f, context_id),
            state,
            host,
            output,
            fewer,
        ),
        crate::paged::pages_follow(
            next,
            sink,
            k,
            Effort::Limited(large),
            crate::paged::from_callback::<S, C, O, F>(f, context_id),
            state,
            host,
            output,
            logs,
        ),
        !crate::paged::goes_on(Effort::Limited(small), fewer),
        !crate::paged::goes_on(Effort::Limited(large), logs),
    ensures
        handed(fewer).is_prefix_of(handed(logs)),
{
    let run = lemma_larger_budget_extends(
        next,
        sink,
        k,
        f,
        context_id,
        small,
        large,
        state,
        host,
        output,
        logs,
    );
    let effort = Effort::Limited(small);
    if run.len() <= fewer.len() {
        lemma_runs_agree(next, sink, k, f, context_id, effort, state, host, output, run, fewer);
    } else {
        lemma_runs_agree(next, sink, k, f, context_id, effort, state, host, output, fewer, run);
    }
    assert(fewer =~= run);
}

} // verus!
