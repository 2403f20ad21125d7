//! What the two-queue search with a heap is for: it expands the nearest candidates
//! first, lets every near one wait, keeps the nearest that pass, and hands the
//! nearest of those over.

use vstd::prelude::*;
use vstd::multiset::Multiset;
use crate::candidate::{Candidate, Nearest};
use crate::filter::FilterCallbacks;
use crate::laws::walks::Expansion;
use crate::ordered_f32::OrderedF32;
use crate::output::Sink;
use crate::report::SearchReport;
use crate::two_queue::{Bounds, HeapModel, two_queue_filtered_search};
use crate::walk::{GraphAccess, Hop, VectorRead};

verus! {

/// How many of the first `n` found join the candidates that wait: the near ones,
/// and the first `room`.
pub open spec fn joiners(
    found: Seq<Candidate>,
    kept: Multiset<Candidate>,
    room: int,
    n: int,
) -> int
    decreases n,
{
    if n <= 0 {
        0
    } else if crate::laws::walks::is_near(found[n - 1], kept) || n - 1 < room {
        joiners(found, kept, room, n - 1) + 1
    } else {
        joiners(found, kept, room, n - 1)
    }
}

/// Who waits after an expansion. All who waited but the one expanded still wait.
/// Of those found, each that is near joins them, and each that is among the first
/// for whom there is room, if fewer than `ef` waited; nobody else does.
pub open spec fn wait_on(
    before: Multiset<Nearest>,
    taken: Candidate,
    found: Seq<Candidate>,
    kept: Multiset<Candidate>,
    ef: int,
    after: Multiset<Nearest>,
) -> bool {
    let rest = before.remove(Nearest { candidate: taken });
    let room = ef - rest.len();
    &&& forall|y: Nearest| #[trigger] rest.count(y) <= after.count(y)
    &&& forall|j: int|
        0 <= j < found.len() && (crate::laws::walks::is_near(found[j], kept) || j < room)
            ==> after.count(Nearest { candidate: #[trigger] found[j] }) > 0
    &&& forall|y: Nearest| #[trigger]
        after.count(y) > rest.count(y) ==> exists|j: int|
            0 <= j < found.len() && #[trigger] found[j] == y.candidate && (
            crate::laws::walks::is_near(found[j], kept) || j < room)
    &&& after.len() == rest.len() + joiners(found, kept, room, found.len() as int)
}

/// A search, step by step: the candidates expanded, what came of each expansion,
/// and between the expansions who waits, who is kept, which ids were seen, and
/// the host.
pub struct HeapRun<C> {
    pub passes: bool,
    pub taken: Seq<Candidate>,
    pub steps: Seq<Expansion<C>>,
    pub waiting: Seq<Multiset<Nearest>>,
    pub kept: Seq<Multiset<Candidate>>,
    pub seen: Seq<Set<u32>>,
    pub hosts: Seq<C>,
}

/// One expansion. It is of the nearest candidate that waits, which is not beyond
/// all results.
pub open spec fn steps_on<
    C,
    N: Fn(C, u32) -> (C, Vec<u32>),
    R: Fn(C, &Vec<u32>) -> (C, Vec<VectorRead>),
    F: Fn(C, u64, u32) -> (C, u8),
    B: Fn(C, u64, &Vec<u32>) -> (C, Vec<u8>),
    G: Fn(C, u64, u32, &[u8]) -> (C, u8),
    H: Fn(C, u64, &Vec<u32>, &Vec<&[u8]>) -> (C, Vec<u8>),
>(
    graph: GraphAccess<N, R>,
    callbacks: FilterCallbacks<F, B, G, H>,
    context_id: u64,
    size: usize,
    cap: nat,
    ef: int,
    taken: Candidate,
    x: Expansion<C>,
    waiting: Multiset<Nearest>,
    kept: Multiset<Candidate>,
    seen: Set<u32>,
    host: C,
    then_waiting: Multiset<Nearest>,
    then_kept: Multiset<Candidate>,
    then_seen: Set<u32>,
    then_host: C,
) -> bool {
    let n = x.found.len() as int;
    &&& waiting.count(Nearest { candidate: taken }) > 0
    &&& forall|y: Nearest| #[trigger]
        waiting.count(y) > 0 ==> !crate::laws::distances::past(taken, y.candidate)
    &&& !crate::laws::checks::beyond(kept, cap, taken)
    &&& crate::laws::walks::expands(
        graph,
        callbacks,
        context_id,
        size,
        cap,
        taken.id,
        seen,
        kept,
        host,
        x,
    )
    &&& wait_on(waiting, taken, x.found, kept, ef, then_waiting)
    &&& then_kept == x.checks.lists[n]
    &&& forall|id: u32| #[trigger]
        then_seen.contains(id) <==> seen.contains(id) || x.fresh.contains(id)
    &&& then_host == x.checks.hosts[n]
}

/// A run that begins with the start and goes on step by step.
pub open spec fn runs<
    C,
    N: Fn(C, u32) -> (C, Vec<u32>),
    R: Fn(C, &Vec<u32>) -> (C, Vec<VectorRead>),
    F: Fn(C, u64, u32) -> (C, u8),
    B: Fn(C, u64, &Vec<u32>) -> (C, Vec<u8>),
    G: Fn(C, u64, u32, &[u8]) -> (C, u8),
    H: Fn(C, u64, &Vec<u32>, &Vec<&[u8]>) -> (C, Vec<u8>),
>(
    graph: GraphAccess<N, R>,
    callbacks: FilterCallbacks<F, B, G, H>,
    context_id: u64,
    size: usize,
    cap: nat,
    ef: int,
    start: Candidate,
    first: C,
    t: HeapRun<C>,
) -> bool {
    let n = t.taken.len();
    &&& t.steps.len() == n
    &&& t.waiting.len() == n + 1
    &&& t.kept.len() == n + 1
    &&& t.seen.len() == n + 1
    &&& t.hosts.len() == n + 1
    &&& t.waiting[0] == Multiset::<Nearest>::empty().insert(Nearest { candidate: start })
    &&& t.kept[0] == if t.passes {
        Multiset::<Candidate>::empty().insert(start)
    } else {
        Multiset::<Candidate>::empty()
    }
    &&& forall|id: u32| #[trigger] t.seen[0].contains(id) <==> id == start.id
    &&& t.hosts[0] == first
    &&& forall|i: int|
        0 <= i < n ==> steps_on(
            graph,
            callbacks,
            context_id,
            size,
            cap,
            ef,
            #[trigger] t.taken[i],
            t.steps[i],
            t.waiting[i],
            t.kept[i],
            t.seen[i],
            t.hosts[i],
            t.waiting[i + 1],
            t.kept[i + 1],
            t.seen[i + 1],
            t.hosts[i + 1],
        )
}

/// How many vectors the first `n` expansions brought.
pub open spec fn brought<C>(steps: Seq<Expansion<C>>, n: int) -> int
    decreases n,
{
    if n <= 0 {
        0
    } else {
        brought(steps, n - 1) + steps[n - 1].found.len()
    }
}

/// How many checks counted in the first `n` expansions.
pub open spec fn checks_in<C>(steps: Seq<Expansion<C>>, cap: nat, n: int) -> int
    decreases n,
{
    if n <= 0 {
        0
    } else {
        checks_in(steps, cap, n - 1) + crate::laws::checks::tried(
            steps[n - 1].checks,
            cap,
            steps[n - 1].found,
            steps[n - 1].found.len() as int,
        )
    }
}

/// How many of them passed.
pub open spec fn passes_in<C>(steps: Seq<Expansion<C>>, cap: nat, n: int) -> int
    decreases n,
{
    if n <= 0 {
        0
    } else {
        passes_in(steps, cap, n - 1) + crate::laws::checks::agreed(
            steps[n - 1].checks,
            cap,
            steps[n - 1].found,
            steps[n - 1].found.len() as int,
        )
    }
}

/// `most` is the largest of the first `n` numbers, or zero.
pub open spec fn is_most(most: int, of: spec_fn(int) -> int, n: int) -> bool {
    &&& most >= 0
    &&& forall|i: int| 0 <= i < n ==> #[trigger] of(i) <= most
    &&& most > 0 ==> exists|i: int| 0 <= i < n && #[trigger] of(i) == most
}

proof fn lemma_joined(
    queue: Multiset<Nearest>,
    found: Seq<Candidate>,
    kept: Multiset<Candidate>,
    room: int,
    n: int,
)
    requires
        0 <= n <= found.len(),
    ensures
        ({
            let after = crate::two_queue::joined(
                queue,
                found,
                crate::walk::horizon(kept),
                room,
                n,
            );
            &&& forall|y: Nearest| #[trigger] queue.count(y) <= after.count(y)
            &&& forall|j: int|
                0 <= j < n && (crate::laws::walks::is_near(found[j], kept) || j < room)
                    ==> after.count(Nearest { candidate: #[trigger] found[j] }) > 0
            &&& forall|y: Nearest| #[trigger]
                after.count(y) > queue.count(y) ==> exists|j: int|
                    0 <= j < n && #[trigger] found[j] == y.candidate && (
                    crate::laws::walks::is_near(found[j], kept) || j < room)
            &&& after.len() == queue.len() + joiners(found, kept, room, n)
        }),
    decreases n,
{
    broadcast use vstd::multiset::group_multiset_axioms;

    if n > 0 {
        lemma_joined(queue, found, kept, room, n - 1);
        let h = crate::walk::horizon(kept);
        let before = crate::two_queue::joined(queue, found, h, room, n - 1);
        let after = crate::two_queue::joined(queue, found, h, room, n);
        let c = found[n - 1];
        crate::laws::walks::lemma_near(c, kept);
        assert forall|y: Nearest| #[trigger] queue.count(y) <= after.count(y) by {
            assert(queue.count(y) <= before.count(y));
        }
        assert forall|j: int|
            0 <= j < n && (crate::laws::walks::is_near(found[j], kept) || j < room)
            implies after.count(Nearest { candidate: #[trigger] found[j] }) > 0 by {
            if j < n - 1 {
                assert(before.count(Nearest { candidate: found[j] }) > 0);
            }
        }
        assert forall|y: Nearest| #[trigger] after.count(y) > queue.count(y) implies exists|
            j: int,
        |
            0 <= j < n && #[trigger] found[j] == y.candidate && (crate::laws::walks::is_near(
                found[j],
                kept,
            ) || j < room) by {
            if before.count(y) > queue.count(y) {
                let j = choose|j: int|
                    0 <= j < n - 1 && #[trigger] found[j] == y.candidate && (
                    crate::laws::walks::is_near(found[j], kept) || j < room);
                assert(found[j] == y.candidate);
            } else {
                assert(found[n - 1] == y.candidate);
            }
        }
    }
}

/// The run that some expansions make.
pub proof fn lemma_runs<
    C,
    N: Fn(C, u32) -> (C, Vec<u32>),
    R: Fn(C, &Vec<u32>) -> (C, Vec<VectorRead>),
    F: Fn(C, u64, u32) -> (C, u8),
    B: Fn(C, u64, &Vec<u32>) -> (C, Vec<u8>),
    G: Fn(C, u64, u32, &[u8]) -> (C, u8),
    H: Fn(C, u64, &Vec<u32>, &Vec<&[u8]>) -> (C, Vec<u8>),
>(
    graph: GraphAccess<N, R>,
    callbacks: FilterCallbacks<F, B, G, H>,
    context_id: u64,
    size: usize,
    bounds: Bounds,
    start: Candidate,
    passes: bool,
    first: C,
    hops: Seq<Hop<C>>,
) -> (t: HeapRun<C>)
    requires
        bounds.cap > 0,
        graph.elem_size > 0,
        crate::two_queue::hops_follow(
            graph,
            callbacks,
            context_id,
            size,
            bounds,
            HeapModel::start(
                crate::walk::words_for(graph.max_id),
                bounds.cap,
                start,
                passes,
            ),
            first,
            hops,
        ),
    ensures
        runs(
            graph,
            callbacks,
            context_id,
            size,
            bounds.cap,
            bounds.ef,
            start,
            first,
            t,
        ),
        t.passes == passes,
        t.taken.len() == hops.len(),
        hops.len() <= bounds.max_candidates,
        ({
            let n = hops.len() as int;
            let m = HeapModel::start(
                crate::walk::words_for(graph.max_id),
                bounds.cap,
                start,
                passes,
            ).after(bounds, hops);
            &&& t.waiting[n] == m.queue
            &&& t.kept[n] == m.walk.tally.results
            &&& t.seen[n] == m.walk.visited
            &&& t.hosts[n] == crate::walk::host_after(first, hops)
            &&& m.walk.words == crate::walk::words_for(graph.max_id)
            &&& m.walk.hops == n
            &&& !m.walk.converged
            &&& m.walk.comparisons == 1 + brought(t.steps, n)
            &&& m.walk.tally.evals == 1 + checks_in(t.steps, bounds.cap, n)
            &&& m.walk.tally.passed == (if passes {
                1int
            } else {
                0
            }) + passes_in(t.steps, bounds.cap, n)
            &&& is_most(m.walk.max_cand_size, |i: int| t.waiting[i].len() as int, n)
            &&& is_most(m.walk.max_result_q, |i: int| t.kept[i + 1].len() as int, n)
        }),
    decreases hops.len(),
{
    broadcast use vstd::multiset::group_multiset_axioms;

    let begin = HeapModel::start(
        crate::walk::words_for(graph.max_id),
        bounds.cap,
        start,
        passes,
    );
    if hops.len() == 0 {
        assert(!crate::filter::skips(Multiset::empty(), bounds.cap, start));
        HeapRun {
            passes,
            taken: Seq::empty(),
            steps: Seq::empty(),
            waiting: seq![begin.queue],
            kept: seq![begin.walk.tally.results],
            seen: seq![begin.walk.visited],
            hosts: seq![first],
        }
    } else {
        let shorter = hops.drop_last();
        let hop = hops.last();
        let n = shorter.len() as int;
        let s = lemma_runs(
            graph,
            callbacks,
            context_id,
            size,
            bounds,
            start,
            passes,
            first,
            shorter,
        );
        let p = begin.after(bounds, shorter);
        let m = begin.after(bounds, hops);
        let w = p.taken();
        let host = crate::walk::host_after(first, shorter);
        let taken = p.next();
        let x = crate::laws::walks::lemma_expands(
            graph,
            callbacks,
            context_id,
            size,
            bounds.cap,
            w.walk,
            host,
            taken.id,
            hop,
        );
        crate::heap::lemma_greatest_exists(p.queue);
        let top = crate::heap::greatest(p.queue);
        assert(top == Nearest { candidate: taken });
        assert forall|y: Nearest| #[trigger]
            p.queue.count(y) > 0 implies !crate::laws::distances::past(taken, y.candidate) by {
            crate::laws::distances::lemma_places(taken, y.candidate);
        }
        crate::laws::checks::lemma_beyond(p.walk.tally.results, bounds.cap, taken);
        let rest = p.queue.remove(top);
        let room = bounds.ef - rest.len();
        lemma_joined(
            rest,
            x.found,
            p.walk.tally.results,
            room,
            x.found.len() as int,
        );
        assert(wait_on(
            p.queue,
            taken,
            x.found,
            p.walk.tally.results,
            bounds.ef,
            m.queue,
        ));
        assert forall|id: u32| #[trigger]
            m.walk.visited.contains(id) <==> p.walk.visited.contains(id) || x.fresh.contains(
            id,
        ) by {
            assert(x.fresh.to_set().contains(id) <==> x.fresh.contains(id));
        }
        let t = HeapRun {
            passes,
            taken: s.taken.push(taken),
            steps: s.steps.push(x),
            waiting: s.waiting.push(m.queue),
            kept: s.kept.push(m.walk.tally.results),
            seen: s.seen.push(m.walk.visited),
            hosts: s.hosts.push(crate::walk::host_after(first, hops)),
        };
        assert(hop.hosts.last() == x.checks.hosts[x.found.len() as int]);
        assert forall|i: int| 0 <= i < n + 1 implies steps_on(
            graph,
            callbacks,
            context_id,
            size,
            bounds.cap,
            bounds.ef,
            #[trigger] t.taken[i],
            t.steps[i],
            t.waiting[i],
            t.kept[i],
            t.seen[i],
            t.hosts[i],
            t.waiting[i + 1],
            t.kept[i + 1],
            t.seen[i + 1],
            t.hosts[i + 1],
        ) by {
            if i < n {
                let same = s.taken[i];
                assert(t.steps[i] == s.steps[i]);
                assert(t.waiting[i] == s.waiting[i] && t.waiting[i + 1] == s.waiting[i + 1]);
                assert(t.kept[i] == s.kept[i] && t.kept[i + 1] == s.kept[i + 1]);
                assert(t.seen[i] == s.seen[i] && t.seen[i + 1] == s.seen[i + 1]);
                assert(t.hosts[i] == s.hosts[i] && t.hosts[i + 1] == s.hosts[i + 1]);
            } else {
                assert(t.waiting[i] == p.queue);
                assert(t.kept[i] == p.walk.tally.results);
                assert(t.seen[i] == p.walk.visited);
                assert(t.hosts[i] == host);
            }
        }
        lemma_sums_frame(s.steps, t.steps, bounds.cap, n);
        assert(is_most(m.walk.max_cand_size, |i: int| t.waiting[i].len() as int, n + 1)) by {
            let f = |i: int| s.waiting[i].len() as int;
            let g = |i: int| t.waiting[i].len() as int;
            assert(forall|i: int| 0 <= i < n ==> #[trigger] g(i) == f(i));
            lemma_most_grows(f, g, p.walk.max_cand_size, n);
        }
        assert(is_most(m.walk.max_result_q, |i: int| t.kept[i + 1].len() as int, n + 1)) by {
            let f = |i: int| s.kept[i + 1].len() as int;
            let g = |i: int| t.kept[i + 1].len() as int;
            assert(forall|i: int| 0 <= i < n ==> #[trigger] g(i) == f(i));
            lemma_most_grows(f, g, p.walk.max_result_q, n);
        }
        t
    }
}

/// The largest of one more number.
pub proof fn lemma_most_grows(
    f: spec_fn(int) -> int,
    g: spec_fn(int) -> int,
    most: int,
    n: int,
)
    requires
        n >= 0,
        is_most(most, f, n),
        forall|i: int| 0 <= i < n ==> #[trigger] g(i) == f(i),
        g(n) >= 0,
    ensures
        is_most(crate::walk::max_of(most, g(n)), g, n + 1),
{
    let more = crate::walk::max_of(most, g(n));
    assert forall|i: int| 0 <= i < n + 1 implies #[trigger] g(i) <= more by {
        if i < n {
            assert(g(i) == f(i));
        }
    }
    if more > 0 {
        if most >= g(n) {
            let i = choose|i: int| 0 <= i < n && #[trigger] f(i) == most;
            assert(g(i) == f(i));
        } else {
            assert(g(n) == more);
        }
    }
}

/// Sums over the first steps do not depend on later ones.
pub proof fn lemma_sums_frame<C>(s: Seq<Expansion<C>>, t: Seq<Expansion<C>>, cap: nat, n: int)
    requires
        n <= s.len(),
        n <= t.len(),
        forall|i: int| 0 <= i < n ==> s[i] == t[i],
    ensures
        brought(s, n) == brought(t, n),
        checks_in(s, cap, n) == checks_in(t, cap, n),
        passes_in(s, cap, n) == passes_in(t, cap, n),
    decreases n,
{
    if n > 0 {
        lemma_sums_frame(s, t, cap, n - 1);
    }
}

/// The run with what it came to: the results, in order, and the outputs between
/// them.
pub struct HeapEnd<C, O> {
    pub run: HeapRun<C>,
    pub start: Candidate,
    pub first: C,
    pub results: Seq<Candidate>,
    pub outs: Seq<O>,
}

/// What a search with a heap does, from the calls that it makes to what it hands
/// over and reports.
pub open spec fn searches<
    C,
    N: Fn(C, u32) -> (C, Vec<u32>),
    R: Fn(C, &Vec<u32>) -> (C, Vec<VectorRead>),
    F: Fn(C, u64, u32) -> (C, u8),
    B: Fn(C, u64, &Vec<u32>) -> (C, Vec<u8>),
    G: Fn(C, u64, u32, &[u8]) -> (C, u8),
    H: Fn(C, u64, &Vec<u32>, &Vec<&[u8]>) -> (C, Vec<u8>),
    O,
    E,
    D,
    X: Fn(O, u32) -> (O, Result<E, D>),
    P: Fn(O, E, OrderedF32) -> (O, bool),
    L: Fn(&O) -> usize,
>(
    host: C,
    graph: GraphAccess<N, R>,
    context_id: u64,
    k: int,
    ef: int,
    callbacks: FilterCallbacks<F, B, G, H>,
    size: usize,
    max_candidates: int,
    sink: Sink<X, P, L>,
    output: O,
    then_host: C,
    then_output: O,
    report: SearchReport,
    e: HeapEnd<C, O>,
) -> bool {
    let t = e.run;
    let n = t.taken.len() as int;
    let cap = (10 * k) as nat;
    &&& crate::laws::walks::is_start(e.start, graph.start_distance)
    &&& crate::laws::checks::one_call(
        callbacks.filter,
        context_id,
        e.start,
        t.passes,
        host,
        e.first,
    )
    &&& runs(graph, callbacks, context_id, size, cap, ef, e.start, e.first, t)
    &&& n <= max_candidates
    &&& t.waiting[n].len() > 0 && n < max_candidates ==> report.converged
    &&& report.converged ==> n < max_candidates && exists|c: Nearest|
        {
            &&& #[trigger] t.waiting[n].count(c) > 0
            &&& crate::laws::checks::beyond(t.kept[n], cap, c.candidate)
            &&& forall|y: Nearest| #[trigger]
                t.waiting[n].count(y) > 0 ==> !crate::laws::distances::past(c.candidate, y.candidate)
        }
    &&& then_host == t.hosts[n]
    &&& crate::laws::checks::nearest_first(e.results)
    &&& crate::laws::checks::are_nearest(e.results.to_multiset(), t.kept[n], k as nat)
    &&& crate::laws::outputs::all_go_out(sink, e.results, e.outs)
    &&& e.outs[0] == output
    &&& e.outs[e.results.len() as int] == then_output
    &&& crate::laws::outputs::stats_are(
        sink,
        then_output,
        1 + brought(t.steps, n),
        n + if report.converged {
            1int
        } else {
            0
        },
        report.stats,
    )
    &&& report.visited == t.seen[n].len()
    &&& report.filter_evals == 1 + checks_in(t.steps, cap, n)
    &&& report.filter_passed == (if t.passes {
        1int
    } else {
        0
    }) + passes_in(t.steps, cap, n)
    &&& report.found == e.results.len()
    &&& is_most(report.max_cand_q as int, |i: int| t.waiting[i].len() as int, n + 1)
    &&& is_most(report.max_result_q as int, |i: int| t.kept[i + 1].len() as int, n)
}

/// What a search that ends came to.
pub proof fn lemma_search_ends<
    C,
    N: Fn(C, u32) -> (C, Vec<u32>),
    R: Fn(C, &Vec<u32>) -> (C, Vec<VectorRead>),
    F: Fn(C, u64, u32) -> (C, u8),
    B: Fn(C, u64, &Vec<u32>) -> (C, Vec<u8>),
    G: Fn(C, u64, u32, &[u8]) -> (C, u8),
    H: Fn(C, u64, &Vec<u32>, &Vec<&[u8]>) -> (C, Vec<u8>),
    O,
    E,
    D,
    X: Fn(O, u32) -> (O, Result<E, D>),
    P: Fn(O, E, OrderedF32) -> (O, bool),
    L: Fn(&O) -> usize,
>(
    host: C,
    graph: GraphAccess<N, R>,
    context_id: u64,
    k: usize,
    ef: usize,
    callbacks: FilterCallbacks<F, B, G, H>,
    size: usize,
    max_candidates: usize,
    sink: Sink<X, P, L>,
    output: O,
    then_host: C,
    then_output: O,
    report: SearchReport,
) -> (e: HeapEnd<C, O>)
    requires
        k > 0,
        graph.elem_size > 0,
        crate::two_queue::search_ends(
            graph,
            context_id,
            k,
            ef,
            callbacks,
            size,
            max_candidates,
            sink,
            host,
            then_host,
            output,
            then_output,
            report,
        ),
    ensures
        searches(
            host,
            graph,
            context_id,
            k as int,
            ef as int,
            callbacks,
            size,
            max_candidates as int,
            sink,
            output,
            then_host,
            then_output,
            report,
            e,
        ),
{
    broadcast use vstd::multiset::group_multiset_axioms;

    let bounds = Bounds {
        cap: (k * crate::two_queue::RESULTS_PER_K) as nat,
        ef: ef as int,
        max_candidates: max_candidates as nat,
    };
    let (passes, hops, end, first) = choose|
        passes: bool,
        hops: Seq<Hop<C>>,
        end: HeapModel,
        first: C,
    |
        {
            &&& #[trigger] crate::two_queue::search_path(
                graph,
                callbacks,
                context_id,
                size,
                bounds,
                passes,
                hops,
                end,
                host,
                first,
                then_host,
            )
            &&& crate::report::concludes(
                end.walk,
                k as nat,
                sink,
                output,
                then_output,
                report,
            )
        };
    let start = crate::walk::start_candidate(graph.start_distance);
    let run = lemma_runs(
        graph,
        callbacks,
        context_id,
        size,
        bounds,
        start,
        passes,
        first,
        hops,
    );
    let m = HeapModel::start(
        crate::walk::words_for(graph.max_id),
        bounds.cap,
        start,
        passes,
    ).after(bounds, hops);
    let n = hops.len() as int;
    let (results, outs, len) = choose|results: Seq<Candidate>, outs: Seq<O>, len: usize|
        {
            &&& #[trigger] crate::output::delivers_all(
                sink,
                results,
                results.len() as int,
                outs,
            )
            &&& #[trigger] call_ensures(sink.current_len, (&then_output,), len)
            &&& crate::filter::ascending(results)
            &&& crate::filter::nearest_of(
                results.to_multiset(),
                end.walk.tally.results,
                k as nat,
            )
            &&& outs[0] == output
            &&& outs[results.len() as int] == then_output
            &&& report.tells(end.walk, results.len() as int, len)
        };
    crate::laws::checks::lemma_nearest_first(results);
    crate::laws::checks::lemma_are_nearest(
        results.to_multiset(),
        end.walk.tally.results,
        k as nat,
    );
    crate::laws::outputs::lemma_all_go_out(sink, results, outs);
    crate::laws::outputs::lemma_stats(
        sink,
        then_output,
        len,
        end.walk.comparisons,
        end.walk.hops,
        report.stats,
    );
    if m.queue.len() > 0 {
        crate::heap::lemma_greatest_exists(m.queue);
        let top = crate::heap::greatest(m.queue);
        crate::laws::checks::lemma_beyond(m.walk.tally.results, bounds.cap, top.candidate);
        assert forall|y: Nearest| #[trigger]
            m.queue.count(y) > 0 implies !crate::laws::distances::past(
            top.candidate,
            y.candidate,
        ) by {
            crate::laws::distances::lemma_places(top.candidate, y.candidate);
        }
    }
    assert(is_most(report.max_cand_q as int, |i: int| run.waiting[i].len() as int, n + 1)) by {
        let f = |i: int| run.waiting[i].len() as int;
        lemma_most_grows(f, f, m.walk.max_cand_size, n);
    }
    assert(crate::laws::checks::one_call(
        callbacks.filter,
        context_id,
        start,
        passes,
        host,
        first,
    )) by {
        let r = choose|r: u8| #[trigger]
            call_ensures(callbacks.filter, (host, context_id, 0u32), (first, r)) && passes == (r
                != 0);
        assert(call_ensures(callbacks.filter, (host, context_id, start.id), (first, r)));
    }
    HeapEnd { run, start, first, results, outs }
}

/// After an expansion every vector found that is near waits, however many wait
/// already. So when the search has ended, that vector was expanded, or it still
/// waits.
pub open spec fn near_ones_are_not_lost<C>(t: HeapRun<C>) -> bool {
    let n = t.taken.len() as int;
    forall|i: int, j: int|
        #![trigger t.steps[i].found[j]]
        0 <= i < n && 0 <= j < t.steps[i].found.len() && crate::laws::walks::is_near(
            t.steps[i].found[j],
            t.kept[i],
        ) ==> {
            let c = t.steps[i].found[j];
            &&& t.waiting[i + 1].count(Nearest { candidate: c }) > 0
            &&& {
                ||| exists|m: int| i < m < n && #[trigger] t.taken[m] == c
                ||| t.waiting[n].count(Nearest { candidate: c }) > 0
            }
        }
}

proof fn lemma_waits_on<
    C,
    N: Fn(C, u32) -> (C, Vec<u32>),
    R: Fn(C, &Vec<u32>) -> (C, Vec<VectorRead>),
    F: Fn(C, u64, u32) -> (C, u8),
    B: Fn(C, u64, &Vec<u32>) -> (C, Vec<u8>),
    G: Fn(C, u64, u32, &[u8]) -> (C, u8),
    H: Fn(C, u64, &Vec<u32>, &Vec<&[u8]>) -> (C, Vec<u8>),
>(
    graph: GraphAccess<N, R>,
    callbacks: FilterCallbacks<F, B, G, H>,
    context_id: u64,
    size: usize,
    cap: nat,
    ef: int,
    start: Candidate,
    first: C,
    t: HeapRun<C>,
    i: int,
    c: Candidate,
)
    requires
        runs(graph, callbacks, context_id, size, cap, ef, start, first, t),
        0 <= i <= t.taken.len(),
        t.waiting[i].count(Nearest { candidate: c }) > 0,
    ensures
        t.waiting[t.taken.len() as int].count(Nearest { candidate: c }) > 0 || exists|m: int|
            i <= m < t.taken.len() && #[trigger] t.taken[m] == c,
    decreases t.taken.len() - i,
{
    broadcast use vstd::multiset::group_multiset_axioms;

    if i < t.taken.len() {
        let taken = t.taken[i];
        if taken != c {
            let rest = t.waiting[i].remove(Nearest { candidate: taken });
            assert(rest.count(Nearest { candidate: c }) > 0);
            lemma_waits_on(
                graph,
                callbacks,
                context_id,
                size,
                cap,
                ef,
                start,
                first,
                t,
                i + 1,
                c,
            );
        }
    }
}

proof fn lemma_near_ones<
    C,
    N: Fn(C, u32) -> (C, Vec<u32>),
    R: Fn(C, &Vec<u32>) -> (C, Vec<VectorRead>),
    F: Fn(C, u64, u32) -> (C, u8),
    B: Fn(C, u64, &Vec<u32>) -> (C, Vec<u8>),
    G: Fn(C, u64, u32, &[u8]) -> (C, u8),
    H: Fn(C, u64, &Vec<u32>, &Vec<&[u8]>) -> (C, Vec<u8>),
>(
    graph: GraphAccess<N, R>,
    callbacks: FilterCallbacks<F, B, G, H>,
    context_id: u64,
    size: usize,
    cap: nat,
    ef: int,
    start: Candidate,
    first: C,
    t: HeapRun<C>,
)
    requires
        runs(graph, callbacks, context_id, size, cap, ef, start, first, t),
    ensures
        near_ones_are_not_lost(t),
{
    let n = t.taken.len() as int;
    assert forall|i: int, j: int|
        #![trigger t.steps[i].found[j]]
        0 <= i < n && 0 <= j < t.steps[i].found.len() && crate::laws::walks::is_near(
            t.steps[i].found[j],
            t.kept[i],
        ) implies {
        let c = t.steps[i].found[j];
        &&& t.waiting[i + 1].count(Nearest { candidate: c }) > 0
        &&& {
            ||| exists|m: int| i < m < n && #[trigger] t.taken[m] == c
            ||| t.waiting[n].count(Nearest { candidate: c }) > 0
        }
    } by {
        let c = t.steps[i].found[j];
        let taken = t.taken[i];
        lemma_waits_on(
            graph,
            callbacks,
            context_id,
            size,
            cap,
            ef,
            start,
            first,
            t,
            i + 1,
            c,
        );
    }
}

/// A search with a heap makes a run: from the start on it expands the nearest
/// candidate that waits, at most `max_candidates` of them, and lets every near
/// vector that it finds wait, however many do. It keeps the ten times `k` nearest
/// that pass. It ends when nobody waits, when its effort is spent, or when the
/// list is full and the nearest who waits is farther than all results. It hands
/// the `k` nearest of the results over, and reports what it did. No near vector is
/// lost on the way, and attributes arrive as they were stored.
pub proof fn law_two_queue_filtered_search<
    C,
    N: Fn(C, u32) -> (C, Vec<u32>),
    R: Fn(C, &Vec<u32>) -> (C, Vec<VectorRead>),
    F: Fn(C, u64, u32) -> (C, u8),
    B: Fn(C, u64, &Vec<u32>) -> (C, Vec<u8>),
    G: Fn(C, u64, u32, &[u8]) -> (C, u8),
    H: Fn(C, u64, &Vec<u32>, &Vec<&[u8]>) -> (C, Vec<u8>),
    O,
    E,
    D,
    X: Fn(O, u32) -> (O, Result<E, D>),
    P: Fn(O, E, OrderedF32) -> (O, bool),
    L: Fn(&O) -> usize,
>(
    host: C,
    graph: GraphAccess<N, R>,
    context_id: u64,
    k: usize,
    ef: usize,
    callbacks: FilterCallbacks<F, B, G, H>,
    size: usize,
    max_candidates: usize,
    sink: Sink<X, P, L>,
    output: O,
    r: (C, O, SearchReport),
) -> (e: HeapEnd<C, O>)
    requires
        k > 0,
        graph.elem_size > 0,
        call_ensures(
            two_queue_filtered_search::<C, N, R, F, B, G, H, O, E, D, X, P, L>,
            (
                host,
                &graph,
                context_id,
                k,
                ef,
                &callbacks,
                size,
                max_candidates,
                &sink,
                output,
            ),
            r,
        ),
    ensures
        searches(
            host,
            graph,
            context_id,
            k as int,
            ef as int,
            callbacks,
            size,
            max_candidates as int,
            sink,
            output,
            r.0,
            r.1,
            r.2,
            e,
        ),
        near_ones_are_not_lost(e.run),
        forall|i: int|
            0 <= i < e.run.taken.len() ==> crate::laws::walks::attributes_arrive(
                callbacks,
                context_id,
                size,
                (10 * k) as nat,
                graph.elem_size,
                #[trigger] e.run.steps[i],
            ),
{
    let e = lemma_search_ends(
        host,
        graph,
        context_id,
        k,
        ef,
        callbacks,
        size,
        max_candidates,
        sink,
        output,
        r.0,
        r.1,
        r.2,
    );
    lemma_near_ones(
        graph,
        callbacks,
        context_id,
        size,
        (10 * k) as nat,
        ef as int,
        e.start,
        e.first,
        e.run,
    );
    assert forall|i: int|
        0 <= i < e.run.taken.len() implies crate::laws::walks::attributes_arrive(
        callbacks,
        context_id,
        size,
        (10 * k) as nat,
        graph.elem_size,
        #[trigger] e.run.steps[i],
    ) by {
        crate::laws::walks::law_attributes_arrive(
            graph,
            callbacks,
            context_id,
            size,
            (10 * k) as nat,
            e.run.taken[i].id,
            e.run.seen[i],
            e.run.kept[i],
            e.run.hosts[i],
            e.run.steps[i],
        );
    }
    e
}

} // verus!
