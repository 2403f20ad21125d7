//! What the two-queue search with the index's own queue is for: it expands the
//! nearest candidates first, gives every near one an entry, keeps the nearest that
//! pass, and hands the nearest of those over.

use vstd::prelude::*;
use vstd::multiset::Multiset;
use crate::candidate::Candidate;
use crate::filter::FilterCallbacks;
use crate::laws::walks::Expansion;
use crate::native::{NativeBounds, NativeModel, two_queue_native_search};
use crate::ordered_f32::OrderedF32;
use crate::output::Sink;
use crate::report::SearchReport;
use crate::walk::{GraphAccess, Hop, VectorRead};

verus! {

/// The entries of a queue stand nearest first, and each has a number for its
/// distance.
pub open spec fn in_order(entries: Seq<(Candidate, bool)>) -> bool {
    &&& forall|i: int|
        0 <= i < entries.len() ==> crate::laws::distances::is_number(
            (#[trigger] entries[i]).0.distance,
        )
    &&& forall|i: int, j: int|
        0 <= i < j < entries.len() ==> !crate::laws::distances::below(
            (#[trigger] entries[j]).0.distance,
            (#[trigger] entries[i]).0.distance,
        )
}

/// A vector that was found gets an entry: its distance is a number, and it is near
/// or the list of results is not full.
pub open spec fn gets_entry(c: Candidate, kept: Multiset<Candidate>, cap: nat) -> bool {
    crate::laws::distances::is_number(c.distance) && (crate::laws::walks::is_near(c, kept)
        || kept.len() < cap)
}

/// How many of the first `n` found get an entry.
pub open spec fn new_entries(
    found: Seq<Candidate>,
    kept: Multiset<Candidate>,
    cap: nat,
    n: int,
) -> int
    decreases n,
{
    if n <= 0 {
        0
    } else if gets_entry(found[n - 1], kept, cap) {
        new_entries(found, kept, cap, n - 1) + 1
    } else {
        new_entries(found, kept, cap, n - 1)
    }
}

/// The entries after an expansion. All that were there still are; each vector
/// found that gets an entry has one that is not handed out; there are no others.
pub open spec fn enter(
    before: Seq<(Candidate, bool)>,
    found: Seq<Candidate>,
    kept: Multiset<Candidate>,
    cap: nat,
    after: Seq<(Candidate, bool)>,
) -> bool {
    &&& in_order(after)
    &&& forall|e: (Candidate, bool)| #[trigger]
        before.to_multiset().count(e) <= after.to_multiset().count(e)
    &&& forall|j: int|
        0 <= j < found.len() && gets_entry(found[j], kept, cap) ==> after.contains(
            (#[trigger] found[j], false),
        )
    &&& forall|e: (Candidate, bool)| #[trigger]
        after.to_multiset().count(e) > before.to_multiset().count(e) ==> !e.1 && exists|j: int|
            0 <= j < found.len() && #[trigger] found[j] == e.0 && gets_entry(found[j], kept, cap)
    &&& after.len() == before.len() + new_entries(found, kept, cap, found.len() as int)
}

/// The first entry that was not handed out stands at `at`.
pub open spec fn is_next(entries: Seq<(Candidate, bool)>, at: int) -> bool {
    &&& 0 <= at < entries.len()
    &&& !entries[at].1
    &&& forall|i: int| 0 <= i < at ==> (#[trigger] entries[i]).1
}

/// All of the first `limit` entries were handed out.
pub open spec fn all_out(entries: Seq<(Candidate, bool)>, limit: nat) -> bool {
    forall|i: int| 0 <= i < entries.len() && i < limit ==> (#[trigger] entries[i]).1
}

/// A search, step by step: the candidates expanded and where their entries stood,
/// what came of each expansion, and between the expansions the entries, who is
/// kept, which ids were seen, and the host.
pub struct NativeRun<C> {
    pub passes: bool,
    pub taken: Seq<Candidate>,
    pub at: Seq<int>,
    pub steps: Seq<Expansion<C>>,
    pub entries: Seq<Seq<(Candidate, bool)>>,
    pub kept: Seq<Multiset<Candidate>>,
    pub seen: Seq<Set<u32>>,
    pub hosts: Seq<C>,
}

/// One expansion. It is of the first candidate that was not handed out, which
/// stands within the limit and is not beyond all results.
pub open spec fn steps_on<
    C,
    N: Fn(C, u32) -> (C, Vec<u32>),
    R: Fn(C, &Vec<u32>) -> (C, Vec<VectorRead>),
    F: Fn(C, u64, u32) -> (C, u8),
    B: Fn(C, u64, &Vec<u32>) -> (C, Vec<u8>),
    G: Fn(C, u64, u32, &[u8]) -> (C, u8),
    H: Fn(C, u64, &Vec<u32>, &Vec<&[u8]>) -> (C, Vec<u8>),
>(
    graph: GraphAccess<N, R>,
    callbacks: FilterCallbacks<F, B, G, H>,
    context_id: u64,
    size: usize,
    cap: nat,
    taken: Candidate,
    at: int,
    x: Expansion<C>,
    entries: Seq<(Candidate, bool)>,
    kept: Multiset<Candidate>,
    seen: Set<u32>,
    host: C,
    then_entries: Seq<(Candidate, bool)>,
    then_kept: Multiset<Candidate>,
    then_seen: Set<u32>,
    then_host: C,
) -> bool {
    let n = x.found.len() as int;
    &&& is_next(entries, at)
    &&& at < cap
    &&& taken == entries[at].0
    &&& !crate::laws::checks::beyond(kept, cap, taken)
    &&& crate::laws::walks::expands(
        graph,
        callbacks,
        context_id,
        size,
        cap,
        taken.id,
        seen,
        kept,
        host,
        x,
    )
    &&& enter(entries.update(at, (taken, true)), x.found, kept, cap, then_entries)
    &&& then_kept == x.checks.lists[n]
    &&& forall|id: u32| #[trigger]
        then_seen.contains(id) <==> seen.contains(id) || x.fresh.contains(id)
    &&& then_host == x.checks.hosts[n]
}

/// A run that begins with the start and goes on step by step.
pub open spec fn runs<
    C,
    N: Fn(C, u32) -> (C, Vec<u32>),
    R: Fn(C, &Vec<u32>) -> (C, Vec<VectorRead>),
    F: Fn(C, u64, u32) -> (C, u8),
    B: Fn(C, u64, &Vec<u32>) -> (C, Vec<u8>),
    G: Fn(C, u64, u32, &[u8]) -> (C, u8),
    H: Fn(C, u64, &Vec<u32>, &Vec<&[u8]>) -> (C, Vec<u8>),
>(
    graph: GraphAccess<N, R>,
    callbacks: FilterCallbacks<F, B, G, H>,
    context_id: u64,
    size: usize,
    cap: nat,
    start: Candidate,
    first: C,
    t: NativeRun<C>,
) -> bool {
    let n = t.taken.len();
    &&& t.at.len() == n
    &&& t.steps.len() == n
    &&& t.entries.len() == n + 1
    &&& t.kept.len() == n + 1
    &&& t.seen.len() == n + 1
    &&& t.hosts.len() == n + 1
    &&& t.entries[0] == if crate::laws::distances::is_number(start.distance) {
        seq![(start, false)]
    } else {
        Seq::<(Candidate, bool)>::empty()
    }
    &&& t.kept[0] == if t.passes {
        Multiset::<Candidate>::empty().insert(start)
    } else {
        Multiset::<Candidate>::empty()
    }
    &&& forall|id: u32| #[trigger] t.seen[0].contains(id) <==> id == start.id
    &&& t.hosts[0] == first
    &&& forall|i: int|
        0 <= i < n ==> steps_on(
            graph,
            callbacks,
            context_id,
            size,
            cap,
            #[trigger] t.taken[i],
            t.at[i],
            t.steps[i],
            t.entries[i],
            t.kept[i],
            t.seen[i],
            t.hosts[i],
            t.entries[i + 1],
            t.kept[i + 1],
            t.seen[i + 1],
            t.hosts[i + 1],
        )
}

proof fn lemma_insert(s: Seq<(Candidate, bool)>, p: int, e: (Candidate, bool))
    requires
        0 <= p <= s.len(),
    ensures
        s.insert(p, e).to_multiset() == s.to_multiset().insert(e),
{
    broadcast use vstd::multiset::group_multiset_axioms;

    let t = s.insert(p, e);
    assert(t[p] == e);
    assert(t.remove(p) =~= s);
    t.to_multiset_ensures();
    assert(t.contains(e));
    assert(t.to_multiset() =~= s.to_multiset().insert(e));
}

proof fn lemma_with_entry(entries: Seq<(Candidate, bool)>, c: Candidate)
    requires
        in_order(entries),
        crate::laws::distances::is_number(c.distance),
    ensures
        in_order(crate::queue::with_entry(entries, c)),
        crate::queue::with_entry(entries, c).to_multiset() == entries.to_multiset().insert(
            (c, false),
        ),
        crate::queue::with_entry(entries, c).len() == entries.len() + 1,
{
    let after = crate::queue::with_entry(entries, c);
    let p = crate::queue::place_for(entries, c.distance, 0);
    crate::laws::distances::lemma_distances(c.distance, c.distance);
    crate::queue::lemma_place_for(entries, c.distance, 0);
    lemma_insert(entries, p, (c, false));
    assert forall|i: int| 0 <= i < after.len() implies (#[trigger] after[i]) == if i < p {
        entries[i]
    } else if i == p {
        (c, false)
    } else {
        entries[i - 1]
    } by {}
    assert forall|i: int, j: int|
        0 <= i < j < after.len() implies !crate::laws::distances::below(
        (#[trigger] after[j]).0.distance,
        (#[trigger] after[i]).0.distance,
    ) by {
        if i < p {
            crate::laws::distances::lemma_distances(entries[i].0.distance, c.distance);
        }
        if p < entries.len() {
            crate::laws::distances::lemma_distances(entries[p].0.distance, c.distance);
            if i == p && j > p + 1 {
                assert(!crate::laws::distances::below(
                    entries[j - 1].0.distance,
                    entries[p].0.distance,
                ));
            }
        }
    }
}

proof fn lemma_queued(
    entries: Seq<(Candidate, bool)>,
    found: Seq<Candidate>,
    kept: Multiset<Candidate>,
    cap: nat,
    n: int,
)
    requires
        0 <= n <= found.len(),
        in_order(entries),
    ensures
        ({
            let after = crate::native::queued(
                entries,
                found,
                crate::walk::horizon(kept),
                kept.len() < cap,
                n,
            );
            &&& in_order(after)
            &&& forall|e: (Candidate, bool)| #[trigger]
                entries.to_multiset().count(e) <= after.to_multiset().count(e)
            &&& forall|j: int|
                0 <= j < n && gets_entry(found[j], kept, cap) ==> after.to_multiset().count(
                    (#[trigger] found[j], false),
                ) > 0
            &&& forall|e: (Candidate, bool)| #[trigger]
                after.to_multiset().count(e) > entries.to_multiset().count(e) ==> !e.1 && exists|
                    j: int,
                |
                    0 <= j < n && #[trigger] found[j] == e.0 && gets_entry(found[j], kept, cap)
            &&& after.len() == entries.len() + new_entries(found, kept, cap, n)
        }),
    decreases n,
{
    broadcast use vstd::multiset::group_multiset_axioms;

    if n > 0 {
        lemma_queued(entries, found, kept, cap, n - 1);
        let h = crate::walk::horizon(kept);
        let all = kept.len() < cap;
        let before = crate::native::queued(entries, found, h, all, n - 1);
        let after = crate::native::queued(entries, found, h, all, n);
        let c = found[n - 1];
        crate::laws::walks::lemma_near(c, kept);
        crate::laws::distances::lemma_distances(c.distance, c.distance);
        if gets_entry(c, kept, cap) {
            lemma_with_entry(before, c);
        }
        assert forall|e: (Candidate, bool)| #[trigger]
            entries.to_multiset().count(e) <= after.to_multiset().count(e) by {
            assert(entries.to_multiset().count(e) <= before.to_multiset().count(e));
        }
        assert forall|j: int|
            0 <= j < n && gets_entry(found[j], kept, cap) implies after.to_multiset().count(
            (#[trigger] found[j], false),
        ) > 0 by {
            if j < n - 1 {
                assert(before.to_multiset().count((found[j], false)) > 0);
            }
        }
        assert forall|e: (Candidate, bool)| #[trigger]
            after.to_multiset().count(e) > entries.to_multiset().count(e) implies !e.1 && exists|
            j: int,
        |
            0 <= j < n && #[trigger] found[j] == e.0 && gets_entry(found[j], kept, cap) by {
            if before.to_multiset().count(e) > entries.to_multiset().count(e) {
                let j = choose|j: int|
                    0 <= j < n - 1 && #[trigger] found[j] == e.0 && gets_entry(
                        found[j],
                        kept,
                        cap,
                    );
                assert(found[j] == e.0);
            } else {
                assert(found[n - 1] == e.0);
            }
        }
    }
}

/// The run that some expansions make.
#[verifier::rlimit(30)]
pub proof fn lemma_runs<
    C,
    N: Fn(C, u32) -> (C, Vec<u32>),
    R: Fn(C, &Vec<u32>) -> (C, Vec<VectorRead>),
    F: Fn(C, u64, u32) -> (C, u8),
    B: Fn(C, u64, &Vec<u32>) -> (C, Vec<u8>),
    G: Fn(C, u64, u32, &[u8]) -> (C, u8),
    H: Fn(C, u64, &Vec<u32>, &Vec<&[u8]>) -> (C, Vec<u8>),
>(
    graph: GraphAccess<N, R>,
    callbacks: FilterCallbacks<F, B, G, H>,
    context_id: u64,
    size: usize,
    bounds: NativeBounds,
    start: Candidate,
    passes: bool,
    first: C,
    hops: Seq<Hop<C>>,
) -> (t: NativeRun<C>)
    requires
        bounds.cap > 0,
        graph.elem_size > 0,
        crate::native::hops_follow(
            graph,
            callbacks,
            context_id,
            size,
            bounds,
            NativeModel::start(
                crate::walk::words_for(graph.max_id),
                bounds.cap,
                start,
                passes,
            ),
            first,
            hops,
        ),
    ensures
        runs(graph, callbacks, context_id, size, bounds.cap, start, first, t),
        t.passes == passes,
        t.taken.len() == hops.len(),
        hops.len() <= bounds.max_candidates,
        ({
            let n = hops.len() as int;
            let m = NativeModel::start(
                crate::walk::words_for(graph.max_id),
                bounds.cap,
                start,
                passes,
            ).after(bounds, hops);
            &&& t.entries[n] == m.entries
            &&& in_order(m.entries)
            &&& t.kept[n] == m.walk.tally.results
            &&& t.seen[n] == m.walk.visited
            &&& t.hosts[n] == crate::walk::host_after(first, hops)
            &&& m.walk.words == crate::walk::words_for(graph.max_id)
            &&& m.walk.hops == n
            &&& !m.walk.converged
            &&& m.walk.comparisons == 1 + crate::laws::heap_search::brought(t.steps, n)
            &&& m.walk.tally.evals == 1 + crate::laws::heap_search::checks_in(
                t.steps,
                bounds.cap,
                n,
            )
            &&& m.walk.tally.passed == (if passes {
                1int
            } else {
                0
            }) + crate::laws::heap_search::passes_in(t.steps, bounds.cap, n)
            &&& crate::laws::heap_search::is_most(
                m.walk.max_cand_size,
                |i: int| t.entries[i + 1].len() as int,
                n,
            )
            &&& crate::laws::heap_search::is_most(
                m.walk.max_result_q,
                |i: int| t.kept[i + 1].len() as int,
                n,
            )
        }),
    decreases hops.len(),
{
    broadcast use vstd::multiset::group_multiset_axioms;

    let begin = NativeModel::start(
        crate::walk::words_for(graph.max_id),
        bounds.cap,
        start,
        passes,
    );
    if hops.len() == 0 {
        crate::laws::distances::lemma_distances(start.distance, start.distance);
        assert(Seq::<(Candidate, bool)>::empty().insert(0, (start, false)) =~= seq![
            (start, false),
        ]);
        assert(!crate::filter::skips(Multiset::empty(), bounds.cap, start));
        NativeRun {
            passes,
            taken: Seq::empty(),
            at: Seq::empty(),
            steps: Seq::empty(),
            entries: seq![begin.entries],
            kept: seq![begin.walk.tally.results],
            seen: seq![begin.walk.visited],
            hosts: seq![first],
        }
    } else {
        let shorter = hops.drop_last();
        let hop = hops.last();
        let n = shorter.len() as int;
        let s = lemma_runs(
            graph,
            callbacks,
            context_id,
            size,
            bounds,
            start,
            passes,
            first,
            shorter,
        );
        let p = begin.after(bounds, shorter);
        let m = begin.after(bounds, hops);
        let w = p.taken();
        let host = crate::walk::host_after(first, shorter);
        let taken = p.next();
        let at = p.next_at();
        let x = crate::laws::walks::lemma_expands(
            graph,
            callbacks,
            context_id,
            size,
            bounds.cap,
            w.walk,
            host,
            taken.id,
            hop,
        );
        crate::queue::lemma_first_open(p.entries, 0);
        crate::laws::checks::lemma_beyond(p.walk.tally.results, bounds.cap, taken);
        let marked = p.entries.update(at, (taken, true));
        assert(in_order(marked)) by {
            assert forall|i: int| 0 <= i < marked.len() implies (#[trigger] marked[i]).0
                == p.entries[i].0 by {}
        }
        lemma_queued(
            marked,
            x.found,
            p.walk.tally.results,
            bounds.cap,
            x.found.len() as int,
        );
        m.entries.to_multiset_ensures();
        assert(enter(marked, x.found, p.walk.tally.results, bounds.cap, m.entries));
        assert forall|id: u32| #[trigger]
            m.walk.visited.contains(id) <==> p.walk.visited.contains(id) || x.fresh.contains(
            id,
        ) by {
            assert(x.fresh.to_set().contains(id) <==> x.fresh.contains(id));
        }
        let t = NativeRun {
            passes,
            taken: s.taken.push(taken),
            at: s.at.push(at),
            steps: s.steps.push(x),
            entries: s.entries.push(m.entries),
            kept: s.kept.push(m.walk.tally.results),
            seen: s.seen.push(m.walk.visited),
            hosts: s.hosts.push(crate::walk::host_after(first, hops)),
        };
        assert(hop.hosts.last() == x.checks.hosts[x.found.len() as int]);
        assert forall|i: int| 0 <= i < n + 1 implies steps_on(
            graph,
            callbacks,
            context_id,
            size,
            bounds.cap,
            #[trigger] t.taken[i],
            t.at[i],
            t.steps[i],
            t.entries[i],
            t.kept[i],
            t.seen[i],
            t.hosts[i],
            t.entries[i + 1],
            t.kept[i + 1],
            t.seen[i + 1],
            t.hosts[i + 1],
        ) by {
            if i < n {
                let same = s.taken[i];
                assert(t.steps[i] == s.steps[i] && t.at[i] == s.at[i]);
                assert(t.entries[i] == s.entries[i] && t.entries[i + 1] == s.entries[i + 1]);
                assert(t.kept[i] == s.kept[i] && t.kept[i + 1] == s.kept[i + 1]);
                assert(t.seen[i] == s.seen[i] && t.seen[i + 1] == s.seen[i + 1]);
                assert(t.hosts[i] == s.hosts[i] && t.hosts[i + 1] == s.hosts[i + 1]);
            } else {
                assert(t.entries[i] == p.entries);
                assert(t.kept[i] == p.walk.tally.results);
                assert(t.seen[i] == p.walk.visited);
                assert(t.hosts[i] == host);
            }
        }
        crate::laws::heap_search::lemma_sums_frame(s.steps, t.steps, bounds.cap, n);
        assert(crate::laws::heap_search::is_most(
            m.walk.max_cand_size,
            |i: int| t.entries[i + 1].len() as int,
            n + 1,
        )) by {
            let f = |i: int| s.entries[i + 1].len() as int;
            let g = |i: int| t.entries[i + 1].len() as int;
            assert(forall|i: int| 0 <= i < n ==> #[trigger] g(i) == f(i));
            crate::laws::heap_search::lemma_most_grows(f, g, p.walk.max_cand_size, n);
        }
        assert(crate::laws::heap_search::is_most(
            m.walk.max_result_q,
            |i: int| t.kept[i + 1].len() as int,
            n + 1,
        )) by {
            let f = |i: int| s.kept[i + 1].len() as int;
            let g = |i: int| t.kept[i + 1].len() as int;
            assert(forall|i: int| 0 <= i < n ==> #[trigger] g(i) == f(i));
            crate::laws::heap_search::lemma_most_grows(f, g, p.walk.max_result_q, n);
        }
        t
    }
}

/// The run with what it came to: the results, in order, and the outputs between
/// them.
pub struct NativeEnd<C, O> {
    pub run: NativeRun<C>,
    pub start: Candidate,
    pub first: C,
    pub results: Seq<Candidate>,
    pub outs: Seq<O>,
}

/// What a search with the index's own queue does, from the calls that it makes to
/// what it hands over and reports.
pub open spec fn searches<
    C,
    N: Fn(C, u32) -> (C, Vec<u32>),
    R: Fn(C, &Vec<u32>) -> (C, Vec<VectorRead>),
    F: Fn(C, u64, u32) -> (C, u8),
    B: Fn(C, u64, &Vec<u32>) -> (C, Vec<u8>),
    G: Fn(C, u64, u32, &[u8]) -> (C, u8),
    H: Fn(C, u64, &Vec<u32>, &Vec<&[u8]>) -> (C, Vec<u8>),
    O,
    E,
    D,
    X: Fn(O, u32) -> (O, Result<E, D>),
    P: Fn(O, E, OrderedF32) -> (O, bool),
    L: Fn(&O) -> usize,
>(
    host: C,
    graph: GraphAccess<N, R>,
    context_id: u64,
    k: int,
    ef: int,
    callbacks: FilterCallbacks<F, B, G, H>,
    size: usize,
    max_candidates: int,
    sink: Sink<X, P, L>,
    output: O,
    then_host: C,
    then_output: O,
    report: SearchReport,
    e: NativeEnd<C, O>,
) -> bool {
    let t = e.run;
    let n = t.taken.len() as int;
    let cap = ef as nat;
    &&& crate::laws::walks::is_start(e.start, graph.start_distance)
    &&& crate::laws::checks::one_call(
        callbacks.filter,
        context_id,
        e.start,
        t.passes,
        host,
        e.first,
    )
    &&& runs(graph, callbacks, context_id, size, cap, e.start, e.first, t)
    &&& n <= max_candidates
    &&& !all_out(t.entries[n], cap) && n < max_candidates ==> report.converged
    &&& report.converged ==> n < max_candidates && exists|at: int|
        {
            &&& #[trigger] is_next(t.entries[n], at)
            &&& at < cap
            &&& crate::laws::checks::beyond(t.kept[n], cap, t.entries[n][at].0)
        }
    &&& then_host == t.hosts[n]
    &&& crate::laws::checks::nearest_first(e.results)
    &&& crate::laws::checks::are_nearest(e.results.to_multiset(), t.kept[n], k as nat)
    &&& crate::laws::outputs::all_go_out(sink, e.results, e.outs)
    &&& e.outs[0] == output
    &&& e.outs[e.results.len() as int] == then_output
    &&& crate::laws::outputs::stats_are(
        sink,
        then_output,
        1 + crate::laws::heap_search::brought(t.steps, n),
        n + if report.converged {
            1int
        } else {
            0
        },
        report.stats,
    )
    &&& report.visited == t.seen[n].len()
    &&& report.filter_evals == 1 + crate::laws::heap_search::checks_in(t.steps, cap, n)
    &&& report.filter_passed == (if t.passes {
        1int
    } else {
        0
    }) + crate::laws::heap_search::passes_in(t.steps, cap, n)
    &&& report.found == e.results.len()
    &&& crate::laws::heap_search::is_most(
        report.max_cand_q as int,
        |i: int| t.entries[i + 1].len() as int,
        n,
    )
    &&& crate::laws::heap_search::is_most(
        report.max_result_q as int,
        |i: int| t.kept[i + 1].len() as int,
        n,
    )
}

/// What a search that ends came to.
pub proof fn lemma_search_ends<
    C,
    N: Fn(C, u32) -> (C, Vec<u32>),
    R: Fn(C, &Vec<u32>) -> (C, Vec<VectorRead>),
    F: Fn(C, u64, u32) -> (C, u8),
    B: Fn(C, u64, &Vec<u32>) -> (C, Vec<u8>),
    G: Fn(C, u64, u32, &[u8]) -> (C, u8),
    H: Fn(C, u64, &Vec<u32>, &Vec<&[u8]>) -> (C, Vec<u8>),
    O,
    E,
    D,
    X: Fn(O, u32) -> (O, Result<E, D>),
    P: Fn(O, E, OrderedF32) -> (O, bool),
    L: Fn(&O) -> usize,
>(
    host: C,
    graph: GraphAccess<N, R>,
    context_id: u64,
    k: usize,
    ef: usize,
    callbacks: FilterCallbacks<F, B, G, H>,
    size: usize,
    max_candidates: usize,
    sink: Sink<X, P, L>,
    output: O,
    then_host: C,
    then_output: O,
    report: SearchReport,
) -> (e: NativeEnd<C, O>)
    requires
        ef > 0,
        graph.elem_size > 0,
        crate::native::search_ends(
            graph,
            context_id,
            k,
            ef,
            callbacks,
            size,
            max_candidates,
            sink,
            host,
            then_host,
            output,
            then_output,
            report,
        ),
    ensures
        searches(
            host,
            graph,
            context_id,
            k as int,
            ef as int,
            callbacks,
            size,
            max_candidates as int,
            sink,
            output,
            then_host,
            then_output,
            report,
            e,
        ),
{
    broadcast use vstd::multiset::group_multiset_axioms;

    let bounds = NativeBounds { cap: ef as nat, max_candidates: max_candidates as nat };
    let (passes, hops, end, first) = choose|
        passes: bool,
        hops: Seq<Hop<C>>,
        end: NativeModel,
        first: C,
    |
        {
            &&& #[trigger] crate::native::search_path(
                graph,
                callbacks,
                context_id,
                size,
                bounds,
                passes,
                hops,
                end,
                host,
                first,
                then_host,
            )
            &&& crate::report::concludes(
                end.walk,
                k as nat,
                sink,
                output,
                then_output,
                report,
            )
        };
    let start = crate::walk::start_candidate(graph.start_distance);
    let run = lemma_runs(
        graph,
        callbacks,
        context_id,
        size,
        bounds,
        start,
        passes,
        first,
        hops,
    );
    let m = NativeModel::start(
        crate::walk::words_for(graph.max_id),
        bounds.cap,
        start,
        passes,
    ).after(bounds, hops);
    let n = hops.len() as int;
    let (results, outs, len) = choose|results: Seq<Candidate>, outs: Seq<O>, len: usize|
        {
            &&& #[trigger] crate::output::delivers_all(
                sink,
                results,
                results.len() as int,
                outs,
            )
            &&& #[trigger] call_ensures(sink.current_len, (&then_output,), len)
            &&& crate::filter::ascending(results)
            &&& crate::filter::nearest_of(
                results.to_multiset(),
                end.walk.tally.results,
                k as nat,
            )
            &&& outs[0] == output
            &&& outs[results.len() as int] == then_output
            &&& report.tells(end.walk, results.len() as int, len)
        };
    crate::laws::checks::lemma_nearest_first(results);
    crate::laws::checks::lemma_are_nearest(
        results.to_multiset(),
        end.walk.tally.results,
        k as nat,
    );
    crate::laws::outputs::lemma_all_go_out(sink, results, outs);
    crate::laws::outputs::lemma_stats(
        sink,
        then_output,
        len,
        end.walk.comparisons,
        end.walk.hops,
        report.stats,
    );
    crate::queue::lemma_first_open(m.entries, 0);
    let at = m.next_at();
    if crate::queue::has_open(m.entries, bounds.cap) {
        crate::laws::checks::lemma_beyond(m.walk.tally.results, bounds.cap, m.next());
        assert(is_next(run.entries[n], at));
    } else {
        assert(all_out(run.entries[n], bounds.cap));
    }
    assert(crate::laws::checks::one_call(
        callbacks.filter,
        context_id,
        start,
        passes,
        host,
        first,
    )) by {
        let r = choose|r: u8| #[trigger]
            call_ensures(callbacks.filter, (host, context_id, 0u32), (first, r)) && passes == (r
                != 0);
        assert(call_ensures(callbacks.filter, (host, context_id, start.id), (first, r)));
    }
    let e = NativeEnd { run, start, first, results, outs };
    let t = e.run;
    assert(crate::laws::heap_search::is_most(
        report.max_cand_q as int,
        |i: int| t.entries[i + 1].len() as int,
        n,
    ));
    assert(crate::laws::heap_search::is_most(
        report.max_result_q as int,
        |i: int| t.kept[i + 1].len() as int,
        n,
    ));
    e
}

proof fn lemma_entry_stays<
    C,
    N: Fn(C, u32) -> (C, Vec<u32>),
    R: Fn(C, &Vec<u32>) -> (C, Vec<VectorRead>),
    F: Fn(C, u64, u32) -> (C, u8),
    B: Fn(C, u64, &Vec<u32>) -> (C, Vec<u8>),
    G: Fn(C, u64, u32, &[u8]) -> (C, u8),
    H: Fn(C, u64, &Vec<u32>, &Vec<&[u8]>) -> (C, Vec<u8>),
>(
    graph: GraphAccess<N, R>,
    callbacks: FilterCallbacks<F, B, G, H>,
    context_id: u64,
    size: usize,
    cap: nat,
    start: Candidate,
    first: C,
    t: NativeRun<C>,
    i: int,
    c: Candidate,
)
    requires
        runs(graph, callbacks, context_id, size, cap, start, first, t),
        0 <= i <= t.taken.len(),
        t.entries[i].contains((c, false)),
    ensures
        t.entries[t.taken.len() as int].contains((c, false)) || exists|m: int|
            i <= m < t.taken.len() && #[trigger] t.taken[m] == c,
    decreases t.taken.len() - i,
{
    if i < t.taken.len() {
        let taken = t.taken[i];
        if taken != c {
            let at = t.at[i];
            let marked = t.entries[i].update(at, (taken, true));
            let p = choose|p: int|
                0 <= p < t.entries[i].len() && t.entries[i][p] == (c, false);
            assert(marked[p] == (c, false));
            marked.to_multiset_ensures();
            t.entries[i + 1].to_multiset_ensures();
            assert(marked.contains((c, false)));
            assert(marked.to_multiset().count((c, false)) > 0);
            assert(t.entries[i + 1].contains((c, false)));
            lemma_entry_stays(
                graph,
                callbacks,
                context_id,
                size,
                cap,
                start,
                first,
                t,
                i + 1,
                c,
            );
        }
    }
}

/// After an expansion every vector found whose distance is a number less than
/// that of the farthest result has an entry that is not handed out, whether or not
/// the list is full. So when the search has ended, that vector was expanded, or
/// its entry still stands in the queue; and if the search has ended because no
/// entry within the limit was left, it stands beyond the limit.
pub open spec fn near_ones_are_not_lost<C>(t: NativeRun<C>, cap: nat) -> bool {
    let n = t.taken.len() as int;
    forall|i: int, j: int|
        #![trigger t.steps[i].found[j]]
        0 <= i < n && 0 <= j < t.steps[i].found.len() && gets_entry(
            t.steps[i].found[j],
            t.kept[i],
            cap,
        ) ==> {
            let c = t.steps[i].found[j];
            &&& t.entries[i + 1].contains((c, false))
            &&& {
                ||| exists|m: int| i < m < n && #[trigger] t.taken[m] == c
                ||| exists|p: int|
                    0 <= p < t.entries[n].len() && #[trigger] t.entries[n][p] == (c, false) && (
                    all_out(t.entries[n], cap) ==> p >= cap)
            }
        }
}

proof fn lemma_near_ones<
    C,
    N: Fn(C, u32) -> (C, Vec<u32>),
    R: Fn(C, &Vec<u32>) -> (C, Vec<VectorRead>),
    F: Fn(C, u64, u32) -> (C, u8),
    B: Fn(C, u64, &Vec<u32>) -> (C, Vec<u8>),
    G: Fn(C, u64, u32, &[u8]) -> (C, u8),
    H: Fn(C, u64, &Vec<u32>, &Vec<&[u8]>) -> (C, Vec<u8>),
>(
    graph: GraphAccess<N, R>,
    callbacks: FilterCallbacks<F, B, G, H>,
    context_id: u64,
    size: usize,
    cap: nat,
    start: Candidate,
    first: C,
    t: NativeRun<C>,
)
    requires
        runs(graph, callbacks, context_id, size, cap, start, first, t),
    ensures
        near_ones_are_not_lost(t, cap),
{
    let n = t.taken.len() as int;
    assert forall|i: int, j: int|
        #![trigger t.steps[i].found[j]]
        0 <= i < n && 0 <= j < t.steps[i].found.len() && gets_entry(
            t.steps[i].found[j],
            t.kept[i],
            cap,
        ) implies {
        let c = t.steps[i].found[j];
        &&& t.entries[i + 1].contains((c, false))
        &&& {
            ||| exists|m: int| i < m < n && #[trigger] t.taken[m] == c
            ||| exists|p: int|
                0 <= p < t.entries[n].len() && #[trigger] t.entries[n][p] == (c, false) && (
                all_out(t.entries[n], cap) ==> p >= cap)
        }
    } by {
        let c = t.steps[i].found[j];
        let taken = t.taken[i];
        lemma_entry_stays(
            graph,
            callbacks,
            context_id,
            size,
            cap,
            start,
            first,
            t,
            i + 1,
            c,
        );
        if t.entries[n].contains((c, false)) {
            let p = choose|p: int| 0 <= p < t.entries[n].len() && t.entries[n][p] == (c, false);
            assert(t.entries[n][p] == (c, false));
        }
    }
}

/// A search with the index's own queue makes a run: from the start on it expands
/// the nearest candidate that was not handed out, at most `max_candidates` of
/// them, and gives every near vector that it finds an entry. It keeps the `ef`
/// nearest that pass. It ends when the first `ef` entries were all handed out,
/// when its effort is spent, or when the list is full and the next candidate is
/// farther than all results. It hands the `k` nearest of the results over, and
/// reports what it did. No near vector is lost on the way, and attributes arrive as
/// they were stored.
pub proof fn law_two_queue_native_search<
    C,
    N: Fn(C, u32) -> (C, Vec<u32>),
    R: Fn(C, &Vec<u32>) -> (C, Vec<VectorRead>),
    F: Fn(C, u64, u32) -> (C, u8),
    B: Fn(C, u64, &Vec<u32>) -> (C, Vec<u8>),
    G: Fn(C, u64, u32, &[u8]) -> (C, u8),
    H: Fn(C, u64, &Vec<u32>, &Vec<&[u8]>) -> (C, Vec<u8>),
    O,
    E,
    D,
    X: Fn(O, u32) -> (O, Result<E, D>),
    P: Fn(O, E, OrderedF32) -> (O, bool),
    L: Fn(&O) -> usize,
>(
    host: C,
    graph: GraphAccess<N, R>,
    context_id: u64,
    k: usize,
    ef: usize,
    callbacks: FilterCallbacks<F, B, G, H>,
    size: usize,
    max_candidates: usize,
    sink: Sink<X, P, L>,
    output: O,
    r: (C, O, SearchReport),
) -> (e: NativeEnd<C, O>)
    requires
        ef > 0,
        graph.elem_size > 0,
        call_ensures(
            two_queue_native_search::<C, N, R, F, B, G, H, O, E, D, X, P, L>,
            (
                host,
                &graph,
                context_id,
                k,
                ef,
                &callbacks,
                size,
                max_candidates,
                &sink,
                output,
            ),
            r,
        ),
    ensures
        searches(
            host,
            graph,
            context_id,
            k as int,
            ef as int,
            callbacks,
            size,
            max_candidates as int,
            sink,
            output,
            r.0,
            r.1,
            r.2,
            e,
        ),
        near_ones_are_not_lost(e.run, ef as nat),
        forall|i: int|
            0 <= i < e.run.taken.len() ==> crate::laws::walks::attributes_arrive(
                callbacks,
                context_id,
                size,
                ef as nat,
                graph.elem_size,
                #[trigger] e.run.steps[i],
            ),
{
    let e = lemma_search_ends(
        host,
        graph,
        context_id,
        k,
        ef,
        callbacks,
        size,
        max_candidates,
        sink,
        output,
        r.0,
        r.1,
        r.2,
    );
    lemma_near_ones(
        graph,
        callbacks,
        context_id,
        size,
        ef as nat,
        e.start,
        e.first,
        e.run,
    );
    assert forall|i: int|
        0 <= i < e.run.taken.len() implies crate::laws::walks::attributes_arrive(
        callbacks,
        context_id,
        size,
        ef as nat,
        graph.elem_size,
        #[trigger] e.run.steps[i],
    ) by {
        crate::laws::walks::law_attributes_arrive(
            graph,
            callbacks,
            context_id,
            size,
            ef as nat,
            e.run.taken[i].id,
            e.run.seen[i],
            e.run.kept[i],
            e.run.hosts[i],
            e.run.steps[i],
        );
    }
    e
}

} // verus!
