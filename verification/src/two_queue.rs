//! Filtered search with a heap of candidates to expand and a bounded list of
//! results.

use vstd::prelude::*;
use vstd::multiset::Multiset;
use crate::candidate::{Candidate, Nearest};
use crate::filter::{FilterCallbacks, PendingCandidate};
use crate::heap::RankHeap;
use crate::ordered_f32::OrderedF32;
use crate::output::Sink;
use crate::report::SearchReport;
use crate::walk::{GraphAccess, Hop, START_ID, VectorRead, Walk, WalkModel};

verus! {

/// How many results are kept for each one that is asked for.
pub const RESULTS_PER_K: usize = 10;

/// The bounds of a search.
pub struct Bounds {
    /// How many results are kept.
    pub cap: nat,
    /// How many candidates are taken up however far they are.
    pub ef: int,
    /// How many candidates are expanded.
    pub max_candidates: nat,
}

/// Candidates to expand after some that were found have joined them: the ones
/// nearer than the horizon, and of the others those among the first `room`.
pub open spec fn joined(
    queue: Multiset<Nearest>,
    cs: Seq<Candidate>,
    horizon: OrderedF32,
    room: int,
    n: int,
) -> Multiset<Nearest>
    decreases n,
{
    if n <= 0 {
        queue
    } else {
        let before = joined(queue, cs, horizon, room, n - 1);
        let c = cs[n - 1];
        if c.distance.less(horizon) || n - 1 < room {
            before.insert(Nearest { candidate: c })
        } else {
            before
        }
    }
}

/// The state of a search.
#[verifier::ext_equal]
pub struct HeapModel {
    pub walk: WalkModel,
    /// The candidates to expand.
    pub queue: Multiset<Nearest>,
}

impl HeapModel {
    /// The start: its only candidate is the start vector.
    pub open spec fn start(words: nat, cap: nat, start: Candidate, passes: bool) -> Self {
        HeapModel {
            walk: WalkModel::start(words, cap, start, passes),
            queue: Multiset::empty().insert(Nearest { candidate: start }),
        }
    }

    /// The next candidate to expand.
    pub open spec fn next(self) -> Candidate {
        crate::heap::greatest(self.queue).candidate
    }

    /// The state with note taken of the length of the queue.
    pub open spec fn noted(self) -> Self {
        HeapModel {
            walk: WalkModel {
                max_cand_size: crate::walk::max_of(
                    self.walk.max_cand_size,
                    self.queue.len() as int,
                ),
                ..self.walk
            },
            ..self
        }
    }

    /// The state after the next candidate was taken from the queue.
    pub open spec fn taken(self) -> Self {
        let m = self.noted();
        HeapModel {
            walk: WalkModel { hops: m.walk.hops + 1, ..m.walk },
            queue: m.queue.remove(crate::heap::greatest(m.queue)),
        }
    }

    /// Whether the search ends here: no candidate is left, the effort is spent,
    /// or the list of results is full and the next candidate is farther than
    /// the farthest of them.
    pub open spec fn ends(self, bounds: Bounds) -> bool {
        ||| self.queue.len() == 0
        ||| self.walk.hops >= bounds.max_candidates
        ||| crate::filter::skips(self.walk.tally.results, bounds.cap, self.next())
    }

    /// The state in which the search ends.
    pub open spec fn ended(self, bounds: Bounds) -> Self {
        if self.queue.len() == 0 {
            self
        } else if self.walk.hops >= bounds.max_candidates {
            self.noted()
        } else {
            HeapModel {
                walk: WalkModel { converged: true, ..self.taken().walk },
                ..self.taken()
            }
        }
    }

    /// The state after the next candidate was expanded.
    pub open spec fn expanded<C>(self, bounds: Bounds, hop: Hop<C>) -> Self {
        let m = self.taken();
        HeapModel {
            walk: m.walk.expanded(bounds.cap, hop.neighbors, hop.found(), hop.verdicts),
            queue: joined(
                m.queue,
                hop.found(),
                crate::walk::horizon(m.walk.tally.results),
                bounds.ef - m.queue.len(),
                hop.found().len() as int,
            ),
        }
    }

    /// The state after some expansions.
    pub open spec fn after<C>(self, bounds: Bounds, hops: Seq<Hop<C>>) -> Self
        decreases hops.len(),
    {
        if hops.len() == 0 {
            self
        } else {
            self.after(bounds, hops.drop_last()).expanded(bounds, hops.last())
        }
    }
}

/// The expansions are those that the search makes, given what the graph and the
/// callbacks answer; the calls lead the host on from `host`.
pub open spec fn hops_follow<
    C,
    N: Fn(C, u32) -> (C, Vec<u32>),
    R: Fn(C, &Vec<u32>) -> (C, Vec<VectorRead>),
    F: Fn(C, u64, u32) -> (C, u8),
    B: Fn(C, u64, &Vec<u32>) -> (C, Vec<u8>),
    G: Fn(C, u64, u32, &[u8]) -> (C, u8),
    H: Fn(C, u64, &Vec<u32>, &Vec<&[u8]>) -> (C, Vec<u8>),
>(
    graph: GraphAccess<N, R>,
    callbacks: FilterCallbacks<F, B, G, H>,
    context_id: u64,
    batch_size: usize,
    bounds: Bounds,
    start: HeapModel,
    host: C,
    hops: Seq<Hop<C>>,
) -> bool
    decreases hops.len(),
{
    hops.len() > 0 ==> {
        let m = start.after(bounds, hops.drop_last());
        &&& hops_follow(
            graph,
            callbacks,
            context_id,
            batch_size,
            bounds,
            start,
            host,
            hops.drop_last(),
        )
        &&& !m.ends(bounds)
        &&& crate::walk::hop_follows(
            graph,
            callbacks,
            context_id,
            batch_size,
            bounds.cap,
            m.taken().walk,
            crate::walk::host_after(host, hops.drop_last()),
            m.next().id,
            hops.last(),
        )
    }
}

/// A search whose start passed the filter or not, and which made these
/// expansions, ends in the state `end`. The calls are these: one of the single
/// callback on the start, which leads the host from `before` to `first`, and
/// those of the expansions, which lead it on to `last`.
pub open spec fn search_path<
    C,
    N: Fn(C, u32) -> (C, Vec<u32>),
    R: Fn(C, &Vec<u32>) -> (C, Vec<VectorRead>),
    F: Fn(C, u64, u32) -> (C, u8),
    B: Fn(C, u64, &Vec<u32>) -> (C, Vec<u8>),
    G: Fn(C, u64, u32, &[u8]) -> (C, u8),
    H: Fn(C, u64, &Vec<u32>, &Vec<&[u8]>) -> (C, Vec<u8>),
>(
    graph: GraphAccess<N, R>,
    callbacks: FilterCallbacks<F, B, G, H>,
    context_id: u64,
    batch_size: usize,
    bounds: Bounds,
    passes: bool,
    hops: Seq<Hop<C>>,
    end: HeapModel,
    before: C,
    first: C,
    last: C,
) -> bool {
    let start = HeapModel::start(
        crate::walk::words_for(graph.max_id),
        bounds.cap,
        crate::walk::start_candidate(graph.start_distance),
        passes,
    );
    &&& crate::filter::asks(callbacks.filter, context_id, START_ID, passes, before, first)
    &&& hops_follow(graph, callbacks, context_id, batch_size, bounds, start, first, hops)
    &&& last == crate::walk::host_after(first, hops)
    &&& start.after(bounds, hops).ends(bounds)
    &&& end == start.after(bounds, hops).ended(bounds)
}

/// Lets the candidates that were found join the ones to expand.
fn join(
    queue: &mut RankHeap<Nearest>,
    found: &Vec<PendingCandidate>,
    horizon: OrderedF32,
    ef: usize,
)
    requires
        old(queue).wf(),
    ensures
        final(queue).wf(),
        final(queue)@ == joined(
            old(queue)@,
            crate::filter::candidates_of(found@),
            horizon,
            ef - old(queue)@.len(),
            found@.len() as int,
        ),
        final(queue)@.len() <= old(queue)@.len() + found@.len(),
{
    broadcast use vstd::multiset::group_multiset_axioms;

    let waiting = queue.len();
    let ghost cs = crate::filter::candidates_of(found@);
    let ghost before = queue@;
    let mut i: usize = 0;
    while i < found.len()
        invariant
            i <= found@.len(),
            waiting == before.len(),
            cs == crate::filter::candidates_of(found@),
            queue.wf(),
            queue@ == joined(before, cs, horizon, ef - waiting, i as int),
            queue@.len() <= before.len() + i,
        decreases found@.len() - i,
    {
        broadcast use vstd::multiset::group_multiset_axioms;

        let c = found[i].candidate;
        assert(c == cs[i as int]);
        if c.distance.lt(horizon) || (waiting < ef && i < ef - waiting) {
            queue.push(Nearest { candidate: c });
        }
        i = i + 1;
    }
}

/// A search may turn the host from `host` into `last` and the output from
/// `before` into `after`, and report `report`.
pub open spec fn search_ends<
    C,
    N: Fn(C, u32) -> (C, Vec<u32>),
    R: Fn(C, &Vec<u32>) -> (C, Vec<VectorRead>),
    F: Fn(C, u64, u32) -> (C, u8),
    B: Fn(C, u64, &Vec<u32>) -> (C, Vec<u8>),
    G: Fn(C, u64, u32, &[u8]) -> (C, u8),
    H: Fn(C, u64, &Vec<u32>, &Vec<&[u8]>) -> (C, Vec<u8>),
    O,
    E,
    D,
    X: Fn(O, u32) -> (O, Result<E, D>),
    P: Fn(O, E, OrderedF32) -> (O, bool),
    L: Fn(&O) -> usize,
>(
    graph: GraphAccess<N, R>,
    context_id: u64,
    k: usize,
    ef: usize,
    callbacks: FilterCallbacks<F, B, G, H>,
    batch_size: usize,
    max_candidates: usize,
    sink: Sink<X, P, L>,
    host: C,
    last: C,
    before: O,
    after: O,
    report: SearchReport,
) -> bool {
    exists|passes: bool, hops: Seq<Hop<C>>, end: HeapModel, first: C|
        {
            &&& #[trigger] search_path(
                graph,
                callbacks,
                context_id,
                batch_size,
                Bounds {
                    cap: (k * RESULTS_PER_K) as nat,
                    ef: ef as int,
                    max_candidates: max_candidates as nat,
                },
                passes,
                hops,
                end,
                host,
                first,
                last,
            )
            &&& crate::report::concludes(end.walk, k as nat, sink, before, after, report)
        }
}

/// Expands candidates from the nearest on, and keeps the ones that pass the
/// filter, ten times as many as are asked for. Ends when no candidate is left,
/// after `max_candidates` expansions, or when the list of results is full and
/// the next candidate is farther than the farthest of them. Hands the `k`
/// nearest results over. Gives the host back as the calls left it.
pub fn two_queue_filtered_search<
    C,
    N: Fn(C, u32) -> (C, Vec<u32>),
    R: Fn(C, &Vec<u32>) -> (C, Vec<VectorRead>),
    F: Fn(C, u64, u32) -> (C, u8),
    B: Fn(C, u64, &Vec<u32>) -> (C, Vec<u8>),
    G: Fn(C, u64, u32, &[u8]) -> (C, u8),
    H: Fn(C, u64, &Vec<u32>, &Vec<&[u8]>) -> (C, Vec<u8>),
    O,
    E,
    D,
    X: Fn(O, u32) -> (O, Result<E, D>),
    P: Fn(O, E, OrderedF32) -> (O, bool),
    L: Fn(&O) -> usize,
>(
    host: C,
    graph: &GraphAccess<N, R>,
    context_id: u64,
    k: usize,
    ef: usize,
    callbacks: &FilterCallbacks<F, B, G, H>,
    batch_size: usize,
    max_candidates: usize,
    sink: &Sink<X, P, L>,
    output: O,
) -> (r: (C, O, SearchReport))
    requires
        0 < k,
        k * RESULTS_PER_K <= usize::MAX,
        graph.usable::<C>(),
        callbacks.usable::<C>(context_id, batch_size),
        call_requires(callbacks.filter, (host, context_id, START_ID)),
        crate::output::sink_usable::<O, E, D, X, P, L>(*sink),
    ensures
        search_ends(
            *graph,
            context_id,
            k,
            ef,
            *callbacks,
            batch_size,
            max_candidates,
            *sink,
            host,
            r.0,
            output,
            r.1,
            r.2,
        ),
{
    broadcast use vstd::multiset::group_multiset_axioms;

    let result_cap: usize = k * RESULTS_PER_K;
    let ghost bounds = Bounds {
        cap: result_cap as nat,
        ef: ef as int,
        max_candidates: max_candidates as nat,
    };
    let start_distance = match graph.start_distance {
        Some(d) => d,
        None => OrderedF32::max_finite(),
    };
    let ghost given = host;
    let (asked, answer) = (callbacks.filter)(host, context_id, START_ID);
    let passes = answer != 0;
    let ghost first = asked;
    let mut at = asked;
    let mut walk = Walk::start(result_cap, graph.max_id, start_distance, passes);
    let mut queue: RankHeap<Nearest> = RankHeap::new();
    queue.push(Nearest { candidate: Candidate { id: START_ID, distance: start_distance } });
    let with_attrs = callbacks.has_attr_callbacks();
    let ghost start = HeapModel { walk: walk@, queue: queue@ };
    let ghost mut hops = Seq::<Hop<C>>::empty();
    let ghost mut end = start;
    let mut done = false;
    proof {
        assert(call_ensures(
            callbacks.filter,
            (given, context_id, START_ID),
            (first, answer),
        ));
        assert(crate::filter::asks(
            callbacks.filter,
            context_id,
            START_ID,
            passes,
            given,
            first,
        ));
        walk.lemma_wf();
    }
    while !done
        invariant
            result_cap > 0,
            bounds == (Bounds {
                cap: result_cap as nat,
                ef: ef as int,
                max_candidates: max_candidates as nat,
            }),
            graph.usable::<C>(),
            callbacks.usable::<C>(context_id, batch_size),
            with_attrs == callbacks.takes_attrs(),
            walk.wf(),
            walk.limit() == result_cap,
            queue.wf(),
            hops_follow(*graph, *callbacks, context_id, batch_size, bounds, start, first, hops),
            at == crate::walk::host_after(first, hops),
            walk@.hops + queue@.len() <= walk@.comparisons,
            !done ==> start.after(bounds, hops) == (HeapModel { walk: walk@, queue: queue@ }),
            done ==> start.after(bounds, hops).ends(bounds) && end == start.after(
                bounds,
                hops,
            ).ended(bounds) && end.walk == walk@,
        decreases
                if done {
                    0
                } else {
                    1 + crate::walk::max_of(0, max_candidates - walk@.hops)
                },
    {
        broadcast use vstd::multiset::group_multiset_axioms;

        proof {
            walk.lemma_wf();
        }
        let ghost m = HeapModel { walk: walk@, queue: queue@ };
        let n = queue.len();
        if n == 0 {
            proof {
                end = m;
            }
            done = true;
        } else {
            walk.note_queue(n);
            if walk.hops() as usize >= max_candidates {
                proof {
                    end = m.noted();
                }
                done = true;
            } else {
                let top = queue.pop().unwrap();
                let current = top.candidate;
                walk.count_hop();
                if walk.is_beyond(current) {
                    walk.converge();
                    proof {
                        end = m.ended(bounds);
                    }
                    done = true;
                } else {
                    let ghost t = HeapModel { walk: walk@, queue: queue@ };
                    assert(t == m.taken());
                    let horizon = walk.horizon();
                    let (read, pending, attr_buffer, Ghost(neighbors), Ghost(reads), Ghost(listed)) =
                        walk.fetch(at, graph, current.id, with_attrs);
                    join(&mut queue, &pending, horizon, ef);
                    let (after, Ghost(verdicts), Ghost(hosts)) = walk.check(
                        read,
                        context_id,
                        &pending,
                        &attr_buffer,
                        callbacks,
                        batch_size,
                    );
                    at = after;
                    proof {
                        let hop = Hop {
                            neighbors,
                            reads,
                            pending: pending@,
                            buffer: attr_buffer@,
                            verdicts,
                            listed,
                            hosts,
                        };
                        let longer = hops.push(hop);
                        assert(longer.drop_last() =~= hops);
                        assert(longer.last() == hop);
                        assert(m.expanded(bounds, hop) =~= HeapModel {
                            walk: walk@,
                            queue: queue@,
                        });
                        hops = longer;
                    }
                }
            }
        }
    }
    let (after, report) = walk.conclude(k, sink, output);
    let r = (at, after, report);
    proof {
        assert(search_path(
            *graph,
            *callbacks,
            context_id,
            batch_size,
            bounds,
            passes,
            hops,
            end,
            given,
            first,
            r.0,
        ));
    }
    r
}

/// No two candidates to expand have the same id.
pub open spec fn queued_once(queue: Multiset<Nearest>) -> bool {
    &&& forall|x: Nearest| #[trigger] queue.count(x) <= 1
    &&& forall|x: Nearest, y: Nearest| #[trigger]
        queue.count(x) > 0 && #[trigger] queue.count(y) > 0 && x.candidate.id == y.candidate.id
            ==> x == y
}

impl HeapModel {
    /// Besides what holds of every search: the candidates to expand have been
    /// visited, no two have the same id, and a distance was computed for each
    /// candidate that waits or was expanded.
    pub open spec fn sound(self, bounds: Bounds) -> bool {
        &&& self.walk.sound(bounds.cap)
        &&& queued_once(self.queue)
        &&& forall|x: Nearest| #[trigger]
            self.queue.count(x) > 0 ==> self.walk.visited.contains(x.candidate.id)
        &&& self.walk.hops + self.queue.len() <= self.walk.comparisons
    }

    /// The ids that were expanded, in order.
    pub open spec fn expanded_ids<C>(self, bounds: Bounds, hops: Seq<Hop<C>>) -> Seq<u32>
        decreases hops.len(),
    {
        if hops.len() == 0 {
            Seq::empty()
        } else {
            self.expanded_ids(bounds, hops.drop_last()).push(
                self.after(bounds, hops.drop_last()).next().id,
            )
        }
    }
}

proof fn lemma_joined(
    queue: Multiset<Nearest>,
    cs: Seq<Candidate>,
    horizon: OrderedF32,
    room: int,
    n: int,
)
    requires
        0 <= n <= cs.len(),
        queued_once(queue),
        crate::filter::ids_of(cs).no_duplicates(),
        forall|x: Nearest| #[trigger]
            queue.count(x) > 0 ==> !crate::filter::ids_of(cs).contains(x.candidate.id),
    ensures
        queued_once(joined(queue, cs, horizon, room, n)),
        joined(queue, cs, horizon, room, n).len() <= queue.len() + n,
        forall|x: Nearest| #[trigger]
            joined(queue, cs, horizon, room, n).count(x) > 0 ==> queue.count(x) > 0 || exists|
                i: int,
            |
                0 <= i < n && #[trigger] cs[i] == x.candidate,
    decreases n,
{
    broadcast use vstd::multiset::group_multiset_axioms;

    if n > 0 {
        lemma_joined(queue, cs, horizon, room, n - 1);
        let before = joined(queue, cs, horizon, room, n - 1);
        let after = joined(queue, cs, horizon, room, n);
        let c = cs[n - 1];
        let ids = crate::filter::ids_of(cs);
        assert(ids[n - 1] == c.id);
        assert forall|x: Nearest| #[trigger] before.count(x) > 0 implies x.candidate.id != c.id by {
            if queue.count(x) == 0 {
                let i = choose|i: int| 0 <= i < n - 1 && #[trigger] cs[i] == x.candidate;
                assert(ids[i] != ids[n - 1]);
            }
        }
        assert(before.count(Nearest { candidate: c }) == 0);
        assert forall|x: Nearest| #[trigger] after.count(x) > 0 implies queue.count(x) > 0
            || exists|i: int| 0 <= i < n && #[trigger] cs[i] == x.candidate by {
            if x.candidate == c {
                assert(cs[n - 1] == x.candidate);
            } else {
                assert(before.count(x) > 0);
            }
        }
        assert forall|x: Nearest, y: Nearest| #[trigger]
            after.count(x) > 0 && #[trigger] after.count(y) > 0 && x.candidate.id
            == y.candidate.id implies x == y by {
            if x.candidate != c {
                assert(before.count(x) > 0);
            }
            if y.candidate != c {
                assert(before.count(y) > 0);
            }
        }
    }
}

/// A search visits each vector once and expands it at most once; its effort is
/// bounded; the results and the waiting candidates have been visited, no two of
/// either with the same id, and there are no more results than may be kept.
pub proof fn lemma_search_is_sound<
    C,
    N: Fn(C, u32) -> (C, Vec<u32>),
    R: Fn(C, &Vec<u32>) -> (C, Vec<VectorRead>),
    F: Fn(C, u64, u32) -> (C, u8),
    B: Fn(C, u64, &Vec<u32>) -> (C, Vec<u8>),
    G: Fn(C, u64, u32, &[u8]) -> (C, u8),
    H: Fn(C, u64, &Vec<u32>, &Vec<&[u8]>) -> (C, Vec<u8>),
>(
    graph: GraphAccess<N, R>,
    callbacks: FilterCallbacks<F, B, G, H>,
    context_id: u64,
    batch_size: usize,
    bounds: Bounds,
    start: Candidate,
    passes: bool,
    host: C,
    hops: Seq<Hop<C>>,
)
    requires
        graph.usable::<C>(),
        bounds.cap > 0,
        start.id == START_ID,
        hops_follow(
            graph,
            callbacks,
            context_id,
            batch_size,
            bounds,
            HeapModel::start(crate::walk::words_for(graph.max_id), bounds.cap, start, passes),
            host,
            hops,
        ),
    ensures
        ({
            let first = HeapModel::start(
                crate::walk::words_for(graph.max_id),
                bounds.cap,
                start,
                passes,
            );
            let m = first.after(bounds, hops);
            let ids = first.expanded_ids(bounds, hops);
            &&& m.sound(bounds)
            &&& m.walk.hops == hops.len() <= bounds.max_candidates
            &&& m.ends(bounds) ==> m.ended(bounds).walk.hops <= bounds.max_candidates
            &&& ids.len() == hops.len()
            &&& ids.no_duplicates()
            &&& forall|id: u32| #[trigger]
                ids.contains(id) ==> m.walk.visited.contains(id) && forall|x: Nearest| #[trigger]
                    m.queue.count(x) > 0 ==> x.candidate.id != id
        }),
    decreases hops.len(),
{
    broadcast use vstd::multiset::group_multiset_axioms;

    let words = crate::walk::words_for(graph.max_id);
    let first = HeapModel::start(words, bounds.cap, start, passes);
    let m = first.after(bounds, hops);
    let ids = first.expanded_ids(bounds, hops);
    if hops.len() == 0 {
        crate::walk::lemma_start_is_sound(words, bounds.cap, start.distance, passes);
    } else {
        let shorter = hops.drop_last();
        let hop = hops.last();
        lemma_search_is_sound(
            graph,
            callbacks,
            context_id,
            batch_size,
            bounds,
            start,
            passes,
            host,
            shorter,
        );
        let p = first.after(bounds, shorter);
        let known = first.expanded_ids(bounds, shorter);
        let t = p.taken();
        crate::heap::lemma_greatest_exists(p.queue);
        let top = crate::heap::greatest(p.queue);
        let current = top.candidate.id;
        let fresh = t.walk.fresh(hop.neighbors);
        graph.lemma_reads(fresh, hop.reads, hop.listed, hop.hosts[0]);
        crate::walk::lemma_found_are_new(t.walk, hop.neighbors, hop.reads);
        crate::walk::lemma_answers_once(hop.reads, fresh.len() as int);
        crate::walk::lemma_expansion_is_sound(
            t.walk,
            bounds.cap,
            hop.neighbors,
            hop.reads,
            hop.verdicts,
        );
        let cs = hop.found();
        let found_ids = crate::filter::ids_of(cs);
        let horizon = crate::walk::horizon(t.walk.tally.results);
        let room = bounds.ef - t.queue.len();
        assert forall|x: Nearest| #[trigger] t.queue.count(x) > 0 implies p.queue.count(x) > 0
            && x != top by {}
        assert forall|x: Nearest| #[trigger] t.queue.count(x) > 0 implies !found_ids.contains(
            x.candidate.id,
        ) by {
            if found_ids.contains(x.candidate.id) {
                assert(!t.walk.visited.contains(x.candidate.id));
            }
        }
        assert(queued_once(t.queue));
        lemma_joined(t.queue, cs, horizon, room, cs.len() as int);
        assert forall|x: Nearest| #[trigger] m.queue.count(x) > 0 implies m.walk.visited.contains(
            x.candidate.id,
        ) && !known.contains(x.candidate.id) && x.candidate.id != current by {
            if t.queue.count(x) == 0 {
                let i = choose|i: int| 0 <= i < cs.len() && #[trigger] cs[i] == x.candidate;
                assert(found_ids[i] == x.candidate.id);
                assert(found_ids.contains(x.candidate.id));
                assert(fresh.to_set().contains(x.candidate.id));
                assert(!p.walk.visited.contains(x.candidate.id));
            }
        }
        assert(!known.contains(current)) by {
            if known.contains(current) {
                assert(p.queue.count(top) > 0);
            }
        }
        assert forall|id: u32| #[trigger] ids.contains(id) implies m.walk.visited.contains(id)
            && forall|x: Nearest| #[trigger] m.queue.count(x) > 0 ==> x.candidate.id != id by {
            let i = choose|i: int| 0 <= i < ids.len() && ids[i] == id;
            if i < known.len() {
                assert(known[i] == id);
                assert(known.contains(id));
            } else {
                assert(id == current);
                assert(p.queue.count(top) > 0);
            }
        }
        assert forall|i: int, j: int| 0 <= i < ids.len() && 0 <= j < ids.len() && i
            != j implies ids[i] != ids[j] by {
            if i < known.len() && j < known.len() {
                assert(known[i] != known[j]);
            } else if i < known.len() {
                assert(known.contains(known[i]));
            } else if j < known.len() {
                assert(known.contains(known[j]));
            }
        }
    }
}

/// The results kept are the nearest of all candidates that passed the filter:
/// none of them is lost because the list is bounded or checks are skipped.
pub proof fn lemma_search_keeps_nearest<C>(
    bounds: Bounds,
    words: nat,
    start: Candidate,
    passes: bool,
    hops: Seq<Hop<C>>,
)
    requires
        bounds.cap > 0,
    ensures
        crate::filter::nearest_of(
            HeapModel::start(words, bounds.cap, start, passes).after(
                bounds,
                hops,
            ).walk.tally.results,
            crate::walk::all_passed(start, passes, hops),
            bounds.cap,
        ),
    decreases hops.len(),
{
    if hops.len() == 0 {
        crate::walk::lemma_start_keeps_nearest::<C>(words, bounds.cap, start, passes);
        assert(hops =~= Seq::empty());
    } else {
        lemma_search_keeps_nearest(bounds, words, start, passes, hops.drop_last());
        let p = HeapModel::start(words, bounds.cap, start, passes).after(bounds, hops.drop_last());
        let hop = hops.last();
        crate::filter::lemma_checks_keep_nearest(
            p.walk.tally,
            crate::walk::all_passed(start, passes, hops.drop_last()),
            bounds.cap,
            hop.found(),
            hop.verdicts,
            hop.found().len() as int,
        );
    }
}

/// When a search converges, the list of results is full, and every candidate
/// that was left is farther than every result.
pub proof fn lemma_converged_is_final(m: HeapModel, bounds: Bounds)
    requires
        m.ends(bounds),
        !m.walk.converged,
        m.ended(bounds).walk.converged,
    ensures
        m.ended(bounds).walk.tally.results.len() >= bounds.cap,
        forall|c: Candidate, x: Nearest| #[trigger]
            m.ended(bounds).walk.tally.results.count(c) > 0 && #[trigger] m.queue.count(x) > 0
                ==> c.place() < x.candidate.place(),
{
    broadcast use vstd::multiset::group_multiset_axioms;

    let results = m.walk.tally.results;
    crate::heap::lemma_greatest_exists(m.queue);
    assert forall|c: Candidate, x: Nearest| #[trigger]
        results.count(c) > 0 && #[trigger] m.queue.count(x) > 0 implies c.place()
        < x.candidate.place() by {
        let worst = crate::heap::greatest(results);
        assert(results.len() > 0);
        crate::heap::lemma_greatest_exists(results);
        crate::ordered_f32::lemma_key_orders(worst.distance, m.next().distance);
    }
}

/// The `k` nearest of the results that a search ends with are the `k` nearest of
/// all candidates that passed the filter.
pub proof fn lemma_results_are_nearest<C>(
    bounds: Bounds,
    words: nat,
    start: Candidate,
    passes: bool,
    hops: Seq<Hop<C>>,
    nearest: Seq<Candidate>,
    k: nat,
)
    requires
        bounds.cap > 0,
        k <= bounds.cap,
        crate::filter::nearest_of(
            nearest.to_multiset(),
            HeapModel::start(words, bounds.cap, start, passes).after(bounds, hops).ended(
                bounds,
            ).walk.tally.results,
            k,
        ),
    ensures
        crate::filter::nearest_of(
            nearest.to_multiset(),
            crate::walk::all_passed(start, passes, hops),
            k,
        ),
{
    lemma_search_keeps_nearest(bounds, words, start, passes, hops);
    crate::filter::lemma_nearest_of_nearest(
        nearest.to_multiset(),
        HeapModel::start(words, bounds.cap, start, passes).after(bounds, hops).walk.tally.results,
        crate::walk::all_passed(start, passes, hops),
        k,
        bounds.cap,
    );
}

/// Only vectors that the filter accepts are results: each one is the start, if
/// the single callback passed it, or one on which the callbacks said yes.
pub proof fn lemma_results_are_accepted<
    C,
    N: Fn(C, u32) -> (C, Vec<u32>),
    R: Fn(C, &Vec<u32>) -> (C, Vec<VectorRead>),
    F: Fn(C, u64, u32) -> (C, u8),
    B: Fn(C, u64, &Vec<u32>) -> (C, Vec<u8>),
    G: Fn(C, u64, u32, &[u8]) -> (C, u8),
    H: Fn(C, u64, &Vec<u32>, &Vec<&[u8]>) -> (C, Vec<u8>),
>(
    graph: GraphAccess<N, R>,
    callbacks: FilterCallbacks<F, B, G, H>,
    context_id: u64,
    batch_size: usize,
    bounds: Bounds,
    words: nat,
    start: Candidate,
    passes: bool,
    host: C,
    hops: Seq<Hop<C>>,
)
    requires
        bounds.cap > 0,
        hops_follow(
            graph,
            callbacks,
            context_id,
            batch_size,
            bounds,
            HeapModel::start(words, bounds.cap, start, passes),
            host,
            hops,
        ),
    ensures
        forall|c: Candidate| #[trigger]
            HeapModel::start(words, bounds.cap, start, passes).after(
                bounds,
                hops,
            ).walk.tally.results.count(c) > 0 ==> (c == start && passes) || callbacks.accepts::<C>(
                context_id,
                batch_size,
                c.id,
            ),
    decreases hops.len(),
{
    broadcast use vstd::multiset::group_multiset_axioms;

    if hops.len() == 0 {
        assert(!crate::filter::skips(vstd::multiset::Multiset::empty(), bounds.cap, start));
    } else {
        let shorter = hops.drop_last();
        let hop = hops.last();
        lemma_results_are_accepted(
            graph,
            callbacks,
            context_id,
            batch_size,
            bounds,
            words,
            start,
            passes,
            host,
            shorter,
        );
        let t = HeapModel::start(words, bounds.cap, start, passes).after(bounds, shorter).taken();
        callbacks.lemma_only_accepted_come_in(
            context_id,
            batch_size,
            t.walk.tally,
            bounds.cap,
            hop.pending,
            hop.buffer,
            hop.verdicts,
            hop.hosts,
        );
    }
}

/// A search without effort expands nothing: no neighbors are listed, nothing is
/// read, and the filter is asked once, about the start.
pub proof fn lemma_no_effort_asks_once<
    C,
    N: Fn(C, u32) -> (C, Vec<u32>),
    R: Fn(C, &Vec<u32>) -> (C, Vec<VectorRead>),
    F: Fn(C, u64, u32) -> (C, u8),
    B: Fn(C, u64, &Vec<u32>) -> (C, Vec<u8>),
    G: Fn(C, u64, u32, &[u8]) -> (C, u8),
    H: Fn(C, u64, &Vec<u32>, &Vec<&[u8]>) -> (C, Vec<u8>),
>(
    graph: GraphAccess<N, R>,
    callbacks: FilterCallbacks<F, B, G, H>,
    context_id: u64,
    batch_size: usize,
    bounds: Bounds,
    passes: bool,
    hops: Seq<Hop<C>>,
    end: HeapModel,
    before: C,
    first: C,
    last: C,
)
    requires
        bounds.max_candidates == 0,
        search_path(
            graph,
            callbacks,
            context_id,
            batch_size,
            bounds,
            passes,
            hops,
            end,
            before,
            first,
            last,
        ),
    ensures
        hops.len() == 0,
        crate::filter::asks(callbacks.filter, context_id, START_ID, passes, before, last),
    decreases hops.len(),
{
    if hops.len() > 0 {
        let start = HeapModel::start(
            crate::walk::words_for(graph.max_id),
            bounds.cap,
            crate::walk::start_candidate(graph.start_distance),
            passes,
        );
        lemma_hops_are_counted(start, bounds, hops.drop_last());
    }
}

/// Each expansion counts once.
proof fn lemma_hops_are_counted<C>(start: HeapModel, bounds: Bounds, hops: Seq<Hop<C>>)
    ensures
        start.after(bounds, hops).walk.hops == start.walk.hops + hops.len(),
    decreases hops.len(),
{
    if hops.len() > 0 {
        lemma_hops_are_counted(start, bounds, hops.drop_last());
    }
}

/// If the filter says of each id what `accept` says, the results kept are the
/// nearest of all vectors that the search met and `accept` says yes on.
pub proof fn lemma_results_are_nearest_accepted<
    C,
    N: Fn(C, u32) -> (C, Vec<u32>),
    R: Fn(C, &Vec<u32>) -> (C, Vec<VectorRead>),
    F: Fn(C, u64, u32) -> (C, u8),
    B: Fn(C, u64, &Vec<u32>) -> (C, Vec<u8>),
    G: Fn(C, u64, u32, &[u8]) -> (C, u8),
    H: Fn(C, u64, &Vec<u32>, &Vec<&[u8]>) -> (C, Vec<u8>),
>(
    graph: GraphAccess<N, R>,
    callbacks: FilterCallbacks<F, B, G, H>,
    context_id: u64,
    batch_size: usize,
    bounds: Bounds,
    words: nat,
    start: Candidate,
    host: C,
    hops: Seq<Hop<C>>,
    accept: spec_fn(u32) -> bool,
)
    requires
        bounds.cap > 0,
        callbacks.follows::<C>(context_id, batch_size, accept),
        hops_follow(
            graph,
            callbacks,
            context_id,
            batch_size,
            bounds,
            HeapModel::start(words, bounds.cap, start, accept(start.id)),
            host,
            hops,
        ),
    ensures
        crate::filter::nearest_of(
            HeapModel::start(words, bounds.cap, start, accept(start.id)).after(
                bounds,
                hops,
            ).walk.tally.results,
            crate::walk::all_accepted(start, accept, hops),
            bounds.cap,
        ),
    decreases hops.len(),
{
    let passes = accept(start.id);
    if hops.len() == 0 {
        crate::walk::lemma_start_keeps_nearest::<C>(words, bounds.cap, start, passes);
        assert(hops =~= Seq::empty());
    } else {
        let shorter = hops.drop_last();
        let hop = hops.last();
        lemma_results_are_nearest_accepted(
            graph,
            callbacks,
            context_id,
            batch_size,
            bounds,
            words,
            start,
            host,
            shorter,
            accept,
        );
        let t = HeapModel::start(words, bounds.cap, start, passes).after(bounds, shorter).taken();
        callbacks.lemma_checks_follow(
            context_id,
            batch_size,
            t.walk.tally,
            bounds.cap,
            hop.pending,
            hop.buffer,
            hop.verdicts,
            hop.hosts,
            accept,
        );
        crate::filter::lemma_checks_keep_nearest(
            t.walk.tally,
            crate::walk::all_accepted(start, accept, shorter),
            bounds.cap,
            hop.found(),
            crate::filter::verdicts_by(accept, hop.found()),
            hop.found().len() as int,
        );
    }
}

/// If the filter says of each id what `accept` says, the `k` results that a
/// search hands over are the `k` nearest of all vectors that it met and `accept`
/// says yes on.
pub proof fn lemma_search_finds_nearest_accepted<
    C,
    N: Fn(C, u32) -> (C, Vec<u32>),
    R: Fn(C, &Vec<u32>) -> (C, Vec<VectorRead>),
    F: Fn(C, u64, u32) -> (C, u8),
    B: Fn(C, u64, &Vec<u32>) -> (C, Vec<u8>),
    G: Fn(C, u64, u32, &[u8]) -> (C, u8),
    H: Fn(C, u64, &Vec<u32>, &Vec<&[u8]>) -> (C, Vec<u8>),
>(
    graph: GraphAccess<N, R>,
    callbacks: FilterCallbacks<F, B, G, H>,
    context_id: u64,
    batch_size: usize,
    bounds: Bounds,
    passes: bool,
    hops: Seq<Hop<C>>,
    end: HeapModel,
    before: C,
    first: C,
    last: C,
    accept: spec_fn(u32) -> bool,
    nearest: Seq<Candidate>,
    k: nat,
)
    requires
        k <= bounds.cap,
        bounds.cap > 0,
        search_path(
            graph,
            callbacks,
            context_id,
            batch_size,
            bounds,
            passes,
            hops,
            end,
            before,
            first,
            last,
        ),
        callbacks.follows::<C>(context_id, batch_size, accept),
        forall|verdict: bool, h0: C, h1: C| #[trigger]
            crate::filter::asks(callbacks.filter, context_id, START_ID, verdict, h0, h1)
                ==> verdict == accept(START_ID),
        crate::filter::nearest_of(nearest.to_multiset(), end.walk.tally.results, k),
    ensures
        crate::filter::nearest_of(
            nearest.to_multiset(),
            crate::walk::all_accepted(
                crate::walk::start_candidate(graph.start_distance),
                accept,
                hops,
            ),
            k,
        ),
{
    let start = crate::walk::start_candidate(graph.start_distance);
    let words = crate::walk::words_for(graph.max_id);
    assert(passes == accept(start.id));
    lemma_results_are_nearest_accepted(
        graph,
        callbacks,
        context_id,
        batch_size,
        bounds,
        words,
        start,
        first,
        hops,
        accept,
    );
    crate::filter::lemma_nearest_of_nearest(
        nearest.to_multiset(),
        end.walk.tally.results,
        crate::walk::all_accepted(start, accept, hops),
        k,
        bounds.cap,
    );
}

} // verus!
