//! Filtered search with the graph index's own queue of candidates and a bounded
//! list of results.

use vstd::prelude::*;
use crate::candidate::Candidate;
use crate::filter::{FilterCallbacks, PendingCandidate};
use crate::ordered_f32::OrderedF32;
use crate::output::Sink;
use crate::queue::CandidateQueue;
use crate::report::SearchReport;
use crate::walk::{GraphAccess, Hop, START_ID, VectorRead, Walk, WalkModel};

verus! {

/// The entries of the queue after some candidates that were found have joined
/// them: all, or only the ones nearer than the horizon.
pub open spec fn queued(
    entries: Seq<(Candidate, bool)>,
    cs: Seq<Candidate>,
    horizon: OrderedF32,
    all: bool,
    n: int,
) -> Seq<(Candidate, bool)>
    decreases n,
{
    if n <= 0 {
        entries
    } else {
        let before = queued(entries, cs, horizon, all, n - 1);
        let c = cs[n - 1];
        if c.distance.less(horizon) || all {
            crate::queue::with_entry(before, c)
        } else {
            before
        }
    }
}

/// The state of a search.
#[verifier::ext_equal]
pub struct NativeModel {
    pub walk: WalkModel,
    /// The entries of the queue.
    pub entries: Seq<(Candidate, bool)>,
}

/// The bounds of a search.
pub struct NativeBounds {
    /// How many results are kept, and how many of the first entries of the
    /// queue are considered for expansion.
    pub cap: nat,
    /// How many candidates are expanded.
    pub max_candidates: nat,
}

impl NativeModel {
    /// The start: the only entry is the start vector.
    pub open spec fn start(words: nat, cap: nat, start: Candidate, passes: bool) -> Self {
        NativeModel {
            walk: WalkModel::start(words, cap, start, passes),
            entries: crate::queue::with_entry(Seq::empty(), start),
        }
    }

    /// The position of the next candidate to expand.
    pub open spec fn next_at(self) -> int {
        crate::queue::first_open(self.entries, 0)
    }

    /// The next candidate to expand.
    pub open spec fn next(self) -> Candidate {
        self.entries[self.next_at()].0
    }

    /// The state after the next candidate was handed out.
    pub open spec fn taken(self) -> Self {
        NativeModel {
            walk: WalkModel { hops: self.walk.hops + 1, ..self.walk },
            entries: self.entries.update(self.next_at(), (self.next(), true)),
        }
    }

    /// Whether the search ends here: the queue has no candidate to hand out, the
    /// effort is spent, or the list of results is full and the next candidate
    /// is farther than the farthest of them.
    pub open spec fn ends(self, bounds: NativeBounds) -> bool {
        ||| !crate::queue::has_open(self.entries, bounds.cap)
        ||| self.walk.hops >= bounds.max_candidates
        ||| crate::filter::skips(self.walk.tally.results, bounds.cap, self.next())
    }

    /// The state in which the search ends.
    pub open spec fn ended(self, bounds: NativeBounds) -> Self {
        if !crate::queue::has_open(self.entries, bounds.cap) || self.walk.hops
            >= bounds.max_candidates {
            self
        } else {
            NativeModel {
                walk: WalkModel { converged: true, ..self.taken().walk },
                ..self.taken()
            }
        }
    }

    /// The state after the next candidate was expanded.
    pub open spec fn expanded<C>(self, bounds: NativeBounds, hop: Hop<C>) -> Self {
        let m = self.taken();
        let entries = queued(
            m.entries,
            hop.found(),
            crate::walk::horizon(m.walk.tally.results),
            m.walk.tally.results.len() < bounds.cap,
            hop.found().len() as int,
        );
        let walk = m.walk.expanded(bounds.cap, hop.neighbors, hop.found(), hop.verdicts);
        NativeModel {
            walk: WalkModel {
                max_cand_size: crate::walk::max_of(walk.max_cand_size, entries.len() as int),
                ..walk
            },
            entries,
        }
    }

    /// The state after some expansions.
    pub open spec fn after<C>(self, bounds: NativeBounds, hops: Seq<Hop<C>>) -> Self
        decreases hops.len(),
    {
        if hops.len() == 0 {
            self
        } else {
            self.after(bounds, hops.drop_last()).expanded(bounds, hops.last())
        }
    }

    /// The ids that were expanded, in order.
    pub open spec fn expanded_ids<C>(self, bounds: NativeBounds, hops: Seq<Hop<C>>) -> Seq<u32>
        decreases hops.len(),
    {
        if hops.len() == 0 {
            Seq::empty()
        } else {
            self.expanded_ids(bounds, hops.drop_last()).push(
                self.after(bounds, hops.drop_last()).next().id,
            )
        }
    }

    /// Besides what holds of every search: the entries have been visited, no two
    /// have the same id, they are sorted, and a distance was computed for each.
    pub open spec fn sound(self, bounds: NativeBounds) -> bool {
        &&& self.walk.sound(bounds.cap)
        &&& crate::queue::entries_once(self.entries)
        &&& crate::queue::sorted(self.entries)
        &&& forall|i: int|
            0 <= i < self.entries.len() ==> self.walk.visited.contains(
                (#[trigger] self.entries[i]).0.id,
            )
        &&& self.entries.len() <= self.walk.comparisons
    }
}

/// The expansions are those that the search makes, given what the graph and the
/// callbacks answer; the calls lead the host on from `host`.
pub open spec fn hops_follow<
    C,
    N: Fn(C, u32) -> (C, Vec<u32>),
    R: Fn(C, &Vec<u32>) -> (C, Vec<VectorRead>),
    F: Fn(C, u64, u32) -> (C, u8),
    B: Fn(C, u64, &Vec<u32>) -> (C, Vec<u8>),
    G: Fn(C, u64, u32, &[u8]) -> (C, u8),
    H: Fn(C, u64, &Vec<u32>, &Vec<&[u8]>) -> (C, Vec<u8>),
>(
    graph: GraphAccess<N, R>,
    callbacks: FilterCallbacks<F, B, G, H>,
    context_id: u64,
    batch_size: usize,
    bounds: NativeBounds,
    start: NativeModel,
    host: C,
    hops: Seq<Hop<C>>,
) -> bool
    decreases hops.len(),
{
    hops.len() > 0 ==> {
        let m = start.after(bounds, hops.drop_last());
        &&& hops_follow(
            graph,
            callbacks,
            context_id,
            batch_size,
            bounds,
            start,
            host,
            hops.drop_last(),
        )
        &&& !m.ends(bounds)
        &&& crate::walk::hop_follows(
            graph,
            callbacks,
            context_id,
            batch_size,
            bounds.cap,
            m.taken().walk,
            crate::walk::host_after(host, hops.drop_last()),
            m.next().id,
            hops.last(),
        )
    }
}

/// A search whose start passed the filter or not, and which made these
/// expansions, ends in the state `end`. The calls are these: one of the single
/// callback on the start, which leads the host from `before` to `first`, and
/// those of the expansions, which lead it on to `last`.
pub open spec fn search_path<
    C,
    N: Fn(C, u32) -> (C, Vec<u32>),
    R: Fn(C, &Vec<u32>) -> (C, Vec<VectorRead>),
    F: Fn(C, u64, u32) -> (C, u8),
    B: Fn(C, u64, &Vec<u32>) -> (C, Vec<u8>),
    G: Fn(C, u64, u32, &[u8]) -> (C, u8),
    H: Fn(C, u64, &Vec<u32>, &Vec<&[u8]>) -> (C, Vec<u8>),
>(
    graph: GraphAccess<N, R>,
    callbacks: FilterCallbacks<F, B, G, H>,
    context_id: u64,
    batch_size: usize,
    bounds: NativeBounds,
    passes: bool,
    hops: Seq<Hop<C>>,
    end: NativeModel,
    before: C,
    first: C,
    last: C,
) -> bool {
    let start = NativeModel::start(
        crate::walk::words_for(graph.max_id),
        bounds.cap,
        crate::walk::start_candidate(graph.start_distance),
        passes,
    );
    &&& crate::filter::asks(callbacks.filter, context_id, START_ID, passes, before, first)
    &&& hops_follow(graph, callbacks, context_id, batch_size, bounds, start, first, hops)
    &&& last == crate::walk::host_after(first, hops)
    &&& start.after(bounds, hops).ends(bounds)
    &&& end == start.after(bounds, hops).ended(bounds)
}

/// Candidates with new ids keep the entries sorted and the ids unique.
proof fn lemma_queued(
    entries: Seq<(Candidate, bool)>,
    cs: Seq<Candidate>,
    horizon: OrderedF32,
    all: bool,
    n: int,
)
    requires
        0 <= n <= cs.len(),
        crate::queue::entries_once(entries),
        crate::queue::sorted(entries),
        crate::filter::ids_of(cs).no_duplicates(),
        forall|i: int|
            0 <= i < entries.len() ==> !crate::filter::ids_of(cs).contains(
                (#[trigger] entries[i]).0.id,
            ),
    ensures
        crate::queue::entries_once(queued(entries, cs, horizon, all, n)),
        crate::queue::sorted(queued(entries, cs, horizon, all, n)),
        queued(entries, cs, horizon, all, n).len() <= entries.len() + n,
        forall|i: int|
            0 <= i < queued(entries, cs, horizon, all, n).len() ==> {
                let e = #[trigger] queued(entries, cs, horizon, all, n)[i];
                entries.contains(e) || (!e.1 && exists|j: int|
                    0 <= j < n && #[trigger] cs[j] == e.0)
            },
    decreases n,
{
    if n > 0 {
        lemma_queued(entries, cs, horizon, all, n - 1);
        let before = queued(entries, cs, horizon, all, n - 1);
        let after = queued(entries, cs, horizon, all, n);
        let c = cs[n - 1];
        let ids = crate::filter::ids_of(cs);
        assert(ids[n - 1] == c.id);
        assert forall|i: int| 0 <= i < before.len() implies (#[trigger] before[i]).0.id != c.id by {
            let e = before[i];
            if entries.contains(e) {
                let k = choose|k: int| 0 <= k < entries.len() && entries[k] == e;
                assert(!ids.contains(entries[k].0.id));
                assert(ids.contains(ids[n - 1]));
            } else {
                let j = choose|j: int| 0 <= j < n - 1 && #[trigger] cs[j] == e.0;
                assert(ids[j] != ids[n - 1]);
            }
        }
        crate::queue::lemma_with_entry(before, c);
        assert forall|i: int| 0 <= i < after.len() implies {
            let e = #[trigger] after[i];
            entries.contains(e) || (!e.1 && exists|j: int| 0 <= j < n && #[trigger] cs[j] == e.0)
        } by {
            let e = after[i];
            if before.contains(e) {
                let k = choose|k: int| 0 <= k < before.len() && before[k] == e;
                assert(before[k] == e);
            } else {
                assert(cs[n - 1] == e.0);
            }
        }
    }
}

/// A search visits each vector once and expands it at most once; its effort is
/// bounded; the results and the entries of the queue have been visited, no two
/// of either with the same id; the queue is sorted, and there are no more
/// results than may be kept.
pub proof fn lemma_search_is_sound<
    C,
    N: Fn(C, u32) -> (C, Vec<u32>),
    R: Fn(C, &Vec<u32>) -> (C, Vec<VectorRead>),
    F: Fn(C, u64, u32) -> (C, u8),
    B: Fn(C, u64, &Vec<u32>) -> (C, Vec<u8>),
    G: Fn(C, u64, u32, &[u8]) -> (C, u8),
    H: Fn(C, u64, &Vec<u32>, &Vec<&[u8]>) -> (C, Vec<u8>),
>(
    graph: GraphAccess<N, R>,
    callbacks: FilterCallbacks<F, B, G, H>,
    context_id: u64,
    batch_size: usize,
    bounds: NativeBounds,
    start: Candidate,
    passes: bool,
    host: C,
    hops: Seq<Hop<C>>,
)
    requires
        graph.usable::<C>(),
        bounds.cap > 0,
        start.id == START_ID,
        hops_follow(
            graph,
            callbacks,
            context_id,
            batch_size,
            bounds,
            NativeModel::start(crate::walk::words_for(graph.max_id), bounds.cap, start, passes),
            host,
            hops,
        ),
    ensures
        ({
            let first = NativeModel::start(
                crate::walk::words_for(graph.max_id),
                bounds.cap,
                start,
                passes,
            );
            let m = first.after(bounds, hops);
            let ids = first.expanded_ids(bounds, hops);
            &&& m.sound(bounds)
            &&& m.walk.words == first.walk.words
            &&& m.walk.hops == hops.len() <= bounds.max_candidates
            &&& m.ends(bounds) ==> m.ended(bounds).walk.hops <= bounds.max_candidates
            &&& ids.len() == hops.len()
            &&& ids.no_duplicates()
            &&& forall|id: u32| #[trigger] ids.contains(id) ==> m.walk.visited.contains(id)
            &&& forall|i: int|
                0 <= i < m.entries.len() && !(#[trigger] m.entries[i]).1 ==> !ids.contains(
                    m.entries[i].0.id,
                )
        }),
    decreases hops.len(),
{
    let words = crate::walk::words_for(graph.max_id);
    let first = NativeModel::start(words, bounds.cap, start, passes);
    let m = first.after(bounds, hops);
    let ids = first.expanded_ids(bounds, hops);
    if hops.len() == 0 {
        crate::walk::lemma_start_is_sound(words, bounds.cap, start.distance, passes);
        crate::queue::lemma_with_entry(Seq::empty(), start);
    } else {
        let shorter = hops.drop_last();
        let hop = hops.last();
        lemma_search_is_sound(
            graph,
            callbacks,
            context_id,
            batch_size,
            bounds,
            start,
            passes,
            host,
            shorter,
        );
        let p = first.after(bounds, shorter);
        let known = first.expanded_ids(bounds, shorter);
        let t = p.taken();
        crate::queue::lemma_next_is_nearest(p.entries);
        let at = p.next_at();
        let current = p.next().id;
        let fresh = t.walk.fresh(hop.neighbors);
        graph.lemma_reads(fresh, hop.reads, hop.listed, hop.hosts[0]);
        crate::walk::lemma_found_are_new(t.walk, hop.neighbors, hop.reads);
        crate::walk::lemma_answers_once(hop.reads, fresh.len() as int);
        crate::walk::lemma_expansion_is_sound(
            t.walk,
            bounds.cap,
            hop.neighbors,
            hop.reads,
            hop.verdicts,
        );
        let cs = hop.found();
        let found_ids = crate::filter::ids_of(cs);
        assert forall|i: int| 0 <= i < t.entries.len() implies (#[trigger] t.entries[i]).0
            == p.entries[i].0 && (!t.entries[i].1 ==> i != at && !p.entries[i].1) by {}
        assert forall|i: int| 0 <= i < t.entries.len() implies !found_ids.contains(
            (#[trigger] t.entries[i]).0.id,
        ) by {
            if found_ids.contains(t.entries[i].0.id) {
                assert(p.walk.visited.contains(p.entries[i].0.id));
            }
        }
        let horizon = crate::walk::horizon(t.walk.tally.results);
        let all = t.walk.tally.results.len() < bounds.cap;
        assert(crate::queue::entries_once(t.entries));
        assert(crate::queue::sorted(t.entries));
        lemma_queued(t.entries, cs, horizon, all, cs.len() as int);
        assert forall|i: int| 0 <= i < m.entries.len() implies m.walk.visited.contains(
            (#[trigger] m.entries[i]).0.id,
        ) && (!m.entries[i].1 ==> !known.contains(m.entries[i].0.id) && m.entries[i].0.id
            != current) by {
            let e = m.entries[i];
            if t.entries.contains(e) {
                let k = choose|k: int| 0 <= k < t.entries.len() && t.entries[k] == e;
                assert(t.entries[k].0 == p.entries[k].0);
                if !e.1 {
                    assert(p.entries[k].0.id != p.entries[at].0.id);
                }
            } else {
                let j = choose|j: int| 0 <= j < cs.len() && #[trigger] cs[j] == e.0;
                assert(found_ids[j] == e.0.id);
                assert(found_ids.contains(e.0.id));
                assert(fresh.to_set().contains(e.0.id));
                assert(!p.walk.visited.contains(e.0.id));
            }
        }
        assert(!known.contains(current));
        assert(p.walk.visited.contains(p.entries[at].0.id));
        assert forall|id: u32| #[trigger] ids.contains(id) implies m.walk.visited.contains(id) by {
            let i = choose|i: int| 0 <= i < ids.len() && ids[i] == id;
            if i < known.len() {
                assert(known[i] == id);
                assert(known.contains(id));
            }
        }
        assert forall|i: int|
            0 <= i < m.entries.len() && !(#[trigger] m.entries[i]).1 implies !ids.contains(
            m.entries[i].0.id,
        ) by {
            let id = m.entries[i].0.id;
            if ids.contains(id) {
                let j = choose|j: int| 0 <= j < ids.len() && ids[j] == id;
                if j < known.len() {
                    assert(known[j] == id);
                    assert(known.contains(id));
                }
            }
        }
        assert forall|i: int, j: int| 0 <= i < ids.len() && 0 <= j < ids.len() && i
            != j implies ids[i] != ids[j] by {
            if i < known.len() && j < known.len() {
                assert(known[i] != known[j]);
            } else if i < known.len() {
                assert(known.contains(known[i]));
            } else if j < known.len() {
                assert(known.contains(known[j]));
            }
        }
    }
}

/// Fewer candidates were expanded than vectors were visited, while one is left
/// to expand.
proof fn lemma_one_more_hop(visited: Set<u32>, ids: Seq<u32>, id: u32)
    requires
        visited.finite(),
        ids.no_duplicates(),
        !ids.contains(id),
        visited.contains(id),
        forall|x: u32| #[trigger] ids.contains(x) ==> visited.contains(x),
    ensures
        ids.len() < visited.len(),
{
    ids.unique_seq_to_set();
    assert(ids.to_set().subset_of(visited.remove(id)));
    vstd::set_lib::lemma_len_subset(ids.to_set(), visited.remove(id));
}

/// Lets the candidates that were found join the queue.
fn enqueue(
    queue: &mut CandidateQueue,
    found: &Vec<PendingCandidate>,
    horizon: OrderedF32,
    all: bool,
)
    requires
        crate::queue::entries_once(crate::queue::queue_entries(*old(queue))),
        crate::queue::sorted(crate::queue::queue_entries(*old(queue))),
        crate::filter::ids_of(crate::filter::candidates_of(found@)).no_duplicates(),
        forall|i: int|
            0 <= i < crate::queue::queue_entries(*old(queue)).len() ==> !crate::filter::ids_of(
                crate::filter::candidates_of(found@),
            ).contains((#[trigger] crate::queue::queue_entries(*old(queue))[i]).0.id),
        (crate::queue::queue_entries(*old(queue)).len() + found@.len()) * 32 <= isize::MAX,
    ensures
        crate::queue::queue_entries(*final(queue)) == queued(
            crate::queue::queue_entries(*old(queue)),
            crate::filter::candidates_of(found@),
            horizon,
            all,
            found@.len() as int,
        ),
        crate::queue::queue_limit(*final(queue)) == crate::queue::queue_limit(*old(queue)),
{
    let ghost entries = crate::queue::queue_entries(*queue);
    let ghost cs = crate::filter::candidates_of(found@);
    let ghost ids = crate::filter::ids_of(cs);
    let mut i: usize = 0;
    while i < found.len()
        invariant
            i <= found@.len(),
            cs == crate::filter::candidates_of(found@),
            ids == crate::filter::ids_of(cs),
            crate::queue::entries_once(entries),
            crate::queue::sorted(entries),
            ids.no_duplicates(),
            forall|j: int|
                0 <= j < entries.len() ==> !ids.contains((#[trigger] entries[j]).0.id),
            (entries.len() + found@.len()) * 32 <= isize::MAX,
            crate::queue::queue_entries(*queue) == queued(entries, cs, horizon, all, i as int),
            crate::queue::queue_limit(*queue) == crate::queue::queue_limit(*old(queue)),
        decreases found@.len() - i,
    {
        let c = found[i].candidate;
        assert(c == cs[i as int]);
        if c.distance.lt(horizon) || all {
            proof {
                lemma_queued(entries, cs, horizon, all, i as int);
                let before = crate::queue::queue_entries(*queue);
                assert(ids[i as int] == c.id);
                assert(ids.contains(c.id));
                assert forall|j: int| 0 <= j < before.len() implies (#[trigger] before[j]).0.id
                    != c.id by {
                    let e = before[j];
                    if entries.contains(e) {
                        let k = choose|k: int| 0 <= k < entries.len() && entries[k] == e;
                        assert(!ids.contains(entries[k].0.id));
                    } else {
                        let n = choose|n: int| 0 <= n < i && #[trigger] cs[n] == e.0;
                        assert(ids[n] != ids[i as int]);
                    }
                }
            }
            queue.insert(c);
        }
        i = i + 1;
    }
}

/// A search may turn the host from `host` into `last` and the output from
/// `before` into `after`, and report `report`.
pub open spec fn search_ends<
    C,
    N: Fn(C, u32) -> (C, Vec<u32>),
    R: Fn(C, &Vec<u32>) -> (C, Vec<VectorRead>),
    F: Fn(C, u64, u32) -> (C, u8),
    B: Fn(C, u64, &Vec<u32>) -> (C, Vec<u8>),
    G: Fn(C, u64, u32, &[u8]) -> (C, u8),
    H: Fn(C, u64, &Vec<u32>, &Vec<&[u8]>) -> (C, Vec<u8>),
    O,
    E,
    D,
    X: Fn(O, u32) -> (O, Result<E, D>),
    P: Fn(O, E, OrderedF32) -> (O, bool),
    L: Fn(&O) -> usize,
>(
    graph: GraphAccess<N, R>,
    context_id: u64,
    k: usize,
    ef: usize,
    callbacks: FilterCallbacks<F, B, G, H>,
    batch_size: usize,
    max_candidates: usize,
    sink: Sink<X, P, L>,
    host: C,
    last: C,
    before: O,
    after: O,
    report: SearchReport,
) -> bool {
    exists|passes: bool, hops: Seq<Hop<C>>, end: NativeModel, first: C|
        {
            &&& #[trigger] search_path(
                graph,
                callbacks,
                context_id,
                batch_size,
                NativeBounds { cap: ef as nat, max_candidates: max_candidates as nat },
                passes,
                hops,
                end,
                host,
                first,
                last,
            )
            &&& crate::report::concludes(end.walk, k as nat, sink, before, after, report)
        }
}

/// Expands candidates from the nearest on, and keeps the ones that pass the
/// filter, up to `ef`. The queue of candidates grows as needed, but only its
/// first `ef` entries are considered. Ends when none of them is left to expand,
/// after `max_candidates` expansions, or when the list of results is full and
/// the next candidate is farther than the farthest of them. Hands the `k`
/// nearest results over. The queue must have room for every vector. Gives the
/// host back as the calls left it.
pub fn two_queue_native_search<
    C,
    N: Fn(C, u32) -> (C, Vec<u32>),
    R: Fn(C, &Vec<u32>) -> (C, Vec<VectorRead>),
    F: Fn(C, u64, u32) -> (C, u8),
    B: Fn(C, u64, &Vec<u32>) -> (C, Vec<u8>),
    G: Fn(C, u64, u32, &[u8]) -> (C, u8),
    H: Fn(C, u64, &Vec<u32>, &Vec<&[u8]>) -> (C, Vec<u8>),
    O,
    E,
    D,
    X: Fn(O, u32) -> (O, Result<E, D>),
    P: Fn(O, E, OrderedF32) -> (O, bool),
    L: Fn(&O) -> usize,
>(
    host: C,
    graph: &GraphAccess<N, R>,
    context_id: u64,
    k: usize,
    ef: usize,
    callbacks: &FilterCallbacks<F, B, G, H>,
    batch_size: usize,
    max_candidates: usize,
    sink: &Sink<X, P, L>,
    output: O,
) -> (r: (C, O, SearchReport))
    requires
        0 < ef,
        ef * 8 <= isize::MAX,
        (graph.max_id + 65) * 32 <= isize::MAX,
        graph.usable::<C>(),
        callbacks.usable::<C>(context_id, batch_size),
        call_requires(callbacks.filter, (host, context_id, START_ID)),
        crate::output::sink_usable::<O, E, D, X, P, L>(*sink),
    ensures
        search_ends(
            *graph,
            context_id,
            k,
            ef,
            *callbacks,
            batch_size,
            max_candidates,
            *sink,
            host,
            r.0,
            output,
            r.1,
            r.2,
        ),
{
    let ghost bounds = NativeBounds { cap: ef as nat, max_candidates: max_candidates as nat };
    let start_distance = match graph.start_distance {
        Some(d) => d,
        None => OrderedF32::max_finite(),
    };
    let start_candidate = Candidate { id: START_ID, distance: start_distance };
    let ghost given = host;
    let (asked, answer) = (callbacks.filter)(host, context_id, START_ID);
    let passes = answer != 0;
    let ghost first = asked;
    let mut at = asked;
    let mut walk = Walk::start(ef, graph.max_id, start_distance, passes);
    let mut queue = CandidateQueue::new(ef);
    queue.insert(start_candidate);
    let with_attrs = callbacks.has_attr_callbacks();
    let ghost start = NativeModel { walk: walk@, entries: crate::queue::queue_entries(queue) };
    let ghost mut hops = Seq::<Hop<C>>::empty();
    let mut done = false;
    proof {
        assert(call_ensures(
            callbacks.filter,
            (given, context_id, START_ID),
            (first, answer),
        ));
        assert(crate::filter::asks(
            callbacks.filter,
            context_id,
            START_ID,
            passes,
            given,
            first,
        ));
        assert(start == NativeModel::start(
            crate::walk::words_for(graph.max_id),
            bounds.cap,
            start_candidate,
            passes,
        ));
    }
    while !done
        invariant
            ef > 0,
            bounds == (NativeBounds { cap: ef as nat, max_candidates: max_candidates as nat }),
            (graph.max_id + 65) * 32 <= isize::MAX,
            start_candidate.id == START_ID,
            start == NativeModel::start(
                crate::walk::words_for(graph.max_id),
                bounds.cap,
                start_candidate,
                passes,
            ),
            graph.usable::<C>(),
            callbacks.usable::<C>(context_id, batch_size),
            with_attrs == callbacks.takes_attrs(),
            walk.wf(),
            walk.limit() == ef,
            crate::queue::queue_limit(queue) == ef,
            hops_follow(*graph, *callbacks, context_id, batch_size, bounds, start, first, hops),
            at == crate::walk::host_after(first, hops),
            !done ==> start.after(bounds, hops) == (NativeModel {
                walk: walk@,
                entries: crate::queue::queue_entries(queue),
            }),
            done ==> start.after(bounds, hops).ends(bounds) && start.after(bounds, hops).ended(
                bounds,
            ).walk == walk@,
        decreases
                if done {
                    0
                } else {
                    1 + crate::walk::max_of(0, max_candidates - walk@.hops)
                },
    {
        let ghost m = NativeModel { walk: walk@, entries: crate::queue::queue_entries(queue) };
        proof {
            walk.lemma_wf();
            lemma_search_is_sound(
                *graph,
                *callbacks,
                context_id,
                batch_size,
                bounds,
                start_candidate,
                passes,
                first,
                hops,
            );
        }
        if !queue.has_notvisited_node() || walk.hops() as usize >= max_candidates {
            done = true;
        } else {
            proof {
                crate::queue::lemma_next_is_nearest(m.entries);
                lemma_one_more_hop(
                    m.walk.visited,
                    start.expanded_ids(bounds, hops),
                    m.next().id,
                );
            }
            let current = queue.closest_notvisited().unwrap();
            walk.count_hop();
            if walk.is_beyond(current) {
                walk.converge();
                done = true;
            } else {
                let ghost t = NativeModel {
                    walk: walk@,
                    entries: crate::queue::queue_entries(queue),
                };
                assert(t == m.taken());
                let horizon = walk.horizon();
                let all = walk.result_count() < ef;
                let (read, pending, attr_buffer, Ghost(neighbors), Ghost(reads), Ghost(listed)) =
                    walk.fetch(at, graph, current.id, with_attrs);
                proof {
                    walk.lemma_wf();
                    let cs = crate::filter::candidates_of(pending@);
                    let ids = crate::filter::ids_of(cs);
                    crate::walk::lemma_found_are_new(t.walk, neighbors, reads);
                    assert forall|i: int| 0 <= i < t.entries.len() implies !ids.contains(
                        (#[trigger] t.entries[i]).0.id,
                    ) && t.entries[i].0 == m.entries[i].0 by {
                        assert(m.walk.visited.contains(m.entries[i].0.id));
                    }
                    assert(crate::queue::entries_once(t.entries));
                    assert(crate::queue::sorted(t.entries));
                }
                enqueue(&mut queue, &pending, horizon, all);
                walk.note_queue(queue.size());
                let (after, Ghost(verdicts), Ghost(hosts)) = walk.check(
                    read,
                    context_id,
                    &pending,
                    &attr_buffer,
                    callbacks,
                    batch_size,
                );
                at = after;
                proof {
                    let hop = Hop {
                        neighbors,
                        reads,
                        pending: pending@,
                        buffer: attr_buffer@,
                        verdicts,
                        listed,
                        hosts,
                    };
                    let longer = hops.push(hop);
                    assert(longer.drop_last() =~= hops);
                    assert(longer.last() == hop);
                    assert(m.expanded(bounds, hop) =~= NativeModel {
                        walk: walk@,
                        entries: crate::queue::queue_entries(queue),
                    });
                    hops = longer;
                }
            }
        }
    }
    let (after, report) = walk.conclude(k, sink, output);
    let r = (at, after, report);
    proof {
        assert(search_path(
            *graph,
            *callbacks,
            context_id,
            batch_size,
            bounds,
            passes,
            hops,
            start.after(bounds, hops).ended(bounds),
            given,
            first,
            r.0,
        ));
    }
    r
}

/// The results kept are the nearest of all candidates that passed the filter:
/// none of them is lost because the list is bounded or checks are skipped.
pub proof fn lemma_search_keeps_nearest<C>(
    bounds: NativeBounds,
    words: nat,
    start: Candidate,
    passes: bool,
    hops: Seq<Hop<C>>,
)
    requires
        bounds.cap > 0,
    ensures
        crate::filter::nearest_of(
            NativeModel::start(words, bounds.cap, start, passes).after(
                bounds,
                hops,
            ).walk.tally.results,
            crate::walk::all_passed(start, passes, hops),
            bounds.cap,
        ),
    decreases hops.len(),
{
    if hops.len() == 0 {
        crate::walk::lemma_start_keeps_nearest::<C>(words, bounds.cap, start, passes);
        assert(hops =~= Seq::empty());
    } else {
        lemma_search_keeps_nearest(bounds, words, start, passes, hops.drop_last());
        let p = NativeModel::start(words, bounds.cap, start, passes).after(
            bounds,
            hops.drop_last(),
        );
        let hop = hops.last();
        crate::filter::lemma_checks_keep_nearest(
            p.walk.tally,
            crate::walk::all_passed(start, passes, hops.drop_last()),
            bounds.cap,
            hop.found(),
            hop.verdicts,
            hop.found().len() as int,
        );
    }
}

/// The `k` nearest of the results that a search ends with are the `k` nearest of
/// all candidates that passed the filter, unless fewer than `k` are kept.
pub proof fn lemma_results_are_nearest<C>(
    bounds: NativeBounds,
    words: nat,
    start: Candidate,
    passes: bool,
    hops: Seq<Hop<C>>,
    nearest: Seq<Candidate>,
    k: nat,
)
    requires
        bounds.cap > 0,
        k <= bounds.cap,
        crate::filter::nearest_of(
            nearest.to_multiset(),
            NativeModel::start(words, bounds.cap, start, passes).after(bounds, hops).ended(
                bounds,
            ).walk.tally.results,
            k,
        ),
    ensures
        crate::filter::nearest_of(
            nearest.to_multiset(),
            crate::walk::all_passed(start, passes, hops),
            k,
        ),
{
    lemma_search_keeps_nearest(bounds, words, start, passes, hops);
    crate::filter::lemma_nearest_of_nearest(
        nearest.to_multiset(),
        NativeModel::start(words, bounds.cap, start, passes).after(
            bounds,
            hops,
        ).walk.tally.results,
        crate::walk::all_passed(start, passes, hops),
        k,
        bounds.cap,
    );
}

/// When a search converges, the list of results is full, and every candidate
/// that waited is farther than every result.
pub proof fn lemma_converged_is_final(m: NativeModel, bounds: NativeBounds)
    requires
        m.ends(bounds),
        crate::queue::sorted(m.entries),
        !m.walk.converged,
        m.ended(bounds).walk.converged,
    ensures
        m.ended(bounds).walk.tally.results.len() >= bounds.cap,
        forall|c: Candidate, i: int| #[trigger]
            m.ended(bounds).walk.tally.results.count(c) > 0 && 0 <= i < m.entries.len()
                && !(#[trigger] m.entries[i]).1 ==> c.place() < m.entries[i].0.place(),
{
    broadcast use vstd::multiset::group_multiset_axioms;

    let results = m.walk.tally.results;
    crate::queue::lemma_next_is_nearest(m.entries);
    assert forall|c: Candidate, i: int| #[trigger]
        results.count(c) > 0 && 0 <= i < m.entries.len() && !(#[trigger] m.entries[i]).1 implies c.place()
        < m.entries[i].0.place() by {
        let worst = crate::heap::greatest(results);
        assert(results.len() > 0);
        crate::heap::lemma_greatest_exists(results);
        crate::ordered_f32::lemma_key_orders(worst.distance, m.entries[i].0.distance);
    }
}

/// Only vectors that the filter accepts are results: each one is the start, if
/// the single callback passed it, or one on which the callbacks said yes.
pub proof fn lemma_results_are_accepted<
    C,
    N: Fn(C, u32) -> (C, Vec<u32>),
    R: Fn(C, &Vec<u32>) -> (C, Vec<VectorRead>),
    F: Fn(C, u64, u32) -> (C, u8),
    B: Fn(C, u64, &Vec<u32>) -> (C, Vec<u8>),
    G: Fn(C, u64, u32, &[u8]) -> (C, u8),
    H: Fn(C, u64, &Vec<u32>, &Vec<&[u8]>) -> (C, Vec<u8>),
>(
    graph: GraphAccess<N, R>,
    callbacks: FilterCallbacks<F, B, G, H>,
    context_id: u64,
    batch_size: usize,
    bounds: NativeBounds,
    words: nat,
    start: Candidate,
    passes: bool,
    host: C,
    hops: Seq<Hop<C>>,
)
    requires
        bounds.cap > 0,
        hops_follow(
            graph,
            callbacks,
            context_id,
            batch_size,
            bounds,
            NativeModel::start(words, bounds.cap, start, passes),
            host,
            hops,
        ),
    ensures
        forall|c: Candidate| #[trigger]
            NativeModel::start(words, bounds.cap, start, passes).after(
                bounds,
                hops,
            ).walk.tally.results.count(c) > 0 ==> (c == start && passes) || callbacks.accepts::<C>(
                context_id,
                batch_size,
                c.id,
            ),
    decreases hops.len(),
{
    broadcast use vstd::multiset::group_multiset_axioms;

    if hops.len() == 0 {
        assert(!crate::filter::skips(vstd::multiset::Multiset::empty(), bounds.cap, start));
    } else {
        let shorter = hops.drop_last();
        let hop = hops.last();
        lemma_results_are_accepted(
            graph,
            callbacks,
            context_id,
            batch_size,
            bounds,
            words,
            start,
            passes,
            host,
            shorter,
        );
        let t = NativeModel::start(words, bounds.cap, start, passes).after(bounds, shorter).taken();
        callbacks.lemma_only_accepted_come_in(
            context_id,
            batch_size,
            t.walk.tally,
            bounds.cap,
            hop.pending,
            hop.buffer,
            hop.verdicts,
            hop.hosts,
        );
    }
}

/// A search without effort expands nothing: no neighbors are listed, nothing is
/// read, and the filter is asked once, about the start.
pub proof fn lemma_no_effort_asks_once<
    C,
    N: Fn(C, u32) -> (C, Vec<u32>),
    R: Fn(C, &Vec<u32>) -> (C, Vec<VectorRead>),
    F: Fn(C, u64, u32) -> (C, u8),
    B: Fn(C, u64, &Vec<u32>) -> (C, Vec<u8>),
    G: Fn(C, u64, u32, &[u8]) -> (C, u8),
    H: Fn(C, u64, &Vec<u32>, &Vec<&[u8]>) -> (C, Vec<u8>),
>(
    graph: GraphAccess<N, R>,
    callbacks: FilterCallbacks<F, B, G, H>,
    context_id: u64,
    batch_size: usize,
    bounds: NativeBounds,
    passes: bool,
    hops: Seq<Hop<C>>,
    end: NativeModel,
    before: C,
    first: C,
    last: C,
)
    requires
        bounds.max_candidates == 0,
        search_path(
            graph,
            callbacks,
            context_id,
            batch_size,
            bounds,
            passes,
            hops,
            end,
            before,
            first,
            last,
        ),
    ensures
        hops.len() == 0,
        crate::filter::asks(callbacks.filter, context_id, START_ID, passes, before, last),
    decreases hops.len(),
{
    if hops.len() > 0 {
        let start = NativeModel::start(
            crate::walk::words_for(graph.max_id),
            bounds.cap,
            crate::walk::start_candidate(graph.start_distance),
            passes,
        );
        lemma_hops_are_counted(start, bounds, hops.drop_last());
    }
}

/// Each expansion counts once.
proof fn lemma_hops_are_counted<C>(start: NativeModel, bounds: NativeBounds, hops: Seq<Hop<C>>)
    ensures
        start.after(bounds, hops).walk.hops == start.walk.hops + hops.len(),
    decreases hops.len(),
{
    if hops.len() > 0 {
        lemma_hops_are_counted(start, bounds, hops.drop_last());
    }
}

/// If the filter says of each id what `accept` says, the results kept are the
/// nearest of all vectors that the search met and `accept` says yes on.
pub proof fn lemma_results_are_nearest_accepted<
    C,
    N: Fn(C, u32) -> (C, Vec<u32>),
    R: Fn(C, &Vec<u32>) -> (C, Vec<VectorRead>),
    F: Fn(C, u64, u32) -> (C, u8),
    B: Fn(C, u64, &Vec<u32>) -> (C, Vec<u8>),
    G: Fn(C, u64, u32, &[u8]) -> (C, u8),
    H: Fn(C, u64, &Vec<u32>, &Vec<&[u8]>) -> (C, Vec<u8>),
>(
    graph: GraphAccess<N, R>,
    callbacks: FilterCallbacks<F, B, G, H>,
    context_id: u64,
    batch_size: usize,
    bounds: NativeBounds,
    words: nat,
    start: Candidate,
    host: C,
    hops: Seq<Hop<C>>,
    accept: spec_fn(u32) -> bool,
)
    requires
        bounds.cap > 0,
        callbacks.follows::<C>(context_id, batch_size, accept),
        hops_follow(
            graph,
            callbacks,
            context_id,
            batch_size,
            bounds,
            NativeModel::start(words, bounds.cap, start, accept(start.id)),
            host,
            hops,
        ),
    ensures
        crate::filter::nearest_of(
            NativeModel::start(words, bounds.cap, start, accept(start.id)).after(
                bounds,
                hops,
            ).walk.tally.results,
            crate::walk::all_accepted(start, accept, hops),
            bounds.cap,
        ),
    decreases hops.len(),
{
    let passes = accept(start.id);
    if hops.len() == 0 {
        crate::walk::lemma_start_keeps_nearest::<C>(words, bounds.cap, start, passes);
        assert(hops =~= Seq::empty());
    } else {
        let shorter = hops.drop_last();
        let hop = hops.last();
        lemma_results_are_nearest_accepted(
            graph,
            callbacks,
            context_id,
            batch_size,
            bounds,
            words,
            start,
            host,
            shorter,
            accept,
        );
        let t = NativeModel::start(words, bounds.cap, start, passes).after(bounds, shorter).taken();
        callbacks.lemma_checks_follow(
            context_id,
            batch_size,
            t.walk.tally,
            bounds.cap,
            hop.pending,
            hop.buffer,
            hop.verdicts,
            hop.hosts,
            accept,
        );
        crate::filter::lemma_checks_keep_nearest(
            t.walk.tally,
            crate::walk::all_accepted(start, accept, shorter),
            bounds.cap,
            hop.found(),
            crate::filter::verdicts_by(accept, hop.found()),
            hop.found().len() as int,
        );
    }
}

/// If the filter says of each id what `accept` says, the `k` results that a
/// search hands over are the `k` nearest of all vectors that it met and `accept`
/// says yes on.
pub proof fn lemma_search_finds_nearest_accepted<
    C,
    N: Fn(C, u32) -> (C, Vec<u32>),
    R: Fn(C, &Vec<u32>) -> (C, Vec<VectorRead>),
    F: Fn(C, u64, u32) -> (C, u8),
    B: Fn(C, u64, &Vec<u32>) -> (C, Vec<u8>),
    G: Fn(C, u64, u32, &[u8]) -> (C, u8),
    H: Fn(C, u64, &Vec<u32>, &Vec<&[u8]>) -> (C, Vec<u8>),
>(
    graph: GraphAccess<N, R>,
    callbacks: FilterCallbacks<F, B, G, H>,
    context_id: u64,
    batch_size: usize,
    bounds: NativeBounds,
    passes: bool,
    hops: Seq<Hop<C>>,
    end: NativeModel,
    before: C,
    first: C,
    last: C,
    accept: spec_fn(u32) -> bool,
    nearest: Seq<Candidate>,
    k: nat,
)
    requires
        k <= bounds.cap,
        bounds.cap > 0,
        search_path(
            graph,
            callbacks,
            context_id,
            batch_size,
            bounds,
            passes,
            hops,
            end,
            before,
            first,
            last,
        ),
        callbacks.follows::<C>(context_id, batch_size, accept),
        forall|verdict: bool, h0: C, h1: C| #[trigger]
            crate::filter::asks(callbacks.filter, context_id, START_ID, verdict, h0, h1)
                ==> verdict == accept(START_ID),
        crate::filter::nearest_of(nearest.to_multiset(), end.walk.tally.results, k),
    ensures
        crate::filter::nearest_of(
            nearest.to_multiset(),
            crate::walk::all_accepted(
                crate::walk::start_candidate(graph.start_distance),
                accept,
                hops,
            ),
            k,
        ),
{
    let start = crate::walk::start_candidate(graph.start_distance);
    let words = crate::walk::words_for(graph.max_id);
    assert(passes == accept(start.id));
    lemma_results_are_nearest_accepted(
        graph,
        callbacks,
        context_id,
        batch_size,
        bounds,
        words,
        start,
        first,
        hops,
        accept,
    );
    crate::filter::lemma_nearest_of_nearest(
        nearest.to_multiset(),
        end.walk.tally.results,
        crate::walk::all_accepted(start, accept, hops),
        k,
        bounds.cap,
    );
}

} // verus!
