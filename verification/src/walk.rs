//! What the two-queue searches share: which vectors they have visited, the list
//! of candidates that passed the filter, and their counts.

use vstd::prelude::*;
use vstd::multiset::Multiset;
use crate::bitvec::bitvec_test_and_set;
use crate::candidate::Candidate;
use crate::filter::{
    FilterCallbacks,
    FilteredResults,
    PendingCandidate,
    Tally,
    filter_candidates_batch,
    filter_candidates_batch_with_attrs,
    without_attrs,
};
use crate::ordered_f32::OrderedF32;
use crate::record::append_attributes;

verus! {

/// The id of the vector at which every search starts.
pub const START_ID: u32 = 0;

/// The length in bytes of an internal id, which precedes each id of a read.
pub const ID_LENGTH: u32 = 4;

/// A stored vector as a read returned it.
#[derive(Debug)]
pub struct VectorRead {
    /// Which id of the read this is the vector of.
    pub index: u32,
    /// Its distance from the query.
    pub distance: OrderedF32,
    /// The bytes of the record behind the vector.
    pub extra: Vec<u8>,
}

/// Access to the graph and to the stored vectors, as they are to one query.
pub struct GraphAccess<N, R> {
    /// The largest id in use.
    pub max_id: u32,
    /// The size in bytes of an element of a stored vector.
    pub elem_size: usize,
    /// The distance of the start, if it could be read.
    pub start_distance: Option<OrderedF32>,
    /// The neighbors of a vector.
    pub neighbors: N,
    /// Reads the vectors of some ids, each preceded by its length.
    pub read: R,
}

/// Ids as a read takes them, each preceded by its length.
pub open spec fn length_prefixed(ids: Seq<u32>) -> Seq<u32> {
    Seq::new(
        2 * ids.len(),
        |j: int|
            if j % 2 == 0 {
                ID_LENGTH
            } else {
                ids[j / 2]
            },
    )
}

/// Each vector that was read belongs to one of the `n` ids, and no two to the
/// same.
pub open spec fn answers_once(reads: Seq<VectorRead>, n: int) -> bool {
    &&& forall|i: int| 0 <= i < reads.len() ==> (#[trigger] reads[i]).index < n
    &&& forall|i: int, j: int|
        0 <= i < j < reads.len() ==> (#[trigger] reads[i]).index != (#[trigger] reads[j]).index
}

impl<N, R> GraphAccess<N, R> {
    /// The neighbors of any vector can be asked for, and any ids can be read,
    /// whatever the host has come to; a read returns at most one vector for
    /// each of its ids. There are few enough ids for a `u32` to count them.
    pub open spec fn usable<C>(&self) -> bool
        where
            N: Fn(C, u32) -> (C, Vec<u32>),
            R: Fn(C, &Vec<u32>) -> (C, Vec<VectorRead>),
    {
        &&& self.max_id <= u32::MAX - 64
        &&& self.elem_size > 0
        &&& forall|host: C, id: u32| #[trigger] call_requires(self.neighbors, (host, id))
        &&& forall|host: C, b: Vec<u32>| #[trigger] call_requires(self.read, (host, &b))
        &&& forall|host: C, b: Vec<u32>, after: C, r: Vec<VectorRead>| #[trigger]
            call_ensures(self.read, (host, &b), (after, r)) ==> answers_once(
                r@,
                b@.len() as int / 2,
            )
    }

    /// The graph may list `ids` as the neighbors of `id`, and turn the host from
    /// `before` into `after`.
    pub open spec fn may_list<C>(&self, id: u32, ids: Seq<u32>, before: C, after: C) -> bool
        where
            N: Fn(C, u32) -> (C, Vec<u32>),
            R: Fn(C, &Vec<u32>) -> (C, Vec<VectorRead>),
    {
        exists|v: Vec<u32>| #[trigger]
            call_ensures(self.neighbors, (before, id), (after, v)) && v@ == ids
    }

    /// A read answers each of its ids at most once.
    pub proof fn lemma_reads<C>(
        &self,
        ids: Seq<u32>,
        reads: Seq<VectorRead>,
        before: C,
        after: C,
    )
        where
            N: Fn(C, u32) -> (C, Vec<u32>),
            R: Fn(C, &Vec<u32>) -> (C, Vec<VectorRead>),
        requires
            self.usable::<C>(),
            self.may_read(ids, reads, before, after),
        ensures
            answers_once(reads, ids.len() as int),
    {
    }

    /// A read of `ids` may return `reads`, and turn the host from `before` into
    /// `after`; nothing is read, and the host stays as it is, where there are no
    /// ids.
    pub open spec fn may_read<C>(
        &self,
        ids: Seq<u32>,
        reads: Seq<VectorRead>,
        before: C,
        after: C,
    ) -> bool
        where
            N: Fn(C, u32) -> (C, Vec<u32>),
            R: Fn(C, &Vec<u32>) -> (C, Vec<VectorRead>),
    {
        if ids.len() == 0 {
            reads.len() == 0 && after == before
        } else {
            exists|b: Vec<u32>, r: Vec<VectorRead>| #[trigger]
                call_ensures(self.read, (before, &b), (after, r)) && b@ == length_prefixed(ids)
                    && r@ == reads
        }
    }
}

/// How many words hold a bit for every id up to `max_id`.
pub open spec fn words_for(max_id: u32) -> nat {
    ((max_id + 64) / 64) as nat
}

/// Of the first `n` neighbors the ones that were not visited, each once, in the
/// order in which they are first listed. Ids without a bit count as visited.
pub open spec fn fresh_ids(
    visited: Set<u32>,
    words: nat,
    neighbors: Seq<u32>,
    n: int,
) -> Seq<u32>
    decreases n,
{
    if n <= 0 {
        Seq::empty()
    } else {
        let before = fresh_ids(visited, words, neighbors, n - 1);
        let id = neighbors[n - 1];
        if id as int / 64 < words && !visited.contains(id) && !before.contains(id) {
            before.push(id)
        } else {
            before
        }
    }
}

/// The candidates that a read brought.
pub open spec fn read_candidates(fresh: Seq<u32>, reads: Seq<VectorRead>) -> Seq<Candidate> {
    reads.map_values(
        |r: VectorRead| Candidate { id: fresh[r.index as int], distance: r.distance },
    )
}

/// The distance below which a candidate is worth expanding in any case: that of
/// the farthest result, or the largest finite number where there is none.
pub open spec fn horizon(results: Multiset<Candidate>) -> OrderedF32 {
    if results.len() == 0 {
        OrderedF32 { bits: crate::ordered_f32::MAX_FINITE_BITS }
    } else {
        crate::heap::greatest(results).distance
    }
}

/// The candidates of a read as they wait for their checks: in order, each with
/// its attributes if the filter takes any.
pub open spec fn awaits(
    pending: Seq<PendingCandidate>,
    buffer: Seq<u8>,
    fresh: Seq<u32>,
    reads: Seq<VectorRead>,
    with_attrs: bool,
    elem_size: usize,
) -> bool {
    &&& crate::filter::candidates_of(pending) == read_candidates(fresh, reads)
    &&& forall|i: int|
        0 <= i < pending.len() ==> {
            &&& (#[trigger] pending[i]).lies_in(buffer)
            &&& pending[i].attrs(buffer) == if with_attrs {
                crate::record::attributes(reads[i].extra@, elem_size as int)
            } else {
                Seq::empty()
            }
        }
}

/// The start vector, at the largest finite distance if its own is not known.
pub open spec fn start_candidate(distance: Option<OrderedF32>) -> Candidate {
    Candidate {
        id: START_ID,
        distance: match distance {
            Some(d) => d,
            None => OrderedF32 { bits: crate::ordered_f32::MAX_FINITE_BITS },
        },
    }
}

/// What came of the expansion of one vector.
pub struct Hop<C> {
    /// Its neighbors in the graph.
    pub neighbors: Seq<u32>,
    /// What a read of the neighbors that were not visited returned.
    pub reads: Seq<VectorRead>,
    /// The candidates as they waited for their checks.
    pub pending: Seq<PendingCandidate>,
    /// Their attributes.
    pub buffer: Seq<u8>,
    /// The outcomes of the checks.
    pub verdicts: Seq<bool>,
    /// The host after the neighbors were listed.
    pub listed: C,
    /// The hosts that the checks led through, from the one after the read to the
    /// one after the last check.
    pub hosts: Seq<C>,
}

impl<C> Hop<C> {
    /// The candidates that the expansion brought.
    pub open spec fn found(self) -> Seq<Candidate> {
        crate::filter::candidates_of(self.pending)
    }
}

/// The host after some expansions that began with `host`.
pub open spec fn host_after<C>(host: C, hops: Seq<Hop<C>>) -> C {
    if hops.len() == 0 {
        host
    } else {
        hops.last().hosts.last()
    }
}

/// What came of an expansion of `current` in the state `m` is what the graph and
/// the callbacks answered. The calls are these, and lead the host on from
/// `host`: one that lists the neighbors, one read if any were not visited, and
/// those of the checks.
pub open spec fn hop_follows<
    C,
    N: Fn(C, u32) -> (C, Vec<u32>),
    R: Fn(C, &Vec<u32>) -> (C, Vec<VectorRead>),
    F: Fn(C, u64, u32) -> (C, u8),
    B: Fn(C, u64, &Vec<u32>) -> (C, Vec<u8>),
    G: Fn(C, u64, u32, &[u8]) -> (C, u8),
    H: Fn(C, u64, &Vec<u32>, &Vec<&[u8]>) -> (C, Vec<u8>),
>(
    graph: GraphAccess<N, R>,
    callbacks: FilterCallbacks<F, B, G, H>,
    context_id: u64,
    batch_size: usize,
    cap: nat,
    m: WalkModel,
    host: C,
    current: u32,
    hop: Hop<C>,
) -> bool {
    &&& graph.may_list(current, hop.neighbors, host, hop.listed)
    &&& graph.may_read(m.fresh(hop.neighbors), hop.reads, hop.listed, hop.hosts[0])
    &&& awaits(
        hop.pending,
        hop.buffer,
        m.fresh(hop.neighbors),
        hop.reads,
        callbacks.takes_attrs(),
        graph.elem_size,
    )
    &&& callbacks.attr_checks(
        context_id,
        batch_size,
        m.tally,
        cap,
        hop.pending,
        hop.buffer,
        hop.verdicts,
        hop.hosts,
    )
}

/// The state that the searches share.
#[verifier::ext_equal]
pub struct WalkModel {
    /// How many words the bit vector of visited ids has.
    pub words: nat,
    pub visited: Set<u32>,
    pub tally: Tally,
    /// How many distances were computed.
    pub comparisons: int,
    /// How many vectors were taken up for expansion.
    pub hops: int,
    pub converged: bool,
    pub max_cand_size: int,
    pub max_result_q: int,
}

pub open spec fn max_of(a: int, b: int) -> int {
    if a >= b {
        a
    } else {
        b
    }
}

impl WalkModel {
    /// The start: one vector visited, its distance computed, its check made.
    pub open spec fn start(words: nat, cap: nat, start: Candidate, passes: bool) -> Self {
        WalkModel {
            words,
            visited: Set::empty().insert(start.id),
            tally: crate::filter::settle(
                Tally { results: Multiset::empty(), evals: 0, passed: 0 },
                cap,
                start,
                passes,
            ),
            comparisons: 1,
            hops: 0,
            converged: false,
            max_cand_size: 0,
            max_result_q: 0,
        }
    }

    /// The ids that neighbors add to the visited ones.
    pub open spec fn fresh(self, neighbors: Seq<u32>) -> Seq<u32> {
        fresh_ids(self.visited, self.words, neighbors, neighbors.len() as int)
    }

    /// The state after the neighbors of a vector were visited, read and checked.
    pub open spec fn expanded(
        self,
        cap: nat,
        neighbors: Seq<u32>,
        cs: Seq<Candidate>,
        verdicts: Seq<bool>,
    ) -> Self {
        let tally = crate::filter::settle_first(
            self.tally,
            cap,
            cs,
            verdicts,
            cs.len() as int,
        );
        WalkModel {
            visited: self.visited.union(self.fresh(neighbors).to_set()),
            tally,
            comparisons: self.comparisons + cs.len(),
            max_result_q: max_of(self.max_result_q, tally.results.len() as int),
            ..self
        }
    }
}

impl WalkModel {
    /// Results have been visited, no two have the same id, and there are no
    /// more than may be kept; no count exceeds the number of visited ids.
    pub open spec fn sound(self, cap: nat) -> bool {
        &&& self.visited.finite()
        &&& self.visited.contains(START_ID)
        &&& crate::filter::ids_once(self.tally.results)
        &&& forall|c: Candidate| #[trigger]
            self.tally.results.count(c) > 0 ==> self.visited.contains(c.id)
        &&& self.tally.results.len() <= cap
        &&& self.max_result_q <= cap
        &&& 0 <= self.tally.passed <= self.tally.evals <= self.comparisons <= self.visited.len()
    }
}

/// What a read of fresh ids brings has new ids, each once.
pub proof fn lemma_found_are_new(m: WalkModel, neighbors: Seq<u32>, reads: Seq<VectorRead>)
    requires
        answers_once(reads, m.fresh(neighbors).len() as int),
    ensures
        ({
            let ids = crate::filter::ids_of(read_candidates(m.fresh(neighbors), reads));
            &&& ids.no_duplicates()
            &&& forall|id: u32| #[trigger]
                ids.contains(id) ==> !m.visited.contains(id) && m.fresh(neighbors).contains(id)
        }),
{
    let fresh = m.fresh(neighbors);
    let cs = read_candidates(fresh, reads);
    let ids = crate::filter::ids_of(cs);
    lemma_fresh_ids(m.visited, m.words, neighbors, neighbors.len() as int);
    assert forall|i: int| 0 <= i < ids.len() implies #[trigger] ids[i]
        == fresh[reads[i].index as int] by {}
    assert forall|i: int, j: int| 0 <= i < ids.len() && 0 <= j < ids.len() && i
        != j implies ids[i] != ids[j] by {
        if i < j {
            assert(reads[i].index != reads[j].index);
        } else {
            assert(reads[j].index != reads[i].index);
        }
        assert(fresh[reads[i].index as int] != fresh[reads[j].index as int]);
    }
    assert forall|id: u32| #[trigger] ids.contains(id) implies !m.visited.contains(id)
        && fresh.contains(id) by {
        let i = choose|i: int| 0 <= i < ids.len() && ids[i] == id;
        assert(fresh.contains(fresh[reads[i].index as int]));
    }
}

/// All candidates that passed the filter in a search.
pub open spec fn all_passed<C>(start: Candidate, passes: bool, hops: Seq<Hop<C>>) -> Multiset<
    Candidate,
>
    decreases hops.len(),
{
    if hops.len() > 0 {
        crate::filter::with_passing(
            all_passed(start, passes, hops.drop_last()),
            hops.last().found(),
            hops.last().verdicts,
            hops.last().found().len() as int,
        )
    } else if passes {
        Multiset::empty().insert(start)
    } else {
        Multiset::empty()
    }
}

/// All candidates that a search met and that `accept` says yes on.
pub open spec fn all_accepted<C>(
    start: Candidate,
    accept: spec_fn(u32) -> bool,
    hops: Seq<Hop<C>>,
) -> Multiset<Candidate>
    decreases hops.len(),
{
    if hops.len() > 0 {
        crate::filter::with_passing(
            all_accepted(start, accept, hops.drop_last()),
            hops.last().found(),
            crate::filter::verdicts_by(accept, hops.last().found()),
            hops.last().found().len() as int,
        )
    } else if accept(start.id) {
        Multiset::empty().insert(start)
    } else {
        Multiset::empty()
    }
}

/// The start keeps what passed.
pub proof fn lemma_start_keeps_nearest<C>(words: nat, cap: nat, start: Candidate, passes: bool)
    requires
        cap > 0,
    ensures
        crate::filter::nearest_of(
            WalkModel::start(words, cap, start, passes).tally.results,
            all_passed(start, passes, Seq::<Hop<C>>::empty()),
            cap,
        ),
{
    broadcast use vstd::multiset::group_multiset_axioms;

    assert(!crate::filter::skips(Multiset::empty(), cap, start));
}

/// The start is sound.
pub proof fn lemma_start_is_sound(words: nat, cap: nat, distance: OrderedF32, passes: bool)
    requires
        cap > 0,
    ensures
        WalkModel::start(words, cap, Candidate { id: START_ID, distance }, passes).sound(cap),
{
    broadcast use vstd::multiset::group_multiset_axioms;

    let c = Candidate { id: START_ID, distance };
    assert(!crate::filter::skips(Multiset::empty(), cap, c));
    assert(Set::<u32>::empty().insert(START_ID).len() == 1);
}

/// An expansion keeps the state sound.
pub proof fn lemma_expansion_is_sound(
    m: WalkModel,
    cap: nat,
    neighbors: Seq<u32>,
    reads: Seq<VectorRead>,
    verdicts: Seq<bool>,
)
    requires
        m.sound(cap),
        answers_once(reads, m.fresh(neighbors).len() as int),
    ensures
        m.expanded(cap, neighbors, read_candidates(m.fresh(neighbors), reads), verdicts).sound(
            cap,
        ),
{
    let fresh = m.fresh(neighbors);
    let cs = read_candidates(fresh, reads);
    let n = cs.len() as int;
    let after = m.expanded(cap, neighbors, cs, verdicts);
    lemma_found_are_new(m, neighbors, reads);
    lemma_answers_once(reads, fresh.len() as int);
    lemma_fresh_ids(m.visited, m.words, neighbors, neighbors.len() as int);
    fresh.unique_seq_to_set();
    assert(m.visited.disjoint(fresh.to_set()));
    vstd::set_lib::lemma_set_disjoint_lens(m.visited, fresh.to_set());
    assert forall|c: Candidate| #[trigger]
        m.tally.results.count(c) > 0 implies !crate::filter::ids_of(cs).contains(c.id) by {
        if crate::filter::ids_of(cs).contains(c.id) {
            assert(!m.visited.contains(c.id));
        }
    }
    crate::filter::lemma_checks_keep_ids(m.tally, cap, cs, verdicts, n);
    crate::filter::lemma_checks_count(m.tally, cap, cs, verdicts, n);
    assert forall|c: Candidate| #[trigger]
        after.tally.results.count(c) > 0 implies after.visited.contains(c.id) by {
        if m.tally.results.count(c) == 0 {
            let i = choose|i: int| 0 <= i < n && #[trigger] cs[i] == c;
            assert(crate::filter::ids_of(cs)[i] == c.id);
            assert(crate::filter::ids_of(cs).contains(c.id));
            assert(fresh.to_set().contains(c.id));
        }
    }
}

/// The state that the searches share.
pub(crate) struct Walk {
    pub(crate) visited_bits: Vec<u64>,
    pub(crate) visited_count: usize,
    pub(crate) results: FilteredResults,
    pub(crate) comparisons: u32,
    pub(crate) hops: u32,
    pub(crate) converged: bool,
    pub(crate) max_cand_size: usize,
    pub(crate) max_result_q: usize,
}

/// The counts of a search that ended.
pub(crate) struct WalkCounts {
    pub(crate) visited: usize,
    pub(crate) comparisons: u32,
    pub(crate) hops: u32,
    pub(crate) filter_evals: u32,
    pub(crate) filter_passed: u32,
    pub(crate) converged: bool,
    pub(crate) max_cand_size: usize,
    pub(crate) max_result_q: usize,
}

impl View for Walk {
    type V = WalkModel;

    closed spec fn view(&self) -> WalkModel {
        WalkModel {
            words: self.visited_bits@.len(),
            visited: crate::bitvec::marked(self.visited_bits@),
            tally: self.results@,
            comparisons: self.comparisons as int,
            hops: self.hops as int,
            converged: self.converged,
            max_cand_size: self.max_cand_size as int,
            max_result_q: self.max_result_q as int,
        }
    }
}

proof fn lemma_push_to_set(s: Seq<u32>, x: u32)
    ensures
        s.push(x).to_set() == s.to_set().insert(x),
{
    let t = s.push(x);
    assert forall|y: u32| t.contains(y) <==> s.contains(y) || y == x by {
        if s.contains(y) {
            let i = choose|i: int| 0 <= i < s.len() && s[i] == y;
            assert(t[i] == y);
        }
        assert(t[s.len() as int] == x);
    }
    assert(t.to_set() =~= s.to_set().insert(x));
}

/// Fresh ids are distinct, have a bit, and were not visited.
pub proof fn lemma_fresh_ids(visited: Set<u32>, words: nat, neighbors: Seq<u32>, n: int)
    requires
        n <= neighbors.len(),
    ensures
        fresh_ids(visited, words, neighbors, n).no_duplicates(),
        forall|id: u32| #[trigger]
            fresh_ids(visited, words, neighbors, n).contains(id) ==> id as int / 64 < words
                && !visited.contains(id) && neighbors.contains(id),
    decreases n,
{
    if n > 0 {
        lemma_fresh_ids(visited, words, neighbors, n - 1);
        let before = fresh_ids(visited, words, neighbors, n - 1);
        let id = neighbors[n - 1];
        let after = fresh_ids(visited, words, neighbors, n);
        assert(neighbors.contains(id));
        assert forall|x: u32| #[trigger] after.contains(x) implies x as int / 64 < words
            && !visited.contains(x) && neighbors.contains(x) by {
            let i = choose|i: int| 0 <= i < after.len() && after[i] == x;
            if i < before.len() {
                assert(before[i] == x);
                assert(before.contains(x));
            }
        }
        assert forall|i: int, j: int| 0 <= i < after.len() && 0 <= j < after.len() && i
            != j implies after[i] != after[j] by {
            if i < before.len() && j < before.len() {
                assert(before[i] != before[j]);
            } else if i < before.len() {
                assert(before.contains(before[i]));
            } else if j < before.len() {
                assert(before.contains(before[j]));
            }
        }
    }
}

impl Walk {
    /// How many results the search keeps.
    pub closed spec fn limit(&self) -> nat {
        self.results.limit()
    }

    /// The count of visited ids is right, the start is one of them, and no
    /// count exceeds it.
    pub closed spec fn wf(&self) -> bool {
        &&& self.results.wf()
        &&& 0 < 64 * self.visited_bits@.len() <= u32::MAX
        &&& self.visited_count == crate::bitvec::marked(self.visited_bits@).len()
        &&& crate::bitvec::marked(self.visited_bits@).contains(START_ID)
        &&& self.results@.evals <= self.comparisons <= self.visited_count
    }

    /// The start of a search: the bit vector has a bit for every id up to
    /// `max_id`, and the start is visited.
    pub(crate) fn start(cap: usize, max_id: u32, start_distance: OrderedF32, passes: bool) -> (r:
        Self)
        requires
            cap > 0,
            max_id <= u32::MAX - 64,
        ensures
            r.wf(),
            r.limit() == cap,
            r@ == WalkModel::start(
                words_for(max_id),
                cap as nat,
                Candidate { id: START_ID, distance: start_distance },
                passes,
            ),
    {
        let words: usize = ((max_id + 64) / 64) as usize;
        let mut bits: Vec<u64> = vec![0u64; words];
        proof {
            crate::bitvec::lemma_zeros_mark_nothing(bits@);
        }
        proof {
            crate::bitvec::lemma_with_mark(bits@, START_ID);
        }
        let _ = bitvec_test_and_set(bits.as_mut_slice(), START_ID);
        let mut results = FilteredResults::new(cap);
        proof {
            broadcast use vstd::multiset::group_multiset_axioms;

            assert(!crate::filter::skips(
                results@.results,
                cap as nat,
                Candidate { id: START_ID, distance: start_distance },
            ));
        }
        results.count(Candidate { id: START_ID, distance: start_distance }, passes);
        let r = Walk {
            visited_bits: bits,
            visited_count: 1,
            results,
            comparisons: 1,
            hops: 0,
            converged: false,
            max_cand_size: 0,
            max_result_q: 0,
        };
        r
    }

    /// Visits the neighbors of a vector, and returns the ones that were not
    /// visited before as a read takes them.
    pub(crate) fn visit(&mut self, neighbors: &Vec<u32>) -> (batch_ids: Vec<u32>)
        requires
            old(self).wf(),
        ensures
            final(self).wf(),
            final(self).limit() == old(self).limit(),
            batch_ids@ == length_prefixed(old(self)@.fresh(neighbors@)),
            final(self)@ == (WalkModel {
                visited: old(self)@.visited.union(old(self)@.fresh(neighbors@).to_set()),
                ..old(self)@
            }),
            final(self)@.comparisons + old(self)@.fresh(neighbors@).len()
                <= final(self)@.visited.len() <= u32::MAX,
    {
        let ghost m = self@;
        let mut batch_ids: Vec<u32> = Vec::new();
        let mut i: usize = 0;
        let ghost mut fresh = Seq::<u32>::empty();
        proof {
            assert(fresh.to_set() =~= Set::empty());
            assert(m.visited.union(fresh.to_set()) =~= m.visited);
            assert(batch_ids@ =~= length_prefixed(fresh));
        }
        while i < neighbors.len()
            invariant
                i <= neighbors@.len(),
                fresh == fresh_ids(m.visited, m.words, neighbors@, i as int),
                batch_ids@ == length_prefixed(fresh),
                self.wf(),
                self.limit() == old(self).limit(),
                self@ == (WalkModel { visited: m.visited.union(fresh.to_set()), ..m }),
                self.visited_count == m.visited.len() + fresh.len(),
                m.comparisons <= m.visited.len(),
            decreases neighbors@.len() - i,
        {
            let nid = neighbors[i];
            let ghost before = self.visited_bits@;
            proof {
                crate::bitvec::lemma_marked_bound(before);
                crate::bitvec::lemma_with_mark(before, nid);
                assert(self@.visited.contains(nid) == crate::bitvec::bit_is_set(before, nid));
            }
            let was_set = bitvec_test_and_set(self.visited_bits.as_mut_slice(), nid);
            proof {
                crate::bitvec::lemma_marked_bound(self.visited_bits@);
                assert(fresh.contains(nid) <==> fresh.to_set().contains(nid));
            }
            if !was_set {
                self.visited_count = self.visited_count + 1;
                batch_ids.push(ID_LENGTH);
                batch_ids.push(nid);
                proof {
                    let ghost longer = fresh.push(nid);
                    lemma_push_to_set(fresh, nid);
                    assert(batch_ids@ =~= length_prefixed(longer));
                    fresh = longer;
                }
            }
            i = i + 1;
            assert(self@.visited =~= m.visited.union(fresh.to_set()));
        }
        proof {
            crate::bitvec::lemma_marked_bound(self.visited_bits@);
        }
        batch_ids
    }

    /// Takes up what a read returned: counts the distances, and lines the
    /// candidates up for their checks, with their attributes if the filter
    /// takes any.
    pub(crate) fn gather(
        &mut self,
        batch_ids: &Vec<u32>,
        reads: &Vec<VectorRead>,
        with_attrs: bool,
        elem_size: usize,
    ) -> (r: (Vec<PendingCandidate>, Vec<u8>))
        requires
            old(self).wf(),
            elem_size > 0,
            answers_once(reads@, batch_ids@.len() as int / 2),
            old(self)@.comparisons + reads@.len() <= old(self)@.visited.len() <= u32::MAX,
        ensures
            final(self).wf(),
            final(self).limit() == old(self).limit(),
            final(self)@ == (WalkModel {
                comparisons: old(self)@.comparisons + reads@.len(),
                ..old(self)@
            }),
            final(self)@.tally.evals + reads@.len() <= final(self)@.comparisons,
            awaits(r.0@, r.1@, read_ids(batch_ids@), reads@, with_attrs, elem_size),
    {
        let ghost m = self@;
        let ghost fresh = read_ids(batch_ids@);
        let mut pending: Vec<PendingCandidate> = Vec::new();
        let mut attr_buffer: Vec<u8> = Vec::new();
        let mut i: usize = 0;
        let half = batch_ids.len();
        while i < reads.len()
            invariant
                i <= reads@.len(),
                half == batch_ids@.len(),
                fresh == read_ids(batch_ids@),
                elem_size > 0,
                answers_once(reads@, half as int / 2),
                m.comparisons + reads@.len() <= m.visited.len() <= u32::MAX,
                self.wf(),
                self.limit() == old(self).limit(),
                self@ == (WalkModel { comparisons: m.comparisons + i, ..m }),
                pending@.len() == i,
                forall|j: int| #![trigger pending@[j]]
                    0 <= j < i ==> {
                        &&& pending@[j].candidate == read_candidates(fresh, reads@)[j]
                        &&& pending@[j].lies_in(attr_buffer@)
                        &&& pending@[j].attrs(attr_buffer@) == if with_attrs {
                            crate::record::attributes(reads@[j].extra@, elem_size as int)
                        } else {
                            Seq::empty()
                        }
                    },
            decreases reads@.len() - i,
        {
            let read = &reads[i];
            let nid = batch_ids[read.index as usize * 2 + 1];
            let candidate = Candidate { id: nid, distance: read.distance };
            assert(candidate == read_candidates(fresh, reads@)[i as int]);
            self.comparisons = self.comparisons + 1;
            let ghost shorter = attr_buffer@;
            let (attr_offset, attr_len) = if with_attrs {
                append_attributes(read.extra.as_slice(), elem_size, &mut attr_buffer)
            } else {
                (0, 0)
            };
            let p = PendingCandidate { candidate, attr_offset, attr_len };
            let ghost added = if with_attrs {
                crate::record::attributes(read.extra@, elem_size as int)
            } else {
                Seq::empty()
            };
            proof {
                assert(attr_buffer@ =~= shorter + added);
                assert(p.attrs(attr_buffer@) =~= added);
                assert forall|j: int| #![trigger pending@[j]] 0 <= j < i implies pending@[j].lies_in(
                    attr_buffer@,
                ) && pending@[j].attrs(attr_buffer@) == pending@[j].attrs(shorter) by {
                    assert(pending@[j].attrs(attr_buffer@) =~= pending@[j].attrs(shorter));
                }
            }
            pending.push(p);
            i = i + 1;
        }
        assert(crate::filter::candidates_of(pending@) =~= read_candidates(fresh, reads@));
        (pending, attr_buffer)
    }

    /// Asks for the neighbors of a vector, reads the ones that were not visited,
    /// and lines them up for their checks. The neighbors, the vectors read and
    /// the host after the first call come along as ghosts.
    pub(crate) fn fetch<
        C,
        N: Fn(C, u32) -> (C, Vec<u32>),
        R: Fn(C, &Vec<u32>) -> (C, Vec<VectorRead>),
    >(&mut self, host: C, graph: &GraphAccess<N, R>, current: u32, with_attrs: bool) -> (r: (
        C,
        Vec<PendingCandidate>,
        Vec<u8>,
        Ghost<Seq<u32>>,
        Ghost<Seq<VectorRead>>,
        Ghost<C>,
    ))
        requires
            old(self).wf(),
            graph.usable::<C>(),
        ensures
            final(self).wf(),
            final(self).limit() == old(self).limit(),
            graph.may_list(current, r.3@, host, r.5@),
            graph.may_read(old(self)@.fresh(r.3@), r.4@, r.5@, r.0),
            answers_once(r.4@, old(self)@.fresh(r.3@).len() as int),
            awaits(r.1@, r.2@, old(self)@.fresh(r.3@), r.4@, with_attrs, graph.elem_size),
            final(self)@ == (WalkModel {
                visited: old(self)@.visited.union(old(self)@.fresh(r.3@).to_set()),
                comparisons: old(self)@.comparisons + r.1@.len(),
                ..old(self)@
            }),
            final(self)@.tally.evals + r.1@.len() <= final(self)@.comparisons <= u32::MAX,
    {
        let ghost given = host;
        let (at, neighbors) = (graph.neighbors)(host, current);
        proof {
            assert(call_ensures(graph.neighbors, (given, current), (at, neighbors)));
        }
        let ghost listed = at;
        let batch_ids = self.visit(&neighbors);
        let ghost fresh = old(self)@.fresh(neighbors@);
        let (after, reads): (C, Vec<VectorRead>) = if batch_ids.len() == 0 {
            (at, Vec::new())
        } else {
            (graph.read)(at, &batch_ids)
        };
        proof {
            lemma_read_ids(fresh);
            if batch_ids@.len() > 0 {
                assert(call_ensures(graph.read, (listed, &batch_ids), (after, reads)));
            }
            assert(answers_once(reads@, fresh.len() as int));
            lemma_answers_once(reads@, fresh.len() as int);
            assert(graph.may_read(fresh, reads@, listed, after));
        }
        let (pending, attr_buffer) = self.gather(
            &batch_ids,
            &reads,
            with_attrs,
            graph.elem_size,
        );
        assert(pending@.len() == crate::filter::candidates_of(pending@).len());
        (after, pending, attr_buffer, Ghost(neighbors@), Ghost(reads@), Ghost(listed))
    }

    /// Makes the checks of the candidates that wait for them. The outcomes and
    /// the hosts come along as ghosts.
    pub(crate) fn check<
        C,
        F: Fn(C, u64, u32) -> (C, u8),
        B: Fn(C, u64, &Vec<u32>) -> (C, Vec<u8>),
        G: Fn(C, u64, u32, &[u8]) -> (C, u8),
        H: Fn(C, u64, &Vec<u32>, &Vec<&[u8]>) -> (C, Vec<u8>),
    >(
        &mut self,
        host: C,
        context_id: u64,
        pending: &Vec<PendingCandidate>,
        attr_buffer: &Vec<u8>,
        callbacks: &FilterCallbacks<F, B, G, H>,
        batch_size: usize,
    ) -> (r: (C, Ghost<Seq<bool>>, Ghost<Seq<C>>))
        requires
            old(self).wf(),
            callbacks.usable::<C>(context_id, batch_size),
            old(self)@.tally.evals + pending@.len() <= old(self)@.comparisons,
            old(self)@.comparisons <= u32::MAX,
            forall|i: int|
                0 <= i < pending@.len() ==> (#[trigger] pending@[i]).lies_in(attr_buffer@),
        ensures
            final(self).wf(),
            final(self).limit() == old(self).limit(),
            ({
                let tally = crate::filter::settle_first(
                    old(self)@.tally,
                    old(self).limit(),
                    crate::filter::candidates_of(pending@),
                    r.1@,
                    pending@.len() as int,
                );
                final(self)@ == (WalkModel {
                    tally,
                    max_result_q: max_of(old(self)@.max_result_q, tally.results.len() as int),
                    ..old(self)@
                })
            }),
            callbacks.attr_checks(
                context_id,
                batch_size,
                old(self)@.tally,
                old(self).limit(),
                pending@,
                attr_buffer@,
                r.1@,
                r.2@,
            ),
            r.2@[0] == host,
            r.2@.last() == r.0,
    {
        let ghost m = self@;
        let ghost cap = self.limit();
        let ghost given = host;
        let after = if callbacks.has_attr_callbacks() {
            filter_candidates_batch_with_attrs(
                host,
                context_id,
                pending,
                attr_buffer,
                callbacks,
                batch_size,
                &mut self.results,
            )
        } else {
            let plain = without_attrs(pending);
            let r = filter_candidates_batch(
                host,
                context_id,
                &plain,
                &callbacks.filter,
                &callbacks.batch_filter,
                batch_size,
                &mut self.results,
            );
            proof {
                let (verdicts, hosts) = choose|verdicts: Seq<bool>, hosts: Seq<C>|
                    {
                        &&& #[trigger] crate::filter::plain_checks(
                            callbacks.filter,
                            callbacks.batch_filter,
                            context_id,
                            batch_size,
                            m.tally,
                            cap,
                            plain@,
                            verdicts,
                            hosts,
                        )
                        &&& self.results@ == crate::filter::settle_first(
                            m.tally,
                            cap,
                            plain@,
                            verdicts,
                            plain@.len() as int,
                        )
                        &&& hosts[0] == given
                        &&& hosts[plain@.len() as int] == r
                    };
                callbacks.lemma_falls_back(
                    context_id,
                    batch_size,
                    m.tally,
                    cap,
                    pending@,
                    attr_buffer@,
                    verdicts,
                    hosts,
                );
            }
            r
        };
        let ghost cs = crate::filter::candidates_of(pending@);
        let ghost (verdicts, hosts) = choose|verdicts: Seq<bool>, hosts: Seq<C>|
            {
                &&& #[trigger] callbacks.attr_checks(
                    context_id,
                    batch_size,
                    m.tally,
                    cap,
                    pending@,
                    attr_buffer@,
                    verdicts,
                    hosts,
                )
                &&& self.results@ == crate::filter::settle_first(
                    m.tally,
                    cap,
                    cs,
                    verdicts,
                    pending@.len() as int,
                )
                &&& hosts[0] == given
                &&& hosts[pending@.len() as int] == after
            };
        proof {
            crate::filter::lemma_checks_count(
                m.tally,
                cap,
                cs,
                verdicts,
                pending@.len() as int,
            );
        }
        let n = self.results.len();
        if n > self.max_result_q {
            self.max_result_q = n;
        }
        (after, Ghost(verdicts), Ghost(hosts))
    }

    /// How many results are kept.
    pub(crate) fn result_count(&self) -> (n: usize)
        ensures
            n == self@.tally.results.len(),
    {
        self.results.len()
    }

    /// How many vectors were taken up for expansion.
    pub(crate) fn hops(&self) -> (n: u32)
        ensures
            n == self@.hops,
    {
        self.hops
    }

    /// Counts a vector that is taken up for expansion.
    pub(crate) fn count_hop(&mut self)
        requires
            old(self).wf(),
            old(self)@.hops < u32::MAX,
        ensures
            final(self).wf(),
            final(self).limit() == old(self).limit(),
            final(self)@ == (WalkModel { hops: old(self)@.hops + 1, ..old(self)@ }),
    {
        self.hops = self.hops + 1;
    }

    /// Takes note of how long the queue of candidates is.
    pub(crate) fn note_queue(&mut self, len: usize)
        requires
            old(self).wf(),
        ensures
            final(self).wf(),
            final(self).limit() == old(self).limit(),
            final(self)@ == (WalkModel {
                max_cand_size: max_of(old(self)@.max_cand_size, len as int),
                ..old(self)@
            }),
    {
        if len > self.max_cand_size {
            self.max_cand_size = len;
        }
    }

    /// Takes note that the search has converged.
    pub(crate) fn converge(&mut self)
        requires
            old(self).wf(),
        ensures
            final(self).wf(),
            final(self).limit() == old(self).limit(),
            final(self)@ == (WalkModel { converged: true, ..old(self)@ }),
    {
        self.converged = true;
    }

    /// Takes the results and the counts apart.
    pub(crate) fn into_parts(self) -> (r: (FilteredResults, WalkCounts))
        requires
            self.wf(),
        ensures
            r.0.wf(),
            r.0@ == self@.tally,
            r.1.visited == self@.visited.len(),
            r.1.comparisons == self@.comparisons,
            r.1.hops == self@.hops,
            r.1.filter_evals == self@.tally.evals,
            r.1.filter_passed == self@.tally.passed,
            r.1.converged == self@.converged,
            r.1.max_cand_size == self@.max_cand_size,
            r.1.max_result_q == self@.max_result_q,
    {
        let counts = WalkCounts {
            visited: self.visited_count,
            comparisons: self.comparisons,
            hops: self.hops,
            filter_evals: self.results.filter_evals(),
            filter_passed: self.results.filter_passed(),
            converged: self.converged,
            max_cand_size: self.max_cand_size,
            max_result_q: self.max_result_q,
        };
        (self.results, counts)
    }

    /// What `wf` says of the view.
    pub(crate) proof fn lemma_wf(&self)
        requires
            self.wf(),
        ensures
            self@.tally.results.len() <= self.limit(),
            0 <= self@.tally.passed <= self@.tally.evals <= self@.comparisons
                <= self@.visited.len() <= u32::MAX,
            self@.visited.len() <= 64 * self@.words,
            self@.visited.contains(START_ID),
            0 <= self@.hops <= u32::MAX,
    {
        self.results.lemma_wf();
        crate::bitvec::lemma_marked_bound(self.visited_bits@);
    }

    /// The distance below which a candidate is worth expanding in any case.
    pub(crate) fn horizon(&self) -> (d: OrderedF32)
        requires
            self.wf(),
        ensures
            d == horizon(self@.tally.results),
    {
        match self.results.worst() {
            Some(d) => d,
            None => OrderedF32::max_finite(),
        }
    }

    /// Whether a candidate ends the search: the list of results is full and the
    /// candidate is farther than the farthest of them.
    pub(crate) fn is_beyond(&self, c: Candidate) -> (r: bool)
        requires
            self.wf(),
        ensures
            r == crate::filter::skips(self@.tally.results, self.limit(), c),
    {
        self.results.is_too_far(c)
    }
}

/// The ids of a read, without their lengths.
pub open spec fn read_ids(batch_ids: Seq<u32>) -> Seq<u32> {
    Seq::new((batch_ids.len() as int / 2) as nat, |i: int| batch_ids[2 * i + 1])
}

/// Lengths can be put before ids and taken away again.
pub proof fn lemma_read_ids(ids: Seq<u32>)
    ensures
        read_ids(length_prefixed(ids)) == ids,
{
    assert(read_ids(length_prefixed(ids)) =~= ids);
}

/// A read that answers each id at most once returns no more vectors than it has
/// ids.
pub proof fn lemma_answers_once(reads: Seq<VectorRead>, n: int)
    requires
        answers_once(reads, n),
        n >= 0,
    ensures
        reads.len() <= n,
{
    let indices = reads.map_values(|r: VectorRead| r.index as int);
    assert(indices.no_duplicates()) by {
        assert forall|i: int, j: int|
            0 <= i < indices.len() && 0 <= j < indices.len() && i != j implies indices[i]
            != indices[j] by {
            if i < j {
                assert(reads[i].index != reads[j].index);
            } else {
                assert(reads[j].index != reads[i].index);
            }
        }
    }
    indices.unique_seq_to_set();
    vstd::set_lib::lemma_int_range(0, n);
    assert forall|x: int| indices.to_set().contains(x) implies vstd::set_lib::set_int_range(
        0,
        n,
    ).contains(x) by {
        let i = choose|i: int| 0 <= i < indices.len() && indices[i] == x;
        assert(reads[i].index < n);
    }
    vstd::set_lib::lemma_len_subset(indices.to_set(), vstd::set_lib::set_int_range(0, n));
}

} // verus!
