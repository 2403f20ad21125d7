//! What the expansion of a vector is for: its neighbors are listed, the new ones
//! are read, and each is checked with the attributes that are its own.

use vstd::prelude::*;
use vstd::multiset::Multiset;
use crate::candidate::Candidate;
use crate::filter::FilterCallbacks;
use crate::laws::checks::Checks;
use crate::ordered_f32::OrderedF32;
use crate::walk::{GraphAccess, Hop, VectorRead, WalkModel};

verus! {

/// There is a place for the id among the visited ones. Every id in use has one.
pub open spec fn has_place(id: u32, max_id: u32) -> bool {
    id < 64 * ((max_id + 64) / 64)
}

/// `at` tells where each new id is listed first.
pub open spec fn listed_at(neighbors: Seq<u32>, fresh: Seq<u32>, at: Seq<int>) -> bool {
    &&& at.len() == fresh.len()
    &&& forall|i: int|
        0 <= i < fresh.len() ==> {
            &&& 0 <= #[trigger] at[i] < neighbors.len()
            &&& neighbors[at[i]] == fresh[i]
            &&& forall|j: int| 0 <= j < at[i] ==> #[trigger] neighbors[j] != fresh[i]
        }
    &&& forall|i: int, j: int| 0 <= i < j < fresh.len() ==> #[trigger] at[i] < #[trigger] at[j]
}

/// `fresh` are the neighbors that were not seen before, each once, in the order in
/// which they are listed; ids without a place count as seen.
pub open spec fn are_new(
    fresh: Seq<u32>,
    neighbors: Seq<u32>,
    seen: Set<u32>,
    max_id: u32,
) -> bool {
    &&& exists|at: Seq<int>| #[trigger] listed_at(neighbors, fresh, at)
    &&& forall|id: u32| #[trigger]
        fresh.contains(id) <==> neighbors.contains(id) && !seen.contains(id) && has_place(
            id,
            max_id,
        )
}

/// One call lists the neighbors of a vector.
pub open spec fn lists_neighbors<C, N: Fn(C, u32) -> (C, Vec<u32>)>(
    neighbors: N,
    id: u32,
    ids: Seq<u32>,
    before: C,
    after: C,
) -> bool {
    exists|v: Vec<u32>| #[trigger] call_ensures(neighbors, (before, id), (after, v)) && v@ == ids
}

/// One call reads the new ids, each preceded by the length of an id in bytes; no
/// call is made where there are none.
pub open spec fn reads_new<C, R: Fn(C, &Vec<u32>) -> (C, Vec<VectorRead>)>(
    read: R,
    fresh: Seq<u32>,
    reads: Seq<VectorRead>,
    before: C,
    after: C,
) -> bool {
    if fresh.len() == 0 {
        reads.len() == 0 && after == before
    } else {
        exists|b: Vec<u32>, r: Vec<VectorRead>|
            {
                &&& #[trigger] call_ensures(read, (before, &b), (after, r))
                &&& r@ == reads
                &&& b@.len() == 2 * fresh.len()
                &&& forall|i: int|
                    0 <= i < fresh.len() ==> b@[2 * i] == 4 && b@[2 * i + 1] == #[trigger] fresh[i]
            }
    }
}

/// Each vector read is a candidate with the id and the distance that are its own.
pub open spec fn brings(
    fresh: Seq<u32>,
    reads: Seq<VectorRead>,
    found: Seq<Candidate>,
) -> bool {
    &&& found.len() == reads.len()
    &&& forall|i: int|
        0 <= i < found.len() ==> {
            &&& (#[trigger] found[i]).id == fresh[reads[i].index as int]
            &&& found[i].distance == reads[i].distance
        }
}

/// The number that the first four bytes of an element hold, lowest first; bytes
/// that the element does not have count as zero.
pub open spec fn length_in(extra: Seq<u8>, elem_size: int) -> int {
    extra[0] + (if elem_size > 1 {
        256 * extra[1]
    } else {
        0
    }) + (if elem_size > 2 {
        65536 * extra[2]
    } else {
        0
    }) + (if elem_size > 3 {
        16777216 * extra[3]
    } else {
        0
    })
}

/// The attributes behind a vector: past one element, as many bytes as that
/// element says, or as there are.
pub open spec fn behind(extra: Seq<u8>, elem_size: int) -> Seq<u8> {
    if extra.len() <= elem_size {
        Seq::empty()
    } else {
        let n = length_in(extra, elem_size);
        extra.subrange(
            elem_size,
            if elem_size + n < extra.len() {
                elem_size + n
            } else {
                extra.len() as int
            },
        )
    }
}

/// Each candidate carries the attributes behind its vector, if the filter takes
/// any.
pub open spec fn carries(
    reads: Seq<VectorRead>,
    attrs: Seq<Seq<u8>>,
    elem_size: int,
    takes_attrs: bool,
) -> bool {
    &&& attrs.len() == reads.len()
    &&& takes_attrs ==> forall|i: int|
        0 <= i < attrs.len() ==> #[trigger] attrs[i] == behind(reads[i].extra@, elem_size)
}

/// What came of the expansion of one vector.
pub struct Expansion<C> {
    pub neighbors: Seq<u32>,
    pub fresh: Seq<u32>,
    pub reads: Seq<VectorRead>,
    pub found: Seq<Candidate>,
    pub attrs: Seq<Seq<u8>>,
    pub listed: C,
    pub checks: Checks<C>,
}

/// The calls of an expansion and what they bring, with what was seen and kept
/// before it.
pub open spec fn expands<
    C,
    N: Fn(C, u32) -> (C, Vec<u32>),
    R: Fn(C, &Vec<u32>) -> (C, Vec<VectorRead>),
    F: Fn(C, u64, u32) -> (C, u8),
    B: Fn(C, u64, &Vec<u32>) -> (C, Vec<u8>),
    G: Fn(C, u64, u32, &[u8]) -> (C, u8),
    H: Fn(C, u64, &Vec<u32>, &Vec<&[u8]>) -> (C, Vec<u8>),
>(
    graph: GraphAccess<N, R>,
    callbacks: FilterCallbacks<F, B, G, H>,
    context_id: u64,
    size: usize,
    cap: nat,
    id: u32,
    seen: Set<u32>,
    kept: Multiset<Candidate>,
    host: C,
    x: Expansion<C>,
) -> bool {
    &&& lists_neighbors(graph.neighbors, id, x.neighbors, host, x.listed)
    &&& are_new(x.fresh, x.neighbors, seen, graph.max_id)
    &&& reads_new(graph.read, x.fresh, x.reads, x.listed, x.checks.hosts[0])
    &&& brings(x.fresh, x.reads, x.found)
    &&& carries(
        x.reads,
        x.attrs,
        graph.elem_size as int,
        callbacks.filter_with_attr is Some || callbacks.batch_filter_with_attr is Some,
    )
    &&& crate::laws::checks::take_turns(x.checks, cap, x.found)
    &&& crate::laws::checks::attr_calls(
        callbacks,
        context_id,
        size,
        cap,
        x.found,
        x.attrs,
        x.checks,
    )
    &&& x.checks.lists[0] == kept
}

proof fn lemma_are_new(m: WalkModel, neighbors: Seq<u32>, n: int, max_id: u32)
    requires
        0 <= n <= neighbors.len(),
        m.words == crate::walk::words_for(max_id),
    ensures
        are_new(
            crate::walk::fresh_ids(m.visited, m.words, neighbors, n),
            neighbors.subrange(0, n),
            m.visited,
            max_id,
        ),
    decreases n,
{
    let some = neighbors.subrange(0, n);
    let fresh = crate::walk::fresh_ids(m.visited, m.words, neighbors, n);
    if n == 0 {
        assert(listed_at(some, fresh, Seq::<int>::empty()));
    } else {
        lemma_are_new(m, neighbors, n - 1, max_id);
        let fewer = neighbors.subrange(0, n - 1);
        let before = crate::walk::fresh_ids(m.visited, m.words, neighbors, n - 1);
        let id = neighbors[n - 1];
        let at = choose|at: Seq<int>| #[trigger] listed_at(fewer, before, at);
        assert(some =~= fewer.push(id));
        assert(some[n - 1] == id);
        assert(id as int / 64 < m.words <==> has_place(id, max_id));
        assert forall|x: u32| some.contains(x) <==> fewer.contains(x) || x == id by {
            if fewer.contains(x) {
                let i = choose|i: int| 0 <= i < fewer.len() && fewer[i] == x;
                assert(some[i] == x);
            }
            if some.contains(x) {
                let i = choose|i: int| 0 <= i < some.len() && some[i] == x;
                if i < n - 1 {
                    assert(fewer[i] == x);
                }
            }
        }
        if has_place(id, max_id) && !m.visited.contains(id) && !before.contains(id) {
            assert(fresh == before.push(id));
            let more = at.push(n - 1);
            assert(!fewer.contains(id));
            assert(listed_at(some, fresh, more)) by {
                assert forall|i: int| 0 <= i < fresh.len() implies {
                    &&& 0 <= #[trigger] more[i] < some.len()
                    &&& some[more[i]] == fresh[i]
                    &&& forall|j: int| 0 <= j < more[i] ==> #[trigger] some[j] != fresh[i]
                } by {
                    if i < before.len() {
                        assert(more[i] == at[i]);
                        assert forall|j: int| 0 <= j < more[i] implies #[trigger] some[j]
                            != fresh[i] by {
                            assert(fewer[j] != before[i]);
                        }
                    } else {
                        assert forall|j: int| 0 <= j < more[i] implies #[trigger] some[j]
                            != fresh[i] by {
                            assert(fewer[j] == some[j]);
                            assert(fewer.contains(fewer[j]));
                        }
                    }
                }
                assert forall|i: int, j: int| 0 <= i < j < fresh.len() implies #[trigger] more[i]
                    < #[trigger] more[j] by {
                    if j < before.len() {
                        assert(at[i] < at[j]);
                    } else {
                        assert(at[i] == more[i]);
                    }
                }
            }
            assert forall|x: u32| #[trigger]
                fresh.contains(x) <==> before.contains(x) || x == id by {
                if before.contains(x) {
                    let i = choose|i: int| 0 <= i < before.len() && before[i] == x;
                    assert(fresh[i] == x);
                }
                assert(fresh[before.len() as int] == id);
            }
        } else {
            assert(fresh == before);
            assert(listed_at(some, fresh, at)) by {
                assert forall|i: int| 0 <= i < fresh.len() implies {
                    &&& 0 <= #[trigger] at[i] < some.len()
                    &&& some[at[i]] == fresh[i]
                    &&& forall|j: int| 0 <= j < at[i] ==> #[trigger] some[j] != fresh[i]
                } by {
                    assert forall|j: int| 0 <= j < at[i] implies #[trigger] some[j]
                        != fresh[i] by {
                        assert(fewer[j] != before[i]);
                    }
                }
            }
        }
    }
}

/// The attributes of a record are those behind its vector.
pub proof fn lemma_behind(extra: Seq<u8>, elem_size: int)
    requires
        elem_size > 0,
    ensures
        crate::record::attributes(extra, elem_size) == behind(extra, elem_size),
{
    if extra.len() > elem_size {
        let width = crate::record::length_width(elem_size);
        let s = extra.take(width);
        reveal_with_fuel(crate::record::little_endian, 5);
        if width == 1 {
            assert(s.skip(1) =~= Seq::empty());
        } else if width == 2 {
            assert(s.skip(1).skip(1) =~= Seq::empty());
        } else if width == 3 {
            assert(s.skip(1).skip(1).skip(1) =~= Seq::empty());
        } else {
            assert(s.skip(1).skip(1).skip(1).skip(1) =~= Seq::empty());
        }
        assert(crate::record::little_endian(s) == length_in(extra, elem_size));
        assert(crate::record::attributes(extra, elem_size) =~= behind(extra, elem_size));
    }
}

/// What came of an expansion.
pub proof fn lemma_expands<
    C,
    N: Fn(C, u32) -> (C, Vec<u32>),
    R: Fn(C, &Vec<u32>) -> (C, Vec<VectorRead>),
    F: Fn(C, u64, u32) -> (C, u8),
    B: Fn(C, u64, &Vec<u32>) -> (C, Vec<u8>),
    G: Fn(C, u64, u32, &[u8]) -> (C, u8),
    H: Fn(C, u64, &Vec<u32>, &Vec<&[u8]>) -> (C, Vec<u8>),
>(
    graph: GraphAccess<N, R>,
    callbacks: FilterCallbacks<F, B, G, H>,
    context_id: u64,
    size: usize,
    cap: nat,
    m: WalkModel,
    host: C,
    id: u32,
    hop: Hop<C>,
) -> (x: Expansion<C>)
    requires
        cap > 0,
        graph.elem_size > 0,
        m.words == crate::walk::words_for(graph.max_id),
        crate::walk::hop_follows(
            graph,
            callbacks,
            context_id,
            size,
            cap,
            m,
            host,
            id,
            hop,
        ),
    ensures
        expands(
            graph,
            callbacks,
            context_id,
            size,
            cap,
            id,
            m.visited,
            m.tally.results,
            host,
            x,
        ),
        x.neighbors == hop.neighbors,
        x.fresh == m.fresh(hop.neighbors),
        x.found == hop.found(),
        x.checks.hosts == hop.hosts,
        x.checks.yes == hop.verdicts,
        x.reads == hop.reads,
        ({
            let end = m.expanded(cap, hop.neighbors, hop.found(), hop.verdicts);
            let n = x.found.len() as int;
            &&& x.checks.lists[n] == end.tally.results
            &&& end.tally.evals == m.tally.evals + crate::laws::checks::tried(
                x.checks,
                cap,
                x.found,
                n,
            )
            &&& end.tally.passed == m.tally.passed + crate::laws::checks::agreed(
                x.checks,
                cap,
                x.found,
                n,
            )
        }),
{
    let fresh = m.fresh(hop.neighbors);
    let found = hop.found();
    let attrs = crate::filter::attrs_of(hop.pending, hop.buffer);
    let checks = crate::laws::checks::lemma_attr(
        callbacks,
        context_id,
        size,
        m.tally,
        cap,
        hop.pending,
        hop.buffer,
        found,
        attrs,
        hop.verdicts,
        hop.hosts,
    );
    lemma_are_new(m, hop.neighbors, hop.neighbors.len() as int, graph.max_id);
    assert(hop.neighbors.subrange(0, hop.neighbors.len() as int) =~= hop.neighbors);
    let x = Expansion {
        neighbors: hop.neighbors,
        fresh,
        reads: hop.reads,
        found,
        attrs,
        listed: hop.listed,
        checks,
    };
    if fresh.len() > 0 {
        let (b, r) = choose|b: Vec<u32>, r: Vec<VectorRead>| #[trigger]
            call_ensures(graph.read, (hop.listed, &b), (hop.hosts[0], r)) && b@
                == crate::walk::length_prefixed(fresh) && r@ == hop.reads;
        assert(call_ensures(graph.read, (hop.listed, &b), (hop.hosts[0], r)));
        assert forall|i: int| 0 <= i < fresh.len() implies b@[2 * i] == 4 && b@[2 * i + 1]
            == #[trigger] fresh[i] by {
            assert((2 * i) % 2 == 0 && (2 * i + 1) % 2 == 1 && (2 * i + 1) / 2 == i);
        }
    }
    assert(brings(fresh, hop.reads, found)) by {
        assert forall|i: int| 0 <= i < found.len() implies {
            &&& (#[trigger] found[i]).id == fresh[hop.reads[i].index as int]
            &&& found[i].distance == hop.reads[i].distance
        } by {
            assert(found[i] == crate::walk::read_candidates(fresh, hop.reads)[i]);
        }
    }
    if callbacks.takes_attrs() {
        assert forall|i: int| 0 <= i < attrs.len() implies #[trigger] attrs[i] == behind(
            hop.reads[i].extra@,
            graph.elem_size as int,
        ) by {
            let p = hop.pending[i];
            assert(attrs[i] == p.attrs(hop.buffer));
            lemma_behind(hop.reads[i].extra@, graph.elem_size as int);
        }
    }
    x
}

/// A record laid out as a store does it: the length in the first bytes of one
/// element, whatever fills the rest of that element, the attribute bytes, and any
/// padding. The attributes behind it are those bytes.
pub proof fn lemma_layout(
    length: Seq<u8>,
    filler: Seq<u8>,
    attrs: Seq<u8>,
    padding: Seq<u8>,
    elem_size: int,
)
    requires
        elem_size > 0,
        length.len() == if elem_size < 4 {
            elem_size
        } else {
            4
        },
        filler.len() + length.len() == elem_size,
        length_in(length, elem_size) == attrs.len(),
    ensures
        behind(length + filler + attrs + padding, elem_size) == attrs,
{
    let extra = length + filler + attrs + padding;
    assert(length_in(extra, elem_size) == attrs.len());
    if extra.len() > elem_size {
        assert(behind(extra, elem_size) =~= attrs);
    } else {
        assert(attrs =~= Seq::empty());
    }
}

/// What is behind a vector is laid out as a store does it: the length of the
/// attributes in the first bytes of one element, whatever fills the rest of that
/// element, the attributes, and any padding.
pub open spec fn is_record(
    extra: Seq<u8>,
    elem_size: int,
    length: Seq<u8>,
    filler: Seq<u8>,
    attrs: Seq<u8>,
    padding: Seq<u8>,
) -> bool {
    &&& length.len() == if elem_size < 4 {
        elem_size
    } else {
        4
    }
    &&& filler.len() + length.len() == elem_size
    &&& length_in(length, elem_size) == attrs.len()
    &&& extra == length + filler + attrs + padding
}

/// One call about several candidates has this id, with these attributes, in this
/// place.
pub open spec fn told_among<C, H: Fn(C, u64, &Vec<u32>, &Vec<&[u8]>) -> (C, Vec<u8>)>(
    b: H,
    context_id: u64,
    id: u32,
    attrs: Seq<u8>,
    place: int,
    before: C,
    after: C,
) -> bool {
    exists|v: Vec<u32>, a: Vec<&[u8]>, r: Vec<u8>|
        {
            &&& #[trigger] call_ensures(b, (before, context_id, &v, &a), (after, r))
            &&& 0 <= place < v@.len()
            &&& a@.len() == v@.len()
            &&& v@[place] == id
            &&& a@[place]@ == attrs
        }
}

/// The callback that takes attributes is asked about the candidate at `i` with
/// exactly these attributes: in the call on the run that holds it, if the one that
/// takes several is asked; else in a call of its own, unless it is not worth one.
pub open spec fn hears<
    C,
    F,
    B,
    G: Fn(C, u64, u32, &[u8]) -> (C, u8),
    H: Fn(C, u64, &Vec<u32>, &Vec<&[u8]>) -> (C, Vec<u8>),
>(
    callbacks: FilterCallbacks<F, B, G, H>,
    context_id: u64,
    size: usize,
    cap: nat,
    x: Expansion<C>,
    i: int,
    attrs: Seq<u8>,
) -> bool {
    if size > 1 && callbacks.batch_filter_with_attr is Some {
        forall|start: int, end: int| #[trigger]
            crate::laws::checks::is_run(start, end, size as int, x.found.len() as int) && start
                <= i < end ==> told_among(
                callbacks.batch_filter_with_attr->0,
                context_id,
                x.fresh[x.reads[i].index as int],
                attrs,
                i - start,
                x.checks.hosts[start],
                x.checks.hosts[end],
            )
    } else {
        callbacks.filter_with_attr is Some ==> crate::laws::checks::asked_alone_attr(
            callbacks.filter_with_attr->0,
            context_id,
            cap,
            x.checks.lists[i],
            (Candidate {
                id: x.fresh[x.reads[i].index as int],
                distance: x.reads[i].distance,
            }),
            attrs,
            x.checks.yes[i],
            x.checks.hosts[i],
            x.checks.hosts[i + 1],
        )
    }
}

/// Where a read answers an id with a record, the callback that takes attributes, if
/// it is asked about that id, hears exactly the attributes in that record.
pub open spec fn attributes_arrive<
    C,
    F,
    B,
    G: Fn(C, u64, u32, &[u8]) -> (C, u8),
    H: Fn(C, u64, &Vec<u32>, &Vec<&[u8]>) -> (C, Vec<u8>),
>(
    callbacks: FilterCallbacks<F, B, G, H>,
    context_id: u64,
    size: usize,
    cap: nat,
    elem_size: usize,
    x: Expansion<C>,
) -> bool {
    forall|
        i: int,
        length: Seq<u8>,
        filler: Seq<u8>,
        attrs: Seq<u8>,
        padding: Seq<u8>,
    |
        0 <= i < x.reads.len() && #[trigger] is_record(
            x.reads[i].extra@,
            elem_size as int,
            length,
            filler,
            attrs,
            padding,
        ) ==> hears(callbacks, context_id, size, cap, x, i, attrs)
}

/// In an expansion attributes arrive as they were stored, for every size of an
/// element.
pub proof fn law_attributes_arrive<
    C,
    N: Fn(C, u32) -> (C, Vec<u32>),
    R: Fn(C, &Vec<u32>) -> (C, Vec<VectorRead>),
    F: Fn(C, u64, u32) -> (C, u8),
    B: Fn(C, u64, &Vec<u32>) -> (C, Vec<u8>),
    G: Fn(C, u64, u32, &[u8]) -> (C, u8),
    H: Fn(C, u64, &Vec<u32>, &Vec<&[u8]>) -> (C, Vec<u8>),
>(
    graph: GraphAccess<N, R>,
    callbacks: FilterCallbacks<F, B, G, H>,
    context_id: u64,
    size: usize,
    cap: nat,
    id: u32,
    seen: Set<u32>,
    kept: Multiset<Candidate>,
    host: C,
    x: Expansion<C>,
)
    requires
        graph.elem_size > 0,
        expands(graph, callbacks, context_id, size, cap, id, seen, kept, host, x),
    ensures
        attributes_arrive(callbacks, context_id, size, cap, graph.elem_size, x),
{
    let es = graph.elem_size as int;
    assert forall|
        i: int,
        length: Seq<u8>,
        filler: Seq<u8>,
        attrs: Seq<u8>,
        padding: Seq<u8>,
    |
        0 <= i < x.reads.len() && #[trigger] is_record(
            x.reads[i].extra@,
            es,
            length,
            filler,
            attrs,
            padding,
        ) implies hears(callbacks, context_id, size, cap, x, i, attrs) by {
        lemma_layout(length, filler, attrs, padding, es);
        let c = x.found[i];
        let own = x.attrs[i];
        if size > 1 && callbacks.batch_filter_with_attr is Some {
            let b = callbacks.batch_filter_with_attr->0;
            assert forall|start: int, end: int| #[trigger]
                crate::laws::checks::is_run(start, end, size as int, x.found.len() as int)
                    && start <= i < end implies told_among(
                b,
                context_id,
                c.id,
                attrs,
                i - start,
                x.checks.hosts[start],
                x.checks.hosts[end],
            ) by {
                assert(crate::laws::checks::one_attr_batch_call(
                    b,
                    context_id,
                    x.found,
                    x.attrs,
                    start,
                    end,
                    x.checks.yes,
                    x.checks.hosts[start],
                    x.checks.hosts[end],
                ));
                let (v, a, r) = choose|v: Vec<u32>, a: Vec<&[u8]>, r: Vec<u8>|
                    {
                        &&& #[trigger] call_ensures(
                            b,
                            (x.checks.hosts[start], context_id, &v, &a),
                            (x.checks.hosts[end], r),
                        )
                        &&& v@.len() == end - start
                        &&& a@.len() == end - start
                        &&& r@.len() == end - start
                        &&& forall|j: int|
                            start <= j < end ==> #[trigger] x.found[j].id == v@[j - start] && a@[j
                                - start]@ == x.attrs[j] && x.checks.yes[j] == (r@[j - start] != 0)
                    };
                assert(x.found[i].id == v@[i - start]);
                assert(call_ensures(
                    b,
                    (x.checks.hosts[start], context_id, &v, &a),
                    (x.checks.hosts[end], r),
                ));
            }
        } else if callbacks.filter_with_attr is Some {
            assert(crate::laws::checks::asked_alone_attr(
                callbacks.filter_with_attr->0,
                context_id,
                cap,
                x.checks.lists[i],
                c,
                own,
                x.checks.yes[i],
                x.checks.hosts[i],
                x.checks.hosts[i + 1],
            ));
        }
    }
}

/// The candidate at which a search starts: at the largest finite distance if its
/// own is not known.
pub open spec fn is_start(c: Candidate, distance: Option<OrderedF32>) -> bool {
    &&& c.id == 0
    &&& match distance {
        Some(d) => c.distance == d,
        None => c.distance.bits == 0x7f7f_ffff,
    }
}

/// A candidate is worth expanding in any case: it is nearer than the farthest
/// result, or there is none yet and it is nearer than the largest finite number.
pub open spec fn is_near(c: Candidate, kept: Multiset<Candidate>) -> bool {
    if kept.len() == 0 {
        crate::laws::distances::below(c.distance, OrderedF32 { bits: 0x7f7f_ffff })
    } else {
        forall|d: Candidate| #[trigger]
            crate::laws::checks::is_farthest(d, kept) ==> crate::laws::distances::below(
                c.distance,
                d.distance,
            )
    }
}

/// A candidate is worth expanding in any case exactly if it is nearer than the
/// horizon.
pub proof fn lemma_near(c: Candidate, kept: Multiset<Candidate>)
    ensures
        c.distance.less(crate::walk::horizon(kept)) == is_near(c, kept),
{
    crate::laws::distances::lemma_distances(c.distance, crate::walk::horizon(kept));
    if kept.len() > 0 {
        let g = crate::heap::greatest(kept);
        crate::laws::checks::lemma_farthest(kept);
        crate::heap::lemma_greatest_exists(kept);
        assert forall|d: Candidate| #[trigger]
            crate::laws::checks::is_farthest(d, kept) && crate::laws::distances::below(
            c.distance,
            g.distance,
        ) implies crate::laws::distances::below(c.distance, d.distance) by {
            assert(!crate::laws::distances::past(g, d));
        }
    }
}

} // verus!
