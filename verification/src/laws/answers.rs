//! What the checks that remember are for: each answer is the one that the callback
//! gave on that very id.

use vstd::prelude::*;
use crate::labels::{
    AtomicCacheLabelProvider,
    BitmapLabelProvider,
    CachedCallbackLabelProvider,
};

verus! {

/// The callback answers `byte` on an id.
pub open spec fn says<C, F: Fn(C, u64, u32) -> (C, u8)>(
    f: F,
    context: u64,
    id: u32,
    byte: u8,
    before: C,
    after: C,
) -> bool {
    call_ensures(f, (before, context, id), (after, byte))
}

/// The callback was asked about each id below `end`, once, from the smallest on,
/// and gave these bytes.
pub open spec fn asked_of_each<C, F: Fn(C, u64, u32) -> (C, u8)>(
    f: F,
    context: u64,
    end: u32,
    bytes: Seq<u8>,
    hosts: Seq<C>,
) -> bool {
    &&& bytes.len() == end
    &&& hosts.len() == end + 1
    &&& forall|id: u32|
        id < end ==> says(
            f,
            context,
            id,
            #[trigger] bytes[id as int],
            hosts[id as int],
            hosts[id as int + 1],
        )
}

/// How many of the first `n` bytes are not zero.
pub open spec fn yeses(bytes: Seq<u8>, n: int) -> int
    decreases n,
{
    if n <= 0 {
        0
    } else if bytes[n - 1] != 0 {
        yeses(bytes, n - 1) + 1
    } else {
        yeses(bytes, n - 1)
    }
}

/// A bitmap holds these answers: that on an id below the end is yes exactly if its
/// byte is not zero, and that on any other id is no.
pub open spec fn holds(bitmap: BitmapLabelProvider, end: u32, bytes: Seq<u8>) -> bool {
    &&& forall|id: u32, yes: bool| #[trigger]
        call_ensures(BitmapLabelProvider::is_match_fast, (&bitmap, id), yes) ==> yes == (id < end
            && bytes[id as int] != 0)
    &&& forall|id: u32, yes: bool| #[trigger]
        call_ensures(BitmapLabelProvider::is_match, (&bitmap, id), yes) ==> yes == (id < end
            && bytes[id as int] != 0)
    &&& forall|n: u32| #[trigger]
        call_ensures(BitmapLabelProvider::match_count, (&bitmap,), n) ==> n == yeses(
            bytes,
            end as int,
        )
    &&& forall|n: usize| #[trigger]
        call_ensures(BitmapLabelProvider::size, (&bitmap,), n) ==> if end < usize::MAX {
            n == end + 1
        } else {
            n == usize::MAX
        }
}

proof fn lemma_yeses(bits: Seq<bool>, bytes: Seq<u8>, n: int)
    requires
        0 <= n <= bytes.len(),
        n <= bits.len(),
        forall|i: int| 0 <= i < n ==> bits[i] == (#[trigger] bytes[i] != 0),
    ensures
        crate::labels::count_set(bits, n) == yeses(bytes, n),
    decreases n,
{
    if n > 0 {
        lemma_yeses(bits, bytes, n - 1);
        let last = bytes[n - 1];
    }
}

pub proof fn lemma_build<C, F: Fn(C, u64, u32) -> (C, u8)>(
    host: C,
    f: F,
    context: u64,
    max_id: u32,
    r: (C, BitmapLabelProvider),
) -> (t: (Seq<u8>, Seq<C>))
    requires
        call_ensures(BitmapLabelProvider::build::<C, F>, (host, &f, context, max_id), r),
    ensures
        asked_of_each(f, context, max_id, t.0, t.1),
        t.1[0] == host,
        t.1[max_id as int] == r.0,
        holds(r.1, max_id, t.0),
        forall|id: u32| #[trigger]
            r.1.matches_id(id) <==> id < max_id && t.0[id as int] != 0,
{
    let answers = r.1.answers();
    let hosts = choose|hosts: Seq<C>| #[trigger]
        crate::labels::asked_in_turn(f, context, max_id, answers, hosts) && hosts[0] == host
            && hosts[max_id as int] == r.0;
    let bytes = Seq::new(
        max_id as nat,
        |i: int|
            choose|b: u8| #[trigger]
                call_ensures(f, (hosts[i], context, i as u32), (hosts[i + 1], b)) && answers[i]
                    == (b != 0),
    );
    assert forall|id: u32| id < max_id implies says(
        f,
        context,
        id,
        #[trigger] bytes[id as int],
        hosts[id as int],
        hosts[id as int + 1],
    ) && answers[id as int] == (bytes[id as int] != 0) by {
        assert(crate::labels::answer_came(f, context, id, answers, hosts));
        let b = choose|b: u8| #[trigger]
            call_ensures(f, (hosts[id as int], context, id), (hosts[id as int + 1], b))
                && answers[id as int] == (b != 0);
        assert(id as int as u32 == id);
        assert(call_ensures(
            f,
            (hosts[id as int], context, id as int as u32),
            (hosts[id as int + 1], b),
        ));
    }
    assert forall|i: int| 0 <= i < max_id implies answers[i] == (#[trigger] bytes[i] != 0) by {
        let id = i as u32;
        assert(bytes[id as int] == bytes[i]);
    }
    lemma_yeses(answers, bytes, max_id as int);
    (bytes, hosts)
}

/// A bitmap that was built has the answers that the callback gave while it was:
/// the look-up of every id below `max_id` is yes exactly if the callback, asked
/// about that very id, answered something other than zero; the look-up of every
/// other id is no.
pub proof fn law_build<C, F: Fn(C, u64, u32) -> (C, u8)>(
    host: C,
    f: F,
    context: u64,
    max_id: u32,
    r: (C, BitmapLabelProvider),
) -> (t: (Seq<u8>, Seq<C>))
    requires
        call_ensures(BitmapLabelProvider::build::<C, F>, (host, &f, context, max_id), r),
    ensures
        asked_of_each(f, context, max_id, t.0, t.1),
        t.1[0] == host,
        t.1[max_id as int] == r.0,
        holds(r.1, max_id, t.0),
{
    lemma_build(host, f, context, max_id, r)
}

/// A check on an id of a check with cells. Where a cell has an answer, that is
/// the outcome, and no call is made; else the callback is asked about that very
/// id, once, and if the id has a cell, its cell has the answer from there on. No
/// other cell changes.
pub open spec fn cell_answers<C, F: Fn(C, u64, u32) -> (C, u8)>(
    before: AtomicCacheLabelProvider<F>,
    host: C,
    id: u32,
    yes: bool,
    then_host: C,
    after: AtomicCacheLabelProvider<F>,
) -> bool {
    let cells = before.answers();
    let i = id as int;
    &&& after.asks() == before.asks()
    &&& after.context() == before.context()
    &&& after.answers().len() == cells.len()
    &&& forall|j: int| 0 <= j < cells.len() && j != i ==> after.answers()[j] == cells[j]
    &&& i < cells.len() ==> after.answers()[i] == Some(yes)
    &&& if i < cells.len() && cells[i] is Some {
        cells[i] == Some(yes) && then_host == host
    } else {
        exists|byte: u8| #[trigger]
            says(before.asks(), before.context(), id, byte, host, then_host) && yes == (byte != 0)
    }
}

/// What a check with cells answers.
pub proof fn law_atomic_is_match_fast<C, F: Fn(C, u64, u32) -> (C, u8)>(
    cache: &mut AtomicCacheLabelProvider<F>,
    host: C,
    id: u32,
    r: (C, bool),
)
    requires
        call_ensures(
            AtomicCacheLabelProvider::<F>::is_match_fast::<C>,
            (cache, host, id),
            r,
        ),
    ensures
        cell_answers(*old(cache), host, id, r.1, r.0, *final(cache)),
{
    lemma_cell_answers(*old(cache), host, id, r.1, r.0, *final(cache));
}

/// A graph traversal gets the same answers.
pub proof fn law_atomic_is_match<C, F: Fn(C, u64, u32) -> (C, u8)>(
    cache: &mut AtomicCacheLabelProvider<F>,
    host: C,
    id: u32,
    r: (C, bool),
)
    requires
        call_ensures(AtomicCacheLabelProvider::<F>::is_match::<C>, (cache, host, id), r),
    ensures
        cell_answers(*old(cache), host, id, r.1, r.0, *final(cache)),
{
    lemma_cell_answers(*old(cache), host, id, r.1, r.0, *final(cache));
}

pub proof fn lemma_cell_answers<C, F: Fn(C, u64, u32) -> (C, u8)>(
    before: AtomicCacheLabelProvider<F>,
    host: C,
    id: u32,
    yes: bool,
    then_host: C,
    after: AtomicCacheLabelProvider<F>,
)
    requires
        before.answers_on(host, id, yes, then_host, after),
    ensures
        cell_answers(before, host, id, yes, then_host, after),
{
    if !before.knows(id) {
        let byte = choose|byte: u8| #[trigger]
            call_ensures(
                before.asks(),
                (host, before.context(), id),
                (then_host, byte),
            ) && yes == (byte != 0);
        assert(says(before.asks(), before.context(), id, byte, host, then_host));
    }
}

/// A new check with cells asks this callback in this context, has a cell for each
/// id up to the largest, and knows no answer.
pub proof fn law_new_cells<F>(
    callback: F,
    context: u64,
    max_id: u32,
    r: AtomicCacheLabelProvider<F>,
    id: u32,
    n: usize,
)
    requires
        call_ensures(AtomicCacheLabelProvider::<F>::new, (callback, context, max_id), r),
        call_ensures(AtomicCacheLabelProvider::<F>::cache_size, (&r,), n),
    ensures
        r.asks() == callback,
        r.context() == context,
        n == r.answers().len(),
        id < max_id ==> id < n,
        max_id < usize::MAX ==> n == max_id + 1,
        id < n ==> r.answers()[id as int] is None,
{
}

/// Two checks on one id that has a cell have the same outcome, whatever was asked
/// before, and the second makes no call.
pub proof fn law_cell_asks_once<C, F: Fn(C, u64, u32) -> (C, u8)>(
    a: AtomicCacheLabelProvider<F>,
    b: AtomicCacheLabelProvider<F>,
    c: AtomicCacheLabelProvider<F>,
    id: u32,
    first: bool,
    second: bool,
    h0: C,
    h1: C,
    h2: C,
    h3: C,
)
    requires
        id < a.answers().len(),
        cell_answers(a, h0, id, first, h1, b),
        cell_answers(b, h2, id, second, h3, c),
    ensures
        second == first,
        h3 == h2,
{
}

/// A check on an id of a check that remembers all. An answer that is known is the
/// outcome, and no call is made; else the callback is asked about that very id,
/// once, and the answer is known from there on. No other answer changes.
pub open spec fn memory_answers<C, F: Fn(C, u64, u32) -> (C, u8)>(
    before: CachedCallbackLabelProvider<F>,
    host: C,
    id: u32,
    yes: bool,
    then_host: C,
    after: CachedCallbackLabelProvider<F>,
) -> bool {
    let known = before.answers();
    &&& after.asks() == before.asks()
    &&& after.context() == before.context()
    &&& forall|other: u32|
        other != id ==> (#[trigger] after.answers().contains_key(other) <==> known.contains_key(
            other,
        )) && (known.contains_key(other) ==> after.answers()[other] == known[other])
    &&& after.answers().contains_key(id) && after.answers()[id] == yes
    &&& if known.contains_key(id) {
        known[id] == yes && then_host == host
    } else {
        exists|byte: u8| #[trigger]
            says(before.asks(), before.context(), id, byte, host, then_host) && yes == (byte != 0)
    }
}

pub proof fn lemma_memory_answers<C, F: Fn(C, u64, u32) -> (C, u8)>(
    before: CachedCallbackLabelProvider<F>,
    host: C,
    id: u32,
    yes: bool,
    then_host: C,
    after: CachedCallbackLabelProvider<F>,
)
    requires
        before.answers_on(host, id, yes, then_host, after),
    ensures
        memory_answers(before, host, id, yes, then_host, after),
{
    if !before.answers().contains_key(id) {
        let byte = choose|byte: u8| #[trigger]
            call_ensures(
                before.asks(),
                (host, before.context(), id),
                (then_host, byte),
            ) && yes == (byte != 0);
        assert(says(before.asks(), before.context(), id, byte, host, then_host));
    }
}

/// What a check that remembers all answers.
pub proof fn law_is_match_cached<C, F: Fn(C, u64, u32) -> (C, u8)>(
    cache: &mut CachedCallbackLabelProvider<F>,
    host: C,
    id: u32,
    r: (C, bool),
)
    requires
        call_ensures(
            CachedCallbackLabelProvider::<F>::is_match_cached::<C>,
            (cache, host, id),
            r,
        ),
    ensures
        memory_answers(*old(cache), host, id, r.1, r.0, *final(cache)),
{
    lemma_memory_answers(*old(cache), host, id, r.1, r.0, *final(cache));
}

/// A graph traversal gets the same answers.
pub proof fn law_cached_is_match<C, F: Fn(C, u64, u32) -> (C, u8)>(
    cache: &mut CachedCallbackLabelProvider<F>,
    host: C,
    id: u32,
    r: (C, bool),
)
    requires
        call_ensures(CachedCallbackLabelProvider::<F>::is_match::<C>, (cache, host, id), r),
    ensures
        memory_answers(*old(cache), host, id, r.1, r.0, *final(cache)),
{
    lemma_memory_answers(*old(cache), host, id, r.1, r.0, *final(cache));
}

/// A new check that remembers all asks this callback in this context, and knows
/// no answer.
pub proof fn law_new_memory<F>(
    callback: F,
    context: u64,
    r: CachedCallbackLabelProvider<F>,
    id: u32,
)
    requires
        call_ensures(CachedCallbackLabelProvider::<F>::new, (callback, context), r),
    ensures
        r.asks() == callback,
        r.context() == context,
        !r.answers().contains_key(id),
{
}

/// A look-up finds the answer that is known, and nothing else.
pub proof fn law_lookup<F>(cache: CachedCallbackLabelProvider<F>, id: u32, r: Option<bool>)
    requires
        call_ensures(CachedCallbackLabelProvider::<F>::lookup, (&cache, id), r),
    ensures
        r is Some <==> cache.answers().contains_key(id),
        r matches Some(yes) ==> cache.answers()[id] == yes,
{
}

/// Two checks on one id have the same outcome, whatever was asked before, and the
/// second makes no call.
pub proof fn law_memory_asks_once<C, F: Fn(C, u64, u32) -> (C, u8)>(
    a: CachedCallbackLabelProvider<F>,
    b: CachedCallbackLabelProvider<F>,
    c: CachedCallbackLabelProvider<F>,
    id: u32,
    first: bool,
    second: bool,
    h0: C,
    h1: C,
    h2: C,
    h3: C,
)
    requires
        memory_answers(a, h0, id, first, h1, b),
        memory_answers(b, h2, id, second, h3, c),
    ensures
        second == first,
        h3 == h2,
{
}

} // verus!
