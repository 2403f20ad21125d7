//! Filter checks that remember their answers.

use vstd::prelude::*;
use std::collections::HashMap;

verus! {

/// A cell whose answer is not known.
pub const UNKNOWN: u8 = 0;

/// A cell whose answer is no.
pub const NO_MATCH: u8 = 1;

/// A cell whose answer is yes.
pub const MATCH: u8 = 2;

/// The answer that a cell of a cache holds.
pub open spec fn answer_in(cell: u8) -> Option<bool> {
    if cell == UNKNOWN {
        None
    } else {
        Some(cell == MATCH)
    }
}

/// A check that asks a callback once about each id up to the largest one, and
/// keeps the answers in one cell per id.
pub struct AtomicCacheLabelProvider<F> {
    callback: F,
    context_raw: u64,
    cache: Vec<u8>,
}

impl<F> AtomicCacheLabelProvider<F> {
    /// The callback that is asked.
    pub closed spec fn asks(&self) -> F {
        self.callback
    }

    /// The context that the callback is asked in.
    pub closed spec fn context(&self) -> u64 {
        self.context_raw
    }

    /// The answers known, by id.
    pub closed spec fn answers(&self) -> Seq<Option<bool>> {
        self.cache@.map_values(|cell: u8| answer_in(cell))
    }

    /// The answer on an id is known.
    pub open spec fn knows(&self, id: u32) -> bool {
        id < self.answers().len() && self.answers()[id as int] is Some
    }

    /// `r` is the answer on an id. A known one is in its cell: no call is made,
    /// so that the host stays as it is. Else it comes from one call of the
    /// callback, which turns the host from `host` into `after`, and `later`
    /// keeps it. An id without a cell is asked about each time.
    pub open spec fn answers_on<C>(
        &self,
        host: C,
        id: u32,
        r: bool,
        after: C,
        later: Self,
    ) -> bool
        where
            F: Fn(C, u64, u32) -> (C, u8),
    {
        &&& later.asks() == self.asks()
        &&& later.context() == self.context()
        &&& if self.knows(id) {
            &&& r == self.answers()[id as int]->0
            &&& after == host
            &&& later.answers() == self.answers()
        } else {
            &&& crate::filter::asks(self.asks(), self.context(), id, r, host, after)
            &&& later.answers() == if id < self.answers().len() {
                self.answers().update(id as int, Some(r))
            } else {
                self.answers()
            }
        }
    }

    /// A check with a cell for each id up to `max_id` and no answers.
    pub fn new(callback: F, context_raw: u64, max_id: u32) -> (r: Self)
        ensures
            r.asks() == callback,
            r.context() == context_raw,
            r.answers().len() == if max_id < usize::MAX {
                max_id + 1
            } else {
                usize::MAX as int
            },
            forall|i: int| 0 <= i < r.answers().len() ==> (#[trigger] r.answers()[i]) is None,
    {
        let size: usize = (max_id as usize).saturating_add(1);
        let cache: Vec<u8> = vec![UNKNOWN; size];
        AtomicCacheLabelProvider { callback, context_raw, cache }
    }

    /// How many ids have a cell.
    pub fn cache_size(&self) -> (n: usize)
        ensures
            n == self.answers().len(),
    {
        self.cache.len()
    }

    /// The answer on an id: the one in its cell, without a call, or else the
    /// callback's, asked once, which is kept. An id without a cell is asked
    /// about each time. Gives the host back as the call left it.
    pub fn is_match_fast<C>(&mut self, host: C, internal_id: u32) -> (r: (C, bool))
        where
            F: Fn(C, u64, u32) -> (C, u8),
        requires
            old(self).knows(internal_id) || call_requires(
                old(self).asks(),
                (host, old(self).context(), internal_id),
            ),
        ensures
            old(self).answers_on(host, internal_id, r.1, r.0, *final(self)),
    {
        let idx: usize = internal_id as usize;
        if idx >= self.cache.len() {
            let ghost before = host;
            let (after, answer) = (self.callback)(host, self.context_raw, internal_id);
            assert(call_ensures(
                self.asks(),
                (before, self.context(), internal_id),
                (after, answer),
            ));
            return (after, answer != 0);
        }
        let cached = self.cache[idx];
        if cached != UNKNOWN {
            return (host, cached == MATCH);
        }
        let ghost before = host;
        let (after, answer) = (self.callback)(host, self.context_raw, internal_id);
        assert(call_ensures(self.asks(), (before, self.context(), internal_id), (after, answer)));
        let result = answer != 0;
        let cell: u8 = if result {
            MATCH
        } else {
            NO_MATCH
        };
        self.cache.set(idx, cell);
        assert(self.answers() =~= old(self).answers().update(internal_id as int, Some(result)));
        (after, result)
    }

    /// The answer on an id, as a graph traversal asks for it.
    pub fn is_match<C>(&mut self, host: C, internal_id: u32) -> (r: (C, bool))
        where
            F: Fn(C, u64, u32) -> (C, u8),
        requires
            old(self).knows(internal_id) || call_requires(
                old(self).asks(),
                (host, old(self).context(), internal_id),
            ),
        ensures
            old(self).answers_on(host, internal_id, r.1, r.0, *final(self)),
    {
        self.is_match_fast(host, internal_id)
    }
}

/// A check that asks a callback once about each id, and keeps the answers.
pub struct CachedCallbackLabelProvider<F> {
    callback: F,
    context_raw: u64,
    cache: HashMap<u32, bool>,
}

/// For how many answers there is room at first.
const EXPECTED_ANSWERS: usize = 4096;

impl<F> CachedCallbackLabelProvider<F> {
    /// The callback that is asked.
    pub closed spec fn asks(&self) -> F {
        self.callback
    }

    /// The context that the callback is asked in.
    pub closed spec fn context(&self) -> u64 {
        self.context_raw
    }

    /// The answers known, by id.
    pub closed spec fn answers(&self) -> Map<u32, bool> {
        self.cache@
    }

    /// `r` is the answer on an id. A known one comes without a call, so that
    /// the host stays as it is. Else it comes from one call of the callback,
    /// which turns the host from `host` into `after`, and `later` keeps it.
    pub open spec fn answers_on<C>(
        &self,
        host: C,
        id: u32,
        r: bool,
        after: C,
        later: Self,
    ) -> bool
        where
            F: Fn(C, u64, u32) -> (C, u8),
    {
        &&& later.asks() == self.asks()
        &&& later.context() == self.context()
        &&& if self.answers().contains_key(id) {
            &&& r == self.answers()[id]
            &&& after == host
            &&& later.answers() == self.answers()
        } else {
            &&& crate::filter::asks(self.asks(), self.context(), id, r, host, after)
            &&& later.answers() == self.answers().insert(id, r)
        }
    }

    /// A check with no answers.
    pub fn new(callback: F, context_raw: u64) -> (r: Self)
        ensures
            r.asks() == callback,
            r.context() == context_raw,
            r.answers() == Map::<u32, bool>::empty(),
    {
        CachedCallbackLabelProvider {
            callback,
            context_raw,
            cache: HashMap::with_capacity(EXPECTED_ANSWERS),
        }
    }

    /// The answer known on an id, if there is one.
    pub fn lookup(&self, internal_id: u32) -> (r: Option<bool>)
        ensures
            r == if self.answers().contains_key(internal_id) {
                Some(self.answers()[internal_id])
            } else {
                None
            },
    {
        broadcast use vstd::std_specs::hash::group_hash_axioms;

        match self.cache.get(&internal_id) {
            Some(known) => Some(*known),
            None => None,
        }
    }

    /// The answer on an id: the one known, without a call, or else the
    /// callback's, asked once, which is kept. Gives the host back as the call
    /// left it.
    pub fn is_match_cached<C>(&mut self, host: C, internal_id: u32) -> (r: (C, bool))
        where
            F: Fn(C, u64, u32) -> (C, u8),
        requires
            old(self).answers().contains_key(internal_id) || call_requires(
                old(self).asks(),
                (host, old(self).context(), internal_id),
            ),
        ensures
            old(self).answers_on(host, internal_id, r.1, r.0, *final(self)),
    {
        broadcast use vstd::std_specs::hash::group_hash_axioms;

        match self.lookup(internal_id) {
            Some(known) => (host, known),
            None => {
                let ghost before = host;
                let (after, answer) = (self.callback)(host, self.context_raw, internal_id);
                assert(call_ensures(
                    self.asks(),
                    (before, self.context(), internal_id),
                    (after, answer),
                ));
                let result = answer != 0;
                self.cache.insert(internal_id, result);
                (after, result)
            },
        }
    }

    /// The answer on an id, as a graph traversal asks for it.
    pub fn is_match<C>(&mut self, host: C, internal_id: u32) -> (r: (C, bool))
        where
            F: Fn(C, u64, u32) -> (C, u8),
        requires
            old(self).answers().contains_key(internal_id) || call_requires(
                old(self).asks(),
                (host, old(self).context(), internal_id),
            ),
        ensures
            old(self).answers_on(host, internal_id, r.1, r.0, *final(self)),
    {
        self.is_match_cached(host, internal_id)
    }
}

/// How many of the first `n` entries are set.
pub open spec fn count_set(bits: Seq<bool>, n: int) -> int
    decreases n,
{
    if n <= 0 {
        0
    } else {
        count_set(bits, n - 1) + if bits[n - 1] {
            1int
        } else {
            0
        }
    }
}

/// The answer on `id` came from one call of the callback.
pub open spec fn answer_came<C, F: Fn(C, u64, u32) -> (C, u8)>(
    f: F,
    context: u64,
    id: u32,
    answers: Seq<bool>,
    hosts: Seq<C>,
) -> bool {
    crate::filter::asks(
        f,
        context,
        id,
        answers[id as int],
        hosts[id as int],
        hosts[id as int + 1],
    )
}

/// The calls are these: one of the callback for each id below `end`, from the
/// smallest to the largest. They lead the host through `hosts`.
pub open spec fn asked_in_turn<C, F: Fn(C, u64, u32) -> (C, u8)>(
    f: F,
    context: u64,
    end: u32,
    answers: Seq<bool>,
    hosts: Seq<C>,
) -> bool {
    &&& hosts.len() == end + 1
    &&& forall|id: u32| id < end ==> #[trigger] answer_came(f, context, id, answers, hosts)
}

/// A check that has all its answers before it is made.
pub struct BitmapLabelProvider {
    bitmap: Vec<bool>,
    match_count: u32,
}

impl BitmapLabelProvider {
    /// The answers, by id.
    pub closed spec fn answers(&self) -> Seq<bool> {
        self.bitmap@
    }

    /// The answer on an id. Ids past the end do not match.
    pub open spec fn matches_id(&self, id: u32) -> bool {
        id < self.answers().len() && self.answers()[id as int]
    }

    /// How many answers are yes.
    pub closed spec fn matches(&self) -> u32 {
        self.match_count
    }

    /// Asks the callback about each id below `max_id`, once, in increasing
    /// order. The answer on `max_id` itself, and on every larger id, is no.
    /// Gives the host back as the calls left it.
    pub fn build<C, F: Fn(C, u64, u32) -> (C, u8)>(
        host: C,
        callback: &F,
        context_raw: u64,
        max_id: u32,
    ) -> (r: (C, Self))
        requires
            forall|h: C, id: u32|
                id < max_id ==> #[trigger] call_requires(*callback, (h, context_raw, id)),
        ensures
            r.1.answers().len() == if max_id < usize::MAX {
                max_id + 1
            } else {
                usize::MAX as int
            },
            exists|hosts: Seq<C>| #[trigger]
                asked_in_turn(*callback, context_raw, max_id, r.1.answers(), hosts) && hosts[0]
                    == host && hosts[max_id as int] == r.0,
            max_id < r.1.answers().len() ==> !r.1.answers()[max_id as int],
            r.1.matches() == count_set(r.1.answers(), r.1.answers().len() as int),
    {
        let size: usize = (max_id as usize).saturating_add(1);
        let mut bitmap: Vec<bool> = vec![false; size];
        let mut match_count: u32 = 0;
        let mut iid: u32 = 0;
        let ghost mut hosts = seq![host];
        let mut at = host;
        proof {
            lemma_none_set(bitmap@, size as int);
        }
        while iid < max_id
            invariant
                iid <= max_id,
                bitmap@.len() == size,
                size == if max_id < usize::MAX {
                    max_id + 1
                } else {
                    usize::MAX as int
                },
                forall|h: C, id: u32|
                    id < max_id ==> #[trigger] call_requires(*callback, (h, context_raw, id)),
                hosts[0] == host,
                hosts[iid as int] == at,
                asked_in_turn(*callback, context_raw, iid, bitmap@, hosts),
                forall|i: int| iid <= i < size ==> !(#[trigger] bitmap@[i]),
                match_count <= iid,
                match_count == count_set(bitmap@, size as int),
            decreases max_id - iid,
        {
            let ghost before = at;
            let ghost trail = hosts;
            let ghost known = bitmap@;
            let (after, answer) = (callback)(at, context_raw, iid);
            at = after;
            let passes = answer != 0;
            assert(call_ensures(*callback, (before, context_raw, iid), (after, answer)));
            assert(crate::filter::asks(*callback, context_raw, iid, passes, before, after));
            if passes {
                bitmap.set(iid as usize, true);
                match_count = match_count + 1;
                proof {
                    lemma_one_more_set(known, iid as int, size as int);
                }
            }
            proof {
                hosts = trail.push(after);
                assert forall|id: u32| id < iid + 1 implies #[trigger] answer_came(
                    *callback,
                    context_raw,
                    id,
                    bitmap@,
                    hosts,
                ) by {
                    if id < iid {
                        assert(answer_came(*callback, context_raw, id, known, trail));
                    }
                }
            }
            iid = iid + 1;
        }
        let built = BitmapLabelProvider { bitmap, match_count };
        let r = (at, built);
        assert(asked_in_turn(*callback, context_raw, max_id, r.1.answers(), hosts));
        r
    }

    /// How many answers are yes.
    pub fn match_count(&self) -> (n: u32)
        ensures
            n == self.matches(),
    {
        self.match_count
    }

    /// How many ids have an answer of their own.
    pub fn size(&self) -> (n: usize)
        ensures
            n == self.answers().len(),
    {
        self.bitmap.len()
    }

    /// The answer on an id. Ids past the end do not match.
    pub fn is_match_fast(&self, internal_id: u32) -> (r: bool)
        ensures
            r == self.matches_id(internal_id),
    {
        let idx: usize = internal_id as usize;
        if idx < self.bitmap.len() {
            self.bitmap[idx]
        } else {
            false
        }
    }

    /// The answer on an id, as a graph traversal asks for it.
    pub fn is_match(&self, internal_id: u32) -> (r: bool)
        ensures
            r == self.matches_id(internal_id),
    {
        self.is_match_fast(internal_id)
    }
}

proof fn lemma_none_set(bits: Seq<bool>, n: int)
    requires
        n <= bits.len(),
        forall|i: int| 0 <= i < n ==> !bits[i],
    ensures
        count_set(bits, n) == 0,
    decreases n,
{
    if n > 0 {
        lemma_none_set(bits, n - 1);
    }
}

proof fn lemma_one_more_set(bits: Seq<bool>, at: int, n: int)
    requires
        0 <= at < bits.len(),
        n <= bits.len(),
        !bits[at],
    ensures
        count_set(bits.update(at, true), n) == count_set(bits, n) + if at < n {
            1int
        } else {
            0
        },
    decreases n,
{
    if n > 0 {
        lemma_one_more_set(bits, at, n - 1);
    }
}

/// An id that has a cell is asked about at most once: after one check, a second
/// has the answer of the first, makes no call, so that the host stays as it is,
/// and leaves the cells as they are.
pub proof fn lemma_atomic_asks_once<C, F: Fn(C, u64, u32) -> (C, u8)>(
    before: AtomicCacheLabelProvider<F>,
    between: AtomicCacheLabelProvider<F>,
    later: AtomicCacheLabelProvider<F>,
    id: u32,
    first: bool,
    second: bool,
    h0: C,
    h1: C,
    h2: C,
    h3: C,
)
    requires
        id < before.answers().len(),
        before.answers_on(h0, id, first, h1, between),
        between.answers_on(h2, id, second, h3, later),
    ensures
        between.knows(id),
        second == first,
        h3 == h2,
        later.answers() == between.answers(),
{
}

/// A check on one id leaves the answers on all others as they are.
pub proof fn lemma_atomic_keeps_answers<C, F: Fn(C, u64, u32) -> (C, u8)>(
    before: AtomicCacheLabelProvider<F>,
    later: AtomicCacheLabelProvider<F>,
    id: u32,
    r: bool,
    other: u32,
    host: C,
    after: C,
)
    requires
        before.answers_on(host, id, r, after, later),
        other < before.answers().len(),
        before.knows(other) || other != id,
    ensures
        later.answers().len() == before.answers().len(),
        later.answers()[other as int] == before.answers()[other as int],
{
}

/// Every id is asked about at most once: after one check, a second has the
/// answer of the first, makes no call, so that the host stays as it is, and
/// leaves the answers as they are.
pub proof fn lemma_cached_asks_once<C, F: Fn(C, u64, u32) -> (C, u8)>(
    before: CachedCallbackLabelProvider<F>,
    between: CachedCallbackLabelProvider<F>,
    later: CachedCallbackLabelProvider<F>,
    id: u32,
    first: bool,
    second: bool,
    h0: C,
    h1: C,
    h2: C,
    h3: C,
)
    requires
        before.answers_on(h0, id, first, h1, between),
        between.answers_on(h2, id, second, h3, later),
    ensures
        between.answers().contains_key(id),
        second == first,
        h3 == h2,
        later.answers() == between.answers(),
{
}

/// A check on one id keeps all answers that were known.
pub proof fn lemma_cached_keeps_answers<C, F: Fn(C, u64, u32) -> (C, u8)>(
    before: CachedCallbackLabelProvider<F>,
    later: CachedCallbackLabelProvider<F>,
    id: u32,
    r: bool,
    host: C,
    after: C,
)
    requires
        before.answers_on(host, id, r, after, later),
    ensures
        before.answers().submap_of(later.answers()),
{
}

/// However many checks are made one after the other, each id that has a cell is
/// asked about at most once: a check on an id that was checked before has the
/// same answer, and makes no call.
pub proof fn lemma_atomic_asks_each_once<C, F: Fn(C, u64, u32) -> (C, u8)>(
    caches: Seq<AtomicCacheLabelProvider<F>>,
    hosts: Seq<C>,
    ids: Seq<u32>,
    answers: Seq<bool>,
    i: int,
    j: int,
)
    requires
        0 <= i < j < ids.len(),
        forall|n: int|
            0 <= n < ids.len() ==> caches[n].answers_on(
                hosts[n],
                #[trigger] ids[n],
                answers[n],
                hosts[n + 1],
                caches[n + 1],
            ),
        ids[i] == ids[j],
        ids[i] < caches[0].answers().len(),
    ensures
        answers[j] == answers[i],
        hosts[j + 1] == hosts[j],
{
    lemma_atomic_stays_known(caches, hosts, ids, answers, i, j);
    let again = ids[j];
}

/// An answer that a cell has stays in it.
proof fn lemma_atomic_stays_known<C, F: Fn(C, u64, u32) -> (C, u8)>(
    caches: Seq<AtomicCacheLabelProvider<F>>,
    hosts: Seq<C>,
    ids: Seq<u32>,
    answers: Seq<bool>,
    i: int,
    j: int,
)
    requires
        0 <= i < j <= ids.len(),
        forall|n: int|
            0 <= n < ids.len() ==> caches[n].answers_on(
                hosts[n],
                #[trigger] ids[n],
                answers[n],
                hosts[n + 1],
                caches[n + 1],
            ),
        ids[i] < caches[0].answers().len(),
    ensures
        caches[j].answers().len() == caches[0].answers().len(),
        caches[j].answers()[ids[i] as int] == Some(answers[i]),
    decreases j,
{
    let last = ids[j - 1];
    if i < j - 1 {
        lemma_atomic_stays_known(caches, hosts, ids, answers, i, j - 1);
    } else {
        lemma_atomic_keeps_cells(caches, hosts, ids, answers, i);
    }
}

/// Checks change no number of cells.
proof fn lemma_atomic_keeps_cells<C, F: Fn(C, u64, u32) -> (C, u8)>(
    caches: Seq<AtomicCacheLabelProvider<F>>,
    hosts: Seq<C>,
    ids: Seq<u32>,
    answers: Seq<bool>,
    n: int,
)
    requires
        0 <= n <= ids.len(),
        forall|n: int|
            0 <= n < ids.len() ==> caches[n].answers_on(
                hosts[n],
                #[trigger] ids[n],
                answers[n],
                hosts[n + 1],
                caches[n + 1],
            ),
    ensures
        caches[n].answers().len() == caches[0].answers().len(),
    decreases n,
{
    if n > 0 {
        lemma_atomic_keeps_cells(caches, hosts, ids, answers, n - 1);
        let last = ids[n - 1];
    }
}

/// However many checks are made one after the other, each id is asked about at
/// most once: a check on an id that was checked before has the same answer, and
/// makes no call.
pub proof fn lemma_cached_asks_each_once<C, F: Fn(C, u64, u32) -> (C, u8)>(
    caches: Seq<CachedCallbackLabelProvider<F>>,
    hosts: Seq<C>,
    ids: Seq<u32>,
    answers: Seq<bool>,
    i: int,
    j: int,
)
    requires
        0 <= i < j < ids.len(),
        forall|n: int|
            0 <= n < ids.len() ==> caches[n].answers_on(
                hosts[n],
                #[trigger] ids[n],
                answers[n],
                hosts[n + 1],
                caches[n + 1],
            ),
        ids[i] == ids[j],
    ensures
        answers[j] == answers[i],
        hosts[j + 1] == hosts[j],
{
    lemma_cached_stays_known(caches, hosts, ids, answers, i, j);
    let again = ids[j];
}

/// An answer that is known stays known.
proof fn lemma_cached_stays_known<C, F: Fn(C, u64, u32) -> (C, u8)>(
    caches: Seq<CachedCallbackLabelProvider<F>>,
    hosts: Seq<C>,
    ids: Seq<u32>,
    answers: Seq<bool>,
    i: int,
    j: int,
)
    requires
        0 <= i < j <= ids.len(),
        forall|n: int|
            0 <= n < ids.len() ==> caches[n].answers_on(
                hosts[n],
                #[trigger] ids[n],
                answers[n],
                hosts[n + 1],
                caches[n + 1],
            ),
    ensures
        caches[j].answers().contains_key(ids[i]),
        caches[j].answers()[ids[i]] == answers[i],
    decreases j,
{
    let last = ids[j - 1];
    if i < j - 1 {
        lemma_cached_stays_known(caches, hosts, ids, answers, i, j - 1);
    }
}

} // verus!
