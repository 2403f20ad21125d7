//! Filter checks on batches of candidates and the bounded list of the ones that
//! passed.

use vstd::prelude::*;
use vstd::multiset::Multiset;
use crate::candidate::Candidate;
use crate::heap::RankHeap;
use crate::ordered_f32::OrderedF32;

verus! {

/// What a search knows after some filter checks: the candidates kept, how many
/// checks counted, and how many of those passed.
#[verifier::ext_equal]
pub struct Tally {
    pub results: Multiset<Candidate>,
    pub evals: int,
    pub passed: int,
}

/// Whether a candidate is too far to be worth a check: the list is full and the
/// candidate is farther than the farthest one kept.
pub open spec fn skips(results: Multiset<Candidate>, cap: nat, c: Candidate) -> bool {
    results.len() >= cap && crate::heap::greatest(results).distance.less(c.distance)
}

/// The list after a candidate was added: over the limit, the farthest leaves.
pub open spec fn with_kept(results: Multiset<Candidate>, cap: nat, c: Candidate) -> Multiset<
    Candidate,
> {
    let r = results.insert(c);
    if r.len() > cap {
        r.remove(crate::heap::greatest(r))
    } else {
        r
    }
}

/// One candidate's check with its outcome.
pub open spec fn settle(t: Tally, cap: nat, c: Candidate, pass: bool) -> Tally {
    if skips(t.results, cap, c) {
        t
    } else if pass {
        Tally { results: with_kept(t.results, cap, c), evals: t.evals + 1, passed: t.passed + 1 }
    } else {
        Tally { evals: t.evals + 1, ..t }
    }
}

/// The checks of the first `n` candidates with their outcomes.
pub open spec fn settle_first(
    t: Tally,
    cap: nat,
    cs: Seq<Candidate>,
    verdicts: Seq<bool>,
    n: int,
) -> Tally
    decreases n,
{
    if n <= 0 {
        t
    } else {
        settle(settle_first(t, cap, cs, verdicts, n - 1), cap, cs[n - 1], verdicts[n - 1])
    }
}

/// A filter callback can be asked about any id, whatever the host has come to.
pub open spec fn can_ask<C, F: Fn(C, u64, u32) -> (C, u8)>(f: F, context_id: u64) -> bool {
    forall|host: C, id: u32| #[trigger] call_requires(f, (host, context_id, id))
}

/// One call of a filter callback on `id` may answer `verdict`, and turn the host
/// from `before` into `after`.
pub open spec fn asks<C, F: Fn(C, u64, u32) -> (C, u8)>(
    f: F,
    context_id: u64,
    id: u32,
    verdict: bool,
    before: C,
    after: C,
) -> bool {
    exists|r: u8| #[trigger]
        call_ensures(f, (before, context_id, id), (after, r)) && verdict == (r != 0)
}

/// One call of a batch callback on `ids` may answer `verdicts`, and turn the
/// host from `before` into `after`.
pub open spec fn asks_batch<C, B: Fn(C, u64, &Vec<u32>) -> (C, Vec<u8>)>(
    b: B,
    context_id: u64,
    ids: Seq<u32>,
    verdicts: Seq<bool>,
    before: C,
    after: C,
) -> bool {
    exists|v: Vec<u32>, r: Vec<u8>| #[trigger]
        call_ensures(b, (before, context_id, &v), (after, r)) && v@ == ids && r@.len()
            == ids.len() && verdicts == verdicts_of(r@)
}

/// A batch callback can be asked about any ids, and answers with one byte each.
pub open spec fn answers_each<C, B: Fn(C, u64, &Vec<u32>) -> (C, Vec<u8>)>(
    b: B,
    context_id: u64,
) -> bool {
    &&& forall|host: C, v: Vec<u32>| #[trigger] call_requires(b, (host, context_id, &v))
    &&& forall|host: C, v: Vec<u32>, after: C, r: Vec<u8>| #[trigger]
        call_ensures(b, (host, context_id, &v), (after, r)) ==> r@.len() == v@.len()
}

/// The ids of some candidates.
pub open spec fn ids_of(cs: Seq<Candidate>) -> Seq<u32> {
    cs.map_values(|c: Candidate| c.id)
}

/// The end of the chunk that begins at `start`.
pub open spec fn chunk_end(start: int, size: int, len: int) -> int {
    if start + size <= len {
        start + size
    } else {
        len
    }
}

/// A candidate that is skipped is not asked about; any other gets its outcome
/// from one call of the callback.
pub open spec fn asks_unless_skipped<C, F: Fn(C, u64, u32) -> (C, u8)>(
    f: F,
    context_id: u64,
    skipped: bool,
    c: Candidate,
    verdict: bool,
    before: C,
    after: C,
) -> bool {
    if skipped {
        after == before
    } else {
        asks(f, context_id, c.id, verdict, before, after)
    }
}

/// The calls are these: one of the callback for each candidate that is not
/// skipped, in order. They lead the host through `hosts`.
pub open spec fn asked_singly<C, F: Fn(C, u64, u32) -> (C, u8)>(
    f: F,
    context_id: u64,
    t: Tally,
    cap: nat,
    cs: Seq<Candidate>,
    verdicts: Seq<bool>,
    hosts: Seq<C>,
) -> bool {
    forall|i: int|
        0 <= i < cs.len() ==> asks_unless_skipped(
            f,
            context_id,
            skips(settle_first(t, cap, cs, verdicts, i).results, cap, cs[i]),
            #[trigger] cs[i],
            verdicts[i],
            hosts[i],
            hosts[i + 1],
        )
}

/// The calls are these: one of the callback for each chunk of candidates, in
/// order. The call on a chunk leads the host from where `hosts` has it at the
/// start of the chunk to where it has it at the end.
pub open spec fn asked_in_chunks<C, B: Fn(C, u64, &Vec<u32>) -> (C, Vec<u8>)>(
    b: B,
    context_id: u64,
    size: int,
    cs: Seq<Candidate>,
    verdicts: Seq<bool>,
    hosts: Seq<C>,
) -> bool {
    forall|start: int| #![trigger chunk_end(start, size, cs.len() as int)]
        0 <= start < cs.len() && start % size == 0 ==> asks_batch(
            b,
            context_id,
            ids_of(cs).subrange(start, chunk_end(start, size, cs.len() as int)),
            verdicts.subrange(start, chunk_end(start, size, cs.len() as int)),
            hosts[start],
            hosts[chunk_end(start, size, cs.len() as int)],
        )
}

/// The callback that plain checks ask can be asked.
pub open spec fn plain_usable<
    C,
    F: Fn(C, u64, u32) -> (C, u8),
    B: Fn(C, u64, &Vec<u32>) -> (C, Vec<u8>),
>(f: F, b: Option<B>, context_id: u64, batch_size: usize) -> bool {
    if batch_size > 1 && b is Some {
        answers_each::<C, B>(b->0, context_id)
    } else {
        can_ask::<C, F>(f, context_id)
    }
}

/// The calls that plain checks make, and how their outcomes came about. `hosts`
/// begins with the host before the calls and ends with the host after them.
pub open spec fn plain_checks<
    C,
    F: Fn(C, u64, u32) -> (C, u8),
    B: Fn(C, u64, &Vec<u32>) -> (C, Vec<u8>),
>(
    f: F,
    b: Option<B>,
    context_id: u64,
    batch_size: usize,
    t: Tally,
    cap: nat,
    cs: Seq<Candidate>,
    verdicts: Seq<bool>,
    hosts: Seq<C>,
) -> bool {
    &&& verdicts.len() == cs.len()
    &&& hosts.len() == cs.len() + 1
    &&& if batch_size > 1 && b is Some {
        asked_in_chunks(b->0, context_id, batch_size as int, cs, verdicts, hosts)
    } else {
        asked_singly(f, context_id, t, cap, cs, verdicts, hosts)
    }
}

/// Each check counts at most once.
pub proof fn lemma_checks_count(
    t: Tally,
    cap: nat,
    cs: Seq<Candidate>,
    verdicts: Seq<bool>,
    n: int,
)
    requires
        n >= 0,
    ensures
        t.evals <= settle_first(t, cap, cs, verdicts, n).evals <= t.evals + n,
        t.passed <= settle_first(t, cap, cs, verdicts, n).passed <= t.passed + (settle_first(
            t,
            cap,
            cs,
            verdicts,
            n,
        ).evals - t.evals),
    decreases n,
{
    if n > 0 {
        lemma_checks_count(t, cap, cs, verdicts, n - 1);
    }
}

/// How many of the first `n` candidates are not skipped.
pub open spec fn unskipped(
    t: Tally,
    cap: nat,
    cs: Seq<Candidate>,
    verdicts: Seq<bool>,
    n: int,
) -> int
    decreases n,
{
    if n <= 0 {
        0
    } else {
        unskipped(t, cap, cs, verdicts, n - 1) + if skips(
            settle_first(t, cap, cs, verdicts, n - 1).results,
            cap,
            cs[n - 1],
        ) {
            0int
        } else {
            1
        }
    }
}

/// The checks that count are those on candidates that are not skipped: in single
/// mode, one for each call.
pub proof fn lemma_unskipped_are_counted(
    t: Tally,
    cap: nat,
    cs: Seq<Candidate>,
    verdicts: Seq<bool>,
    n: int,
)
    ensures
        settle_first(t, cap, cs, verdicts, n).evals == t.evals + unskipped(
            t,
            cap,
            cs,
            verdicts,
            n,
        ),
    decreases n,
{
    if n > 0 {
        lemma_unskipped_are_counted(t, cap, cs, verdicts, n - 1);
    }
}

/// Candidates together with those of the first `n` whose outcome is a pass.
pub open spec fn with_passing(
    all: Multiset<Candidate>,
    cs: Seq<Candidate>,
    verdicts: Seq<bool>,
    n: int,
) -> Multiset<Candidate>
    decreases n,
{
    if n <= 0 {
        all
    } else if verdicts[n - 1] {
        with_passing(all, cs, verdicts, n - 1).insert(cs[n - 1])
    } else {
        with_passing(all, cs, verdicts, n - 1)
    }
}

/// `kept` is what remains of `all` when only the `cap` nearest stay.
pub open spec fn nearest_of(
    kept: Multiset<Candidate>,
    all: Multiset<Candidate>,
    cap: nat,
) -> bool {
    &&& kept.subset_of(all)
    &&& kept.len() == if all.len() <= cap {
        all.len()
    } else {
        cap
    }
    &&& forall|x: Candidate, y: Candidate| #[trigger]
        kept.count(x) > 0 && #[trigger] all.count(y) > kept.count(y) ==> x.place() <= y.place()
}

/// The nearest of the nearest are the nearest of all.
pub proof fn lemma_nearest_of_nearest(
    few: Multiset<Candidate>,
    kept: Multiset<Candidate>,
    all: Multiset<Candidate>,
    k: nat,
    cap: nat,
)
    requires
        nearest_of(few, kept, k),
        nearest_of(kept, all, cap),
        k <= cap,
    ensures
        nearest_of(few, all, k),
{
    assert forall|x: Candidate, y: Candidate| #[trigger]
        few.count(x) > 0 && #[trigger] all.count(y) > few.count(y) implies x.place()
        <= y.place() by {
        assert(few.count(x) <= kept.count(x));
        if kept.count(y) <= few.count(y) {
            assert(all.count(y) > kept.count(y));
        } else {
            assert(kept.count(y) > few.count(y));
        }
    }
    assert forall|x: Candidate| #[trigger] few.count(x) <= all.count(x) by {
        assert(few.count(x) <= kept.count(x));
        assert(kept.count(x) <= all.count(x));
    }
}

/// No two candidates have the same id.
pub open spec fn ids_once(cs: Multiset<Candidate>) -> bool {
    &&& forall|c: Candidate| #[trigger] cs.count(c) <= 1
    &&& forall|a: Candidate, b: Candidate| #[trigger]
        cs.count(a) > 0 && #[trigger] cs.count(b) > 0 && a.id == b.id ==> a == b
}

/// Checks on candidates with new ids keep ids unique, and let no one in but
/// those candidates; the list stays within its limit.
pub proof fn lemma_checks_keep_ids(
    t: Tally,
    cap: nat,
    cs: Seq<Candidate>,
    verdicts: Seq<bool>,
    n: int,
)
    requires
        0 <= n <= cs.len(),
        ids_once(t.results),
        t.results.len() <= cap,
        ids_of(cs).no_duplicates(),
        forall|c: Candidate| #[trigger] t.results.count(c) > 0 ==> !ids_of(cs).contains(c.id),
    ensures
        ids_once(settle_first(t, cap, cs, verdicts, n).results),
        settle_first(t, cap, cs, verdicts, n).results.len() <= cap,
        forall|c: Candidate| #[trigger]
            settle_first(t, cap, cs, verdicts, n).results.count(c) > 0 ==> t.results.count(c) > 0
                || exists|i: int| 0 <= i < n && #[trigger] cs[i] == c,
    decreases n,
{
    broadcast use vstd::multiset::group_multiset_axioms;

    if n > 0 {
        lemma_checks_keep_ids(t, cap, cs, verdicts, n - 1);
        let before = settle_first(t, cap, cs, verdicts, n - 1).results;
        let after = settle_first(t, cap, cs, verdicts, n).results;
        let c = cs[n - 1];
        assert(ids_of(cs)[n - 1] == c.id);
        assert forall|x: Candidate| #[trigger] before.count(x) > 0 implies x.id != c.id by {
            if t.results.count(x) == 0 {
                let i = choose|i: int| 0 <= i < n - 1 && #[trigger] cs[i] == x;
                assert(ids_of(cs)[i] != ids_of(cs)[n - 1]);
            }
        }
        let r = before.insert(c);
        assert(before.count(c) == 0);
        if r.len() > cap {
            crate::heap::lemma_greatest_exists(r);
        }
        assert forall|x: Candidate| #[trigger] after.count(x) <= r.count(x) by {}
        assert forall|x: Candidate| #[trigger] after.count(x) > 0 implies t.results.count(x) > 0
            || exists|i: int| 0 <= i < n && #[trigger] cs[i] == x by {
            if x == c {
                assert(cs[n - 1] == x);
            } else {
                assert(before.count(x) > 0);
            }
        }
        assert forall|a: Candidate, b: Candidate| #[trigger]
            after.count(a) > 0 && #[trigger] after.count(b) > 0 && a.id == b.id implies a == b by {
            if a != c {
                assert(before.count(a) > 0);
            }
            if b != c {
                assert(before.count(b) > 0);
            }
        }
    }
}

/// Candidates from the nearest to the farthest.
pub open spec fn ascending(cs: Seq<Candidate>) -> bool {
    forall|i: int, j: int|
        0 <= i < j < cs.len() ==> (#[trigger] cs[i]).place() <= (#[trigger] cs[j]).place()
}

/// The first `k` of sorted candidates are the `k` nearest.
proof fn lemma_first_are_nearest(sorted: Seq<Candidate>, k: int)
    requires
        ascending(sorted),
        0 <= k <= sorted.len(),
    ensures
        nearest_of(sorted.subrange(0, k).to_multiset(), sorted.to_multiset(), k as nat),
{
    broadcast use vstd::seq_lib::group_to_multiset_ensures;
    broadcast use vstd::multiset::group_multiset_axioms;

    let first = sorted.subrange(0, k);
    let rest = sorted.subrange(k, sorted.len() as int);
    assert(first + rest =~= sorted);
    vstd::seq_lib::lemma_multiset_commutative(first, rest);
    let kept = first.to_multiset();
    let all = sorted.to_multiset();
    assert forall|x: Candidate, y: Candidate| #[trigger]
        kept.count(x) > 0 && #[trigger] all.count(y) > kept.count(y) implies x.place()
        <= y.place() by {
        assert(first.contains(x));
        assert(rest.to_multiset().count(y) > 0);
        assert(rest.contains(y));
        let i = choose|i: int| 0 <= i < first.len() && first[i] == x;
        let j = choose|j: int| 0 <= j < rest.len() && rest[j] == y;
        assert(sorted[i] == x && sorted[k + j] == y);
    }
}

/// Checks keep the `cap` nearest of all candidates that passed: skipping the
/// ones that are too far never costs a result.
pub proof fn lemma_checks_keep_nearest(
    t: Tally,
    all: Multiset<Candidate>,
    cap: nat,
    cs: Seq<Candidate>,
    verdicts: Seq<bool>,
    n: int,
)
    requires
        cap > 0,
        nearest_of(t.results, all, cap),
    ensures
        nearest_of(
            settle_first(t, cap, cs, verdicts, n).results,
            with_passing(all, cs, verdicts, n),
            cap,
        ),
    decreases n,
{
    if n > 0 {
        lemma_checks_keep_nearest(t, all, cap, cs, verdicts, n - 1);
        lemma_settle_keeps_nearest(
            settle_first(t, cap, cs, verdicts, n - 1),
            with_passing(all, cs, verdicts, n - 1),
            cap,
            cs[n - 1],
            verdicts[n - 1],
        );
    }
}

proof fn lemma_settle_keeps_nearest(
    t: Tally,
    all: Multiset<Candidate>,
    cap: nat,
    c: Candidate,
    pass: bool,
)
    requires
        cap > 0,
        nearest_of(t.results, all, cap),
    ensures
        nearest_of(
            settle(t, cap, c, pass).results,
            if pass {
                all.insert(c)
            } else {
                all
            },
            cap,
        ),
{
    broadcast use vstd::multiset::group_multiset_axioms;

    if pass {
        let kept = t.results;
        let all2 = all.insert(c);
        if skips(kept, cap, c) {
            crate::heap::lemma_greatest_exists(kept);
            let worst = crate::heap::greatest(kept);
            crate::ordered_f32::lemma_key_orders(worst.distance, c.distance);
            assert forall|x: Candidate, y: Candidate| #[trigger]
                kept.count(x) > 0 && #[trigger] all2.count(y) > kept.count(y) implies x.place()
                <= y.place() by {
                if y == c {
                    assert(x.place() <= worst.place());
                } else {
                    assert(all.count(y) > kept.count(y));
                }
            }
        } else {
            let r = kept.insert(c);
            if r.len() > cap {
                crate::heap::lemma_greatest_exists(r);
                let g = crate::heap::greatest(r);
                let kept2 = r.remove(g);
                assert forall|x: Candidate, y: Candidate| #[trigger]
                    kept2.count(x) > 0 && #[trigger] all2.count(y) > kept2.count(y) implies x.place()
                    <= y.place() by {
                    assert(r.count(x) > 0);
                    if y != g {
                        assert(all.count(y) > kept.count(y));
                        if kept.count(x) == 0 {
                            assert(x == c && g != c);
                            assert(kept.count(g) > 0);
                        }
                    }
                }
            } else {
                assert(all.sub(kept).len() == 0);
                assert forall|y: Candidate| all.count(y) == kept.count(y) by {
                    assert(all.sub(kept).count(y) == 0);
                }
            }
        }
    }
}

/// The candidates that passed the filter so far, at most `cap` of them, with
/// the counts of the checks made.
pub struct FilteredResults {
    heap: RankHeap<Candidate>,
    cap: usize,
    evals: u32,
    passed: u32,
}

impl View for FilteredResults {
    type V = Tally;

    closed spec fn view(&self) -> Tally {
        Tally { results: self.heap@, evals: self.evals as int, passed: self.passed as int }
    }
}

impl FilteredResults {
    /// How many candidates the list holds at most.
    pub closed spec fn limit(&self) -> nat {
        self.cap as nat
    }

    /// The list is within its limit, and no more checks passed than were made.
    pub closed spec fn wf(&self) -> bool {
        &&& self.heap.wf()
        &&& self.cap > 0
        &&& self.heap@.len() <= self.cap
        &&& self.passed <= self.evals
    }

    /// What `wf` says of the view.
    pub proof fn lemma_wf(&self)
        requires
            self.wf(),
        ensures
            0 < self.limit() <= usize::MAX,
            self@.results.len() <= self.limit(),
            0 <= self@.passed <= self@.evals <= u32::MAX,
    {
    }

    /// An empty list that holds at most `cap` candidates.
    pub fn new(cap: usize) -> (r: Self)
        requires
            cap > 0,
        ensures
            r.wf(),
            r.limit() == cap,
            r@ == (Tally { results: Multiset::empty(), evals: 0, passed: 0 }),
    {
        broadcast use vstd::multiset::group_multiset_axioms;

        FilteredResults { heap: RankHeap::new(), cap, evals: 0, passed: 0 }
    }

    /// The number of candidates kept.
    pub fn len(&self) -> (n: usize)
        ensures
            n == self@.results.len(),
    {
        self.heap.len()
    }

    /// How many checks counted.
    pub fn filter_evals(&self) -> (n: u32)
        ensures
            n == self@.evals,
    {
        self.evals
    }

    /// How many checks passed.
    pub fn filter_passed(&self) -> (n: u32)
        ensures
            n == self@.passed,
    {
        self.passed
    }

    /// The distance of the farthest candidate kept, if there is any.
    pub fn worst(&self) -> (r: Option<OrderedF32>)
        requires
            self.wf(),
        ensures
            r is None <==> self@.results.len() == 0,
            r matches Some(d) ==> d == crate::heap::greatest(self@.results).distance,
    {
        match self.heap.peek() {
            Some(c) => Some(c.distance),
            None => None,
        }
    }

    /// Whether a candidate is too far to be worth a check.
    pub(crate) fn is_too_far(&self, c: Candidate) -> (r: bool)
        requires
            self.wf(),
        ensures
            r == skips(self@.results, self.limit(), c),
    {
        if self.heap.len() >= self.cap {
            match self.heap.peek() {
                Some(worst) => c.distance.gt(worst.distance),
                None => false,
            }
        } else {
            false
        }
    }

    /// The `k` nearest of the candidates kept, from the nearest on.
    pub fn into_nearest(self, k: usize) -> (r: Vec<Candidate>)
        requires
            self.wf(),
        ensures
            ascending(r@),
            nearest_of(r@.to_multiset(), self@.results, k as nat),
    {
        let mut sorted = self.heap.into_sorted();
        let ghost all = sorted@;
        sorted.truncate(k);
        proof {
            broadcast use vstd::seq_lib::group_to_multiset_ensures;

            if k <= all.len() {
                lemma_first_are_nearest(all, k as int);
            } else {
                lemma_first_are_nearest(all, all.len() as int);
                assert(all.subrange(0, all.len() as int) =~= all);
            }
        }
        sorted
    }

    /// Counts a check on a candidate that is not skipped, and keeps the
    /// candidate if it passed.
    pub(crate) fn count(&mut self, c: Candidate, pass: bool)
        requires
            old(self).wf(),
            old(self)@.evals < u32::MAX,
            !skips(old(self)@.results, old(self).limit(), c),
        ensures
            final(self).wf(),
            final(self).limit() == old(self).limit(),
            final(self)@ == settle(old(self)@, old(self).limit(), c, pass),
    {
        broadcast use vstd::multiset::group_multiset_axioms;

        self.evals = self.evals + 1;
        if pass {
            self.passed = self.passed + 1;
            self.heap.push(c);
            if self.heap.len() > self.cap {
                let _ = self.heap.pop();
            }
        }
    }
}

/// The ids of the candidates from `start` up to `end`.
pub(crate) fn collect_ids(pending: &Vec<Candidate>, start: usize, end: usize) -> (ids: Vec<u32>)
    requires
        start <= end <= pending@.len(),
    ensures
        ids@ == ids_of(pending@).subrange(start as int, end as int),
{
    let mut ids: Vec<u32> = Vec::new();
    let mut i: usize = start;
    while i < end
        invariant
            start <= i <= end <= pending@.len(),
            ids@ == ids_of(pending@).subrange(start as int, i as int),
        decreases end - i,
    {
        ids.push(pending[i].id);
        i = i + 1;
        assert(ids@ =~= ids_of(pending@).subrange(start as int, i as int));
    }
    ids
}

/// The outcomes that a batch callback's bytes stand for.
pub open spec fn verdicts_of(pass_buf: Seq<u8>) -> Seq<bool> {
    pass_buf.map_values(|x: u8| x != 0)
}

/// Only the first `n` outcomes matter to the first `n` checks.
proof fn lemma_settle_frame(
    t: Tally,
    cap: nat,
    cs: Seq<Candidate>,
    v: Seq<bool>,
    w: Seq<bool>,
    n: int,
)
    requires
        forall|i: int| 0 <= i < n ==> v[i] == w[i],
    ensures
        settle_first(t, cap, cs, v, n) == settle_first(t, cap, cs, w, n),
    decreases n,
{
    if n > 0 {
        lemma_settle_frame(t, cap, cs, v, w, n - 1);
    }
}

/// Checks made in two stretches are the checks made in one.
proof fn lemma_settle_split(
    t: Tally,
    cap: nat,
    cs: Seq<Candidate>,
    v: Seq<bool>,
    m: int,
    n: int,
)
    requires
        0 <= m <= n <= cs.len(),
        n <= v.len(),
    ensures
        settle_first(t, cap, cs, v, n) == settle_first(
            settle_first(t, cap, cs, v, m),
            cap,
            cs.subrange(m, n),
            v.subrange(m, n),
            n - m,
        ),
    decreases n - m,
{
    if m < n {
        lemma_settle_split(t, cap, cs, v, m, n - 1);
        let t1 = settle_first(t, cap, cs, v, m);
        lemma_settle_cut(t1, cap, cs.subrange(m, n), v.subrange(m, n), n - 1 - m);
        assert(cs.subrange(m, n).subrange(0, n - 1 - m) =~= cs.subrange(m, n - 1));
        assert(v.subrange(m, n).subrange(0, n - 1 - m) =~= v.subrange(m, n - 1));
    }
}

/// Only the first `n` candidates and outcomes matter to the first `n` checks.
proof fn lemma_settle_cut(t: Tally, cap: nat, cs: Seq<Candidate>, v: Seq<bool>, n: int)
    requires
        0 <= n <= cs.len(),
        n <= v.len(),
    ensures
        settle_first(t, cap, cs, v, n) == settle_first(
            t,
            cap,
            cs.subrange(0, n),
            v.subrange(0, n),
            n,
        ),
    decreases n,
{
    if n > 0 {
        lemma_settle_cut(t, cap, cs, v, n - 1);
        lemma_settle_cut(t, cap, cs.subrange(0, n), v.subrange(0, n), n - 1);
        assert(cs.subrange(0, n).subrange(0, n - 1) =~= cs.subrange(0, n - 1));
        assert(v.subrange(0, n).subrange(0, n - 1) =~= v.subrange(0, n - 1));
    }
}

/// Checks a chunk of candidates against the answers of a batch callback.
fn settle_chunk(
    pending: &Vec<Candidate>,
    start: usize,
    pass_buf: &Vec<u8>,
    results: &mut FilteredResults,
)
    requires
        start + pass_buf@.len() <= pending@.len(),
        old(results).wf(),
        old(results)@.evals + pass_buf@.len() <= u32::MAX,
    ensures
        final(results).wf(),
        final(results).limit() == old(results).limit(),
        final(results)@.evals <= old(results)@.evals + pass_buf@.len(),
        final(results)@ == settle_first(
            old(results)@,
            old(results).limit(),
            pending@.subrange(start as int, start + pass_buf@.len()),
            verdicts_of(pass_buf@),
            pass_buf@.len() as int,
        ),
{
    let ghost t = results@;
    let ghost cap = results.limit();
    let ghost cs = pending@.subrange(start as int, start + pass_buf@.len());
    let ghost v = verdicts_of(pass_buf@);
    let len = pending.len();
    let mut i: usize = 0;
    while i < pass_buf.len()
        invariant
            len == pending@.len(),
            i <= pass_buf@.len(),
            start + pass_buf@.len() <= pending@.len(),
            cs == pending@.subrange(start as int, start + pass_buf@.len()),
            v == verdicts_of(pass_buf@),
            results.wf(),
            results.limit() == cap,
            t.evals + pass_buf@.len() <= u32::MAX,
            results@.evals <= t.evals + i,
            results@ == settle_first(t, cap, cs, v, i as int),
        decreases pass_buf@.len() - i,
    {
        let c = pending[start + i];
        assert(c == cs[i as int]);
        if !results.is_too_far(c) {
            results.count(c, pass_buf[i] != 0);
        }
        i = i + 1;
    }
}

/// Evaluates the filter for some candidates. Asks the batch callback, a chunk
/// at a time, if there is one and chunks hold more than one candidate;
/// otherwise asks the single callback, and only about candidates that are not
/// skipped. Gives the host back as the calls left it.
pub fn filter_candidates_batch<
    C,
    F: Fn(C, u64, u32) -> (C, u8),
    B: Fn(C, u64, &Vec<u32>) -> (C, Vec<u8>),
>(
    host: C,
    context_id: u64,
    pending: &Vec<Candidate>,
    filter_callback: &F,
    batch_cb: &Option<B>,
    batch_size: usize,
    results: &mut FilteredResults,
) -> (r: C)
    requires
        old(results).wf(),
        old(results)@.evals + pending@.len() <= u32::MAX,
        plain_usable::<C, F, B>(*filter_callback, *batch_cb, context_id, batch_size),
    ensures
        final(results).wf(),
        final(results).limit() == old(results).limit(),
        exists|verdicts: Seq<bool>, hosts: Seq<C>|
            {
                &&& #[trigger] plain_checks(
                    *filter_callback,
                    *batch_cb,
                    context_id,
                    batch_size,
                    old(results)@,
                    old(results).limit(),
                    pending@,
                    verdicts,
                    hosts,
                )
                &&& final(results)@ == settle_first(
                    old(results)@,
                    old(results).limit(),
                    pending@,
                    verdicts,
                    pending@.len() as int,
                )
                &&& hosts[0] == host
                &&& hosts[pending@.len() as int] == r
            },
{
    if batch_size > 1 {
        if let Some(b) = batch_cb {
            let (r, Ghost(verdicts), Ghost(hosts)) = filter_in_chunks(
                host,
                context_id,
                pending,
                b,
                batch_size,
                results,
            );
            assert(plain_checks(
                *filter_callback,
                *batch_cb,
                context_id,
                batch_size,
                old(results)@,
                old(results).limit(),
                pending@,
                verdicts,
                hosts,
            ));
            return r;
        }
    }
    let ghost t = results@;
    let ghost cap = results.limit();
    let ghost mut verdicts = Seq::<bool>::empty();
    let ghost mut hosts = seq![host];
    let mut at = host;
    let mut i: usize = 0;
    while i < pending.len()
        invariant
            i <= pending@.len(),
            verdicts.len() == i,
            hosts.len() == i + 1,
            hosts[0] == host,
            hosts[i as int] == at,
            results.wf(),
            results.limit() == cap,
            t.evals + pending@.len() <= u32::MAX,
            results@.evals <= t.evals + i,
            results@ == settle_first(t, cap, pending@, verdicts, i as int),
            can_ask::<C, F>(*filter_callback, context_id),
            forall|j: int|
                0 <= j < i ==> asks_unless_skipped(
                    *filter_callback,
                    context_id,
                    skips(settle_first(t, cap, pending@, verdicts, j).results, cap, pending@[j]),
                    #[trigger] pending@[j],
                    verdicts[j],
                    hosts[j],
                    hosts[j + 1],
                ),
        decreases pending@.len() - i,
    {
        let c = pending[i];
        let ghost known = verdicts;
        let ghost trail = hosts;
        let ghost mut verdict = false;
        let ghost before = at;
        if !results.is_too_far(c) {
            let (after, answer) = filter_callback(at, context_id, c.id);
            at = after;
            proof {
                verdict = answer != 0;
                assert(call_ensures(
                    *filter_callback,
                    (before, context_id, c.id),
                    (after, answer),
                ));
                assert(asks(*filter_callback, context_id, c.id, verdict, before, after));
            }
            results.count(c, answer != 0);
        }
        proof {
            verdicts = known.push(verdict);
            hosts = trail.push(at);
            assert forall|j: int| 0 <= j <= i implies #[trigger] settle_first(
                t,
                cap,
                pending@,
                verdicts,
                j,
            ) == settle_first(t, cap, pending@, known, j) by {
                lemma_settle_frame(t, cap, pending@, verdicts, known, j);
            }
            assert(results@ == settle(
                settle_first(t, cap, pending@, verdicts, i as int),
                cap,
                c,
                verdict,
            ));
            assert forall|j: int| 0 <= j < i + 1 implies asks_unless_skipped(
                *filter_callback,
                context_id,
                skips(settle_first(t, cap, pending@, verdicts, j).results, cap, pending@[j]),
                #[trigger] pending@[j],
                verdicts[j],
                hosts[j],
                hosts[j + 1],
            ) by {
                if j < i {
                    let same = pending@[j];
                    assert(verdicts[j] == known[j]);
                    assert(hosts[j] == trail[j] && hosts[j + 1] == trail[j + 1]);
                }
            }
        }
        i = i + 1;
    }
    assert(plain_checks(
        *filter_callback,
        *batch_cb,
        context_id,
        batch_size,
        t,
        cap,
        pending@,
        verdicts,
        hosts,
    ));
    at
}

/// The branch that asks a batch callback, a chunk at a time. The outcomes and
/// the hosts come along as ghosts.
fn filter_in_chunks<C, B: Fn(C, u64, &Vec<u32>) -> (C, Vec<u8>)>(
    host: C,
    context_id: u64,
    pending: &Vec<Candidate>,
    batch_cb: &B,
    batch_size: usize,
    results: &mut FilteredResults,
) -> (r: (C, Ghost<Seq<bool>>, Ghost<Seq<C>>))
    requires
        batch_size > 1,
        old(results).wf(),
        old(results)@.evals + pending@.len() <= u32::MAX,
        answers_each::<C, B>(*batch_cb, context_id),
    ensures
        final(results).wf(),
        final(results).limit() == old(results).limit(),
        r.1@.len() == pending@.len(),
        r.2@.len() == pending@.len() + 1,
        final(results)@ == settle_first(
            old(results)@,
            old(results).limit(),
            pending@,
            r.1@,
            pending@.len() as int,
        ),
        asked_in_chunks(*batch_cb, context_id, batch_size as int, pending@, r.1@, r.2@),
        r.2@[0] == host,
        r.2@[pending@.len() as int] == r.0,
{
    let ghost t = results@;
    let ghost cap = results.limit();
    let ghost len = pending@.len() as int;
    let ghost size = batch_size as int;
    let ghost mut verdicts = Seq::<bool>::empty();
    let ghost mut hosts = seq![host];
    let mut at = host;
    let mut start: usize = 0;
    while start < pending.len()
        invariant
            batch_size > 1,
            size == batch_size,
            len == pending@.len(),
            start <= pending@.len(),
            verdicts.len() == start,
            hosts.len() == start + 1,
            hosts[0] == host,
            hosts[start as int] == at,
            start < len ==> start as int % size == 0,
            results.wf(),
            results.limit() == cap,
            t.evals + pending@.len() <= u32::MAX,
            results@.evals <= t.evals + start,
            results@ == settle_first(t, cap, pending@, verdicts, start as int),
            answers_each::<C, B>(*batch_cb, context_id),
            forall|s: int| #![trigger chunk_end(s, size, len)]
                0 <= s < start && s % size == 0 ==> chunk_end(s, size, len) <= start
                    && asks_batch(
                    *batch_cb,
                    context_id,
                    ids_of(pending@).subrange(s, chunk_end(s, size, len)),
                    verdicts.subrange(s, chunk_end(s, size, len)),
                    hosts[s],
                    hosts[chunk_end(s, size, len)],
                ),
        decreases pending@.len() - start,
    {
        let n = pending.len();
        let end: usize = if n - start >= batch_size {
            start + batch_size
        } else {
            n
        };
        let ids = collect_ids(pending, start, end);
        let ghost before = at;
        let (after, pass_buf) = batch_cb(at, context_id, &ids);
        at = after;
        let ghost known = verdicts;
        let ghost trail = hosts;
        let ghost fresh = verdicts_of(pass_buf@);
        proof {
            assert(call_ensures(*batch_cb, (before, context_id, &ids), (after, pass_buf)));
        }
        settle_chunk(pending, start, &pass_buf, results);
        proof {
            verdicts = known + fresh;
            hosts = trail + Seq::new((end - start) as nat, |i: int| after);
            assert(end == chunk_end(start as int, size, len));
            assert(verdicts.subrange(start as int, end as int) =~= fresh);
            assert(asks_batch(
                *batch_cb,
                context_id,
                ids_of(pending@).subrange(start as int, end as int),
                fresh,
                before,
                after,
            ));
            lemma_settle_frame(t, cap, pending@, verdicts, known, start as int);
            lemma_settle_split(t, cap, pending@, verdicts, start as int, end as int);
            assert forall|s: int| #![trigger chunk_end(s, size, len)]
                0 <= s < end && s % size == 0 implies chunk_end(s, size, len) <= end
                && asks_batch(
                *batch_cb,
                context_id,
                ids_of(pending@).subrange(s, chunk_end(s, size, len)),
                verdicts.subrange(s, chunk_end(s, size, len)),
                hosts[s],
                hosts[chunk_end(s, size, len)],
            ) by {
                if s < start {
                    assert(verdicts.subrange(s, chunk_end(s, size, len)) =~= known.subrange(
                        s,
                        chunk_end(s, size, len),
                    ));
                } else {
                    lemma_chunk_starts(start as int, s, size);
                }
            }
            if end < len {
                vstd::arithmetic::div_mod::lemma_mod_add_multiples_vanish(start as int, size);
            }
        }
        start = end;
    }
    (at, Ghost(verdicts), Ghost(hosts))
}

/// Chunks begin `size` apart.
pub(crate) proof fn lemma_chunk_starts(start: int, s: int, size: int)
    requires
        size > 0,
        start % size == 0,
        s % size == 0,
        start <= s < start + size,
    ensures
        s == start,
{
    vstd::arithmetic::div_mod::lemma_fundamental_div_mod(start, size);
    vstd::arithmetic::div_mod::lemma_fundamental_div_mod(s, size);
    let a = start / size;
    let b = s / size;
    assert(a == b) by (nonlinear_arith)
        requires
            size > 0,
            size * a <= size * b < size * a + size,
    ;
}

/// A candidate that waits for its filter check, with the place of its
/// attribute bytes in a shared buffer.
#[derive(Clone, Copy, Debug)]
pub struct PendingCandidate {
    pub candidate: Candidate,
    pub attr_offset: usize,
    pub attr_len: usize,
}

impl PendingCandidate {
    /// The candidate's attribute bytes lie within the buffer.
    pub open spec fn lies_in(self, buffer: Seq<u8>) -> bool {
        self.attr_len > 0 ==> self.attr_offset + self.attr_len <= buffer.len()
    }

    /// The candidate's attribute bytes.
    pub open spec fn attrs(self, buffer: Seq<u8>) -> Seq<u8> {
        if self.attr_len > 0 {
            buffer.subrange(self.attr_offset as int, self.attr_offset + self.attr_len)
        } else {
            Seq::empty()
        }
    }

    /// The candidate's attribute bytes, none if it has no attributes.
    fn attr_slice<'a>(&self, buffer: &'a Vec<u8>) -> (r: &'a [u8])
        requires
            self.lies_in(buffer@),
        ensures
            r@ == self.attrs(buffer@),
    {
        let bytes = buffer.as_slice();
        let n = buffer.len();
        let r = if self.attr_len > 0 {
            &bytes[self.attr_offset..self.attr_offset + self.attr_len]
        } else {
            &bytes[0..0]
        };
        assert(r@ =~= self.attrs(buffer@));
        r
    }
}

/// The candidates without their attributes.
pub open spec fn candidates_of(ps: Seq<PendingCandidate>) -> Seq<Candidate> {
    ps.map_values(|p: PendingCandidate| p.candidate)
}

/// The attribute bytes of each candidate.
pub open spec fn attrs_of(ps: Seq<PendingCandidate>, buffer: Seq<u8>) -> Seq<Seq<u8>> {
    ps.map_values(|p: PendingCandidate| p.attrs(buffer))
}

/// The bytes of each slice.
pub open spec fn views_of(slices: Seq<&[u8]>) -> Seq<Seq<u8>> {
    slices.map_values(|x: &[u8]| x@)
}

/// A filter callback that takes attributes can be asked about any id, whatever
/// the host has come to.
pub open spec fn can_ask_attr<C, F: Fn(C, u64, u32, &[u8]) -> (C, u8)>(
    f: F,
    context_id: u64,
) -> bool {
    forall|host: C, id: u32, a: &[u8]| #[trigger] call_requires(f, (host, context_id, id, a))
}

/// One call of a filter callback that takes attributes may answer `verdict` on
/// `id`, and turn the host from `before` into `after`.
pub open spec fn asks_attr<C, F: Fn(C, u64, u32, &[u8]) -> (C, u8)>(
    f: F,
    context_id: u64,
    id: u32,
    attrs: Seq<u8>,
    verdict: bool,
    before: C,
    after: C,
) -> bool {
    exists|a: &[u8], r: u8| #[trigger]
        call_ensures(f, (before, context_id, id, a), (after, r)) && a@ == attrs && verdict == (r
            != 0)
}

/// One call of a batch callback that takes attributes may answer `verdicts` on
/// `ids`, and turn the host from `before` into `after`.
pub open spec fn asks_attr_batch<C, B: Fn(C, u64, &Vec<u32>, &Vec<&[u8]>) -> (C, Vec<u8>)>(
    b: B,
    context_id: u64,
    ids: Seq<u32>,
    attrs: Seq<Seq<u8>>,
    verdicts: Seq<bool>,
    before: C,
    after: C,
) -> bool {
    exists|v: Vec<u32>, a: Vec<&[u8]>, r: Vec<u8>| #[trigger]
        call_ensures(b, (before, context_id, &v, &a), (after, r)) && v@ == ids && views_of(a@) == attrs && r@.len() == ids.len() && verdicts == verdicts_of(r@)
}

/// A batch callback that takes attributes can be asked about any ids, and
/// answers with one byte each.
pub open spec fn answers_each_attr<C, B: Fn(C, u64, &Vec<u32>, &Vec<&[u8]>) -> (C, Vec<u8>)>(
    b: B,
    context_id: u64,
) -> bool {
    &&& forall|host: C, v: Vec<u32>, a: Vec<&[u8]>| #[trigger]
        call_requires(b, (host, context_id, &v, &a))
    &&& forall|host: C, v: Vec<u32>, a: Vec<&[u8]>, after: C, r: Vec<u8>| #[trigger]
        call_ensures(b, (host, context_id, &v, &a), (after, r)) ==> r@.len() == v@.len()
}

/// A candidate that is skipped is not asked about; any other gets its outcome
/// from one call of the callback, with the candidate's attributes.
pub open spec fn asks_attr_unless_skipped<C, F: Fn(C, u64, u32, &[u8]) -> (C, u8)>(
    f: F,
    context_id: u64,
    skipped: bool,
    p: PendingCandidate,
    buffer: Seq<u8>,
    verdict: bool,
    before: C,
    after: C,
) -> bool {
    if skipped {
        after == before
    } else {
        asks_attr(f, context_id, p.candidate.id, p.attrs(buffer), verdict, before, after)
    }
}

/// The calls are these: one of the callback for each candidate that is not
/// skipped, in order, with the candidate's attributes. They lead the host
/// through `hosts`.
pub open spec fn asked_attr_singly<C, F: Fn(C, u64, u32, &[u8]) -> (C, u8)>(
    f: F,
    context_id: u64,
    t: Tally,
    cap: nat,
    ps: Seq<PendingCandidate>,
    buffer: Seq<u8>,
    verdicts: Seq<bool>,
    hosts: Seq<C>,
) -> bool {
    forall|i: int|
        0 <= i < ps.len() ==> asks_attr_unless_skipped(
            f,
            context_id,
            skips(
                settle_first(t, cap, candidates_of(ps), verdicts, i).results,
                cap,
                ps[i].candidate,
            ),
            #[trigger] ps[i],
            buffer,
            verdicts[i],
            hosts[i],
            hosts[i + 1],
        )
}

/// The calls are these: one of the callback for each chunk of candidates, in
/// order, with the candidates' attributes. The call on a chunk leads the host
/// from where `hosts` has it at the start of the chunk to where it has it at
/// the end.
pub open spec fn asked_attr_in_chunks<
    C,
    B: Fn(C, u64, &Vec<u32>, &Vec<&[u8]>) -> (C, Vec<u8>),
>(
    b: B,
    context_id: u64,
    size: int,
    ps: Seq<PendingCandidate>,
    buffer: Seq<u8>,
    verdicts: Seq<bool>,
    hosts: Seq<C>,
) -> bool {
    forall|start: int| #![trigger chunk_end(start, size, ps.len() as int)]
        0 <= start < ps.len() && start % size == 0 ==> asks_attr_batch(
            b,
            context_id,
            ids_of(candidates_of(ps)).subrange(start, chunk_end(start, size, ps.len() as int)),
            attrs_of(ps, buffer).subrange(start, chunk_end(start, size, ps.len() as int)),
            verdicts.subrange(start, chunk_end(start, size, ps.len() as int)),
            hosts[start],
            hosts[chunk_end(start, size, ps.len() as int)],
        )
}

/// The callbacks that a filter may consist of. Only the single one must be
/// there.
pub struct FilterCallbacks<F, B, G, H> {
    /// Asked about one candidate.
    pub filter: F,
    /// Asked about several candidates at once.
    pub batch_filter: Option<B>,
    /// Asked about one candidate, with its attributes.
    pub filter_with_attr: Option<G>,
    /// Asked about several candidates at once, with their attributes.
    pub batch_filter_with_attr: Option<H>,
}

impl<F, B, G, H> FilterCallbacks<F, B, G, H> {
    /// The callback that checks with attributes ask can be asked about
    /// anything; a batch callback answers with one byte for each candidate.
    pub open spec fn usable<C>(&self, context_id: u64, batch_size: usize) -> bool
        where
            F: Fn(C, u64, u32) -> (C, u8),
            B: Fn(C, u64, &Vec<u32>) -> (C, Vec<u8>),
            G: Fn(C, u64, u32, &[u8]) -> (C, u8),
            H: Fn(C, u64, &Vec<u32>, &Vec<&[u8]>) -> (C, Vec<u8>),
    {
        if batch_size > 1 && self.batch_filter_with_attr is Some {
            answers_each_attr::<C, H>(self.batch_filter_with_attr->0, context_id)
        } else if self.filter_with_attr is Some {
            can_ask_attr::<C, G>(self.filter_with_attr->0, context_id)
        } else {
            plain_usable::<C, F, B>(self.filter, self.batch_filter, context_id, batch_size)
        }
    }

    /// Whether one of the callbacks takes attributes.
    pub open spec fn takes_attrs(&self) -> bool {
        self.filter_with_attr is Some || self.batch_filter_with_attr is Some
    }

    /// Whether one of the callbacks takes attributes.
    pub fn has_attr_callbacks(&self) -> (r: bool)
        ensures
            r == self.takes_attrs(),
    {
        self.filter_with_attr.is_some() || self.batch_filter_with_attr.is_some()
    }

    /// The calls that checks with attributes make, and how their outcomes came
    /// about: from the batch callback that takes attributes, else from the
    /// single one, else from the callbacks that take none. `hosts` begins with
    /// the host before the calls and ends with the host after them.
    pub open spec fn attr_checks<C>(
        &self,
        context_id: u64,
        batch_size: usize,
        t: Tally,
        cap: nat,
        ps: Seq<PendingCandidate>,
        buffer: Seq<u8>,
        verdicts: Seq<bool>,
        hosts: Seq<C>,
    ) -> bool
        where
            F: Fn(C, u64, u32) -> (C, u8),
            B: Fn(C, u64, &Vec<u32>) -> (C, Vec<u8>),
            G: Fn(C, u64, u32, &[u8]) -> (C, u8),
            H: Fn(C, u64, &Vec<u32>, &Vec<&[u8]>) -> (C, Vec<u8>),
    {
        &&& verdicts.len() == ps.len()
        &&& hosts.len() == ps.len() + 1
        &&& if batch_size > 1 && self.batch_filter_with_attr is Some {
            asked_attr_in_chunks(
                self.batch_filter_with_attr->0,
                context_id,
                batch_size as int,
                ps,
                buffer,
                verdicts,
                hosts,
            )
        } else if self.filter_with_attr is Some {
            asked_attr_singly(
                self.filter_with_attr->0,
                context_id,
                t,
                cap,
                ps,
                buffer,
                verdicts,
                hosts,
            )
        } else {
            plain_checks(
                self.filter,
                self.batch_filter,
                context_id,
                batch_size,
                t,
                cap,
                candidates_of(ps),
                verdicts,
                hosts,
            )
        }
    }
}

/// Evaluates the filter for some candidates with their attributes. Asks the
/// batch callback that takes attributes, if there is one and chunks hold more
/// than one candidate; else the single one that takes attributes; else the
/// callbacks that take none. Gives the host back as the calls left it.
pub fn filter_candidates_batch_with_attrs<
    C,
    F: Fn(C, u64, u32) -> (C, u8),
    B: Fn(C, u64, &Vec<u32>) -> (C, Vec<u8>),
    G: Fn(C, u64, u32, &[u8]) -> (C, u8),
    H: Fn(C, u64, &Vec<u32>, &Vec<&[u8]>) -> (C, Vec<u8>),
>(
    host: C,
    context_id: u64,
    pending_with_attrs: &Vec<PendingCandidate>,
    attr_buffer: &Vec<u8>,
    callbacks: &FilterCallbacks<F, B, G, H>,
    batch_size: usize,
    results: &mut FilteredResults,
) -> (r: C)
    requires
        old(results).wf(),
        old(results)@.evals + pending_with_attrs@.len() <= u32::MAX,
        callbacks.usable::<C>(context_id, batch_size),
        forall|i: int|
            0 <= i < pending_with_attrs@.len() ==> (#[trigger] pending_with_attrs@[i]).lies_in(
                attr_buffer@,
            ),
    ensures
        final(results).wf(),
        final(results).limit() == old(results).limit(),
        exists|verdicts: Seq<bool>, hosts: Seq<C>|
            {
                &&& #[trigger] callbacks.attr_checks(
                    context_id,
                    batch_size,
                    old(results)@,
                    old(results).limit(),
                    pending_with_attrs@,
                    attr_buffer@,
                    verdicts,
                    hosts,
                )
                &&& final(results)@ == settle_first(
                    old(results)@,
                    old(results).limit(),
                    candidates_of(pending_with_attrs@),
                    verdicts,
                    pending_with_attrs@.len() as int,
                )
                &&& hosts[0] == host
                &&& hosts[pending_with_attrs@.len() as int] == r
            },
{
    let plain = without_attrs(pending_with_attrs);
    if batch_size > 1 {
        if let Some(h) = &callbacks.batch_filter_with_attr {
            let (r, Ghost(verdicts), Ghost(hosts)) = filter_attr_in_chunks(
                host,
                context_id,
                pending_with_attrs,
                &plain,
                attr_buffer,
                h,
                batch_size,
                results,
            );
            assert(callbacks.attr_checks(
                context_id,
                batch_size,
                old(results)@,
                old(results).limit(),
                pending_with_attrs@,
                attr_buffer@,
                verdicts,
                hosts,
            ));
            return r;
        }
    }
    if let Some(g) = &callbacks.filter_with_attr {
        let (r, Ghost(verdicts), Ghost(hosts)) = filter_attr_singly(
            host,
            context_id,
            pending_with_attrs,
            attr_buffer,
            g,
            results,
        );
        assert(callbacks.attr_checks(
            context_id,
            batch_size,
            old(results)@,
            old(results).limit(),
            pending_with_attrs@,
            attr_buffer@,
            verdicts,
            hosts,
        ));
        return r;
    }
    let r = filter_candidates_batch(
        host,
        context_id,
        &plain,
        &callbacks.filter,
        &callbacks.batch_filter,
        batch_size,
        results,
    );
    proof {
        let (verdicts, hosts) = choose|verdicts: Seq<bool>, hosts: Seq<C>|
            {
                &&& #[trigger] plain_checks(
                    callbacks.filter,
                    callbacks.batch_filter,
                    context_id,
                    batch_size,
                    old(results)@,
                    old(results).limit(),
                    plain@,
                    verdicts,
                    hosts,
                )
                &&& results@ == settle_first(
                    old(results)@,
                    old(results).limit(),
                    plain@,
                    verdicts,
                    plain@.len() as int,
                )
                &&& hosts[0] == host
                &&& hosts[plain@.len() as int] == r
            };
        assert(callbacks.attr_checks(
            context_id,
            batch_size,
            old(results)@,
            old(results).limit(),
            pending_with_attrs@,
            attr_buffer@,
            verdicts,
            hosts,
        ));
    }
    r
}

/// The candidates without their attributes.
pub fn without_attrs(pending: &Vec<PendingCandidate>) -> (r: Vec<Candidate>)
    ensures
        r@ == candidates_of(pending@),
{
    let mut r: Vec<Candidate> = Vec::new();
    let mut i: usize = 0;
    while i < pending.len()
        invariant
            i <= pending@.len(),
            r@ == candidates_of(pending@).subrange(0, i as int),
        decreases pending@.len() - i,
    {
        r.push(pending[i].candidate);
        i = i + 1;
        assert(r@ =~= candidates_of(pending@).subrange(0, i as int));
    }
    assert(r@ =~= candidates_of(pending@));
    r
}

/// The attribute bytes of the candidates from `start` up to `end`.
fn collect_attrs<'a>(
    pending: &Vec<PendingCandidate>,
    buffer: &'a Vec<u8>,
    start: usize,
    end: usize,
) -> (attrs: Vec<&'a [u8]>)
    requires
        start <= end <= pending@.len(),
        forall|i: int| 0 <= i < pending@.len() ==> (#[trigger] pending@[i]).lies_in(buffer@),
    ensures
        views_of(attrs@) == attrs_of(pending@, buffer@).subrange(
            start as int,
            end as int,
        ),
{
    let mut attrs: Vec<&'a [u8]> = Vec::new();
    let mut i: usize = start;
    assert(views_of(attrs@) =~= attrs_of(pending@, buffer@).subrange(
        start as int,
        i as int,
    ));
    while i < end
        invariant
            start <= i <= end <= pending@.len(),
            forall|i: int| 0 <= i < pending@.len() ==> (#[trigger] pending@[i]).lies_in(buffer@),
            views_of(attrs@) == attrs_of(pending@, buffer@).subrange(
                start as int,
                i as int,
            ),
        decreases end - i,
    {
        let ghost before = views_of(attrs@);
        let a = pending[i].attr_slice(buffer);
        attrs.push(a);
        i = i + 1;
        assert(views_of(attrs@) =~= before.push(a@));
        assert(views_of(attrs@) =~= attrs_of(pending@, buffer@).subrange(
            start as int,
            i as int,
        ));
    }
    attrs
}

/// The branch that asks the single callback that takes attributes. The outcomes
/// and the hosts come along as ghosts.
fn filter_attr_singly<C, G: Fn(C, u64, u32, &[u8]) -> (C, u8)>(
    host: C,
    context_id: u64,
    pending: &Vec<PendingCandidate>,
    attr_buffer: &Vec<u8>,
    callback: &G,
    results: &mut FilteredResults,
) -> (r: (C, Ghost<Seq<bool>>, Ghost<Seq<C>>))
    requires
        old(results).wf(),
        old(results)@.evals + pending@.len() <= u32::MAX,
        can_ask_attr::<C, G>(*callback, context_id),
        forall|i: int| 0 <= i < pending@.len() ==> (#[trigger] pending@[i]).lies_in(attr_buffer@),
    ensures
        final(results).wf(),
        final(results).limit() == old(results).limit(),
        r.1@.len() == pending@.len(),
        r.2@.len() == pending@.len() + 1,
        final(results)@ == settle_first(
            old(results)@,
            old(results).limit(),
            candidates_of(pending@),
            r.1@,
            pending@.len() as int,
        ),
        asked_attr_singly(
            *callback,
            context_id,
            old(results)@,
            old(results).limit(),
            pending@,
            attr_buffer@,
            r.1@,
            r.2@,
        ),
        r.2@[0] == host,
        r.2@[pending@.len() as int] == r.0,
{
    let ghost t = results@;
    let ghost cap = results.limit();
    let ghost cs = candidates_of(pending@);
    let ghost mut verdicts = Seq::<bool>::empty();
    let ghost mut hosts = seq![host];
    let mut at = host;
    let mut i: usize = 0;
    while i < pending.len()
        invariant
            i <= pending@.len(),
            cs == candidates_of(pending@),
            verdicts.len() == i,
            hosts.len() == i + 1,
            hosts[0] == host,
            hosts[i as int] == at,
            results.wf(),
            results.limit() == cap,
            t.evals + pending@.len() <= u32::MAX,
            results@.evals <= t.evals + i,
            results@ == settle_first(t, cap, cs, verdicts, i as int),
            can_ask_attr::<C, G>(*callback, context_id),
            forall|i: int|
                0 <= i < pending@.len() ==> (#[trigger] pending@[i]).lies_in(attr_buffer@),
            forall|j: int|
                0 <= j < i ==> asks_attr_unless_skipped(
                    *callback,
                    context_id,
                    skips(
                        settle_first(t, cap, cs, verdicts, j).results,
                        cap,
                        pending@[j].candidate,
                    ),
                    #[trigger] pending@[j],
                    attr_buffer@,
                    verdicts[j],
                    hosts[j],
                    hosts[j + 1],
                ),
        decreases pending@.len() - i,
    {
        let p = pending[i];
        let c = p.candidate;
        assert(c == cs[i as int]);
        let ghost known = verdicts;
        let ghost trail = hosts;
        let ghost mut verdict = false;
        let ghost before = at;
        if !results.is_too_far(c) {
            let attrs = p.attr_slice(attr_buffer);
            let (after, answer) = callback(at, context_id, c.id, attrs);
            at = after;
            proof {
                verdict = answer != 0;
                assert(call_ensures(
                    *callback,
                    (before, context_id, c.id, attrs),
                    (after, answer),
                ));
                assert(asks_attr(
                    *callback,
                    context_id,
                    c.id,
                    attrs@,
                    verdict,
                    before,
                    after,
                ));
            }
            results.count(c, answer != 0);
        }
        proof {
            verdicts = known.push(verdict);
            hosts = trail.push(at);
            assert forall|j: int| 0 <= j <= i implies #[trigger] settle_first(
                t,
                cap,
                cs,
                verdicts,
                j,
            ) == settle_first(t, cap, cs, known, j) by {
                lemma_settle_frame(t, cap, cs, verdicts, known, j);
            }
            assert(results@ == settle(
                settle_first(t, cap, cs, verdicts, i as int),
                cap,
                c,
                verdict,
            ));
            assert forall|j: int| 0 <= j < i + 1 implies asks_attr_unless_skipped(
                *callback,
                context_id,
                skips(settle_first(t, cap, cs, verdicts, j).results, cap, pending@[j].candidate),
                #[trigger] pending@[j],
                attr_buffer@,
                verdicts[j],
                hosts[j],
                hosts[j + 1],
            ) by {
                if j < i {
                    let same = pending@[j];
                    assert(verdicts[j] == known[j]);
                    assert(hosts[j] == trail[j] && hosts[j + 1] == trail[j + 1]);
                }
            }
        }
        i = i + 1;
    }
    (at, Ghost(verdicts), Ghost(hosts))
}

/// The branch that asks the batch callback that takes attributes. The outcomes
/// and the hosts come along as ghosts.
fn filter_attr_in_chunks<C, H: Fn(C, u64, &Vec<u32>, &Vec<&[u8]>) -> (C, Vec<u8>)>(
    host: C,
    context_id: u64,
    pending: &Vec<PendingCandidate>,
    plain: &Vec<Candidate>,
    attr_buffer: &Vec<u8>,
    callback: &H,
    batch_size: usize,
    results: &mut FilteredResults,
) -> (r: (C, Ghost<Seq<bool>>, Ghost<Seq<C>>))
    requires
        batch_size > 1,
        plain@ == candidates_of(pending@),
        old(results).wf(),
        old(results)@.evals + pending@.len() <= u32::MAX,
        answers_each_attr::<C, H>(*callback, context_id),
        forall|i: int| 0 <= i < pending@.len() ==> (#[trigger] pending@[i]).lies_in(attr_buffer@),
    ensures
        final(results).wf(),
        final(results).limit() == old(results).limit(),
        r.1@.len() == pending@.len(),
        r.2@.len() == pending@.len() + 1,
        final(results)@ == settle_first(
            old(results)@,
            old(results).limit(),
            candidates_of(pending@),
            r.1@,
            pending@.len() as int,
        ),
        asked_attr_in_chunks(
            *callback,
            context_id,
            batch_size as int,
            pending@,
            attr_buffer@,
            r.1@,
            r.2@,
        ),
        r.2@[0] == host,
        r.2@[pending@.len() as int] == r.0,
{
    let ghost t = results@;
    let ghost cap = results.limit();
    let ghost len = pending@.len() as int;
    let ghost size = batch_size as int;
    let ghost mut verdicts = Seq::<bool>::empty();
    let ghost mut hosts = seq![host];
    let mut at = host;
    let mut start: usize = 0;
    while start < pending.len()
        invariant
            batch_size > 1,
            size == batch_size,
            len == pending@.len(),
            plain@ == candidates_of(pending@),
            start <= pending@.len(),
            verdicts.len() == start,
            hosts.len() == start + 1,
            hosts[0] == host,
            hosts[start as int] == at,
            start < len ==> start as int % size == 0,
            results.wf(),
            results.limit() == cap,
            t.evals + pending@.len() <= u32::MAX,
            results@.evals <= t.evals + start,
            results@ == settle_first(t, cap, plain@, verdicts, start as int),
            answers_each_attr::<C, H>(*callback, context_id),
            forall|i: int|
                0 <= i < pending@.len() ==> (#[trigger] pending@[i]).lies_in(attr_buffer@),
            forall|s: int| #![trigger chunk_end(s, size, len)]
                0 <= s < start && s % size == 0 ==> chunk_end(s, size, len) <= start
                    && asks_attr_batch(
                    *callback,
                    context_id,
                    ids_of(plain@).subrange(s, chunk_end(s, size, len)),
                    attrs_of(pending@, attr_buffer@).subrange(s, chunk_end(s, size, len)),
                    verdicts.subrange(s, chunk_end(s, size, len)),
                    hosts[s],
                    hosts[chunk_end(s, size, len)],
                ),
        decreases pending@.len() - start,
    {
        let n = pending.len();
        let end: usize = if n - start >= batch_size {
            start + batch_size
        } else {
            n
        };
        let ids = collect_ids(plain, start, end);
        let attrs = collect_attrs(pending, attr_buffer, start, end);
        let ghost before = at;
        let (after, pass_buf) = callback(at, context_id, &ids, &attrs);
        at = after;
        let ghost known = verdicts;
        let ghost trail = hosts;
        let ghost fresh = verdicts_of(pass_buf@);
        proof {
            assert(call_ensures(
                *callback,
                (before, context_id, &ids, &attrs),
                (after, pass_buf),
            ));
        }
        settle_chunk(plain, start, &pass_buf, results);
        proof {
            verdicts = known + fresh;
            hosts = trail + Seq::new((end - start) as nat, |i: int| after);
            assert(end == chunk_end(start as int, size, len));
            assert(verdicts.subrange(start as int, end as int) =~= fresh);
            assert(asks_attr_batch(
                *callback,
                context_id,
                ids_of(plain@).subrange(start as int, end as int),
                attrs_of(pending@, attr_buffer@).subrange(start as int, end as int),
                fresh,
                before,
                after,
            ));
            lemma_settle_frame(t, cap, plain@, verdicts, known, start as int);
            lemma_settle_split(t, cap, plain@, verdicts, start as int, end as int);
            assert forall|s: int| #![trigger chunk_end(s, size, len)]
                0 <= s < end && s % size == 0 implies chunk_end(s, size, len) <= end
                && asks_attr_batch(
                *callback,
                context_id,
                ids_of(plain@).subrange(s, chunk_end(s, size, len)),
                attrs_of(pending@, attr_buffer@).subrange(s, chunk_end(s, size, len)),
                verdicts.subrange(s, chunk_end(s, size, len)),
                hosts[s],
                hosts[chunk_end(s, size, len)],
            ) by {
                if s < start {
                    assert(verdicts.subrange(s, chunk_end(s, size, len)) =~= known.subrange(
                        s,
                        chunk_end(s, size, len),
                    ));
                } else {
                    lemma_chunk_starts(start as int, s, size);
                }
            }
            if end < len {
                vstd::arithmetic::div_mod::lemma_mod_add_multiples_vanish(start as int, size);
            }
        }
        start = end;
    }
    (at, Ghost(verdicts), Ghost(hosts))
}

/// Every candidate that checks let in was checked, and passed.
proof fn lemma_kept_have_passed(
    t: Tally,
    cap: nat,
    cs: Seq<Candidate>,
    verdicts: Seq<bool>,
    n: int,
)
    requires
        0 <= n <= cs.len(),
    ensures
        forall|c: Candidate| #[trigger]
            settle_first(t, cap, cs, verdicts, n).results.count(c) > 0 ==> t.results.count(c) > 0
                || exists|i: int|
                0 <= i < n && #[trigger] cs[i] == c && verdicts[i] && !skips(
                    settle_first(t, cap, cs, verdicts, i).results,
                    cap,
                    cs[i],
                ),
    decreases n,
{
    broadcast use vstd::multiset::group_multiset_axioms;

    if n > 0 {
        lemma_kept_have_passed(t, cap, cs, verdicts, n - 1);
        let before = settle_first(t, cap, cs, verdicts, n - 1).results;
        let after = settle_first(t, cap, cs, verdicts, n).results;
        let c = cs[n - 1];
        let r = before.insert(c);
        if r.len() > cap {
            crate::heap::lemma_greatest_exists(r);
        }
        assert forall|x: Candidate| #[trigger] after.count(x) > 0 implies t.results.count(x) > 0
            || exists|i: int|
            0 <= i < n && #[trigger] cs[i] == x && verdicts[i] && !skips(
                settle_first(t, cap, cs, verdicts, i).results,
                cap,
                cs[i],
            ) by {
            if before.count(x) == 0 {
                assert(cs[n - 1] == x);
            }
        }
    }
}

/// One of the answers of a batch is a yes on `id`.
pub open spec fn yes_in(ids: Seq<u32>, verdicts: Seq<bool>, id: u32) -> bool {
    exists|j: int| 0 <= j < ids.len() && j < verdicts.len() && #[trigger] ids[j] == id && verdicts[j]
}

/// What the filter says of candidates, if it says of each id what `accept` says.
pub open spec fn verdicts_by(accept: spec_fn(u32) -> bool, cs: Seq<Candidate>) -> Seq<bool> {
    cs.map_values(|c: Candidate| accept(c.id))
}

/// The answers of a batch are what `accept` says of each id.
pub open spec fn answers_follow(
    ids: Seq<u32>,
    verdicts: Seq<bool>,
    accept: spec_fn(u32) -> bool,
) -> bool {
    forall|j: int| 0 <= j < ids.len() ==> #[trigger] verdicts[j] == accept(ids[j])
}

/// The callback that plain checks ask answers on each id what `accept` says,
/// whatever the host has come to.
pub open spec fn plain_follows<
    C,
    F: Fn(C, u64, u32) -> (C, u8),
    B: Fn(C, u64, &Vec<u32>) -> (C, Vec<u8>),
>(
    f: F,
    b: Option<B>,
    context_id: u64,
    batch_size: usize,
    accept: spec_fn(u32) -> bool,
) -> bool {
    if batch_size > 1 && b is Some {
        forall|ids: Seq<u32>, verdicts: Seq<bool>, before: C, after: C| #[trigger]
            asks_batch(b->0, context_id, ids, verdicts, before, after) ==> answers_follow(
                ids,
                verdicts,
                accept,
            )
    } else {
        forall|id: u32, verdict: bool, before: C, after: C| #[trigger]
            asks(f, context_id, id, verdict, before, after) ==> verdict == accept(id)
    }
}

/// The outcomes of candidates that are skipped do not matter.
pub proof fn lemma_skipped_do_not_matter(
    t: Tally,
    cap: nat,
    cs: Seq<Candidate>,
    verdicts: Seq<bool>,
    others: Seq<bool>,
    n: int,
)
    requires
        forall|i: int|
            0 <= i < n ==> #[trigger] verdicts[i] == others[i] || skips(
                settle_first(t, cap, cs, verdicts, i).results,
                cap,
                cs[i],
            ),
    ensures
        settle_first(t, cap, cs, verdicts, n) == settle_first(t, cap, cs, others, n),
    decreases n,
{
    if n > 0 {
        lemma_skipped_do_not_matter(t, cap, cs, verdicts, others, n - 1);
        let last = verdicts[n - 1];
    }
}

/// Plain checks by a filter that says of each id what `accept` says come to what
/// `accept` says of the candidates, whichever callback is asked.
pub proof fn lemma_plain_checks_follow<
    C,
    F: Fn(C, u64, u32) -> (C, u8),
    B: Fn(C, u64, &Vec<u32>) -> (C, Vec<u8>),
>(
    f: F,
    b: Option<B>,
    context_id: u64,
    batch_size: usize,
    t: Tally,
    cap: nat,
    cs: Seq<Candidate>,
    verdicts: Seq<bool>,
    hosts: Seq<C>,
    accept: spec_fn(u32) -> bool,
)
    requires
        plain_checks(f, b, context_id, batch_size, t, cap, cs, verdicts, hosts),
        plain_follows::<C, F, B>(f, b, context_id, batch_size, accept),
    ensures
        settle_first(t, cap, cs, verdicts, cs.len() as int) == settle_first(
            t,
            cap,
            cs,
            verdicts_by(accept, cs),
            cs.len() as int,
        ),
{
    let n = cs.len() as int;
    let size = batch_size as int;
    let others = verdicts_by(accept, cs);
    assert forall|i: int| 0 <= i < n implies #[trigger] verdicts[i] == others[i] || skips(
        settle_first(t, cap, cs, verdicts, i).results,
        cap,
        cs[i],
    ) by {
        let c = cs[i];
        if batch_size > 1 && b is Some {
            lemma_chunk_of(i, size, n);
            let start = i - i % size;
            let end = chunk_end(start, size, n);
            let ids = ids_of(cs).subrange(start, end);
            let answers = verdicts.subrange(start, end);
            assert(answers_follow(ids, answers, accept));
            assert(answers[i - start] == accept(ids[i - start]));
        }
    }
    lemma_skipped_do_not_matter(t, cap, cs, verdicts, others, n);
}

/// In single mode the callback is called as often as checks count: once for each
/// candidate that is not skipped. `calls` counts the calls.
pub proof fn lemma_single_checks_are_calls<C, F: Fn(C, u64, u32) -> (C, u8)>(
    f: F,
    context_id: u64,
    t: Tally,
    cap: nat,
    cs: Seq<Candidate>,
    verdicts: Seq<bool>,
    hosts: Seq<C>,
    calls: spec_fn(C) -> int,
    n: int,
)
    requires
        asked_singly(f, context_id, t, cap, cs, verdicts, hosts),
        forall|id: u32, verdict: bool, h: C, after: C| #[trigger]
            asks(f, context_id, id, verdict, h, after) ==> calls(after) == calls(h) + 1,
        0 <= n <= cs.len(),
    ensures
        calls(hosts[n]) - calls(hosts[0]) == settle_first(t, cap, cs, verdicts, n).evals - t.evals,
    decreases n,
{
    if n > 0 {
        lemma_single_checks_are_calls(
            f,
            context_id,
            t,
            cap,
            cs,
            verdicts,
            hosts,
            calls,
            n - 1,
        );
        let last = cs[n - 1];
        assert(asks_unless_skipped(
            f,
            context_id,
            skips(settle_first(t, cap, cs, verdicts, n - 1).results, cap, last),
            last,
            verdicts[n - 1],
            hosts[n - 1],
            hosts[n - 1 + 1],
        ));
    }
}

/// How many chunks there are.
pub open spec fn chunk_count(len: int, size: int) -> int {
    if len <= 0 {
        0
    } else {
        (len - 1) / size + 1
    }
}

/// In batch mode the callback is called once for each chunk. `calls` counts the
/// calls.
pub proof fn lemma_chunks_are_calls<C, B: Fn(C, u64, &Vec<u32>) -> (C, Vec<u8>)>(
    b: B,
    context_id: u64,
    size: int,
    cs: Seq<Candidate>,
    verdicts: Seq<bool>,
    hosts: Seq<C>,
    calls: spec_fn(C) -> int,
)
    requires
        size > 0,
        asked_in_chunks(b, context_id, size, cs, verdicts, hosts),
        forall|ids: Seq<u32>, answers: Seq<bool>, h: C, after: C| #[trigger]
            asks_batch(b, context_id, ids, answers, h, after) ==> calls(after) == calls(h) + 1,
    ensures
        calls(hosts[cs.len() as int]) == calls(hosts[0]) + chunk_count(cs.len() as int, size),
{
    let len = cs.len() as int;
    if len > 0 {
        lemma_chunk_of(len - 1, size, len);
        let start = (len - 1) - (len - 1) % size;
        lemma_chunks_so_far(b, context_id, size, cs, verdicts, hosts, calls, start);
        let end = chunk_end(start, size, len);
        assert(end == len);
        assert(asks_batch(
            b,
            context_id,
            ids_of(cs).subrange(start, end),
            verdicts.subrange(start, end),
            hosts[start],
            hosts[end],
        ));
        vstd::arithmetic::div_mod::lemma_fundamental_div_mod(len - 1, size);
        vstd::arithmetic::div_mod::lemma_fundamental_div_mod_converse(
            start,
            size,
            (len - 1) / size,
            0,
        );
    }
}

proof fn lemma_chunks_so_far<C, B: Fn(C, u64, &Vec<u32>) -> (C, Vec<u8>)>(
    b: B,
    context_id: u64,
    size: int,
    cs: Seq<Candidate>,
    verdicts: Seq<bool>,
    hosts: Seq<C>,
    calls: spec_fn(C) -> int,
    start: int,
)
    requires
        size > 0,
        asked_in_chunks(b, context_id, size, cs, verdicts, hosts),
        forall|ids: Seq<u32>, answers: Seq<bool>, h: C, after: C| #[trigger]
            asks_batch(b, context_id, ids, answers, h, after) ==> calls(after) == calls(h) + 1,
        0 <= start < cs.len(),
        start % size == 0,
    ensures
        calls(hosts[start]) == calls(hosts[0]) + start / size,
    decreases start,
{
    let len = cs.len() as int;
    vstd::arithmetic::div_mod::lemma_fundamental_div_mod(start, size);
    let q = start / size;
    if start > 0 {
        assert(q >= 1) by (nonlinear_arith)
            requires
                start > 0,
                size > 0,
                start == size * q,
        ;
        assert(start >= size) by (nonlinear_arith)
            requires
                q >= 1,
                size > 0,
                start == size * q,
        ;
        let before = start - size;
        assert(before == (q - 1) * size + 0) by (nonlinear_arith)
            requires
                before == start - size,
                start == size * q,
        ;
        vstd::arithmetic::div_mod::lemma_fundamental_div_mod_converse(before, size, q - 1, 0);
        lemma_chunks_so_far(b, context_id, size, cs, verdicts, hosts, calls, before);
        let end = chunk_end(before, size, len);
        assert(end == start);
        assert(asks_batch(
            b,
            context_id,
            ids_of(cs).subrange(before, end),
            verdicts.subrange(before, end),
            hosts[before],
            hosts[end],
        ));
    }
}

/// Checks by a batch callback and checks by a single callback come to the same,
/// if both say of each id what `accept` says.
pub proof fn lemma_batch_and_single_agree<
    C,
    F: Fn(C, u64, u32) -> (C, u8),
    B: Fn(C, u64, &Vec<u32>) -> (C, Vec<u8>),
>(
    f: F,
    b: B,
    context_id: u64,
    batch_size: usize,
    t: Tally,
    cap: nat,
    cs: Seq<Candidate>,
    verdicts: Seq<bool>,
    hosts: Seq<C>,
    batch_verdicts: Seq<bool>,
    batch_hosts: Seq<C>,
    accept: spec_fn(u32) -> bool,
)
    requires
        batch_size > 1,
        plain_checks(f, None::<B>, context_id, batch_size, t, cap, cs, verdicts, hosts),
        plain_checks(
            f,
            Some(b),
            context_id,
            batch_size,
            t,
            cap,
            cs,
            batch_verdicts,
            batch_hosts,
        ),
        plain_follows::<C, F, B>(f, None::<B>, context_id, batch_size, accept),
        plain_follows::<C, F, B>(f, Some(b), context_id, batch_size, accept),
    ensures
        settle_first(t, cap, cs, verdicts, cs.len() as int) == settle_first(
            t,
            cap,
            cs,
            batch_verdicts,
            cs.len() as int,
        ),
{
    lemma_plain_checks_follow(
        f,
        None::<B>,
        context_id,
        batch_size,
        t,
        cap,
        cs,
        verdicts,
        hosts,
        accept,
    );
    lemma_plain_checks_follow(
        f,
        Some(b),
        context_id,
        batch_size,
        t,
        cap,
        cs,
        batch_verdicts,
        batch_hosts,
        accept,
    );
}

impl<F, B, G, H> FilterCallbacks<F, B, G, H> {
    /// Without callbacks that take attributes, checks with attributes are the
    /// checks without: the same calls, and the same outcomes.
    pub proof fn lemma_falls_back<C>(
        &self,
        context_id: u64,
        batch_size: usize,
        t: Tally,
        cap: nat,
        ps: Seq<PendingCandidate>,
        buffer: Seq<u8>,
        verdicts: Seq<bool>,
        hosts: Seq<C>,
    )
        where
            F: Fn(C, u64, u32) -> (C, u8),
            B: Fn(C, u64, &Vec<u32>) -> (C, Vec<u8>),
            G: Fn(C, u64, u32, &[u8]) -> (C, u8),
            H: Fn(C, u64, &Vec<u32>, &Vec<&[u8]>) -> (C, Vec<u8>),
        requires
            !self.takes_attrs(),
        ensures
            self.attr_checks(context_id, batch_size, t, cap, ps, buffer, verdicts, hosts)
                <==> plain_checks(
                self.filter,
                self.batch_filter,
                context_id,
                batch_size,
                t,
                cap,
                candidates_of(ps),
                verdicts,
                hosts,
            ),
    {
    }

    /// The callback that is asked answers on each id what `accept` says,
    /// whatever the attributes are and the host has come to.
    pub open spec fn follows<C>(
        &self,
        context_id: u64,
        batch_size: usize,
        accept: spec_fn(u32) -> bool,
    ) -> bool
        where
            F: Fn(C, u64, u32) -> (C, u8),
            B: Fn(C, u64, &Vec<u32>) -> (C, Vec<u8>),
            G: Fn(C, u64, u32, &[u8]) -> (C, u8),
            H: Fn(C, u64, &Vec<u32>, &Vec<&[u8]>) -> (C, Vec<u8>),
    {
        if batch_size > 1 && self.batch_filter_with_attr is Some {
            forall|
                ids: Seq<u32>,
                attrs: Seq<Seq<u8>>,
                verdicts: Seq<bool>,
                before: C,
                after: C,
            | #[trigger]
                asks_attr_batch(
                    self.batch_filter_with_attr->0,
                    context_id,
                    ids,
                    attrs,
                    verdicts,
                    before,
                    after,
                ) ==> answers_follow(ids, verdicts, accept)
        } else if self.filter_with_attr is Some {
            forall|id: u32, attrs: Seq<u8>, verdict: bool, before: C, after: C| #[trigger]
                asks_attr(
                    self.filter_with_attr->0,
                    context_id,
                    id,
                    attrs,
                    verdict,
                    before,
                    after,
                ) ==> verdict == accept(id)
        } else {
            plain_follows::<C, F, B>(
                self.filter,
                self.batch_filter,
                context_id,
                batch_size,
                accept,
            )
        }
    }

    /// Checks by a filter that says of each id what `accept` says come to what
    /// `accept` says of the candidates, whichever callback is asked.
    pub proof fn lemma_checks_follow<C>(
        &self,
        context_id: u64,
        batch_size: usize,
        t: Tally,
        cap: nat,
        ps: Seq<PendingCandidate>,
        buffer: Seq<u8>,
        verdicts: Seq<bool>,
        hosts: Seq<C>,
        accept: spec_fn(u32) -> bool,
    )
        where
            F: Fn(C, u64, u32) -> (C, u8),
            B: Fn(C, u64, &Vec<u32>) -> (C, Vec<u8>),
            G: Fn(C, u64, u32, &[u8]) -> (C, u8),
            H: Fn(C, u64, &Vec<u32>, &Vec<&[u8]>) -> (C, Vec<u8>),
        requires
            self.attr_checks(context_id, batch_size, t, cap, ps, buffer, verdicts, hosts),
            self.follows::<C>(context_id, batch_size, accept),
        ensures
            settle_first(t, cap, candidates_of(ps), verdicts, ps.len() as int) == settle_first(
                t,
                cap,
                candidates_of(ps),
                verdicts_by(accept, candidates_of(ps)),
                ps.len() as int,
            ),
    {
        let cs = candidates_of(ps);
        let n = ps.len() as int;
        let size = batch_size as int;
        let others = verdicts_by(accept, cs);
        if !(batch_size > 1 && self.batch_filter_with_attr is Some)
            && !(self.filter_with_attr is Some) {
            lemma_plain_checks_follow(
                self.filter,
                self.batch_filter,
                context_id,
                batch_size,
                t,
                cap,
                cs,
                verdicts,
                hosts,
                accept,
            );
        } else {
            assert forall|i: int| 0 <= i < n implies #[trigger] verdicts[i] == others[i] || skips(
                settle_first(t, cap, cs, verdicts, i).results,
                cap,
                cs[i],
            ) by {
                let p = ps[i];
                assert(p.candidate == cs[i]);
                if batch_size > 1 && self.batch_filter_with_attr is Some {
                    lemma_chunk_of(i, size, n);
                    let start = i - i % size;
                    let end = chunk_end(start, size, n);
                    let ids = ids_of(cs).subrange(start, end);
                    let answers = verdicts.subrange(start, end);
                    assert(answers_follow(ids, answers, accept));
                    assert(answers[i - start] == accept(ids[i - start]));
                }
            }
            lemma_skipped_do_not_matter(t, cap, cs, verdicts, others, n);
        }
    }

    /// The callback that is asked may say yes on `id`.
    pub open spec fn accepts<C>(&self, context_id: u64, batch_size: usize, id: u32) -> bool
        where
            F: Fn(C, u64, u32) -> (C, u8),
            B: Fn(C, u64, &Vec<u32>) -> (C, Vec<u8>),
            G: Fn(C, u64, u32, &[u8]) -> (C, u8),
            H: Fn(C, u64, &Vec<u32>, &Vec<&[u8]>) -> (C, Vec<u8>),
    {
        if batch_size > 1 && self.batch_filter_with_attr is Some {
            exists|
                ids: Seq<u32>,
                attrs: Seq<Seq<u8>>,
                verdicts: Seq<bool>,
                before: C,
                after: C,
            | #[trigger]
                asks_attr_batch(
                    self.batch_filter_with_attr->0,
                    context_id,
                    ids,
                    attrs,
                    verdicts,
                    before,
                    after,
                ) && yes_in(ids, verdicts, id)
        } else if self.filter_with_attr is Some {
            exists|attrs: Seq<u8>, before: C, after: C| #[trigger]
                asks_attr(
                    self.filter_with_attr->0,
                    context_id,
                    id,
                    attrs,
                    true,
                    before,
                    after,
                )
        } else if batch_size > 1 && self.batch_filter is Some {
            exists|ids: Seq<u32>, verdicts: Seq<bool>, before: C, after: C| #[trigger]
                asks_batch(self.batch_filter->0, context_id, ids, verdicts, before, after)
                    && yes_in(ids, verdicts, id)
        } else {
            exists|before: C, after: C| #[trigger]
                asks(self.filter, context_id, id, true, before, after)
        }
    }

    /// Only candidates that the callbacks accept come in.
    pub proof fn lemma_only_accepted_come_in<C>(
        &self,
        context_id: u64,
        batch_size: usize,
        t: Tally,
        cap: nat,
        ps: Seq<PendingCandidate>,
        buffer: Seq<u8>,
        verdicts: Seq<bool>,
        hosts: Seq<C>,
    )
        where
            F: Fn(C, u64, u32) -> (C, u8),
            B: Fn(C, u64, &Vec<u32>) -> (C, Vec<u8>),
            G: Fn(C, u64, u32, &[u8]) -> (C, u8),
            H: Fn(C, u64, &Vec<u32>, &Vec<&[u8]>) -> (C, Vec<u8>),
        requires
            self.attr_checks(context_id, batch_size, t, cap, ps, buffer, verdicts, hosts),
        ensures
            forall|c: Candidate| #[trigger]
                settle_first(
                    t,
                    cap,
                    candidates_of(ps),
                    verdicts,
                    ps.len() as int,
                ).results.count(c) > 0 ==> t.results.count(c) > 0 || self.accepts::<C>(
                    context_id,
                    batch_size,
                    c.id,
                ),
    {
        let cs = candidates_of(ps);
        let n = ps.len() as int;
        let size = batch_size as int;
        lemma_kept_have_passed(t, cap, cs, verdicts, n);
        assert forall|c: Candidate| #[trigger]
            settle_first(t, cap, cs, verdicts, n).results.count(c) > 0 && t.results.count(
                c,
            ) == 0 implies self.accepts::<C>(context_id, batch_size, c.id) by {
            let i = choose|i: int|
                0 <= i < n && #[trigger] cs[i] == c && verdicts[i] && !skips(
                    settle_first(t, cap, cs, verdicts, i).results,
                    cap,
                    cs[i],
                );
            assert(ps[i].candidate == c);
            if batch_size > 1 {
                lemma_chunk_of(i, size, n);
            }
            let start = i - i % size;
            let end = chunk_end(start, size, n);
            if batch_size > 1 && self.batch_filter_with_attr is Some {
                let ids = ids_of(cs).subrange(start, end);
                let answers = verdicts.subrange(start, end);
                assert(ids[i - start] == c.id && answers[i - start]);
                assert(yes_in(ids, answers, c.id));
            } else if self.filter_with_attr is Some {
                assert(asks_attr(
                    self.filter_with_attr->0,
                    context_id,
                    ps[i].candidate.id,
                    ps[i].attrs(buffer),
                    true,
                    hosts[i],
                    hosts[i + 1],
                ));
            } else if batch_size > 1 && self.batch_filter is Some {
                let ids = ids_of(cs).subrange(start, end);
                let answers = verdicts.subrange(start, end);
                assert(ids[i - start] == c.id && answers[i - start]);
                assert(yes_in(ids, answers, c.id));
            } else {
                assert(asks(self.filter, context_id, cs[i].id, true, hosts[i], hosts[i + 1]));
            }
        }
    }
}

/// Every candidate is in a chunk.
proof fn lemma_chunk_of(i: int, size: int, len: int)
    requires
        size > 0,
        0 <= i < len,
    ensures
        0 <= i - i % size <= i < chunk_end(i - i % size, size, len),
        chunk_end(i - i % size, size, len) <= len,
        (i - i % size) % size == 0,
{
    vstd::arithmetic::div_mod::lemma_fundamental_div_mod(i, size);
    vstd::arithmetic::div_mod::lemma_mod_bound(i, size);
    let q = i / size;
    assert(i - i % size == q * size) by (nonlinear_arith)
        requires
            i == size * q + i % size,
    ;
    vstd::arithmetic::div_mod::lemma_div_pos_is_pos(i, size);
    assert(q * size >= 0) by (nonlinear_arith)
        requires
            q >= 0,
            size > 0,
    ;
    vstd::arithmetic::div_mod::lemma_mod_multiples_basic(q, size);
}

/// The `k` nearest of candidates with different ids have different ids.
pub proof fn lemma_nearest_are_distinct(
    nearest: Seq<Candidate>,
    results: Multiset<Candidate>,
    k: nat,
)
    requires
        ids_once(results),
        nearest_of(nearest.to_multiset(), results, k),
    ensures
        nearest.len() <= k,
        ids_of(nearest).no_duplicates(),
        forall|i: int| 0 <= i < nearest.len() ==> results.count(#[trigger] nearest[i]) > 0,
{
    broadcast use vstd::seq_lib::group_to_multiset_ensures;
    broadcast use vstd::multiset::group_multiset_axioms;

    let few = nearest.to_multiset();
    let ids = ids_of(nearest);
    assert forall|i: int| 0 <= i < nearest.len() implies results.count(#[trigger] nearest[i]) > 0 by {
        assert(nearest.contains(nearest[i]));
        assert(few.count(nearest[i]) <= results.count(nearest[i]));
    }
    assert forall|i: int, j: int| 0 <= i < ids.len() && 0 <= j < ids.len() && i
        != j implies ids[i] != ids[j] by {
        if ids[i] == ids[j] {
            assert(results.count(nearest[i]) > 0 && results.count(nearest[j]) > 0);
            assert(nearest[i] == nearest[j]);
            assert(few.count(nearest[i]) <= results.count(nearest[i]));
            nearest.lemma_multiset_has_no_duplicates_conv();
        }
    }
}

} // verus!
