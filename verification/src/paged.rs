//! Filtering the pages of a paged search until enough results are found.

use vstd::prelude::*;
use crate::candidate::Candidate;
use crate::labels::{
    AtomicCacheLabelProvider,
    BitmapLabelProvider,
    CachedCallbackLabelProvider,
};
use crate::ordered_f32::OrderedF32;
use crate::output::{Sink, deliver};
use crate::report::SearchStats;

verus! {

/// Pages come to an end, whatever the host has come to: `left` bounds how many
/// candidates are still to come.
pub open spec fn drains<S, C, T, Q: Fn(S, C) -> (S, C, Result<Vec<Candidate>, T>)>(
    next: Q,
    left: spec_fn(S) -> nat,
) -> bool {
    &&& forall|s: S, h: C| #[trigger] call_requires(next, (s, h))
    &&& forall|s: S, h: C, later: S, after: C, page: Vec<Candidate>| #[trigger]
        call_ensures(next, (s, h), (later, after, Ok(page))) ==> left(later) + page@.len()
            <= left(s)
}

/// Pages come to an end before a `u32` fails to count their candidates.
pub open spec fn drains_soon<S, C, T, Q: Fn(S, C) -> (S, C, Result<Vec<Candidate>, T>)>(
    next: Q,
    state: S,
) -> bool {
    exists|left: spec_fn(S) -> nat| #[trigger]
        drains::<S, C, T, Q>(next, left) && left(state) < u32::MAX
}

/// Handing `c` over may turn `before` into `after`; `stop` says whether the
/// output is full then or holds `k` results.
pub open spec fn hands_over<
    O,
    E,
    D,
    X: Fn(O, u32) -> (O, Result<E, D>),
    P: Fn(O, E, OrderedF32) -> (O, bool),
    L: Fn(&O) -> usize,
>(sink: Sink<X, P, L>, k: usize, c: Candidate, before: O, after: O, stop: bool) -> bool {
    exists|full: Option<bool>| #[trigger]
        crate::output::may_deliver(sink, c, before, after, full) && match full {
            None => !stop,
            Some(true) => stop,
            Some(false) => exists|len: usize| #[trigger]
                call_ensures(sink.current_len, (&after,), len) && stop == (len >= k),
        }
}

/// How the search of a page went.
pub struct PageLog<S, C, O> {
    /// The state of the paged search before the page was fetched.
    pub before: S,
    /// The state after it.
    pub after: S,
    /// The host before the page was fetched.
    pub start: C,
    /// The host after the page was fetched and before its checks.
    pub fetched: C,
    /// The candidates of the page.
    pub cands: Seq<Candidate>,
    /// The outcomes of the checks on the first of them.
    pub verdicts: Seq<bool>,
    /// Which of these outcomes were known before.
    pub known: Seq<bool>,
    /// The hosts that the checks led through.
    pub hosts: Seq<C>,
    /// The host after the checks.
    pub end: C,
    /// The output before and after each check.
    pub outs: Seq<O>,
    /// Whether the last check brought the last result that was wanted.
    pub stopped: bool,
}

/// A check with this outcome may turn `before` into `after`: a candidate that
/// passed is handed over, any other changes nothing.
pub open spec fn settles<
    O,
    E,
    D,
    X: Fn(O, u32) -> (O, Result<E, D>),
    P: Fn(O, E, OrderedF32) -> (O, bool),
    L: Fn(&O) -> usize,
>(
    sink: Sink<X, P, L>,
    k: usize,
    c: Candidate,
    verdict: bool,
    before: O,
    after: O,
    stop: bool,
) -> bool {
    if verdict {
        hands_over(sink, k, c, before, after, stop)
    } else {
        after == before && !stop
    }
}

/// Candidates that passed were handed over, and none but the last that was
/// checked ended the search.
pub open spec fn checks_run<
    O,
    E,
    D,
    X: Fn(O, u32) -> (O, Result<E, D>),
    P: Fn(O, E, OrderedF32) -> (O, bool),
    L: Fn(&O) -> usize,
>(
    sink: Sink<X, P, L>,
    k: usize,
    cands: Seq<Candidate>,
    verdicts: Seq<bool>,
    outs: Seq<O>,
    stopped: bool,
) -> bool {
    let n = verdicts.len() as int;
    &&& n <= cands.len()
    &&& outs.len() == n + 1
    &&& stopped ==> n > 0
    &&& forall|i: int|
        0 <= i < n ==> settles(
            sink,
            k,
            #[trigger] cands[i],
            verdicts[i],
            outs[i],
            outs[i + 1],
            stopped && i == n - 1,
        )
}

/// How much a search may do.
pub enum Effort {
    /// As much as it takes.
    Unlimited,
    /// It stops when so many checks were made.
    Limited(usize),
}

impl Effort {
    /// How many of `n` candidates may be checked after `done` checks.
    pub open spec fn allows(self, done: int, n: int) -> int {
        match self {
            Effort::Unlimited => n,
            Effort::Limited(max) => if done + n <= max {
                n
            } else if done <= max {
                max - done
            } else {
                0
            },
        }
    }

    /// Whether the effort is spent after `done` checks.
    pub open spec fn is_spent(self, done: int) -> bool {
        match self {
            Effort::Unlimited => false,
            Effort::Limited(max) => done >= max,
        }
    }

    /// How many of `n` candidates may be checked after `done` checks.
    fn allowance(&self, done: usize, n: usize) -> (r: usize)
        ensures
            r == self.allows(done as int, n as int),
            r <= n,
    {
        match self {
            Effort::Unlimited => n,
            Effort::Limited(max) => {
                if done <= *max {
                    if n <= *max - done {
                        n
                    } else {
                        *max - done
                    }
                } else {
                    0
                }
            },
        }
    }

    /// Whether the effort is spent after `done` checks.
    fn spent(&self, done: usize) -> (r: bool)
        ensures
            r == self.is_spent(done as int),
    {
        match self {
            Effort::Unlimited => false,
            Effort::Limited(max) => done >= *max,
        }
    }
}

/// How many candidates were checked.
pub open spec fn checked<S, C, O>(logs: Seq<PageLog<S, C, O>>) -> int
    decreases logs.len(),
{
    if logs.len() == 0 {
        0
    } else {
        checked(logs.drop_last()) + logs.last().verdicts.len()
    }
}

/// How many candidates passed.
pub open spec fn passed<S, C, O>(logs: Seq<PageLog<S, C, O>>) -> int
    decreases logs.len(),
{
    if logs.len() == 0 {
        0
    } else {
        passed(logs.drop_last()) + crate::labels::count_set(
            logs.last().verdicts,
            logs.last().verdicts.len() as int,
        )
    }
}

/// How many outcomes were known before.
pub open spec fn were_known<S, C, O>(logs: Seq<PageLog<S, C, O>>) -> int
    decreases logs.len(),
{
    if logs.len() == 0 {
        0
    } else {
        were_known(logs.drop_last()) + crate::labels::count_set(
            logs.last().known,
            logs.last().known.len() as int,
        )
    }
}

/// How many candidates came.
pub open spec fn came<S, C, O>(logs: Seq<PageLog<S, C, O>>) -> int
    decreases logs.len(),
{
    if logs.len() == 0 {
        0
    } else {
        came(logs.drop_last()) + logs.last().cands.len()
    }
}

/// The output after some pages.
pub open spec fn output_after<S, C, O>(output: O, logs: Seq<PageLog<S, C, O>>) -> O {
    if logs.len() == 0 {
        output
    } else {
        logs.last().outs.last()
    }
}

/// The state of the paged search after some pages.
pub open spec fn state_after<S, C, O>(state: S, logs: Seq<PageLog<S, C, O>>) -> S {
    if logs.len() == 0 {
        state
    } else {
        logs.last().after
    }
}

/// The host after some pages.
pub open spec fn host_after<S, C, O>(host: C, logs: Seq<PageLog<S, C, O>>) -> C {
    if logs.len() == 0 {
        host
    } else {
        logs.last().end
    }
}

/// Whether the search goes on after some pages: the last was not empty, did not
/// bring the last result, and the effort is not spent.
pub open spec fn goes_on<S, C, O>(effort: Effort, logs: Seq<PageLog<S, C, O>>) -> bool {
    logs.len() > 0 ==> {
        &&& logs.last().cands.len() > 0
        &&& !logs.last().stopped
        &&& !effort.is_spent(checked(logs))
    }
}

/// A page came from one call that fetched it.
pub open spec fn page_came<S, C, T, Q: Fn(S, C) -> (S, C, Result<Vec<Candidate>, T>), O>(
    next: Q,
    log: PageLog<S, C, O>,
) -> bool {
    exists|page: Vec<Candidate>| #[trigger]
        call_ensures(next, (log.before, log.start), (log.after, log.fetched, Ok(page))) && page@
            == log.cands
}

/// The pages are those that the search fetches, each searched as far as the
/// effort allows; `origin` says which calls its checks made. The calls lead the
/// host on from `host`.
pub open spec fn pages_follow<
    S,
    C,
    T,
    Q: Fn(S, C) -> (S, C, Result<Vec<Candidate>, T>),
    O,
    E,
    D,
    X: Fn(O, u32) -> (O, Result<E, D>),
    P: Fn(O, E, OrderedF32) -> (O, bool),
    L: Fn(&O) -> usize,
>(
    next: Q,
    sink: Sink<X, P, L>,
    k: usize,
    effort: Effort,
    origin: spec_fn(PageLog<S, C, O>) -> bool,
    state: S,
    host: C,
    output: O,
    logs: Seq<PageLog<S, C, O>>,
) -> bool
    decreases logs.len(),
{
    logs.len() > 0 ==> {
        let log = logs.last();
        let rest = logs.drop_last();
        let n = effort.allows(checked(rest), log.cands.len() as int);
        &&& pages_follow(next, sink, k, effort, origin, state, host, output, rest)
        &&& goes_on(effort, rest)
        &&& log.before == state_after(state, rest)
        &&& log.start == host_after(host, rest)
        &&& log.outs.len() > 0 && log.outs[0] == output_after(output, rest)
        &&& page_came::<S, C, T, Q, O>(next, log)
        &&& checks_run(sink, k, log.cands, log.verdicts, log.outs, log.stopped)
        &&& log.known.len() == log.verdicts.len()
        &&& log.verdicts.len() <= n
        &&& !log.stopped ==> log.verdicts.len() == n
        &&& origin(log)
    }
}

/// The counts of a paged search.
#[derive(Clone, Copy, Debug)]
pub struct PageCounts {
    pub pages: u32,
    pub candidates: usize,
    pub evaluated: usize,
    pub passed: usize,
    /// How many outcomes were known before.
    pub cache_hits: usize,
    /// How many were not.
    pub cache_misses: usize,
    /// Whether the last result that was wanted was found.
    pub early_exit: bool,
}

impl PageCounts {
    /// The counts are those of these pages.
    pub open spec fn tells<S, C, O>(self, logs: Seq<PageLog<S, C, O>>) -> bool {
        &&& self.pages == logs.len()
        &&& self.candidates == came(logs)
        &&& self.evaluated == checked(logs)
        &&& self.passed == passed(logs)
        &&& self.cache_hits == were_known(logs)
        &&& self.cache_misses == checked(logs) - were_known(logs)
        &&& self.early_exit == (logs.len() > 0 && logs.last().stopped)
    }
}

/// A search of pages ends like this: with its counts, or with the error of a
/// page that could not be fetched, after which no call is made.
pub open spec fn pages_end<
    S,
    C,
    T,
    Q: Fn(S, C) -> (S, C, Result<Vec<Candidate>, T>),
    O,
    E,
    D,
    X: Fn(O, u32) -> (O, Result<E, D>),
    P: Fn(O, E, OrderedF32) -> (O, bool),
    L: Fn(&O) -> usize,
>(
    next: Q,
    sink: Sink<X, P, L>,
    k: usize,
    effort: Effort,
    origin: spec_fn(PageLog<S, C, O>) -> bool,
    state: S,
    host: C,
    output: O,
    r: (O, S, C, Result<PageCounts, T>),
) -> bool {
    exists|logs: Seq<PageLog<S, C, O>>|
        {
            &&& #[trigger] pages_follow(next, sink, k, effort, origin, state, host, output, logs)
            &&& r.0 == output_after(output, logs)
            &&& match r.3 {
                Ok(counts) => !goes_on(effort, logs) && r.1 == state_after(state, logs) && r.2
                    == host_after(host, logs) && counts.tells(logs),
                Err(e) => goes_on(effort, logs) && call_ensures(
                    next,
                    (state_after(state, logs), host_after(host, logs)),
                    (r.1, r.2, Err(e)),
                ),
            }
        }
}

/// Hands a candidate over, and says whether that ends the search.
fn hand_over<
    O,
    E,
    D,
    X: Fn(O, u32) -> (O, Result<E, D>),
    P: Fn(O, E, OrderedF32) -> (O, bool),
    L: Fn(&O) -> usize,
>(sink: &Sink<X, P, L>, output: O, c: Candidate, k: usize) -> (r: (O, bool))
    requires
        crate::output::sink_usable::<O, E, D, X, P, L>(*sink),
    ensures
        hands_over(*sink, k, c, output, r.0, r.1),
{
    let (after, full) = deliver(sink, output, c);
    match full {
        None => (after, false),
        Some(is_full) => {
            if is_full {
                (after, true)
            } else {
                let len = (sink.current_len)(&after);
                (after, len >= k)
            }
        },
    }
}

/// The outcome of a check.
#[derive(Clone, Copy, Debug)]
pub struct Checked {
    pub passes: bool,
    /// Whether the outcome was known before.
    pub known: bool,
}

/// The calls are these: one check for each candidate, in order, as far as there
/// are outcomes. They lead the host through `hosts`.
pub open spec fn checks_answered<C, V: Fn(C, u32) -> (C, Checked)>(
    check: V,
    cands: Seq<Candidate>,
    verdicts: Seq<bool>,
    known: Seq<bool>,
    hosts: Seq<C>,
) -> bool {
    &&& hosts.len() == verdicts.len() + 1
    &&& forall|i: int|
        0 <= i < verdicts.len() ==> check_answered(
            check,
            #[trigger] cands[i],
            verdicts[i],
            known[i],
            hosts[i],
            hosts[i + 1],
        )
}

/// The outcome of a candidate came from one check.
pub open spec fn check_answered<C, V: Fn(C, u32) -> (C, Checked)>(
    check: V,
    c: Candidate,
    verdict: bool,
    known: bool,
    before: C,
    after: C,
) -> bool {
    call_ensures(check, (before, c.id), (after, Checked { passes: verdict, known }))
}

/// Where the last chunk ends that is asked about, if `n` outcomes are needed.
pub open spec fn chunks_asked(n: int, size: int, len: int) -> int {
    if n <= 0 {
        0
    } else {
        crate::filter::chunk_end((n - 1) - (n - 1) % size, size, len)
    }
}

/// The calls are these: one of the batch callback for each chunk of candidates,
/// in order, as far as there are outcomes, which are the first of the answers.
/// The call on a chunk leads the host from where `hosts` has it at the start of
/// the chunk to where it has it at the end.
pub open spec fn chunks_answered<C, B: Fn(C, u64, &Vec<u32>) -> (C, Vec<u8>)>(
    b: B,
    context_id: u64,
    size: int,
    cands: Seq<Candidate>,
    verdicts: Seq<bool>,
    hosts: Seq<C>,
) -> bool {
    exists|answers: Seq<bool>|
        {
            &&& answers.len() == cands.len()
            &&& #[trigger] answers.subrange(0, verdicts.len() as int) == verdicts
            &&& forall|start: int|
                #![trigger crate::filter::chunk_end(start, size, cands.len() as int)]
                0 <= start < verdicts.len() && start % size == 0 ==> crate::filter::asks_batch(
                    b,
                    context_id,
                    crate::filter::ids_of(cands).subrange(
                        start,
                        crate::filter::chunk_end(start, size, cands.len() as int),
                    ),
                    answers.subrange(
                        start,
                        crate::filter::chunk_end(start, size, cands.len() as int),
                    ),
                    hosts[start],
                    hosts[crate::filter::chunk_end(start, size, cands.len() as int)],
                )
        }
}

/// How far the search of a page has come.
struct PageProgress<O> {
    output: O,
    passed: usize,
    known: usize,
    evaluated: usize,
    stopped: bool,
    trail: Ghost<(Seq<bool>, Seq<bool>, Seq<O>)>,
}

impl<O> PageProgress<O> {
    /// The outcomes so far.
    spec fn verdicts(self) -> Seq<bool> {
        self.trail@.0
    }

    /// Which of them were known before.
    spec fn knowns(self) -> Seq<bool> {
        self.trail@.1
    }

    /// The output before and after each check.
    spec fn outs(self) -> Seq<O> {
        self.trail@.2
    }

    /// The counts are right, and candidates that passed were handed over.
    spec fn wf<
        E,
        D,
        X: Fn(O, u32) -> (O, Result<E, D>),
        P: Fn(O, E, OrderedF32) -> (O, bool),
        L: Fn(&O) -> usize,
    >(self, sink: Sink<X, P, L>, k: usize, cands: Seq<Candidate>) -> bool {
        &&& checks_run(sink, k, cands, self.verdicts(), self.outs(), self.stopped)
        &&& self.knowns().len() == self.verdicts().len()
        &&& self.output == self.outs().last()
        &&& self.evaluated == self.verdicts().len()
        &&& self.passed == crate::labels::count_set(self.verdicts(), self.evaluated as int)
        &&& self.known == crate::labels::count_set(self.knowns(), self.evaluated as int)
        &&& self.passed <= self.evaluated
        &&& self.known <= self.evaluated
    }

    fn start<
        E,
        D,
        X: Fn(O, u32) -> (O, Result<E, D>),
        P: Fn(O, E, OrderedF32) -> (O, bool),
        L: Fn(&O) -> usize,
    >(output: O, sink: &Sink<X, P, L>, k: usize, cands: &Vec<Candidate>) -> (r: Self)
        ensures
            r.wf(*sink, k, cands@),
            !r.stopped,
            r.evaluated == 0,
            r.outs()[0] == output,
    {
        let ghost outs = seq![output];
        PageProgress {
            output,
            passed: 0,
            known: 0,
            evaluated: 0,
            stopped: false,
            trail: Ghost((Seq::empty(), Seq::empty(), outs)),
        }
    }

    /// Takes up the outcome of the next check, and hands the candidate over if
    /// it passed.
    fn settle<
        E,
        D,
        X: Fn(O, u32) -> (O, Result<E, D>),
        P: Fn(O, E, OrderedF32) -> (O, bool),
        L: Fn(&O) -> usize,
    >(
        self,
        sink: &Sink<X, P, L>,
        k: usize,
        cands: &Vec<Candidate>,
        outcome: Checked,
    ) -> (r: Self)
        requires
            self.wf(*sink, k, cands@),
            !self.stopped,
            self.evaluated < cands@.len(),
            crate::output::sink_usable::<O, E, D, X, P, L>(*sink),
        ensures
            r.wf(*sink, k, cands@),
            r.verdicts() == self.verdicts().push(outcome.passes),
            r.knowns() == self.knowns().push(outcome.known),
            r.outs()[0] == self.outs()[0],
            r.evaluated == self.evaluated + 1,
    {
        let n = cands.len();
        let c = cands[self.evaluated];
        let ghost verdicts = self.verdicts();
        let ghost knowns = self.knowns();
        let ghost outs = self.outs();
        let ghost before = self.output;
        let evaluated = self.evaluated;
        let passed = if outcome.passes {
            self.passed + 1
        } else {
            self.passed
        };
        let known = if outcome.known {
            self.known + 1
        } else {
            self.known
        };
        let (output, stopped) = if outcome.passes {
            hand_over(sink, self.output, c, k)
        } else {
            (self.output, false)
        };
        let ghost more_verdicts = verdicts.push(outcome.passes);
        let ghost more_knowns = knowns.push(outcome.known);
        let ghost more_outs = outs.push(output);
        proof {
            lemma_count_push(verdicts, outcome.passes);
            lemma_count_push(knowns, outcome.known);
            let n = more_verdicts.len() as int;
            assert forall|i: int| 0 <= i < n implies settles(
                *sink,
                k,
                #[trigger] cands@[i],
                more_verdicts[i],
                more_outs[i],
                more_outs[i + 1],
                stopped && i == n - 1,
            ) by {
                if i < evaluated {
                    let same = cands@[i];
                    assert(more_verdicts[i] == verdicts[i]);
                    assert(more_outs[i] == outs[i] && more_outs[i + 1] == outs[i + 1]);
                }
            }
        }
        let r = PageProgress {
            output,
            passed,
            known,
            evaluated: evaluated + 1,
            stopped,
            trail: Ghost((more_verdicts, more_knowns, more_outs)),
        };
        r
    }
}

proof fn lemma_count_push(bits: Seq<bool>, b: bool)
    ensures
        crate::labels::count_set(bits.push(b), bits.len() as int + 1)
            == crate::labels::count_set(bits, bits.len() as int) + if b {
            1int
        } else {
            0
        },
{
    lemma_count_frame(bits, bits.push(b), bits.len() as int);
}

proof fn lemma_count_frame(a: Seq<bool>, b: Seq<bool>, n: int)
    requires
        forall|i: int| 0 <= i < n ==> a[i] == b[i],
    ensures
        crate::labels::count_set(a, n) == crate::labels::count_set(b, n),
    decreases n,
{
    if n > 0 {
        lemma_count_frame(a, b, n - 1);
    }
}

/// Checks the first `allowed` candidates of a page, until the last result that
/// is wanted is found. The hosts come along as ghosts.
fn run_page<
    C,
    V: Fn(C, u32) -> (C, Checked),
    O,
    E,
    D,
    X: Fn(O, u32) -> (O, Result<E, D>),
    P: Fn(O, E, OrderedF32) -> (O, bool),
    L: Fn(&O) -> usize,
>(
    host: C,
    cands: &Vec<Candidate>,
    allowed: usize,
    check: &V,
    k: usize,
    sink: &Sink<X, P, L>,
    output: O,
) -> (r: (PageProgress<O>, C, Ghost<Seq<C>>))
    requires
        allowed <= cands@.len(),
        forall|h: C, id: u32| #[trigger] call_requires(*check, (h, id)),
        crate::output::sink_usable::<O, E, D, X, P, L>(*sink),
    ensures
        r.0.wf(*sink, k, cands@),
        r.0.outs()[0] == output,
        r.0.evaluated <= allowed,
        !r.0.stopped ==> r.0.evaluated == allowed,
        checks_answered(*check, cands@, r.0.verdicts(), r.0.knowns(), r.2@),
        r.2@[0] == host,
        r.2@.last() == r.1,
{
    let mut progress = PageProgress::start(output, sink, k, cands);
    let ghost mut hosts = seq![host];
    let mut at = host;
    while progress.evaluated < allowed && !progress.stopped
        invariant
            allowed <= cands@.len(),
            forall|h: C, id: u32| #[trigger] call_requires(*check, (h, id)),
            crate::output::sink_usable::<O, E, D, X, P, L>(*sink),
            progress.wf(*sink, k, cands@),
            progress.outs()[0] == output,
            progress.evaluated <= allowed,
            checks_answered(*check, cands@, progress.verdicts(), progress.knowns(), hosts),
            hosts[0] == host,
            hosts.last() == at,
        decreases allowed - progress.evaluated,
    {
        let c = cands[progress.evaluated];
        let ghost before = progress;
        let ghost trail = hosts;
        let ghost from = at;
        let (after, outcome) = check(at, c.id);
        at = after;
        progress = progress.settle(sink, k, cands, outcome);
        proof {
            hosts = trail.push(after);
            assert(call_ensures(*check, (from, c.id), (after, outcome)));
            assert(outcome == Checked { passes: outcome.passes, known: outcome.known });
            assert(check_answered(*check, c, outcome.passes, outcome.known, from, after));
            assert forall|i: int| 0 <= i < progress.verdicts().len() implies check_answered(
                *check,
                #[trigger] cands@[i],
                progress.verdicts()[i],
                progress.knowns()[i],
                hosts[i],
                hosts[i + 1],
            ) by {
                if i < before.verdicts().len() {
                    let same = cands@[i];
                    assert(progress.verdicts()[i] == before.verdicts()[i]);
                    assert(progress.knowns()[i] == before.knowns()[i]);
                    assert(hosts[i] == trail[i] && hosts[i + 1] == trail[i + 1]);
                }
            }
        }
    }
    (progress, at, Ghost(hosts))
}

/// A candidate of a chunk is in no other.
proof fn lemma_chunk_holds(start: int, size: int, i: int)
    requires
        size > 0,
        start >= 0,
        start % size == 0,
        start <= i < start + size,
    ensures
        i - i % size == start,
{
    vstd::arithmetic::div_mod::lemma_fundamental_div_mod(start, size);
    let q = start / size;
    assert(i == q * size + (i - start)) by (nonlinear_arith)
        requires
            start == size * q + 0,
    ;
    vstd::arithmetic::div_mod::lemma_fundamental_div_mod_converse(i, size, q, i - start);
}

/// Checks the candidates of a page, a chunk at a time, until the last result
/// that is wanted is found. The hosts come along as ghosts.
fn run_page_in_chunks<
    C,
    B: Fn(C, u64, &Vec<u32>) -> (C, Vec<u8>),
    O,
    E,
    D,
    X: Fn(O, u32) -> (O, Result<E, D>),
    P: Fn(O, E, OrderedF32) -> (O, bool),
    L: Fn(&O) -> usize,
>(
    host: C,
    cands: &Vec<Candidate>,
    batch_cb: &B,
    context_id: u64,
    batch_size: usize,
    k: usize,
    sink: &Sink<X, P, L>,
    output: O,
) -> (r: (PageProgress<O>, C, Ghost<Seq<C>>))
    requires
        batch_size > 0,
        crate::filter::answers_each::<C, B>(*batch_cb, context_id),
        crate::output::sink_usable::<O, E, D, X, P, L>(*sink),
    ensures
        r.0.wf(*sink, k, cands@),
        r.0.outs()[0] == output,
        !r.0.stopped ==> r.0.evaluated == cands@.len(),
        chunks_answered(
            *batch_cb,
            context_id,
            batch_size as int,
            cands@,
            r.0.verdicts(),
            r.2@,
        ),
        crate::labels::count_set(r.0.knowns(), r.0.evaluated as int) == 0,
        r.2@[0] == host,
        r.2@[chunks_asked(r.0.evaluated as int, batch_size as int, cands@.len() as int)] == r.1,
{
    let ghost len = cands@.len() as int;
    let ghost size = batch_size as int;
    let ghost ids = crate::filter::ids_of(cands@);
    let ghost mut answers = Seq::<bool>::empty();
    let ghost mut hosts = seq![host];
    let mut at = host;
    let mut progress = PageProgress::start(output, sink, k, cands);
    let mut start: usize = 0;
    while start < cands.len() && !progress.stopped
        invariant
            batch_size > 0,
            size == batch_size,
            len == cands@.len(),
            ids == crate::filter::ids_of(cands@),
            start <= len,
            start < len ==> start as int % size == 0,
            start == chunks_asked(progress.evaluated as int, size, len),
            crate::filter::answers_each::<C, B>(*batch_cb, context_id),
            crate::output::sink_usable::<O, E, D, X, P, L>(*sink),
            progress.wf(*sink, k, cands@),
            progress.outs()[0] == output,
            progress.evaluated <= start,
            !progress.stopped ==> progress.evaluated == start,
            crate::labels::count_set(progress.knowns(), progress.evaluated as int) == 0,
            answers.len() == start,
            hosts.len() == start + 1,
            hosts[0] == host,
            hosts[start as int] == at,
            progress.verdicts() == answers.subrange(0, progress.evaluated as int),
            forall|s: int| #![trigger crate::filter::chunk_end(s, size, len)]
                0 <= s < start && s % size == 0 ==> crate::filter::chunk_end(s, size, len)
                    <= start && crate::filter::asks_batch(
                    *batch_cb,
                    context_id,
                    ids.subrange(s, crate::filter::chunk_end(s, size, len)),
                    answers.subrange(s, crate::filter::chunk_end(s, size, len)),
                    hosts[s],
                    hosts[crate::filter::chunk_end(s, size, len)],
                ),
        decreases cands@.len() - start,
    {
        let n = cands.len();
        let end: usize = if n - start >= batch_size {
            start + batch_size
        } else {
            n
        };
        let chunk_ids = crate::filter::collect_ids(cands, start, end);
        let ghost from = at;
        let (after, pass_buf) = batch_cb(at, context_id, &chunk_ids);
        at = after;
        proof {
            assert(call_ensures(
                *batch_cb,
                (from, context_id, &chunk_ids),
                (after, pass_buf),
            ));
        }
        let ghost fresh = crate::filter::verdicts_of(pass_buf@);
        let ghost longer = answers + fresh;
        assert(longer.subrange(0, start as int) =~= answers);
        assert(answers.subrange(0, start as int) =~= answers);
        while progress.evaluated < end && !progress.stopped
            invariant
                len == cands@.len(),
                start < end <= len,
                pass_buf@.len() == end - start,
                fresh == crate::filter::verdicts_of(pass_buf@),
                longer == answers + fresh,
                answers.len() == start,
                crate::output::sink_usable::<O, E, D, X, P, L>(*sink),
                progress.wf(*sink, k, cands@),
                progress.outs()[0] == output,
                start <= progress.evaluated <= end,
                progress.stopped ==> start < progress.evaluated,
                crate::labels::count_set(progress.knowns(), progress.evaluated as int) == 0,
                progress.verdicts() == longer.subrange(0, progress.evaluated as int),
            decreases end - progress.evaluated,
        {
            let ghost before = progress;
            let passes = pass_buf[progress.evaluated - start] != 0;
            progress = progress.settle(sink, k, cands, Checked { passes, known: false });
            proof {
                lemma_count_push(before.knowns(), false);
                assert(longer[before.evaluated as int] == passes);
                assert(progress.verdicts() =~= longer.subrange(0, progress.evaluated as int));
            }
        }
        proof {
            let trail = hosts;
            hosts = trail + Seq::new((end - start) as nat, |i: int| after);
            assert(end == crate::filter::chunk_end(start as int, size, len));
            lemma_chunk_holds(start as int, size, progress.evaluated - 1);
            assert(longer.subrange(start as int, end as int) =~= fresh);
            assert(crate::filter::asks_batch(
                *batch_cb,
                context_id,
                ids.subrange(start as int, end as int),
                fresh,
                from,
                after,
            ));
            assert forall|s: int| #![trigger crate::filter::chunk_end(s, size, len)]
                0 <= s < end && s % size == 0 implies crate::filter::chunk_end(s, size, len) <= end
                && crate::filter::asks_batch(
                *batch_cb,
                context_id,
                ids.subrange(s, crate::filter::chunk_end(s, size, len)),
                longer.subrange(s, crate::filter::chunk_end(s, size, len)),
                hosts[s],
                hosts[crate::filter::chunk_end(s, size, len)],
            ) by {
                if s < start {
                    assert(longer.subrange(s, crate::filter::chunk_end(s, size, len))
                        =~= answers.subrange(s, crate::filter::chunk_end(s, size, len)));
                } else {
                    crate::filter::lemma_chunk_starts(start as int, s, size);
                }
            }
            if end < len {
                vstd::arithmetic::div_mod::lemma_mod_add_multiples_vanish(start as int, size);
            }
            answers = longer;
        }
        start = end;
    }
    proof {
        let all = answers + Seq::new((len - start) as nat, |i: int| false);
        assert(all.subrange(0, progress.verdicts().len() as int) =~= progress.verdicts());
        assert forall|s: int| #![trigger crate::filter::chunk_end(s, size, len)]
            0 <= s < progress.verdicts().len() && s % size == 0 implies crate::filter::asks_batch(
            *batch_cb,
            context_id,
            ids.subrange(s, crate::filter::chunk_end(s, size, len)),
            all.subrange(s, crate::filter::chunk_end(s, size, len)),
            hosts[s],
            hosts[crate::filter::chunk_end(s, size, len)],
        ) by {
            assert(all.subrange(s, crate::filter::chunk_end(s, size, len)) =~= answers.subrange(
                s,
                crate::filter::chunk_end(s, size, len),
            ));
        }
    }
    (progress, at, Ghost(hosts))
}

/// Fewer candidates were checked than came, fewer passed or were known than were
/// checked, and no page but the last was empty.
pub proof fn lemma_counts<
    S,
    C,
    T,
    Q: Fn(S, C) -> (S, C, Result<Vec<Candidate>, T>),
    O,
    E,
    D,
    X: Fn(O, u32) -> (O, Result<E, D>),
    P: Fn(O, E, OrderedF32) -> (O, bool),
    L: Fn(&O) -> usize,
>(
    next: Q,
    sink: Sink<X, P, L>,
    k: usize,
    effort: Effort,
    origin: spec_fn(PageLog<S, C, O>) -> bool,
    state: S,
    host: C,
    output: O,
    logs: Seq<PageLog<S, C, O>>,
)
    requires
        pages_follow(next, sink, k, effort, origin, state, host, output, logs),
    ensures
        0 <= passed(logs) <= checked(logs) <= came(logs),
        0 <= were_known(logs) <= checked(logs),
        goes_on(effort, logs) ==> logs.len() <= came(logs),
        logs.len() <= came(logs) + 1,
    decreases logs.len(),
{
    if logs.len() > 0 {
        lemma_counts(next, sink, k, effort, origin, state, host, output, logs.drop_last());
        lemma_count_bound(logs.last().verdicts, logs.last().verdicts.len() as int);
        lemma_count_bound(logs.last().known, logs.last().known.len() as int);
    }
}

proof fn lemma_count_bound(bits: Seq<bool>, n: int)
    requires
        n >= 0,
    ensures
        0 <= crate::labels::count_set(bits, n) <= n,
    decreases n,
{
    if n > 0 {
        lemma_count_bound(bits, n - 1);
    }
}

/// A search makes no more checks than its effort allows.
pub proof fn lemma_effort_bounds_checks<
    S,
    C,
    T,
    Q: Fn(S, C) -> (S, C, Result<Vec<Candidate>, T>),
    O,
    E,
    D,
    X: Fn(O, u32) -> (O, Result<E, D>),
    P: Fn(O, E, OrderedF32) -> (O, bool),
    L: Fn(&O) -> usize,
>(
    next: Q,
    sink: Sink<X, P, L>,
    k: usize,
    effort: Effort,
    origin: spec_fn(PageLog<S, C, O>) -> bool,
    state: S,
    host: C,
    output: O,
    logs: Seq<PageLog<S, C, O>>,
)
    requires
        pages_follow(next, sink, k, effort, origin, state, host, output, logs),
    ensures
        match effort {
            Effort::Unlimited => true,
            Effort::Limited(max) => checked(logs) <= max,
        },
    decreases logs.len(),
{
    if logs.len() > 0 {
        lemma_effort_bounds_checks(
            next,
            sink,
            k,
            effort,
            origin,
            state,
            host,
            output,
            logs.drop_last(),
        );
    }
}

/// A search without a limit that ends without its last result has fetched an
/// empty page and has checked every candidate that came.
pub proof fn lemma_unlimited_checks_all<
    S,
    C,
    T,
    Q: Fn(S, C) -> (S, C, Result<Vec<Candidate>, T>),
    O,
    E,
    D,
    X: Fn(O, u32) -> (O, Result<E, D>),
    P: Fn(O, E, OrderedF32) -> (O, bool),
    L: Fn(&O) -> usize,
>(
    next: Q,
    sink: Sink<X, P, L>,
    k: usize,
    origin: spec_fn(PageLog<S, C, O>) -> bool,
    state: S,
    host: C,
    output: O,
    logs: Seq<PageLog<S, C, O>>,
)
    requires
        pages_follow(next, sink, k, Effort::Unlimited, origin, state, host, output, logs),
        logs.len() > 0 ==> !logs.last().stopped,
    ensures
        checked(logs) == came(logs),
        !goes_on(Effort::Unlimited, logs) ==> logs.last().cands.len() == 0,
    decreases logs.len(),
{
    if logs.len() > 0 {
        lemma_unlimited_checks_all(next, sink, k, origin, state, host, output, logs.drop_last());
    }
}

/// Outcomes that came from one origin came from any wider one.
proof fn lemma_origin_widens<
    S,
    C,
    T,
    Q: Fn(S, C) -> (S, C, Result<Vec<Candidate>, T>),
    O,
    E,
    D,
    X: Fn(O, u32) -> (O, Result<E, D>),
    P: Fn(O, E, OrderedF32) -> (O, bool),
    L: Fn(&O) -> usize,
>(
    next: Q,
    sink: Sink<X, P, L>,
    k: usize,
    effort: Effort,
    origin: spec_fn(PageLog<S, C, O>) -> bool,
    wider: spec_fn(PageLog<S, C, O>) -> bool,
    state: S,
    host: C,
    output: O,
    logs: Seq<PageLog<S, C, O>>,
)
    requires
        pages_follow(next, sink, k, effort, origin, state, host, output, logs),
        forall|log: PageLog<S, C, O>| log.known.len() == log.verdicts.len() && log.verdicts.len()
            <= log.cands.len() && #[trigger] origin(log) ==> wider(log),
    ensures
        pages_follow(next, sink, k, effort, wider, state, host, output, logs),
    decreases logs.len(),
{
    if logs.len() > 0 {
        lemma_origin_widens(
            next,
            sink,
            k,
            effort,
            origin,
            wider,
            state,
            host,
            output,
            logs.drop_last(),
        );
    }
}

/// How far a search of pages has come.
struct PagesProgress<S, C, O> {
    counts: PageCounts,
    over: bool,
    logs: Ghost<Seq<PageLog<S, C, O>>>,
}

impl<S, C, O> PagesProgress<S, C, O> {
    fn start() -> (r: Self)
        ensures
            r.logs@ == Seq::<PageLog<S, C, O>>::empty(),
            r.counts.tells(r.logs@),
            !r.over,
    {
        PagesProgress {
            counts: PageCounts {
                pages: 0,
                candidates: 0,
                evaluated: 0,
                passed: 0,
                cache_hits: 0,
                cache_misses: 0,
                early_exit: false,
            },
            over: false,
            logs: Ghost(Seq::empty()),
        }
    }

    /// Takes up a page that was searched.
    fn absorb<
        T,
        Q: Fn(S, C) -> (S, C, Result<Vec<Candidate>, T>),
        E,
        D,
        X: Fn(O, u32) -> (O, Result<E, D>),
        P: Fn(O, E, OrderedF32) -> (O, bool),
        L: Fn(&O) -> usize,
    >(
        self,
        next: &Q,
        sink: &Sink<X, P, L>,
        k: usize,
        effort: &Effort,
        cands: &Vec<Candidate>,
        page: &PageProgress<O>,
        Ghost(origin): Ghost<spec_fn(PageLog<S, C, O>) -> bool>,
        Ghost(state): Ghost<S>,
        Ghost(host): Ghost<C>,
        Ghost(output): Ghost<O>,
        Ghost(log): Ghost<PageLog<S, C, O>>,
    ) -> (r: Self)
        requires
            self.counts.tells(self.logs@),
            pages_follow(*next, *sink, k, *effort, origin, state, host, output, self.logs@),
            goes_on(*effort, self.logs@),
            came(self.logs@) + cands@.len() < u32::MAX,
            page.wf(*sink, k, cands@),
            page.outs()[0] == output_after(output, self.logs@),
            page.evaluated <= effort.allows(checked(self.logs@), cands@.len() as int),
            !page.stopped ==> page.evaluated == effort.allows(
                checked(self.logs@),
                cands@.len() as int,
            ),
            log.before == state_after(state, self.logs@),
            log.start == host_after(host, self.logs@),
            page_came::<S, C, T, Q, O>(*next, log),
            log.cands == cands@,
            log.verdicts == page.verdicts(),
            log.known == page.knowns(),
            log.outs == page.outs(),
            log.stopped == page.stopped,
            origin(log),
        ensures
            r.counts.tells(r.logs@),
            pages_follow(*next, *sink, k, *effort, origin, state, host, output, r.logs@),
            r.over == !goes_on(*effort, r.logs@),
            cands@.len() == 0 ==> r.over,
            output_after(output, r.logs@) == page.output,
            state_after(state, r.logs@) == log.after,
            host_after(host, r.logs@) == log.end,
            came(r.logs@) == came(self.logs@) + cands@.len(),
    {
        let n = cands.len();
        let ghost logs = self.logs@;
        let ghost longer = logs.push(log);
        proof {
            assert(longer.drop_last() =~= logs);
            assert(longer.last() == log);
            lemma_counts(*next, *sink, k, *effort, origin, state, host, output, logs);
        }
        let counts = PageCounts {
            pages: self.counts.pages + 1,
            candidates: self.counts.candidates + n,
            evaluated: self.counts.evaluated + page.evaluated,
            passed: self.counts.passed + page.passed,
            cache_hits: self.counts.cache_hits + page.known,
            cache_misses: self.counts.cache_misses + (page.evaluated - page.known),
            early_exit: page.stopped,
        };
        let spent = effort.spent(counts.evaluated);
        PagesProgress { counts, over: n == 0 || page.stopped || spent, logs: Ghost(longer) }
    }
}

/// The checks of a page made these calls: one check for each candidate, in order,
/// as far as there are outcomes.
pub open spec fn from_check<S, C, O, V: Fn(C, u32) -> (C, Checked)>(check: V) -> spec_fn(
    PageLog<S, C, O>,
) -> bool {
    |log: PageLog<S, C, O>|
        {
            &&& checks_answered(check, log.cands, log.verdicts, log.known, log.hosts)
            &&& log.hosts[0] == log.fetched
            &&& log.hosts.last() == log.end
        }
}

/// Fetches pages and checks their candidates, as far as the effort allows,
/// until the last result that is wanted is found or an empty page comes.
fn run_pages<
    C,
    V: Fn(C, u32) -> (C, Checked),
    S,
    T,
    Q: Fn(S, C) -> (S, C, Result<Vec<Candidate>, T>),
    O,
    E,
    D,
    X: Fn(O, u32) -> (O, Result<E, D>),
    P: Fn(O, E, OrderedF32) -> (O, bool),
    L: Fn(&O) -> usize,
>(
    next: &Q,
    state: S,
    host: C,
    check: &V,
    k: usize,
    effort: Effort,
    sink: &Sink<X, P, L>,
    output: O,
) -> (r: (O, S, C, Result<PageCounts, T>))
    requires
        drains_soon::<S, C, T, Q>(*next, state),
        forall|h: C, id: u32| #[trigger] call_requires(*check, (h, id)),
        crate::output::sink_usable::<O, E, D, X, P, L>(*sink),
    ensures
        pages_end(
            *next,
            *sink,
            k,
            effort,
            from_check::<S, C, O, V>(*check),
            state,
            host,
            output,
            r,
        ),
{
    let ghost left = choose|left: spec_fn(S) -> nat| #[trigger]
        drains::<S, C, T, Q>(*next, left) && left(state) < u32::MAX;
    let ghost origin = from_check::<S, C, O, V>(*check);
    let mut progress: PagesProgress<S, C, O> = PagesProgress::start();
    let mut at = state;
    let mut held = host;
    let mut out = output;
    while !progress.over
        invariant
            drains::<S, C, T, Q>(*next, left),
            left(state) < u32::MAX,
            came(progress.logs@) + left(at) <= left(state),
            forall|h: C, id: u32| #[trigger] call_requires(*check, (h, id)),
            crate::output::sink_usable::<O, E, D, X, P, L>(*sink),
            origin == from_check::<S, C, O, V>(*check),
            pages_follow(
                *next,
                *sink,
                k,
                effort,
                origin,
                state,
                host,
                output,
                progress.logs@,
            ),
            progress.counts.tells(progress.logs@),
            progress.over == !goes_on(effort, progress.logs@),
            out == output_after(output, progress.logs@),
            at == state_after(state, progress.logs@),
            held == host_after(host, progress.logs@),
        decreases
                left(at),
                if progress.over {
                    0int
                } else {
                    1
                },
    {
        let ghost before = at;
        let ghost from = held;
        let (later, fetched, result) = next(at, held);
        at = later;
        match result {
            Err(e) => {
                assert(call_ensures(*next, (before, from), (later, fetched, Err(e))));
                let r = (out, at, fetched, Err(e));
                assert(call_ensures(
                    *next,
                    (state_after(state, progress.logs@), host_after(host, progress.logs@)),
                    (r.1, r.2, Err(e)),
                ));
                return r;
            },
            Ok(cands) => {
                let ghost come = fetched;
                proof {
                    assert(call_ensures(*next, (before, from), (later, come, Ok(cands))));
                    lemma_counts(
                        *next,
                        *sink,
                        k,
                        effort,
                        origin,
                        state,
                        host,
                        output,
                        progress.logs@,
                    );
                }
                let allowed = effort.allowance(progress.counts.evaluated, cands.len());
                let (page, end, Ghost(hosts)) = run_page(
                    fetched,
                    &cands,
                    allowed,
                    check,
                    k,
                    sink,
                    out,
                );
                held = end;
                let ghost log = PageLog {
                    before,
                    after: later,
                    start: from,
                    fetched: come,
                    cands: cands@,
                    verdicts: page.verdicts(),
                    known: page.knowns(),
                    hosts,
                    end,
                    outs: page.outs(),
                    stopped: page.stopped,
                };
                proof {
                    assert(call_ensures(
                        *next,
                        (log.before, log.start),
                        (log.after, log.fetched, Ok(cands)),
                    ));
                    assert(page_came::<S, C, T, Q, O>(*next, log));
                    assert(origin(log));
                }
                progress = progress.absorb(
                    next,
                    sink,
                    k,
                    &effort,
                    &cands,
                    &page,
                    Ghost(origin),
                    Ghost(state),
                    Ghost(host),
                    Ghost(output),
                    Ghost(log),
                );
                out = page.output;
            },
        }
    }
    (out, at, held, Ok(progress.counts))
}

/// The checks of a page made these calls: one of a batch callback for each chunk
/// of candidates, in order, as far as there are outcomes. None was known before.
pub open spec fn from_chunks<S, C, O, B: Fn(C, u64, &Vec<u32>) -> (C, Vec<u8>)>(
    b: B,
    context_id: u64,
    size: int,
) -> spec_fn(PageLog<S, C, O>) -> bool {
    |log: PageLog<S, C, O>|
        {
            &&& chunks_answered(b, context_id, size, log.cands, log.verdicts, log.hosts)
            &&& crate::labels::count_set(log.known, log.verdicts.len() as int) == 0
            &&& log.hosts[0] == log.fetched
            &&& log.hosts[chunks_asked(
                log.verdicts.len() as int,
                size,
                log.cands.len() as int,
            )] == log.end
        }
}

/// Fetches pages and checks their candidates, a chunk at a time, until the last
/// result that is wanted is found or an empty page comes.
fn run_pages_in_chunks<
    C,
    B: Fn(C, u64, &Vec<u32>) -> (C, Vec<u8>),
    S,
    T,
    Q: Fn(S, C) -> (S, C, Result<Vec<Candidate>, T>),
    O,
    E,
    D,
    X: Fn(O, u32) -> (O, Result<E, D>),
    P: Fn(O, E, OrderedF32) -> (O, bool),
    L: Fn(&O) -> usize,
>(
    next: &Q,
    state: S,
    host: C,
    batch_cb: &B,
    context_id: u64,
    batch_size: usize,
    k: usize,
    sink: &Sink<X, P, L>,
    output: O,
) -> (r: (O, S, C, Result<PageCounts, T>))
    requires
        drains_soon::<S, C, T, Q>(*next, state),
        batch_size > 0,
        crate::filter::answers_each::<C, B>(*batch_cb, context_id),
        crate::output::sink_usable::<O, E, D, X, P, L>(*sink),
    ensures
        pages_end(
            *next,
            *sink,
            k,
            Effort::Unlimited,
            from_chunks::<S, C, O, B>(*batch_cb, context_id, batch_size as int),
            state,
            host,
            output,
            r,
        ),
{
    let ghost left = choose|left: spec_fn(S) -> nat| #[trigger]
        drains::<S, C, T, Q>(*next, left) && left(state) < u32::MAX;
    let ghost origin = from_chunks::<S, C, O, B>(*batch_cb, context_id, batch_size as int);
    let effort = Effort::Unlimited;
    let mut progress: PagesProgress<S, C, O> = PagesProgress::start();
    let mut at = state;
    let mut held = host;
    let mut out = output;
    while !progress.over
        invariant
            drains::<S, C, T, Q>(*next, left),
            left(state) < u32::MAX,
            came(progress.logs@) + left(at) <= left(state),
            batch_size > 0,
            crate::filter::answers_each::<C, B>(*batch_cb, context_id),
            effort == Effort::Unlimited,
            crate::output::sink_usable::<O, E, D, X, P, L>(*sink),
            origin == from_chunks::<S, C, O, B>(*batch_cb, context_id, batch_size as int),
            pages_follow(
                *next,
                *sink,
                k,
                effort,
                origin,
                state,
                host,
                output,
                progress.logs@,
            ),
            progress.counts.tells(progress.logs@),
            progress.over == !goes_on(effort, progress.logs@),
            out == output_after(output, progress.logs@),
            at == state_after(state, progress.logs@),
            held == host_after(host, progress.logs@),
        decreases
                left(at),
                if progress.over {
                    0int
                } else {
                    1
                },
    {
        let ghost before = at;
        let ghost from = held;
        let (later, fetched, result) = next(at, held);
        at = later;
        match result {
            Err(e) => {
                assert(call_ensures(*next, (before, from), (later, fetched, Err(e))));
                let r = (out, at, fetched, Err(e));
                assert(call_ensures(
                    *next,
                    (state_after(state, progress.logs@), host_after(host, progress.logs@)),
                    (r.1, r.2, Err(e)),
                ));
                return r;
            },
            Ok(cands) => {
                let ghost come = fetched;
                proof {
                    assert(call_ensures(*next, (before, from), (later, come, Ok(cands))));
                    lemma_counts(
                        *next,
                        *sink,
                        k,
                        effort,
                        origin,
                        state,
                        host,
                        output,
                        progress.logs@,
                    );
                }
                let (page, end, Ghost(hosts)) = run_page_in_chunks(
                    fetched,
                    &cands,
                    batch_cb,
                    context_id,
                    batch_size,
                    k,
                    sink,
                    out,
                );
                held = end;
                let ghost log = PageLog {
                    before,
                    after: later,
                    start: from,
                    fetched: come,
                    cands: cands@,
                    verdicts: page.verdicts(),
                    known: page.knowns(),
                    hosts,
                    end,
                    outs: page.outs(),
                    stopped: page.stopped,
                };
                proof {
                    assert(call_ensures(
                        *next,
                        (log.before, log.start),
                        (log.after, log.fetched, Ok(cands)),
                    ));
                    assert(page_came::<S, C, T, Q, O>(*next, log));
                    assert(origin(log));
                }
                progress = progress.absorb(
                    next,
                    sink,
                    k,
                    &effort,
                    &cands,
                    &page,
                    Ghost(origin),
                    Ghost(state),
                    Ghost(host),
                    Ghost(output),
                    Ghost(log),
                );
                out = page.output;
            },
        }
    }
    (out, at, held, Ok(progress.counts))
}

/// What a paged search reports.
#[derive(Clone, Copy, Debug)]
pub struct PagedReport {
    pub stats: SearchStats,
    pub counts: PageCounts,
}

/// The counts of a search that reported.
pub open spec fn counts_of<T>(r: Result<PagedReport, T>) -> Result<PageCounts, T> {
    match r {
        Ok(report) => Ok(report.counts),
        Err(e) => Err(e),
    }
}

/// The statistics hold these counts and what the output holds.
pub open spec fn stats_told<O, X, P, L: Fn(&O) -> usize>(
    sink: Sink<X, P, L>,
    output: O,
    comparisons: int,
    hops: int,
    stats: SearchStats,
) -> bool {
    exists|len: usize| #[trigger]
        call_ensures(sink.current_len, (&output,), len) && stats.tells(comparisons, hops, len)
}

/// Adds the statistics to the counts of a search.
fn report<S, C, T, O, X, P, L: Fn(&O) -> usize>(
    sink: &Sink<X, P, L>,
    end: (O, S, C, Result<PageCounts, T>),
) -> (r: (O, S, C, Result<PagedReport, T>))
    requires
        forall|o: O| #[trigger] call_requires(sink.current_len, (&o,)),
    ensures
        r.0 == end.0,
        r.1 == end.1,
        r.2 == end.2,
        counts_of(r.3) == end.3,
        r.3 matches Ok(report) ==> stats_told(*sink, r.0, 0, 0, report.stats),
{
    let (output, state, host, result) = end;
    match result {
        Err(e) => (output, state, host, Err(e)),
        Ok(counts) => {
            let len = (sink.current_len)(&output);
            let stats = SearchStats::new(0, 0, len);
            (output, state, host, Ok(PagedReport { stats, counts }))
        },
    }
}

/// The checks of a page made these calls: one of a callback for each candidate,
/// in order, as far as there are outcomes. None was known before.
pub open spec fn from_callback<S, C, O, F: Fn(C, u64, u32) -> (C, u8)>(
    f: F,
    context_id: u64,
) -> spec_fn(PageLog<S, C, O>) -> bool {
    |log: PageLog<S, C, O>|
        {
            &&& log.hosts.len() == log.verdicts.len() + 1
            &&& forall|i: int|
                0 <= i < log.verdicts.len() ==> crate::filter::asks(
                    f,
                    context_id,
                    (#[trigger] log.cands[i]).id,
                    log.verdicts[i],
                    log.hosts[i],
                    log.hosts[i + 1],
                ) && !log.known[i]
            &&& log.hosts[0] == log.fetched
            &&& log.hosts.last() == log.end
        }
}

/// The checks of a page were made one for each candidate, in order, as far as
/// there are outcomes, each by the cells of a cache that the paged search
/// shares. None is counted as known.
pub open spec fn from_cells<S, C, O, F: Fn(C, u64, u32) -> (C, u8)>() -> spec_fn(
    PageLog<S, (AtomicCacheLabelProvider<F>, C), O>,
) -> bool {
    |log: PageLog<S, (AtomicCacheLabelProvider<F>, C), O>|
        {
            &&& log.hosts.len() == log.verdicts.len() + 1
            &&& forall|i: int|
                0 <= i < log.verdicts.len() ==> log.hosts[i].0.answers_on(
                    log.hosts[i].1,
                    (#[trigger] log.cands[i]).id,
                    log.verdicts[i],
                    log.hosts[i + 1].1,
                    log.hosts[i + 1].0,
                ) && !log.known[i]
            &&& log.hosts[0] == log.fetched
            &&& log.hosts.last() == log.end
        }
}

/// The checks of a page were made one for each candidate, in order, as far as
/// there are outcomes, each by a cache that the paged search shares. Those count
/// as known that the cache had the answer of.
pub open spec fn from_cache<S, C, O, F: Fn(C, u64, u32) -> (C, u8)>() -> spec_fn(
    PageLog<S, (CachedCallbackLabelProvider<F>, C), O>,
) -> bool {
    |log: PageLog<S, (CachedCallbackLabelProvider<F>, C), O>|
        {
            &&& log.hosts.len() == log.verdicts.len() + 1
            &&& forall|i: int|
                0 <= i < log.verdicts.len() ==> log.hosts[i].0.answers_on(
                    log.hosts[i].1,
                    (#[trigger] log.cands[i]).id,
                    log.verdicts[i],
                    log.hosts[i + 1].1,
                    log.hosts[i + 1].0,
                ) && log.known[i] == log.hosts[i].0.answers().contains_key(log.cands[i].id)
            &&& log.hosts[0] == log.fetched
            &&& log.hosts.last() == log.end
        }
}

/// The outcomes of a page are those of a bitmap. No call is made, and none is
/// counted as known.
pub open spec fn from_bitmap<S, C, O>(bitmap: BitmapLabelProvider) -> spec_fn(
    PageLog<S, C, O>,
) -> bool {
    |log: PageLog<S, C, O>|
        {
            &&& forall|i: int|
                0 <= i < log.verdicts.len() ==> log.verdicts[i] == bitmap.matches_id(
                    (#[trigger] log.cands[i]).id,
                ) && !log.known[i]
            &&& log.end == log.fetched
        }
}

/// Which calls the checks of a search without a limit make.
pub open spec fn from_callbacks<
    S,
    C,
    O,
    F: Fn(C, u64, u32) -> (C, u8),
    B: Fn(C, u64, &Vec<u32>) -> (C, Vec<u8>),
>(f: F, b: Option<B>, context_id: u64, batch_size: usize) -> spec_fn(PageLog<S, C, O>) -> bool {
    if batch_size > 1 && b is Some {
        from_chunks(b->0, context_id, batch_size as int)
    } else {
        from_callback(f, context_id)
    }
}

/// A search that ends with origins ends with wider ones.
proof fn lemma_end_widens<
    S,
    C,
    T,
    Q: Fn(S, C) -> (S, C, Result<Vec<Candidate>, T>),
    O,
    E,
    D,
    X: Fn(O, u32) -> (O, Result<E, D>),
    P: Fn(O, E, OrderedF32) -> (O, bool),
    L: Fn(&O) -> usize,
>(
    next: Q,
    sink: Sink<X, P, L>,
    k: usize,
    effort: Effort,
    origin: spec_fn(PageLog<S, C, O>) -> bool,
    wider: spec_fn(PageLog<S, C, O>) -> bool,
    state: S,
    host: C,
    output: O,
    r: (O, S, C, Result<PageCounts, T>),
)
    requires
        pages_end(next, sink, k, effort, origin, state, host, output, r),
        forall|log: PageLog<S, C, O>| log.known.len() == log.verdicts.len() && log.verdicts.len()
            <= log.cands.len() && #[trigger] origin(log) ==> wider(log),
    ensures
        pages_end(next, sink, k, effort, wider, state, host, output, r),
{
    let logs = choose|logs: Seq<PageLog<S, C, O>>|
        {
            &&& #[trigger] pages_follow(next, sink, k, effort, origin, state, host, output, logs)
            &&& r.0 == output_after(output, logs)
            &&& match r.3 {
                Ok(counts) => !goes_on(effort, logs) && r.1 == state_after(state, logs) && r.2
                    == host_after(host, logs) && counts.tells(logs),
                Err(e) => goes_on(effort, logs) && call_ensures(
                    next,
                    (state_after(state, logs), host_after(host, logs)),
                    (r.1, r.2, Err(e)),
                ),
            }
        };
    lemma_origin_widens(next, sink, k, effort, origin, wider, state, host, output, logs);
}

spec fn can_ask<C, F: Fn(C, u64, u32) -> (C, u8)>(
    f: &F,
    host: C,
    context_id: u64,
    id: u32,
) -> bool {
    call_requires(*f, (host, context_id, id))
}

spec fn asked<C, F: Fn(C, u64, u32) -> (C, u8)>(
    f: &F,
    context_id: u64,
    id: u32,
    verdict: bool,
    before: C,
    after: C,
) -> bool {
    crate::filter::asks(*f, context_id, id, verdict, before, after)
}

/// Asks a callback about an id.
fn ask<C, F: Fn(C, u64, u32) -> (C, u8)>(
    f: &F,
    host: C,
    context_id: u64,
    id: u32,
) -> (r: (C, bool))
    requires
        can_ask(f, host, context_id, id),
    ensures
        asked(f, context_id, id, r.1, host, r.0),
{
    let ghost from = host;
    let (after, answer) = f(host, context_id, id);
    assert(call_ensures(*f, (from, context_id, id), (after, answer)));
    (after, answer != 0)
}

/// Every callback of this type can be asked about any id, whatever the host has
/// come to.
pub open spec fn all_can_ask<C, F: Fn(C, u64, u32) -> (C, u8)>() -> bool {
    forall|f: F, host: C, context_id: u64, id: u32| #[trigger]
        call_requires(f, (host, context_id, id))
}

/// Searches pages with a callback, as far as the effort allows.
fn run_pages_by_callback<
    C,
    F: Fn(C, u64, u32) -> (C, u8),
    S,
    T,
    Q: Fn(S, C) -> (S, C, Result<Vec<Candidate>, T>),
    O,
    E,
    D,
    X: Fn(O, u32) -> (O, Result<E, D>),
    P: Fn(O, E, OrderedF32) -> (O, bool),
    L: Fn(&O) -> usize,
>(
    next: &Q,
    state: S,
    host: C,
    filter_callback: &F,
    context_id: u64,
    k: usize,
    effort: Effort,
    sink: &Sink<X, P, L>,
    output: O,
) -> (r: (O, S, C, Result<PageCounts, T>))
    requires
        drains_soon::<S, C, T, Q>(*next, state),
        crate::filter::can_ask::<C, F>(*filter_callback, context_id),
        crate::output::sink_usable::<O, E, D, X, P, L>(*sink),
    ensures
        pages_end(
            *next,
            *sink,
            k,
            effort,
            from_callback::<S, C, O, F>(*filter_callback, context_id),
            state,
            host,
            output,
            r,
        ),
{
    let check = |h: C, id: u32| -> (c: (C, Checked))
        requires
            can_ask(filter_callback, h, context_id, id),
        ensures
            asked(filter_callback, context_id, id, c.1.passes, h, c.0),
            !c.1.known,
        {
            let (after, passes) = ask(filter_callback, h, context_id, id);
            (after, Checked { passes, known: false })
        };
    let ghost first = state;
    let ghost given = host;
    let ghost before = output;
    let ghost limit = effort;
    let r = run_pages(next, state, host, &check, k, effort, sink, output);
    proof {
        let origin = from_check::<S, C, O, _>(check);
        let wider = from_callback::<S, C, O, F>(*filter_callback, context_id);
        assert forall|log: PageLog<S, C, O>| log.known.len() == log.verdicts.len()
            && log.verdicts.len() <= log.cands.len() && #[trigger] origin(log) implies wider(
            log,
        ) by {
            assert forall|i: int| 0 <= i < log.verdicts.len() implies crate::filter::asks(
                *filter_callback,
                context_id,
                (#[trigger] log.cands[i]).id,
                log.verdicts[i],
                log.hosts[i],
                log.hosts[i + 1],
            ) && !log.known[i] by {
                let same = log.cands[i];
                let c = (
                    log.hosts[i + 1],
                    Checked { passes: log.verdicts[i], known: log.known[i] },
                );
                assert(call_ensures(check, (log.hosts[i], log.cands[i].id), c));
                assert(asked(
                    filter_callback,
                    context_id,
                    log.cands[i].id,
                    c.1.passes,
                    log.hosts[i],
                    c.0,
                ));
            }
        }
        lemma_end_widens(*next, *sink, k, limit, origin, wider, first, given, before, r);
    }
    r
}

/// Fetches pages until `k` results are found or an empty page comes. Asks the
/// batch callback, a chunk at a time, if there is one and chunks hold more than
/// one candidate; otherwise asks the single callback. The comparisons and hops
/// are those of the paged search.
pub fn paged_filter_loop_unlimited<
    C,
    F: Fn(C, u64, u32) -> (C, u8),
    B: Fn(C, u64, &Vec<u32>) -> (C, Vec<u8>),
    W: Fn(&S) -> (u32, u32),
    S,
    T,
    Q: Fn(S, C) -> (S, C, Result<Vec<Candidate>, T>),
    O,
    E,
    D,
    X: Fn(O, u32) -> (O, Result<E, D>),
    P: Fn(O, E, OrderedF32) -> (O, bool),
    L: Fn(&O) -> usize,
>(
    next: &Q,
    state: S,
    host: C,
    scratch: &W,
    context_id: u64,
    k: usize,
    filter_callback: &F,
    batch_filter_callback: &Option<B>,
    batch_size: usize,
    sink: &Sink<X, P, L>,
    output: O,
) -> (r: (O, S, C, Result<PagedReport, T>))
    requires
        batch_size > 0,
        drains_soon::<S, C, T, Q>(*next, state),
        forall|s: S| #[trigger] call_requires(*scratch, (&s,)),
        crate::filter::plain_usable::<C, F, B>(
            *filter_callback,
            *batch_filter_callback,
            context_id,
            batch_size,
        ),
        crate::output::sink_usable::<O, E, D, X, P, L>(*sink),
    ensures
        pages_end(
            *next,
            *sink,
            k,
            Effort::Unlimited,
            from_callbacks::<S, C, O, F, B>(
                *filter_callback,
                *batch_filter_callback,
                context_id,
                batch_size,
            ),
            state,
            host,
            output,
            (r.0, r.1, r.2, counts_of(r.3)),
        ),
        r.3 matches Ok(report) ==> exists|comparisons: u32, hops: u32| #[trigger]
            call_ensures(*scratch, (&r.1,), (comparisons, hops)) && stats_told(
                *sink,
                r.0,
                comparisons as int,
                hops as int,
                report.stats,
            ),
{
    let end = match batch_filter_callback {
        Some(b) if batch_size > 1 => run_pages_in_chunks(
            next,
            state,
            host,
            b,
            context_id,
            batch_size,
            k,
            sink,
            output,
        ),
        _ => run_pages_by_callback(
            next,
            state,
            host,
            filter_callback,
            context_id,
            k,
            Effort::Unlimited,
            sink,
            output,
        ),
    };
    let (out, at, held, result) = end;
    match result {
        Err(e) => (out, at, held, Err(e)),
        Ok(counts) => {
            let (comparisons, hops) = scratch(&at);
            assert(call_ensures(*scratch, (&at,), (comparisons, hops)));
            let len = (sink.current_len)(&out);
            let stats = SearchStats::new(comparisons, hops, len);
            (out, at, held, Ok(PagedReport { stats, counts }))
        },
    }
}

/// Fetches pages until `k` results are found or an empty page comes. The cache
/// of the checks goes through the calls that fetch pages, which may make checks
/// of their own: no id that has a cell is asked about twice.
pub fn paged_filter_loop_unlimited_atomic<
    C,
    F: Fn(C, u64, u32) -> (C, u8),
    S,
    T,
    Q: Fn(S, (AtomicCacheLabelProvider<F>, C)) -> (
        S,
        (AtomicCacheLabelProvider<F>, C),
        Result<Vec<Candidate>, T>,
    ),
    O,
    E,
    D,
    X: Fn(O, u32) -> (O, Result<E, D>),
    P: Fn(O, E, OrderedF32) -> (O, bool),
    L: Fn(&O) -> usize,
>(
    next: &Q,
    state: S,
    labels: AtomicCacheLabelProvider<F>,
    host: C,
    k: usize,
    sink: &Sink<X, P, L>,
    output: O,
) -> (r: (O, S, (AtomicCacheLabelProvider<F>, C), Result<PagedReport, T>))
    requires
        drains_soon::<S, (AtomicCacheLabelProvider<F>, C), T, Q>(*next, state),
        all_can_ask::<C, F>(),
        crate::output::sink_usable::<O, E, D, X, P, L>(*sink),
    ensures
        pages_end(
            *next,
            *sink,
            k,
            Effort::Unlimited,
            from_cells::<S, C, O, F>(),
            state,
            (labels, host),
            output,
            (r.0, r.1, r.2, counts_of(r.3)),
        ),
        r.3 matches Ok(report) ==> stats_told(*sink, r.0, 0, 0, report.stats),
{
    let check = |pair: (AtomicCacheLabelProvider<F>, C), id: u32| -> (c: (
        (AtomicCacheLabelProvider<F>, C),
        Checked,
    ))
        requires
            all_can_ask::<C, F>(),
        ensures
            pair.0.answers_on(pair.1, id, c.1.passes, c.0.1, c.0.0),
            !c.1.known,
        {
            let (provider, h) = pair;
            let mut labels = provider;
            let (after, passes) = labels.is_match_fast(h, id);
            ((labels, after), Checked { passes, known: false })
        };
    let ghost first = state;
    let ghost given = (labels, host);
    let ghost before = output;
    let r = run_pages(next, state, (labels, host), &check, k, Effort::Unlimited, sink, output);
    proof {
        let origin = from_check::<S, (AtomicCacheLabelProvider<F>, C), O, _>(check);
        let wider = from_cells::<S, C, O, F>();
        assert forall|log: PageLog<S, (AtomicCacheLabelProvider<F>, C), O>| log.known.len()
            == log.verdicts.len() && log.verdicts.len() <= log.cands.len() && #[trigger] origin(
            log,
        ) implies wider(log) by {
            assert forall|i: int| 0 <= i < log.verdicts.len() implies log.hosts[i].0.answers_on(
                log.hosts[i].1,
                (#[trigger] log.cands[i]).id,
                log.verdicts[i],
                log.hosts[i + 1].1,
                log.hosts[i + 1].0,
            ) && !log.known[i] by {
                let same = log.cands[i];
                let c = (
                    log.hosts[i + 1],
                    Checked { passes: log.verdicts[i], known: log.known[i] },
                );
                assert(call_ensures(check, (log.hosts[i], log.cands[i].id), c));
            }
        }
        lemma_end_widens(
            *next,
            *sink,
            k,
            Effort::Unlimited,
            origin,
            wider,
            first,
            given,
            before,
            r,
        );
    }
    report(sink, r)
}

/// Fetches pages until `k` results are found or an empty page comes, and looks
/// candidates up in a bitmap.
pub fn paged_filter_loop_bitmap<
    C,
    S,
    T,
    Q: Fn(S, C) -> (S, C, Result<Vec<Candidate>, T>),
    O,
    E,
    D,
    X: Fn(O, u32) -> (O, Result<E, D>),
    P: Fn(O, E, OrderedF32) -> (O, bool),
    L: Fn(&O) -> usize,
>(
    next: &Q,
    state: S,
    host: C,
    k: usize,
    bitmap: &BitmapLabelProvider,
    sink: &Sink<X, P, L>,
    output: O,
) -> (r: (O, S, C, Result<PagedReport, T>))
    requires
        drains_soon::<S, C, T, Q>(*next, state),
        crate::output::sink_usable::<O, E, D, X, P, L>(*sink),
    ensures
        pages_end(
            *next,
            *sink,
            k,
            Effort::Unlimited,
            from_bitmap::<S, C, O>(*bitmap),
            state,
            host,
            output,
            (r.0, r.1, r.2, counts_of(r.3)),
        ),
        r.3 matches Ok(report) ==> stats_told(*sink, r.0, 0, 0, report.stats),
{
    let check = |h: C, id: u32| -> (c: (C, Checked))
        ensures
            c.0 == h,
            c.1.passes == bitmap.matches_id(id),
            !c.1.known,
        { (h, Checked { passes: bitmap.is_match_fast(id), known: false }) };
    let ghost first = state;
    let ghost given = host;
    let ghost before = output;
    let r = run_pages(next, state, host, &check, k, Effort::Unlimited, sink, output);
    proof {
        let origin = from_check::<S, C, O, _>(check);
        let wider = from_bitmap::<S, C, O>(*bitmap);
        assert forall|log: PageLog<S, C, O>| log.known.len() == log.verdicts.len()
            && log.verdicts.len() <= log.cands.len() && #[trigger] origin(log) implies wider(
            log,
        ) by {
            assert forall|i: int| 0 <= i < log.verdicts.len() implies log.hosts[i + 1]
                == log.hosts[i] && log.verdicts[i] == bitmap.matches_id(
                (#[trigger] log.cands[i]).id,
            ) && !log.known[i] by {
                let same = log.cands[i];
                let c = (
                    log.hosts[i + 1],
                    Checked { passes: log.verdicts[i], known: log.known[i] },
                );
                assert(call_ensures(check, (log.hosts[i], log.cands[i].id), c));
            }
            assert forall|i: int| 0 <= i < log.verdicts.len() implies log.hosts[i + 1]
                == #[trigger] log.hosts[i] by {
                let same = log.cands[i];
            }
            lemma_unmoved(log.hosts, log.verdicts.len() as int);
        }
        lemma_end_widens(
            *next,
            *sink,
            k,
            Effort::Unlimited,
            origin,
            wider,
            first,
            given,
            before,
            r,
        );
    }
    report(sink, r)
}

/// A host that no check moves stays where it is.
proof fn lemma_unmoved<C>(hosts: Seq<C>, n: int)
    requires
        0 <= n,
        forall|i: int| 0 <= i < n ==> hosts[i + 1] == #[trigger] hosts[i],
    ensures
        hosts[n] == hosts[0],
    decreases n,
{
    if n > 0 {
        lemma_unmoved(hosts, n - 1);
        let last = hosts[n - 1];
    }
}

/// Fetches pages until `k` results are found, `max_effort` candidates are
/// checked, or an empty page comes. Looks each candidate up first, and makes the
/// check only where there is no answer yet. The cache goes through the calls
/// that fetch pages, which may make checks of their own.
pub fn paged_filter_loop_cached<
    C,
    F: Fn(C, u64, u32) -> (C, u8),
    S,
    T,
    Q: Fn(S, (CachedCallbackLabelProvider<F>, C)) -> (
        S,
        (CachedCallbackLabelProvider<F>, C),
        Result<Vec<Candidate>, T>,
    ),
    O,
    E,
    D,
    X: Fn(O, u32) -> (O, Result<E, D>),
    P: Fn(O, E, OrderedF32) -> (O, bool),
    L: Fn(&O) -> usize,
>(
    next: &Q,
    state: S,
    labels: CachedCallbackLabelProvider<F>,
    host: C,
    k: usize,
    max_effort: usize,
    sink: &Sink<X, P, L>,
    output: O,
) -> (r: (O, S, (CachedCallbackLabelProvider<F>, C), Result<PagedReport, T>))
    requires
        drains_soon::<S, (CachedCallbackLabelProvider<F>, C), T, Q>(*next, state),
        all_can_ask::<C, F>(),
        crate::output::sink_usable::<O, E, D, X, P, L>(*sink),
    ensures
        pages_end(
            *next,
            *sink,
            k,
            Effort::Limited(max_effort),
            from_cache::<S, C, O, F>(),
            state,
            (labels, host),
            output,
            (r.0, r.1, r.2, counts_of(r.3)),
        ),
        r.3 matches Ok(report) ==> stats_told(*sink, r.0, 0, 0, report.stats),
{
    let check = |pair: (CachedCallbackLabelProvider<F>, C), id: u32| -> (c: (
        (CachedCallbackLabelProvider<F>, C),
        Checked,
    ))
        requires
            all_can_ask::<C, F>(),
        ensures
            pair.0.answers_on(pair.1, id, c.1.passes, c.0.1, c.0.0),
            c.1.known == pair.0.answers().contains_key(id),
        {
            let (provider, h) = pair;
            let mut labels = provider;
            match labels.lookup(id) {
                Some(cached) => ((labels, h), Checked { passes: cached, known: true }),
                None => {
                    let (after, passes) = labels.is_match_cached(h, id);
                    ((labels, after), Checked { passes, known: false })
                },
            }
        };
    let effort = Effort::Limited(max_effort);
    let ghost limit = effort;
    let ghost first = state;
    let ghost given = (labels, host);
    let ghost before = output;
    let r = run_pages(next, state, (labels, host), &check, k, effort, sink, output);
    proof {
        let origin = from_check::<S, (CachedCallbackLabelProvider<F>, C), O, _>(check);
        let wider = from_cache::<S, C, O, F>();
        assert forall|log: PageLog<S, (CachedCallbackLabelProvider<F>, C), O>| log.known.len()
            == log.verdicts.len() && log.verdicts.len() <= log.cands.len() && #[trigger] origin(
            log,
        ) implies wider(log) by {
            assert forall|i: int| 0 <= i < log.verdicts.len() implies log.hosts[i].0.answers_on(
                log.hosts[i].1,
                (#[trigger] log.cands[i]).id,
                log.verdicts[i],
                log.hosts[i + 1].1,
                log.hosts[i + 1].0,
            ) && log.known[i] == log.hosts[i].0.answers().contains_key(log.cands[i].id) by {
                let same = log.cands[i];
                let c = (
                    log.hosts[i + 1],
                    Checked { passes: log.verdicts[i], known: log.known[i] },
                );
                assert(call_ensures(check, (log.hosts[i], log.cands[i].id), c));
            }
        }
        lemma_end_widens(*next, *sink, k, limit, origin, wider, first, given, before, r);
    }
    report(sink, r)
}

/// Fetches pages until `k` results are found, `max_effort` candidates are
/// checked, or an empty page comes.
pub fn paged_filter_loop_capped<
    C,
    F: Fn(C, u64, u32) -> (C, u8),
    S,
    T,
    Q: Fn(S, C) -> (S, C, Result<Vec<Candidate>, T>),
    O,
    E,
    D,
    X: Fn(O, u32) -> (O, Result<E, D>),
    P: Fn(O, E, OrderedF32) -> (O, bool),
    L: Fn(&O) -> usize,
>(
    next: &Q,
    state: S,
    host: C,
    context_id: u64,
    k: usize,
    max_effort: usize,
    filter_callback: &F,
    sink: &Sink<X, P, L>,
    output: O,
) -> (r: (O, S, C, Result<PagedReport, T>))
    requires
        drains_soon::<S, C, T, Q>(*next, state),
        crate::filter::can_ask::<C, F>(*filter_callback, context_id),
        crate::output::sink_usable::<O, E, D, X, P, L>(*sink),
    ensures
        pages_end(
            *next,
            *sink,
            k,
            Effort::Limited(max_effort),
            from_callback::<S, C, O, F>(*filter_callback, context_id),
            state,
            host,
            output,
            (r.0, r.1, r.2, counts_of(r.3)),
        ),
        r.3 matches Ok(report) ==> stats_told(*sink, r.0, 0, 0, report.stats),
{
    let r = run_pages_by_callback(
        next,
        state,
        host,
        filter_callback,
        context_id,
        k,
        Effort::Limited(max_effort),
        sink,
        output,
    );
    report(sink, r)
}

} // verus!
