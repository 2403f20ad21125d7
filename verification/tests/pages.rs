use diskann_garnet::candidate::Candidate;
use diskann_garnet::labels::{
    AtomicCacheLabelProvider, BitmapLabelProvider, CachedCallbackLabelProvider,
};
use diskann_garnet::ordered_f32::OrderedF32;
use diskann_garnet::output::Sink;
use diskann_garnet::paged::{
    paged_filter_loop_bitmap, paged_filter_loop_cached, paged_filter_loop_capped,
    paged_filter_loop_unlimited, paged_filter_loop_unlimited_atomic,
};

/// The calls that were made.
type Calls = Vec<Call>;
type Batch = fn(Calls, u64, &Vec<u32>) -> (Calls, Vec<u8>);
type Page = Result<Vec<Candidate>, &'static str>;

#[derive(Debug, PartialEq)]
enum Call {
    Next(usize),
    One(u64, u32),
    Many(u64, Vec<u32>),
}

fn c(id: u32) -> Candidate {
    Candidate { id, distance: OrderedF32::from_bits((id as f32).to_bits()) }
}

/// Pages of ids from `at` on, `size` at a time, up to `end`.
fn pages(size: usize, end: usize) -> impl Fn(usize, Calls) -> (usize, Calls, Page) {
    move |at: usize, mut calls: Calls| {
        calls.push(Call::Next(at));
        let page: Vec<Candidate> = (at..(at + size).min(end)).map(|i| c(i as u32)).collect();
        (at + page.len(), calls, Ok(page))
    }
}

/// The same pages, fetched by a search that shares a cache of checks.
fn sharing<P>(
    size: usize,
    end: usize,
    check: impl Fn(P, Calls, usize) -> (P, Calls),
) -> impl Fn(usize, (P, Calls)) -> (usize, (P, Calls), Page) {
    let next = pages(size, end);
    move |at: usize, (labels, calls): (P, Calls)| {
        let (later, calls, page) = next(at, calls);
        (later, check(labels, calls, at), page)
    }
}

fn one(answer: impl Fn(u32) -> bool) -> impl Fn(Calls, u64, u32) -> (Calls, u8) {
    move |mut calls: Calls, context: u64, id: u32| {
        calls.push(Call::One(context, id));
        (calls, answer(id) as u8)
    }
}

/// How often the single callback was asked.
fn checks(calls: &Calls) -> usize {
    calls.iter().filter(|call| matches!(call, Call::One(_, _))).count()
}

/// An output that takes `room` results; id 3 has no external id.
fn sink(
    room: usize,
) -> Sink<
    impl Fn(Vec<u64>, u32) -> (Vec<u64>, Result<u64, ()>),
    impl Fn(Vec<u64>, u64, OrderedF32) -> (Vec<u64>, bool),
    impl Fn(&Vec<u64>) -> usize,
> {
    Sink {
        to_external_id: |out: Vec<u64>, id: u32| {
            (out, if id == 3 { Err(()) } else { Ok(id as u64 + 1000) })
        },
        push: move |mut out: Vec<u64>, e: u64, x: OrderedF32| {
            assert_eq!(f32::from_bits(x.bits), (e - 1000) as f32);
            out.push(e);
            let full = out.len() >= room;
            (out, full)
        },
        current_len: |out: &Vec<u64>| out.len(),
    }
}

#[test]
fn unlimited_search_asks_the_single_callback() {
    let (out, state, calls, report) = paged_filter_loop_unlimited(
        &pages(4, 100),
        0,
        vec![],
        &|at: &usize| (*at as u32 * 2, 5),
        4,
        3,
        &one(|id| id % 3 == 0),
        &None::<Batch>,
        10,
        &sink(50),
        Vec::new(),
    );
    assert_eq!(out, vec![1000, 1006, 1009]);
    assert_eq!(state, 12);
    let mut want: Calls = vec![];
    for id in 0..10 {
        if id % 4 == 0 {
            want.push(Call::Next(id as usize));
        }
        want.push(Call::One(4, id));
    }
    assert_eq!(calls, want);
    let report = report.unwrap();
    assert_eq!(report.stats.cmps, 24);
    assert_eq!(report.stats.hops, 5);
    assert_eq!(report.stats.result_count, 3);
    assert_eq!(report.counts.pages, 3);
    assert_eq!(report.counts.candidates, 12);
    assert_eq!(report.counts.evaluated, 10);
    assert_eq!(report.counts.passed, 4);
    assert!(report.counts.early_exit);
}

#[test]
fn unlimited_search_asks_the_batch_callback() {
    let batch = |mut calls: Calls, context: u64, ids: &Vec<u32>| {
        calls.push(Call::Many(context, ids.clone()));
        (calls, ids.iter().map(|id| (id % 2 == 1) as u8).collect::<Vec<u8>>())
    };
    let (out, state, calls, report) = paged_filter_loop_unlimited(
        &pages(5, 9),
        0,
        vec![],
        &|_: &usize| (0, 0),
        1,
        2,
        &one(|_| true),
        &Some(batch),
        3,
        &sink(50),
        vec![],
    );
    assert_eq!(out, vec![1001, 1005]);
    assert_eq!(state, 9);
    assert_eq!(
        calls,
        vec![
            Call::Next(0),
            Call::Many(1, vec![0, 1, 2]),
            Call::Many(1, vec![3, 4]),
            Call::Next(5),
            Call::Many(1, vec![5, 6, 7]),
        ]
    );
    let counts = report.unwrap().counts;
    assert_eq!(counts.evaluated, 6);
    assert_eq!(counts.passed, 3);
    assert_eq!(counts.candidates, 9);
    assert!(counts.early_exit);
}

#[test]
fn unlimited_search_ends_with_an_empty_page() {
    let (out, state, calls, report) = paged_filter_loop_unlimited(
        &pages(4, 10),
        0,
        vec![],
        &|_: &usize| (0, 0),
        1,
        5,
        &one(|id| id == 7),
        &None::<Batch>,
        1,
        &sink(50),
        vec![9],
    );
    assert_eq!(out, vec![9, 1007]);
    assert_eq!(state, 10);
    assert_eq!(checks(&calls), 10);
    assert_eq!(calls.last(), Some(&Call::Next(10)));
    let report = report.unwrap();
    assert_eq!(report.counts.pages, 4);
    assert_eq!(report.counts.candidates, 10);
    assert_eq!(report.counts.evaluated, 10);
    assert_eq!(report.stats.result_count, 2);
    assert!(!report.counts.early_exit);
}

#[test]
fn results_that_were_there_count() {
    let (out, state, _, report) = paged_filter_loop_capped(
        &pages(4, 10),
        0,
        vec![],
        0,
        2,
        100,
        &one(|id| id == 7),
        &sink(50),
        vec![9],
    );
    assert_eq!(out, vec![9, 1007]);
    assert_eq!(state, 8);
    assert!(report.unwrap().counts.early_exit);
}

#[test]
fn nothing_passes() {
    let labels = AtomicCacheLabelProvider::new(one(|_| false), 6, 100);
    let (out, _, (_, calls), report) = paged_filter_loop_unlimited_atomic(
        &sharing(4, 8, |labels, calls, _| (labels, calls)),
        0,
        labels,
        vec![],
        2,
        &sink(50),
        vec![],
    );
    assert!(out.is_empty());
    assert_eq!(checks(&calls), 8);
    let report = report.unwrap();
    assert_eq!(report.counts.pages, 3);
    assert_eq!(report.counts.evaluated, 8);
    assert_eq!(report.counts.passed, 0);
    assert!(!report.counts.early_exit);
    assert_eq!(report.stats.cmps, 0);
    assert_eq!(report.stats.hops, 0);
}

#[test]
fn a_full_output_ends_the_search() {
    let labels = AtomicCacheLabelProvider::new(one(|id| id >= 2), 6, 100);
    let (out, _, (_, calls), report) = paged_filter_loop_unlimited_atomic(
        &sharing(4, 100, |labels, calls, _| (labels, calls)),
        0,
        labels,
        vec![],
        50,
        &sink(3),
        vec![],
    );
    assert_eq!(out, vec![1002, 1004, 1005]);
    assert_eq!(calls.last(), Some(&Call::One(6, 5)));
    let report = report.unwrap();
    assert_eq!(report.counts.evaluated, 6);
    assert_eq!(report.counts.passed, 4);
    assert_eq!(report.stats.result_count, 3);
}

#[test]
fn atomic_search_shares_its_cache() {
    let labels = AtomicCacheLabelProvider::new(one(|id| id % 2 == 0), 6, 100);
    let (out, _, (mut labels, calls), _) = paged_filter_loop_unlimited_atomic(
        &sharing(4, 8, |mut labels: AtomicCacheLabelProvider<_>, calls, at| {
            let (calls, _) = labels.is_match(calls, at as u32 + 2);
            (labels, calls)
        }),
        0,
        labels,
        vec![],
        50,
        &sink(30),
        vec![],
    );
    assert_eq!(out, vec![1000, 1002, 1004, 1006]);
    assert_eq!(
        calls,
        vec![
            Call::Next(0),
            Call::One(6, 2),
            Call::One(6, 0),
            Call::One(6, 1),
            Call::One(6, 3),
            Call::Next(4),
            Call::One(6, 6),
            Call::One(6, 4),
            Call::One(6, 5),
            Call::One(6, 7),
            Call::Next(8),
            Call::One(6, 10),
        ]
    );
    assert_eq!(labels.is_match_fast(vec![], 7), (vec![], false));
}

#[test]
fn a_page_that_fails_ends_the_search() {
    let next = |at: usize, mut calls: Calls| -> (usize, Calls, Page) {
        calls.push(Call::Next(at));
        if at == 0 {
            (1, calls, Ok(vec![c(5)]))
        } else {
            (at + 7, calls, Err("lost"))
        }
    };
    let (out, state, calls, report) =
        paged_filter_loop_capped(&next, 0, vec![], 2, 50, 9, &one(|_| true), &sink(30), vec![]);
    assert_eq!(out, vec![1005]);
    assert_eq!(state, 8);
    assert_eq!(calls, vec![Call::Next(0), Call::One(2, 5), Call::Next(1)]);
    assert_eq!(report.err(), Some("lost"));
}

#[test]
fn bitmap_search_looks_up() {
    let (_, bitmap) = BitmapLabelProvider::build(vec![], &one(|id| id % 4 == 2), 0, 20);
    let (out, _, calls, report) =
        paged_filter_loop_bitmap(&pages(6, 40), 0, vec![], 10, &bitmap, &sink(50), vec![]);
    assert_eq!(out, vec![1002, 1006, 1010, 1014, 1018]);
    assert_eq!(checks(&calls), 0);
    let counts = report.unwrap().counts;
    assert_eq!(counts.evaluated, 40);
    assert_eq!(counts.passed, 5);
}

#[test]
fn cached_search_counts_hits() {
    let mut labels = CachedCallbackLabelProvider::new(one(|id| id % 2 == 0), 8);
    labels.is_match_cached(vec![], 2);
    let (out, state, (labels, calls), report) = paged_filter_loop_cached(
        &sharing(4, 100, |mut labels: CachedCallbackLabelProvider<_>, calls, at| {
            let (calls, _) = labels.is_match(calls, at as u32 + 1);
            (labels, calls)
        }),
        0,
        labels,
        vec![],
        10,
        8,
        &sink(50),
        vec![],
    );
    assert_eq!(out, vec![1000, 1002, 1004, 1006]);
    assert_eq!(state, 8);
    assert_eq!(
        calls,
        vec![
            Call::Next(0),
            Call::One(8, 1),
            Call::One(8, 0),
            Call::One(8, 3),
            Call::Next(4),
            Call::One(8, 5),
            Call::One(8, 4),
            Call::One(8, 6),
            Call::One(8, 7),
        ]
    );
    let report = report.unwrap();
    assert_eq!(report.counts.pages, 2);
    assert_eq!(report.counts.evaluated, 8);
    assert_eq!(report.counts.cache_hits, 3);
    assert_eq!(report.counts.cache_misses, 5);
    assert!(!report.counts.early_exit);
    assert_eq!(labels.lookup(7), Some(false));
    assert_eq!(labels.lookup(6), Some(true));
    assert_eq!(labels.lookup(8), None);
}

#[test]
fn cached_search_stops_within_a_page() {
    let labels = CachedCallbackLabelProvider::new(one(|_| true), 8);
    let (out, state, (_, calls), report) = paged_filter_loop_cached(
        &sharing(4, 100, |labels, calls, _| (labels, calls)),
        0,
        labels,
        vec![],
        10,
        6,
        &sink(50),
        vec![],
    );
    assert_eq!(out, vec![1000, 1001, 1002, 1004, 1005]);
    assert_eq!(state, 8);
    assert_eq!(checks(&calls), 6);
    assert_eq!(report.unwrap().counts.evaluated, 6);
}

#[test]
fn cached_search_without_effort_fetches_a_page() {
    let labels = CachedCallbackLabelProvider::new(one(|_| true), 8);
    let (out, state, (_, calls), report) = paged_filter_loop_cached(
        &sharing(4, 100, |labels, calls, _| (labels, calls)),
        0,
        labels,
        vec![],
        10,
        0,
        &sink(50),
        vec![],
    );
    assert!(out.is_empty());
    assert_eq!(state, 4);
    assert_eq!(calls, vec![Call::Next(0)]);
    assert_eq!(report.unwrap().counts.pages, 1);
}

fn capped(
    end: usize,
    k: usize,
    max_effort: usize,
    answer: impl Fn(u32) -> bool,
) -> (Vec<u64>, usize, Calls, u32, usize, usize, bool) {
    let (out, state, calls, report) = paged_filter_loop_capped(
        &pages(4, end),
        0,
        vec![],
        0,
        k,
        max_effort,
        &one(answer),
        &sink(50),
        vec![],
    );
    let counts = report.unwrap().counts;
    (out, state, calls, counts.pages, counts.evaluated, counts.passed, counts.early_exit)
}

#[test]
fn capped_search_stops_when_the_effort_is_spent() {
    let (out, state, calls, pages, evaluated, passed, early) =
        capped(100, 10, 8, |id| id != 1);
    assert_eq!(out, vec![1000, 1002, 1004, 1005, 1006, 1007]);
    assert_eq!(state, 8);
    assert_eq!(calls.last(), Some(&Call::One(0, 7)));
    assert_eq!((pages, evaluated, passed, early), (2, 8, 7, false));
    let (out, state, calls, pages, evaluated, _, _) = capped(100, 10, 9, |id| id != 1);
    assert_eq!(out, vec![1000, 1002, 1004, 1005, 1006, 1007, 1008]);
    assert_eq!(state, 12);
    assert_eq!(checks(&calls), 9);
    assert_eq!((pages, evaluated), (3, 9));
}

#[test]
fn capped_search_without_effort_checks_nothing() {
    let (out, _, calls, pages, evaluated, _, _) = capped(100, 10, 0, |_| true);
    assert!(out.is_empty());
    assert_eq!(calls, vec![Call::Next(0)]);
    assert_eq!((pages, evaluated), (1, 0));
}

#[test]
fn capped_search_ends_with_an_empty_page() {
    let (_, _, calls, pages, evaluated, _, _) = capped(8, 10, 9, |_| false);
    assert_eq!(calls.last(), Some(&Call::Next(8)));
    assert_eq!((pages, evaluated), (3, 8));
}

#[test]
fn capped_search_stops_at_k() {
    let (out, _, calls, _, _, _, early) = capped(80, 2, 8, |_| true);
    assert_eq!(out, vec![1000, 1001]);
    assert_eq!(checks(&calls), 2);
    assert!(early);
}

#[test]
fn a_larger_budget_extends_the_results() {
    let answer = |id: u32| id % 3 != 1;
    let (most, _, _, _, _, _, _) = capped(50, 100, 60, answer);
    let mut before: Vec<u64> = vec![];
    for max_effort in 0..60 {
        let (out, _, calls, _, _, _, _) = capped(50, 100, max_effort, answer);
        assert_eq!(checks(&calls), max_effort.min(50));
        assert_eq!(out[..before.len()], before[..]);
        assert_eq!(out[..], most[..out.len()]);
        before = out;
    }
}
