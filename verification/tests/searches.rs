use diskann_garnet::candidate::Candidate;
use diskann_garnet::filter::FilterCallbacks;
use diskann_garnet::native::two_queue_native_search;
use diskann_garnet::ordered_f32::OrderedF32;
use diskann_garnet::output::Sink;
use diskann_garnet::plan::{search_vector_filtered, FilteredReport, KnnParams};
use diskann_garnet::report::SearchReport;
use diskann_garnet::two_queue::two_queue_filtered_search;
use diskann_garnet::walk::{GraphAccess, VectorRead};

/// The calls that were made.
type Calls = Vec<Call>;
type Batch = fn(Calls, u64, &Vec<u32>) -> (Calls, Vec<u8>);
type WithAttr = fn(Calls, u64, u32, &[u8]) -> (Calls, u8);
type BatchWithAttr = fn(Calls, u64, &Vec<u32>, &Vec<&[u8]>) -> (Calls, Vec<u8>);
type Found = Vec<(String, f32)>;

#[derive(Debug, PartialEq)]
enum Call {
    List(u32),
    Read(Vec<u32>),
    Ask(u32),
    AskWith(u32, Vec<u8>),
    Start(usize),
    Next(usize),
}

fn d(x: f32) -> OrderedF32 {
    OrderedF32::from_bits(x.to_bits())
}

fn read_of(index: usize, x: f32) -> VectorRead {
    VectorRead { index: index as u32, distance: d(x), extra: Vec::new() }
}

/// Searches a graph whose vector `i` is at distance `dist(i)` and has the
/// neighbors `neighbors(i)`; the even ids pass unless `passes` says otherwise.
fn search(
    native: bool,
    max_id: u32,
    dist: &dyn Fn(u32) -> f32,
    neighbors: &dyn Fn(u32) -> Vec<u32>,
    passes: &dyn Fn(u32) -> bool,
    k: usize,
    ef: usize,
    max_candidates: usize,
) -> (Found, SearchReport) {
    let (_, found, report) =
        search_calls(native, max_id, dist, neighbors, passes, k, ef, max_candidates);
    (found, report)
}

/// The same, with the calls that were made.
fn search_calls(
    native: bool,
    max_id: u32,
    dist: &dyn Fn(u32) -> f32,
    neighbors: &dyn Fn(u32) -> Vec<u32>,
    passes: &dyn Fn(u32) -> bool,
    k: usize,
    ef: usize,
    max_candidates: usize,
) -> (Calls, Found, SearchReport) {
    let graph = GraphAccess {
        max_id,
        elem_size: 4,
        start_distance: Some(d(dist(0))),
        neighbors: |mut calls: Calls, id: u32| {
            calls.push(Call::List(id));
            (calls, neighbors(id))
        },
        read: |mut calls: Calls, ids: &Vec<u32>| {
            assert!(!ids.is_empty());
            assert!(ids.iter().step_by(2).all(|x| *x == 4));
            let wanted: Vec<u32> = ids.iter().skip(1).step_by(2).copied().collect();
            let reads = wanted
                .iter()
                .enumerate()
                .map(|(i, id)| read_of(i, dist(*id)))
                .collect::<Vec<VectorRead>>();
            calls.push(Call::Read(wanted));
            (calls, reads)
        },
    };
    let callbacks = FilterCallbacks {
        filter: |mut calls: Calls, context: u64, id: u32| {
            assert_eq!(context, 77);
            calls.push(Call::Ask(id));
            (calls, passes(id) as u8)
        },
        batch_filter: None::<Batch>,
        filter_with_attr: None::<WithAttr>,
        batch_filter_with_attr: None::<BatchWithAttr>,
    };
    let sink = Sink {
        to_external_id: |out: Found, id: u32| {
            (out, if id == 13 { Err(()) } else { Ok(format!("v{id}")) })
        },
        push: |mut out: Found, e: String, x: OrderedF32| {
            out.push((e, f32::from_bits(x.bits)));
            (out, true)
        },
        current_len: |out: &Found| out.len(),
    };
    if native {
        two_queue_native_search(
            vec![], &graph, 77, k, ef, &callbacks, 10, max_candidates, &sink, Vec::new(),
        )
    } else {
        two_queue_filtered_search(
            vec![], &graph, 77, k, ef, &callbacks, 10, max_candidates, &sink, Vec::new(),
        )
    }
}

fn line(id: u32, n: u32) -> Vec<u32> {
    let mut out = Vec::new();
    if id > 0 {
        out.push(id - 1);
    }
    if id + 1 < n {
        out.push(id + 1);
    }
    out
}

fn names(found: &Found) -> Vec<&str> {
    found.iter().map(|x| x.0.as_str()).collect()
}

#[test]
fn walks_along_a_line() {
    for native in [false, true] {
        let dist = |id: u32| (20.0 - id as f32).abs();
        let (found, report) =
            search(native, 40, &dist, &|id| line(id, 41), &|id| id % 2 == 0, 3, 50, 100);
        assert_eq!(names(&found), vec!["v20", "v18", "v22"]);
        assert_eq!(found[1].1, 2.0);
        assert_eq!(report.found, 3);
        assert_eq!(report.stats.result_count, 3);
        assert_eq!(report.stats.hops, 41);
        assert_eq!(report.stats.cmps, 41);
        assert_eq!(report.visited, 41);
        assert_eq!(report.filter_evals, 41);
        assert_eq!(report.filter_passed, 21);
        assert!(!report.converged);
        assert!(!report.stats.range_search_second_round);
        assert_eq!(report.max_result_q, 21);
    }
}

#[test]
fn converges_when_results_are_full() {
    let dist = |id: u32| id as f32;
    let (found, report) = search(false, 200, &dist, &|id| line(id, 201), &|_| true, 2, 5, 1000);
    assert_eq!(names(&found), vec!["v0", "v1"]);
    assert!(report.converged);
    assert_eq!(report.max_result_q, 20);
    assert_eq!(report.stats.hops, 21);
    assert_eq!(report.stats.cmps, 21);
    assert_eq!(report.filter_evals, 20);
    assert_eq!(report.max_cand_q, 1);
    let (found, report) = search(true, 200, &dist, &|id| line(id, 201), &|_| true, 2, 5, 1000);
    assert_eq!(names(&found), vec!["v0", "v1"]);
    assert!(!report.converged);
    assert_eq!(report.max_result_q, 5);
    assert_eq!(report.stats.hops, 5);
    assert_eq!(report.stats.cmps, 6);
    assert_eq!(report.max_cand_q, 5);
}

#[test]
fn effort_is_bounded() {
    for native in [false, true] {
        let dist = |id: u32| 100.0 - id as f32;
        let (found, report) =
            search(native, 99, &dist, &|id| line(id, 100), &|id| id == 99, 5, 10, 7);
        assert!(found.is_empty());
        assert_eq!(report.stats.hops, 7);
        assert_eq!(report.stats.cmps, 8);
        assert_eq!(report.filter_passed, 0);
        assert!(!report.converged);
    }
}

#[test]
fn no_effort_leaves_the_start() {
    for native in [false, true] {
        let (calls, found, report) =
            search_calls(native, 9, &|_| 1.5, &|id| line(id, 10), &|_| true, 1, 1, 0);
        assert_eq!(calls, vec![Call::Ask(0)]);
        assert_eq!(found, vec![("v0".to_string(), 1.5)]);
        assert_eq!(report.stats.hops, 0);
        assert_eq!(report.stats.cmps, 1);
        assert_eq!(report.max_cand_q, if native { 0 } else { 1 });
    }
}

#[test]
fn each_expansion_lists_reads_and_asks() {
    for native in [false, true] {
        let dist = |id: u32| [5.0, 4.0, 6.0, 1.0][id as usize];
        let neighbors = |id: u32| match id {
            0 => vec![1, 2],
            1 => vec![0, 3, 3],
            _ => vec![0],
        };
        let (calls, found, _) =
            search_calls(native, 3, &dist, &neighbors, &|id| id != 1, 4, 9, 9);
        assert_eq!(
            calls,
            vec![
                Call::Ask(0),
                Call::List(0),
                Call::Read(vec![1, 2]),
                Call::Ask(1),
                Call::Ask(2),
                Call::List(1),
                Call::Read(vec![3]),
                Call::Ask(3),
                Call::List(3),
                Call::List(2),
            ]
        );
        assert_eq!(names(&found), vec!["v3", "v0", "v2"]);
    }
}

#[test]
fn results_are_the_nearest_that_pass() {
    let dist = |id: u32| ((id * 37) % 101) as f32;
    let all = |id: u32| (0..100u32).filter(|x| *x != id && (x * 7 + id) % 3 != 0).collect();
    let passes = |id: u32| id % 4 == 1;
    for native in [false, true] {
        let (found, report) = search(native, 99, &dist, &all, &passes, 8, 300, 300);
        let mut near: Vec<u32> = (0..100).filter(|id| passes(*id)).collect();
        near.sort_by_key(|id| (id * 37) % 101);
        let want: Vec<String> =
            near.iter().take(8).filter(|id| **id != 13).map(|id| format!("v{id}")).collect();
        assert_eq!(names(&found), want);
        assert_eq!(report.found, 8);
        assert_eq!(report.visited, 100);
    }
}

#[test]
fn a_result_without_an_external_id_is_left_out() {
    for native in [false, true] {
        let dist = |id: u32| (13.0 - id as f32).abs();
        let (found, report) =
            search(native, 20, &dist, &|id| line(id, 21), &|id| id >= 12 && id <= 13, 2, 50, 50);
        assert_eq!(names(&found), vec!["v12"]);
        assert_eq!(report.found, 2);
        assert_eq!(report.stats.result_count, 1);
    }
}

#[test]
fn ids_out_of_range_and_the_start_are_not_read() {
    for native in [false, true] {
        let neighbors = |id: u32| match id {
            0 => vec![0, 3, 3, 64, 1_000_000, 3],
            _ => vec![0, 0],
        };
        let (found, report) = search(native, 10, &|id| id as f32, &neighbors, &|_| true, 5, 5, 9);
        assert_eq!(names(&found), vec!["v0", "v3"]);
        assert_eq!(report.stats.cmps, 2);
        assert_eq!(report.visited, 2);
        assert_eq!(report.stats.hops, 2);
    }
}

#[test]
fn far_candidates_join_only_while_there_is_room() {
    let dist = |id: u32| if id == 0 { 1.0 } else { 10.0 + id as f32 };
    let star = |id: u32| if id == 0 { (1..=6).collect() } else { Vec::new() };
    let (_, report) = search(false, 6, &dist, &star, &|id| id == 0, 1, 4, 100);
    assert_eq!(report.stats.hops, 5);
    assert_eq!(report.max_cand_q, 4);
    let (_, report) = search(true, 6, &dist, &star, &|id| id == 0, 1, 2, 100);
    assert_eq!(report.stats.hops, 2);
    assert_eq!(report.max_cand_q, 7);
    let (_, report) = search(true, 6, &dist, &star, &|id| id == 0, 1, 20, 100);
    assert_eq!(report.stats.hops, 7);
    let (_, report) = search(true, 6, &dist, &star, &|id| id == 0, 1, 1, 100);
    assert_eq!(report.stats.hops, 1);
    assert_eq!(report.max_cand_q, 1);
}

#[test]
fn nearer_candidates_move_into_the_window() {
    let dist = |id: u32| 100.0 - id as f32;
    let (found, report) = search(true, 60, &dist, &|id| line(id, 61), &|id| id == 60, 1, 2, 100);
    assert_eq!(names(&found), vec!["v60"]);
    assert_eq!(report.stats.hops, 61);
    assert_eq!(report.max_cand_q, 61);
}

#[test]
fn nan_never_joins_the_native_queue() {
    let dist = |id: u32| if id == 1 { f32::NAN } else { id as f32 };
    let star = |id: u32| if id == 0 { vec![1, 2] } else { Vec::new() };
    let (_, report) = search(true, 2, &dist, &star, &|_| true, 3, 3, 100);
    assert_eq!(report.stats.hops, 2);
    assert_eq!(report.max_cand_q, 2);
    let (found, report) = search(false, 2, &dist, &star, &|_| true, 3, 3, 100);
    assert_eq!(report.stats.hops, 3);
    assert_eq!(names(&found), vec!["v0", "v2", "v1"]);
}

#[test]
fn unknown_start_is_as_far_as_can_be() {
    let graph = GraphAccess {
        max_id: 0,
        elem_size: 1,
        start_distance: None,
        neighbors: |calls: Calls, _: u32| (calls, Vec::new()),
        read: |_: Calls, _: &Vec<u32>| -> (Calls, Vec<VectorRead>) {
            panic!("there is nothing to read")
        },
    };
    let callbacks = FilterCallbacks {
        filter: |calls: Calls, _: u64, _: u32| (calls, 1u8),
        batch_filter: None::<Batch>,
        filter_with_attr: None::<WithAttr>,
        batch_filter_with_attr: None::<BatchWithAttr>,
    };
    let sink = Sink {
        to_external_id: |out: Vec<f32>, id: u32| (out, Ok::<u32, ()>(id)),
        push: |mut out: Vec<f32>, _: u32, x: OrderedF32| {
            out.push(f32::from_bits(x.bits));
            (out, false)
        },
        current_len: |out: &Vec<f32>| out.len(),
    };
    let (_, found, _) =
        two_queue_filtered_search(vec![], &graph, 0, 1, 1, &callbacks, 10, 5, &sink, Vec::new());
    assert_eq!(found, vec![f32::MAX]);
    let (_, found, _) =
        two_queue_native_search(vec![], &graph, 0, 1, 1, &callbacks, 10, 5, &sink, Vec::new());
    assert_eq!(found, vec![f32::MAX]);
}

#[test]
fn attributes_reach_the_callback() {
    let graph = GraphAccess {
        max_id: 5,
        elem_size: 1,
        start_distance: Some(d(0.0)),
        neighbors: |calls: Calls, id: u32| {
            (calls, if id == 0 { vec![1, 2, 3] } else { Vec::new() })
        },
        read: |calls: Calls, ids: &Vec<u32>| {
            let wanted: Vec<u32> = ids.iter().skip(1).step_by(2).copied().collect();
            let mut reads: Vec<VectorRead> = wanted
                .iter()
                .enumerate()
                .filter(|(_, id)| **id != 2)
                .map(|(i, id)| VectorRead {
                    index: i as u32,
                    distance: d(*id as f32),
                    extra: vec![2, *id as u8, 50, 60],
                })
                .collect();
            reads.reverse();
            (calls, reads)
        },
    };
    let callbacks = FilterCallbacks {
        filter: |mut calls: Calls, _: u64, id: u32| {
            calls.push(Call::Ask(id));
            (calls, 0u8)
        },
        batch_filter: None::<Batch>,
        filter_with_attr: Some(|mut calls: Calls, _: u64, id: u32, attrs: &[u8]| {
            calls.push(Call::AskWith(id, attrs.to_vec()));
            (calls, 1u8)
        }),
        batch_filter_with_attr: None::<BatchWithAttr>,
    };
    let sink = Sink {
        to_external_id: |out: Vec<u32>, id: u32| (out, Ok::<u32, ()>(id)),
        push: |mut out: Vec<u32>, id: u32, _: OrderedF32| {
            out.push(id);
            (out, false)
        },
        current_len: |out: &Vec<u32>| out.len(),
    };
    let (calls, found, report) =
        two_queue_filtered_search(vec![], &graph, 0, 5, 5, &callbacks, 10, 50, &sink, Vec::new());
    assert_eq!(found, vec![1, 3]);
    assert_eq!(
        calls,
        vec![
            Call::Ask(0),
            Call::AskWith(3, vec![3, 50]),
            Call::AskWith(1, vec![1, 50]),
        ]
    );
    assert_eq!(report.stats.cmps, 3);
    assert_eq!(report.visited, 4);
}

fn dispatch(
    max_effort: usize,
    native: bool,
    attrs: bool,
    start: Result<usize, &'static str>,
) -> (Calls, Vec<u32>, Result<FilteredReport, &'static str>) {
    let graph = GraphAccess {
        max_id: 30,
        elem_size: 4,
        start_distance: Some(d(0.0)),
        neighbors: |mut calls: Calls, id: u32| {
            calls.push(Call::List(id));
            (calls, line(id, 31))
        },
        read: |mut calls: Calls, ids: &Vec<u32>| {
            let wanted: Vec<u32> = ids.iter().skip(1).step_by(2).copied().collect();
            let reads = wanted
                .iter()
                .enumerate()
                .map(|(i, id)| read_of(i, *id as f32))
                .collect::<Vec<VectorRead>>();
            calls.push(Call::Read(wanted));
            (calls, reads)
        },
    };
    let callbacks = FilterCallbacks {
        filter: |mut calls: Calls, _: u64, id: u32| {
            calls.push(Call::Ask(id));
            (calls, (id % 5 == 0) as u8)
        },
        batch_filter: None::<Batch>,
        filter_with_attr: if attrs {
            Some(|mut calls: Calls, _: u64, id: u32, attrs: &[u8]| {
                calls.push(Call::AskWith(id, attrs.to_vec()));
                (calls, (id % 5 == 0) as u8)
            })
        } else {
            None
        },
        batch_filter_with_attr: None::<BatchWithAttr>,
    };
    let sink = Sink {
        to_external_id: |out: Vec<u32>, id: u32| (out, Ok::<u32, ()>(id)),
        push: |mut out: Vec<u32>, id: u32, _: OrderedF32| {
            out.push(id);
            (out, false)
        },
        current_len: |out: &Vec<u32>| out.len(),
    };
    let next = |at: usize, mut calls: Calls| {
        calls.push(Call::Next(at));
        let page: Vec<Candidate> = (at..(at + 4).min(31))
            .map(|i| Candidate { id: i as u32, distance: d(i as f32) })
            .collect();
        (at + page.len(), calls, Ok(page))
    };
    search_vector_filtered(
        vec![],
        &graph,
        &|mut calls: Calls, l: usize| {
            calls.push(Call::Start(l));
            (calls, start)
        },
        &next,
        &|at: &usize| (*at as u32, 9),
        0,
        &KnnParams { k_value: 3, l_value: 6, beam_width: 1 },
        &callbacks,
        max_effort,
        native,
        &sink,
        Vec::new(),
    )
}

#[test]
fn without_a_limit_pages_are_searched() {
    let (calls, found, report) = dispatch(0, true, true, Ok(0));
    assert_eq!(found, vec![0, 5, 10]);
    let mut want = vec![Call::Start(6)];
    for id in 0..11 {
        if id % 4 == 0 {
            want.push(Call::Next(id as usize));
        }
        want.push(Call::Ask(id));
    }
    assert_eq!(calls, want);
    match report {
        Ok(FilteredReport::Paged(report)) => {
            assert_eq!(report.stats.cmps, 12);
            assert_eq!(report.stats.hops, 9);
            assert_eq!(report.stats.result_count, 3);
            assert_eq!(report.counts.pages, 3);
            assert_eq!(report.counts.candidates, 12);
            assert_eq!(report.counts.evaluated, 11);
            assert!(report.counts.early_exit);
        }
        other => panic!("{other:?}"),
    }
}

#[test]
fn a_search_that_cannot_start_fails() {
    let (calls, found, report) = dispatch(0, false, false, Err("no state"));
    assert_eq!(calls, vec![Call::Start(6)]);
    assert!(found.is_empty());
    assert_eq!(report.err(), Some("no state"));
}

#[test]
fn with_a_limit_two_queues_are_used() {
    let (calls, found, report) = dispatch(4, false, true, Err("not started"));
    assert_eq!(found, vec![0, 5]);
    let mut want = vec![Call::Ask(0)];
    for id in 0..6 {
        want.push(Call::List(id));
        want.push(Call::Read(vec![id + 1]));
        want.push(Call::AskWith(id + 1, vec![]));
    }
    assert_eq!(calls, want);
    match report {
        Ok(FilteredReport::TwoQueue(report)) => assert_eq!(report.stats.hops, 6),
        other => panic!("{other:?}"),
    }
    let (_, found, report) = dispatch(12, false, false, Err("not started"));
    assert_eq!(found, vec![0, 5, 10]);
    match report {
        Ok(FilteredReport::TwoQueue(report)) => assert_eq!(report.stats.hops, 12),
        other => panic!("{other:?}"),
    }
    let (_, found, report) = dispatch(12, true, false, Err("not started"));
    assert_eq!(found, vec![0, 5]);
    match report {
        Ok(FilteredReport::TwoQueue(report)) => assert_eq!(report.stats.hops, 6),
        other => panic!("{other:?}"),
    }
}
