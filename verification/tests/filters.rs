use diskann_garnet::candidate::Candidate;
use diskann_garnet::filter::{
    filter_candidates_batch, filter_candidates_batch_with_attrs, without_attrs, FilterCallbacks,
    FilteredResults, PendingCandidate,
};
use diskann_garnet::ordered_f32::OrderedF32;

/// The calls that were made.
type Calls = Vec<Call>;
type Batch = fn(Calls, u64, &Vec<u32>) -> (Calls, Vec<u8>);
type WithAttr = fn(Calls, u64, u32, &[u8]) -> (Calls, u8);
type BatchWithAttr = fn(Calls, u64, &Vec<u32>, &Vec<&[u8]>) -> (Calls, Vec<u8>);

#[derive(Debug, PartialEq)]
enum Call {
    One(u64, u32),
    Many(u64, Vec<u32>),
    OneWith(u64, u32, Vec<u8>),
    ManyWith(u64, Vec<u32>, Vec<Vec<u8>>),
}

fn one(
    answer: impl Fn(u32) -> bool,
) -> impl Fn(Calls, u64, u32) -> (Calls, u8) {
    move |mut calls: Calls, context: u64, id: u32| {
        calls.push(Call::One(context, id));
        (calls, answer(id) as u8)
    }
}

fn many(
    answer: impl Fn(u32) -> bool,
) -> impl Fn(Calls, u64, &Vec<u32>) -> (Calls, Vec<u8>) {
    move |mut calls: Calls, context: u64, ids: &Vec<u32>| {
        calls.push(Call::Many(context, ids.clone()));
        (calls, ids.iter().map(|id| answer(*id) as u8).collect())
    }
}

fn one_with(
    answer: impl Fn(u32, &[u8]) -> bool,
) -> impl Fn(Calls, u64, u32, &[u8]) -> (Calls, u8) {
    move |mut calls: Calls, context: u64, id: u32, attrs: &[u8]| {
        calls.push(Call::OneWith(context, id, attrs.to_vec()));
        (calls, answer(id, attrs) as u8)
    }
}

fn many_with(
    answer: impl Fn(u32) -> bool,
) -> impl Fn(Calls, u64, &Vec<u32>, &Vec<&[u8]>) -> (Calls, Vec<u8>) {
    move |mut calls: Calls, context: u64, ids: &Vec<u32>, attrs: &Vec<&[u8]>| {
        let attrs = attrs.iter().map(|a| a.to_vec()).collect();
        calls.push(Call::ManyWith(context, ids.clone(), attrs));
        (calls, ids.iter().map(|id| answer(*id) as u8).collect())
    }
}

fn c(id: u32, x: f32) -> Candidate {
    Candidate { id, distance: OrderedF32::from_bits(x.to_bits()) }
}

fn ids(results: FilteredResults, k: usize) -> Vec<u32> {
    results.into_nearest(k).iter().map(|c| c.id).collect()
}

#[test]
fn single_callback_skips_what_is_too_far() {
    let filter = one(|id| id != 4);
    let pending = vec![c(1, 5.0), c(2, 3.0), c(3, 9.0), c(4, 1.0), c(5, 2.0), c(6, 3.0)];
    let mut results = FilteredResults::new(2);
    let calls = filter_candidates_batch(
        vec![],
        8,
        &pending,
        &filter,
        &None::<Batch>,
        10,
        &mut results,
    );
    let want: Calls = [1, 2, 4, 5, 6].iter().map(|id| Call::One(8, *id)).collect();
    assert_eq!(calls, want);
    assert_eq!(results.filter_evals(), 5);
    assert_eq!(results.filter_passed(), 4);
    assert_eq!(results.len(), 2);
    assert_eq!(results.worst().unwrap().bits, 3.0f32.to_bits());
    assert_eq!(ids(results, 5), vec![5, 2]);
}

#[test]
fn batch_callback_is_asked_in_chunks() {
    let pending: Vec<Candidate> = (1..8u32).map(|i| c(i, i as f32)).collect();
    let mut results = FilteredResults::new(3);
    let calls = filter_candidates_batch(
        vec![],
        1,
        &pending,
        &one(|_| true),
        &Some(many(|id| id % 2 == 1)),
        3,
        &mut results,
    );
    assert_eq!(
        calls,
        vec![
            Call::Many(1, vec![1, 2, 3]),
            Call::Many(1, vec![4, 5, 6]),
            Call::Many(1, vec![7]),
        ]
    );
    assert_eq!(results.filter_evals(), 5);
    assert_eq!(results.filter_passed(), 3);
    assert_eq!(ids(results, 2), vec![1, 3]);
}

#[test]
fn chunks_of_one_ask_the_single_callback() {
    let mut results = FilteredResults::new(3);
    let calls = filter_candidates_batch(
        vec![],
        1,
        &vec![c(1, 1.0), c(2, 2.0)],
        &one(|id| id == 2),
        &Some(many(|_| true)),
        1,
        &mut results,
    );
    assert_eq!(calls, vec![Call::One(1, 1), Call::One(1, 2)]);
    assert_eq!(results.filter_evals(), 2);
    assert_eq!(ids(results, 3), vec![2]);
}

#[test]
fn no_candidates_no_calls() {
    let mut results = FilteredResults::new(3);
    let calls = filter_candidates_batch(
        vec![Call::One(0, 0)],
        1,
        &vec![],
        &one(|_| true),
        &Some(many(|_| true)),
        10,
        &mut results,
    );
    assert_eq!(calls, vec![Call::One(0, 0)]);
    assert_eq!(results.filter_evals(), 0);
}

#[test]
fn batch_and_single_come_to_the_same() {
    let accept = |id: u32| id % 3 != 1;
    let pending: Vec<Candidate> = (0..40u32).map(|i| c(i, ((i * 17) % 41) as f32)).collect();
    let mut single = FilteredResults::new(6);
    let mut batch = FilteredResults::new(6);
    let calls =
        filter_candidates_batch(vec![], 0, &pending, &one(accept), &None::<Batch>, 7, &mut single);
    filter_candidates_batch(
        vec![],
        0,
        &pending,
        &one(accept),
        &Some(many(accept)),
        7,
        &mut batch,
    );
    assert_eq!(calls.len(), single.filter_evals() as usize);
    assert_eq!(single.filter_evals(), batch.filter_evals());
    assert_eq!(single.filter_passed(), batch.filter_passed());
    assert_eq!(ids(single, 6), ids(batch, 6));
}

#[test]
fn nan_is_kept_last_and_leaves_first() {
    let filter = one(|_| true);
    let mut results = FilteredResults::new(2);
    assert!(results.worst().is_none());
    filter_candidates_batch(
        vec![],
        0,
        &vec![c(1, f32::NAN), c(2, 2.0)],
        &filter,
        &None::<Batch>,
        10,
        &mut results,
    );
    assert!(f32::from_bits(results.worst().unwrap().bits).is_nan());
    filter_candidates_batch(
        vec![],
        0,
        &vec![c(3, 3.0)],
        &filter,
        &None::<Batch>,
        10,
        &mut results,
    );
    assert_eq!(ids(results, 9), vec![2, 3]);
}

#[test]
fn the_nearest_are_kept() {
    let filter = one(|id| id % 3 != 0);
    let pending: Vec<Candidate> = (0..60u32).map(|i| c(i, ((i * 23) % 61) as f32)).collect();
    let mut results = FilteredResults::new(7);
    for part in pending.chunks(11) {
        filter_candidates_batch(
            vec![],
            0,
            &part.to_vec(),
            &filter,
            &None::<Batch>,
            10,
            &mut results,
        );
    }
    let mut all: Vec<&Candidate> = pending.iter().filter(|c| c.id % 3 != 0).collect();
    all.sort_by_key(|c| (c.id * 23) % 61);
    let want: Vec<u32> = all.iter().take(7).map(|c| c.id).collect();
    assert_eq!(ids(results, 7), want);
}

fn with_attrs() -> (Vec<PendingCandidate>, Vec<u8>) {
    let pending = vec![
        PendingCandidate { candidate: c(1, 1.0), attr_offset: 0, attr_len: 2 },
        PendingCandidate { candidate: c(2, 2.0), attr_offset: 0, attr_len: 0 },
        PendingCandidate { candidate: c(3, 3.0), attr_offset: 2, attr_len: 1 },
    ];
    (pending, vec![10, 11, 12])
}

#[test]
fn attributes_go_to_the_single_callback() {
    let callbacks = FilterCallbacks {
        filter: one(|_| true),
        batch_filter: Some(many(|_| true)),
        filter_with_attr: Some(one_with(|_, attrs| !attrs.is_empty())),
        batch_filter_with_attr: None::<BatchWithAttr>,
    };
    assert!(callbacks.has_attr_callbacks());
    let (pending, buffer) = with_attrs();
    let mut results = FilteredResults::new(5);
    let calls = filter_candidates_batch_with_attrs(
        vec![],
        6,
        &pending,
        &buffer,
        &callbacks,
        10,
        &mut results,
    );
    assert_eq!(
        calls,
        vec![
            Call::OneWith(6, 1, vec![10, 11]),
            Call::OneWith(6, 2, vec![]),
            Call::OneWith(6, 3, vec![12]),
        ]
    );
    assert_eq!(results.filter_evals(), 3);
    assert_eq!(ids(results, 5), vec![1, 3]);
}

#[test]
fn attributes_go_to_the_batch_callback_first() {
    let callbacks = FilterCallbacks {
        filter: one(|_| true),
        batch_filter: None::<Batch>,
        filter_with_attr: Some(one_with(|_, _| true)),
        batch_filter_with_attr: Some(many_with(|id| id != 1)),
    };
    let (pending, buffer) = with_attrs();
    let mut results = FilteredResults::new(5);
    let calls = filter_candidates_batch_with_attrs(
        vec![],
        6,
        &pending,
        &buffer,
        &callbacks,
        2,
        &mut results,
    );
    assert_eq!(
        calls,
        vec![
            Call::ManyWith(6, vec![1, 2], vec![vec![10, 11], vec![]]),
            Call::ManyWith(6, vec![3], vec![vec![12]]),
        ]
    );
    assert_eq!(ids(results, 5), vec![2, 3]);
}

#[test]
fn without_attribute_callbacks_the_plain_ones_are_asked() {
    let callbacks = FilterCallbacks {
        filter: one(|id| id == 2),
        batch_filter: None::<Batch>,
        filter_with_attr: None::<WithAttr>,
        batch_filter_with_attr: None::<BatchWithAttr>,
    };
    assert!(!callbacks.has_attr_callbacks());
    let (pending, buffer) = with_attrs();
    let mut results = FilteredResults::new(5);
    let calls = filter_candidates_batch_with_attrs(
        vec![],
        6,
        &pending,
        &buffer,
        &callbacks,
        10,
        &mut results,
    );
    assert_eq!(calls, vec![Call::One(6, 1), Call::One(6, 2), Call::One(6, 3)]);
    let plain = without_attrs(&pending);
    let mut same = FilteredResults::new(5);
    let plain_calls = filter_candidates_batch(
        vec![],
        6,
        &plain,
        &callbacks.filter,
        &callbacks.batch_filter,
        10,
        &mut same,
    );
    assert_eq!(calls, plain_calls);
    assert_eq!(ids(results, 5), vec![2]);
    assert_eq!(ids(same, 5), vec![2]);
    assert_eq!(plain.iter().map(|c| c.id).collect::<Vec<u32>>(), vec![1, 2, 3]);
}
