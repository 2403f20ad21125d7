use diskann_garnet::candidate::Candidate;
use diskann_garnet::hybrid::{CallbackFilterPrecision, CopyExternalIds};
use diskann_garnet::ordered_f32::OrderedF32;
use diskann_garnet::output::Sink;
use std::collections::HashSet;

fn c(id: u32) -> Candidate {
    Candidate { id, distance: OrderedF32::from_bits((id as f32 * 0.5).to_bits()) }
}

/// The calls that were made: of the callback, or of the outer predicate.
type Calls = Vec<(&'static str, u32)>;

fn strategy() -> CallbackFilterPrecision<impl Fn(Calls, u64, u32) -> (Calls, u8)> {
    CallbackFilterPrecision {
        context_raw: 11,
        callback: |mut calls: Calls, context: u64, id: u32| {
            assert_eq!(context, 11);
            calls.push(("callback", id));
            (calls, (id % 2 == 0) as u8)
        },
        max_effort: 0,
    }
}

#[test]
fn both_predicates_must_accept() {
    let strategy = strategy();
    let both = strategy.compose(|mut calls: Calls, id: u32| {
        calls.push(("outer", id));
        (calls, id > 2)
    });
    let (calls, r) = both.eval(vec![], 4);
    assert!(r);
    assert_eq!(calls, vec![("callback", 4), ("outer", 4)]);
    let (calls, r) = both.eval(vec![], 2);
    assert!(!r);
    assert_eq!(calls, vec![("callback", 2), ("outer", 2)]);
    let (calls, r) = both.eval(vec![], 5);
    assert!(!r);
    assert_eq!(calls, vec![("callback", 5)]);
}

#[test]
fn rejected_ids_are_not_remembered() {
    let strategy = strategy();
    let both = strategy.compose(|mut calls: Calls, mut seen: HashSet<u32>, id: u32| {
        calls.push(("outer", id));
        let fresh = seen.insert(id);
        (calls, seen, fresh)
    });
    let (calls, seen, fresh) = both.eval_mut(vec![], HashSet::new(), 4);
    assert!(fresh);
    let (calls, seen, fresh) = both.eval_mut(calls, seen, 4);
    assert!(!fresh);
    let (calls, seen, fresh) = both.eval_mut(calls, seen, 5);
    assert!(!fresh);
    assert_eq!(seen.len(), 1);
    assert_eq!(
        calls,
        vec![("callback", 4), ("outer", 4), ("callback", 4), ("outer", 4), ("callback", 5)]
    );
}

#[test]
fn rejected_results_are_dropped() {
    let strategy = strategy();
    let candidates: Vec<Candidate> = [6, 1, 4, 3, 2].iter().map(|id| c(*id)).collect();
    let (calls, left) = strategy.post_filter(vec![], &candidates);
    assert_eq!(left.iter().map(|c| c.id).collect::<Vec<u32>>(), vec![6, 4, 2]);
    let want: Calls = [6, 1, 4, 3, 2].iter().map(|id| ("callback", *id)).collect();
    assert_eq!(calls, want);
}

fn copy(ids: &[u32], room: usize) -> (Vec<(u32, f32)>, Result<usize, String>) {
    let sink = Sink {
        to_external_id: |out: Vec<(u32, f32)>, id: u32| {
            (out, if id == 9 { Err("nine".to_string()) } else { Ok(id + 100) })
        },
        push: move |mut out: Vec<(u32, f32)>, e: u32, x: OrderedF32| {
            out.push((e, f32::from_bits(x.bits)));
            let full = out.len() >= room;
            (out, full)
        },
        current_len: |out: &Vec<(u32, f32)>| out.len(),
    };
    let candidates: Vec<Candidate> = ids.iter().map(|id| c(*id)).collect();
    CopyExternalIds.post_process(&candidates, &sink, vec![(0, 0.0)])
}

#[test]
fn all_results_are_copied() {
    assert_eq!(
        copy(&[3, 1], 10),
        (vec![(0, 0.0), (103, 1.5), (101, 0.5)], Ok(2))
    );
    assert_eq!(copy(&[], 10), (vec![(0, 0.0)], Ok(0)));
}

#[test]
fn copying_stops_when_full() {
    assert_eq!(copy(&[3, 1, 9], 2), (vec![(0, 0.0), (103, 1.5)], Ok(1)));
}

#[test]
fn an_unknown_id_ends_the_copying() {
    assert_eq!(
        copy(&[3, 9, 1], 10),
        (vec![(0, 0.0), (103, 1.5)], Err("nine".to_string()))
    );
}
