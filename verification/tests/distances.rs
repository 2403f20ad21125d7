use diskann_garnet::bitvec::bitvec_test_and_set;
use diskann_garnet::candidate::{Candidate, Nearest};
use diskann_garnet::heap::RankHeap;
use diskann_garnet::ordered_f32::OrderedF32;
use std::cmp::Ordering;

fn d(x: f32) -> OrderedF32 {
    OrderedF32::from_bits(x.to_bits())
}

fn c(id: u32, x: f32) -> Candidate {
    Candidate { id, distance: d(x) }
}

const SAMPLES: [f32; 14] = [
    f32::NEG_INFINITY,
    f32::MIN,
    -2.5,
    -1.0,
    -f32::MIN_POSITIVE,
    -1.0e-45,
    0.0,
    1.0e-45,
    f32::MIN_POSITIVE,
    1.0,
    1.5,
    1.0e20,
    f32::MAX,
    f32::INFINITY,
];

#[test]
fn numbers_compare_by_value() {
    for (i, a) in SAMPLES.iter().enumerate() {
        for (j, b) in SAMPLES.iter().enumerate() {
            assert_eq!(d(*a).cmp(&d(*b)), i.cmp(&j), "{a} {b}");
            assert_eq!(d(*a).lt(d(*b)), a < b);
            assert_eq!(d(*a).gt(d(*b)), a > b);
            assert_eq!(d(*a) == d(*b), a == b);
            assert_eq!(d(*a) < d(*b), a < b);
        }
    }
}

#[test]
fn zeros_are_equal() {
    assert_eq!(d(0.0).cmp(&d(-0.0)), Ordering::Equal);
    assert!(d(0.0) == d(-0.0));
    assert!(!d(-0.0).lt(d(0.0)));
    assert_eq!(d(0.0).order_key(), d(-0.0).order_key());
}

#[test]
fn nan_is_greater_than_everything() {
    let nan = d(f32::NAN);
    let other_nan = OrderedF32::from_bits(0xffc0_0001);
    for a in SAMPLES {
        assert_eq!(nan.cmp(&d(a)), Ordering::Greater);
        assert_eq!(d(a).cmp(&nan), Ordering::Less);
        assert!(!nan.gt(d(a)));
        assert!(!nan.lt(d(a)));
        assert!(!d(a).lt(nan));
    }
    assert_eq!(nan.cmp(&other_nan), Ordering::Equal);
    assert!(nan != nan);
    assert_eq!(nan.partial_cmp(&d(1.0)), Some(Ordering::Greater));
}

#[test]
fn largest_finite_number_is_exact() {
    assert_eq!(OrderedF32::max_finite().bits, f32::MAX.to_bits());
    assert_eq!(d(1.0).order_key(), 0x8000_0000 + 0x3f80_0000);
    assert_eq!(d(-1.0).order_key(), 0x8000_0000 - 0x3f80_0000);
    assert_eq!(d(f32::NAN).order_key(), 0xffff_ffff);
}

#[test]
fn candidates_come_by_distance_and_id() {
    assert!(c(1, 2.0).comes_after(c(9, 1.0)));
    assert!(c(2, 1.0).comes_after(c(1, 1.0)));
    assert!(!c(1, 1.0).comes_after(c(1, 1.0)));
    assert!(c(1, f32::NAN).comes_after(c(9, f32::INFINITY)));
}

#[test]
fn heap_of_candidates_has_farthest_on_top() {
    let mut heap = RankHeap::new();
    assert!(heap.peek().is_none());
    assert!(heap.pop().is_none());
    for (id, x) in [(1, 3.0), (2, 1.0), (3, 2.0), (4, 2.0), (5, 0.5)] {
        heap.push(c(id, x));
    }
    assert_eq!(heap.len(), 5);
    assert_eq!(heap.peek().unwrap().id, 1);
    assert_eq!(heap.pop().unwrap().id, 1);
    assert_eq!(heap.pop().unwrap().id, 4);
    let rest: Vec<u32> = heap.into_sorted().iter().map(|x| x.id).collect();
    assert_eq!(rest, vec![5, 2, 3]);
}

#[test]
fn heap_of_nearest_has_nearest_on_top() {
    let mut heap = RankHeap::new();
    for i in 0..40u32 {
        let x = ((i * 17) % 40) as f32;
        heap.push(Nearest { candidate: c(i, x) });
    }
    let mut last = -1.0;
    for n in (1..=40).rev() {
        assert_eq!(heap.len(), n);
        let top = heap.pop().unwrap().candidate;
        let x = f32::from_bits(top.distance.bits);
        assert!(x > last);
        last = x;
    }
    assert_eq!(last, 39.0);
}

#[test]
fn bits_are_set_once() {
    let mut bits = vec![0u64; 2];
    assert!(!bitvec_test_and_set(&mut bits, 0));
    assert!(bitvec_test_and_set(&mut bits, 0));
    assert!(!bitvec_test_and_set(&mut bits, 63));
    assert!(!bitvec_test_and_set(&mut bits, 64));
    assert!(!bitvec_test_and_set(&mut bits, 127));
    assert_eq!(bits, vec![0x8000_0000_0000_0001, 0x8000_0000_0000_0001]);
}

#[test]
fn marks_find_new_ids() {
    let mut bits = vec![0u64; 3];
    let ids = [5u32, 70, 5, 191, 192, 0, 70, 192, 64];
    let new: Vec<u32> =
        ids.iter().copied().filter(|id| !bitvec_test_and_set(&mut bits, *id)).collect();
    assert_eq!(new, vec![5, 70, 191, 0, 64]);
    assert_eq!(bits, vec![0x21, 0x41, 0x8000_0000_0000_0000]);
}

#[test]
fn ids_without_a_bit_count_as_visited() {
    let mut bits = vec![0u64; 1];
    assert!(bitvec_test_and_set(&mut bits, 64));
    assert!(bitvec_test_and_set(&mut bits, u32::MAX));
    assert_eq!(bits, vec![0]);
}
