use diskann_garnet::labels::{
    AtomicCacheLabelProvider, BitmapLabelProvider, CachedCallbackLabelProvider,
};

/// The calls that were made.
type Calls = Vec<(u64, u32)>;

fn callback(answer: impl Fn(u32) -> bool) -> impl Fn(Calls, u64, u32) -> (Calls, u8) {
    move |mut calls: Calls, context: u64, id: u32| {
        calls.push((context, id));
        (calls, answer(id) as u8 * 9)
    }
}

/// Says yes, no, yes, no, whatever it is asked about.
fn fickle(calls: u32, _: u64, _: u32) -> (u32, u8) {
    (calls + 1, (calls % 2 == 0) as u8)
}

#[test]
fn atomic_cache_asks_once() {
    let mut provider = AtomicCacheLabelProvider::new(callback(|id| id % 2 == 0), 7, 10);
    assert_eq!(provider.cache_size(), 11);
    let mut calls = vec![];
    for id in [4, 5, 4, 5, 10, 10] {
        let (after, r) = provider.is_match_fast(calls, id);
        assert_eq!(r, id % 2 == 0);
        calls = after;
    }
    let (calls, r) = provider.is_match(calls, 4);
    assert!(r);
    assert_eq!(calls, vec![(7, 4), (7, 5), (7, 10)]);
}

#[test]
fn atomic_cache_asks_each_time_out_of_range() {
    let mut provider = AtomicCacheLabelProvider::new(fickle, 0, 3);
    assert_eq!(provider.is_match_fast(0, 4), (1, true));
    assert_eq!(provider.is_match_fast(1, 4), (2, false));
    assert_eq!(provider.is_match(2, 4), (3, true));
}

#[test]
fn atomic_cache_keeps_the_first_answer() {
    let mut provider = AtomicCacheLabelProvider::new(fickle, 0, 3);
    assert_eq!(provider.is_match_fast(0, 3), (1, true));
    assert_eq!(provider.is_match_fast(1, 0), (2, false));
    assert_eq!(provider.is_match_fast(2, 3), (2, true));
    assert_eq!(provider.is_match_fast(2, 0), (2, false));
}

#[test]
fn cached_callback_asks_once() {
    let mut provider = CachedCallbackLabelProvider::new(callback(|id| id > 100), 3);
    assert_eq!(provider.lookup(200), None);
    let (calls, r) = provider.is_match_cached(vec![], 200);
    assert!(r);
    let (calls, r) = provider.is_match(calls, 0);
    assert!(!r);
    let (calls, r) = provider.is_match(calls, 200);
    assert!(r);
    assert_eq!(provider.lookup(200), Some(true));
    assert_eq!(provider.lookup(0), Some(false));
    assert_eq!(provider.lookup(1), None);
    assert_eq!(calls, vec![(3, 200), (3, 0)]);
}

#[test]
fn cached_callback_keeps_the_first_answer() {
    let mut provider = CachedCallbackLabelProvider::new(fickle, 0);
    assert_eq!(provider.is_match_cached(0, 8), (1, true));
    assert_eq!(provider.is_match_cached(1, 8), (1, true));
    assert_eq!(provider.is_match_cached(1, 9), (2, false));
    assert_eq!(provider.is_match_cached(2, 9), (2, false));
}

#[test]
fn bitmap_is_built_below_the_largest_id() {
    let (calls, bitmap) =
        BitmapLabelProvider::build(vec![], &callback(|id| id % 3 == 0), 5, 9);
    assert_eq!(bitmap.size(), 10);
    assert_eq!(bitmap.match_count(), 3);
    assert_eq!(calls, (0..9).map(|id| (5, id)).collect::<Calls>());
    assert!(bitmap.is_match_fast(0));
    assert!(bitmap.is_match(6));
    assert!(!bitmap.is_match_fast(7));
    assert!(!bitmap.is_match_fast(9));
    assert!(!bitmap.is_match_fast(10));
    assert!(!bitmap.is_match_fast(u32::MAX));
}

#[test]
fn bitmap_of_nothing() {
    let (calls, bitmap) = BitmapLabelProvider::build(vec![], &callback(|_| true), 0, 0);
    assert!(calls.is_empty());
    assert_eq!(bitmap.size(), 1);
    assert_eq!(bitmap.match_count(), 0);
    assert!(!bitmap.is_match_fast(0));
}
