use diskann_garnet::plan::{
    approximate_count, asks_for_native_queue, plan_filtered_search, FilteredPlan, KnnError,
    KnnParams,
};

#[test]
fn parameters_are_read_back() {
    assert_eq!(
        KnnParams::new(10, 200, None),
        Ok(KnnParams { k_value: 10, l_value: 200, beam_width: 1 })
    );
    assert_eq!(
        KnnParams::new(3, 3, Some(8)),
        Ok(KnnParams { k_value: 3, l_value: 3, beam_width: 8 })
    );
}

#[test]
fn wrong_parameters_are_refused() {
    assert_eq!(KnnParams::new(0, 0, Some(0)), Err(KnnError::KZero));
    assert_eq!(KnnParams::new(5, 0, Some(0)), Err(KnnError::LZero));
    assert_eq!(
        KnnParams::new(5, 4, Some(0)),
        Err(KnnError::LLessThanK { l_value: 4, k_value: 5 })
    );
    assert_eq!(KnnParams::new(5, 5, Some(0)), Err(KnnError::BeamWidthZero));
}

#[test]
fn effort_becomes_the_list_length() {
    let params = KnnParams::new(10, 200, Some(4)).unwrap();
    assert_eq!(
        params.scaled(5000),
        Ok(KnnParams { k_value: 10, l_value: 5000, beam_width: 4 })
    );
    assert_eq!(params.scaled(0), Ok(params));
    assert_eq!(
        params.scaled(9),
        Err(KnnError::LLessThanK { l_value: 9, k_value: 10 })
    );
}

#[test]
fn beam_is_capped() {
    let wide = KnnParams { k_value: 1, l_value: 10_000, beam_width: 1 };
    let narrow = KnnParams { k_value: 1, l_value: 1999, beam_width: 1 };
    assert_eq!(wide.decoupled_beam(), 2000);
    assert_eq!(narrow.decoupled_beam(), 1999);
}

#[test]
fn native_queue_must_be_asked_for() {
    assert!(asks_for_native_queue(&Some("1".to_string())));
    assert!(!asks_for_native_queue(&Some("0".to_string())));
    assert!(!asks_for_native_queue(&Some("11".to_string())));
    assert!(!asks_for_native_queue(&Some(String::new())));
    assert!(!asks_for_native_queue(&Some("\u{661}".to_string())));
    assert!(!asks_for_native_queue(&None));
}

#[test]
fn plan_follows_the_effort() {
    assert_eq!(
        plan_filtered_search(200, 0, true),
        FilteredPlan::Paged { l_value: 200, batch_size: 10 }
    );
    assert_eq!(
        plan_filtered_search(200, 1000, false),
        FilteredPlan::Heap { ef: 200, batch_size: 10, max_candidates: 1000 }
    );
    assert_eq!(
        plan_filtered_search(200, 100, false),
        FilteredPlan::Heap { ef: 200, batch_size: 10, max_candidates: 200 }
    );
    assert_eq!(
        plan_filtered_search(200, 1, true),
        FilteredPlan::Native { ef: 200, batch_size: 10, max_candidates: 200 }
    );
}

#[test]
fn count_is_the_largest_id() {
    assert_eq!(approximate_count(0), 0);
    assert_eq!(approximate_count(u32::MAX), 4_294_967_295);
}
