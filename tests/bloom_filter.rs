use sketches::bloom_filter::BloomFilter;

// Dimensions that the rate-driven sizing gives for a 1% false-positive rate:
// m = ceil(-n ln p / ln^2 2), k = round(m / n ln 2).
fn filter_for(expected_items: usize) -> BloomFilter {
    let (bits, hashes) = match expected_items {
        100 => (959, 7),
        1_000 => (9_586, 7),
        2_000 => (19_171, 7),
        4_000 => (38_341, 7),
        5_000 => (47_926, 7),
        _ => panic!("no precomputed shape"),
    };
    BloomFilter::with_size(bits, hashes).unwrap()
}

#[test]
fn constructor_from_rate_creates_positive_shape() {
    let filter = filter_for(1_000);
    assert!(filter.bit_len() > 0);
    assert!(filter.num_hashes() > 0);
}

#[test]
fn constructors_validate_parameters() {
    assert!(BloomFilter::with_size(0, 2).is_err());
    assert!(BloomFilter::with_size(64, 0).is_err());
}

#[test]
fn helper_parameter_functions_validate_inputs() {
    assert!(BloomFilter::optimal_num_hashes(0, 100).is_err());
    assert!(BloomFilter::optimal_num_hashes(100, 0).is_err());
}

#[test]
fn optimal_num_hashes_rounds_m_over_n_ln2() {
    assert_eq!(BloomFilter::optimal_num_hashes(9_586, 1_000).unwrap(), 7);
    assert_eq!(BloomFilter::optimal_num_hashes(1, 1_000).unwrap(), 1);
    assert_eq!(BloomFilter::optimal_num_hashes(1_000, 1_000).unwrap(), 1);
    assert_eq!(BloomFilter::optimal_num_hashes(3_000, 1_000).unwrap(), 2);
}

#[test]
fn inserted_elements_are_always_reported_present() {
    let mut filter = filter_for(5_000);
    for value in 0_u64..5_000 {
        filter.insert(&value);
    }
    for value in 0_u64..5_000 {
        assert!(filter.contains(&value));
    }
}

#[test]
fn bloom_filter_empirical_false_positive_rate_is_reasonable() {
    let mut filter = filter_for(4_000);
    for value in 0_u64..4_000 {
        filter.insert(&value);
    }

    let mut false_positives = 0_u64;
    let test_queries = 4_000_u64;
    for value in 10_000_u64..10_000 + test_queries {
        if filter.contains(&value) {
            false_positives += 1;
        }
    }

    let observed_rate = false_positives as f64 / test_queries as f64;
    assert!(
        observed_rate <= 0.03,
        "observed false-positive rate too high: {observed_rate}"
    );
}

#[test]
fn clear_resets_filter_state() {
    let mut filter = filter_for(1_000);
    filter.insert(&"k1");
    filter.insert(&"k2");
    assert!(filter.contains(&"k1"));
    assert!(!filter.is_empty());

    filter.clear();

    assert_eq!(filter.inserted_items(), 0);
    assert!(!filter.contains(&"k1"));
    assert!(filter.is_empty());
}

#[test]
fn merge_combines_two_filters() {
    let mut left = filter_for(2_000);
    let mut right = filter_for(2_000);

    left.insert(&"left-only");
    right.insert(&"right-only");

    left.merge(&right).unwrap();
    assert!(left.contains(&"left-only"));
    assert!(left.contains(&"right-only"));
}

#[test]
fn merge_rejects_incompatible_filters() {
    let mut left = BloomFilter::with_size(256, 3).unwrap();
    let right = BloomFilter::with_size(512, 3).unwrap();
    assert!(left.merge(&right).is_err());
}

#[test]
fn merge_rejects_different_hash_counts() {
    let mut left = BloomFilter::with_size(256, 3).unwrap();
    let right = BloomFilter::with_size(256, 4).unwrap();
    assert!(left.merge(&right).is_err());
}

#[test]
fn insert_counter_tracks_operations() {
    let mut filter = filter_for(100);
    filter.insert(&"same");
    filter.insert(&"same");
    assert_eq!(filter.inserted_items(), 2);
}

#[test]
fn empty_filter_reports_nothing_and_tiny_filter_still_finds_items() {
    let mut filter = BloomFilter::with_size(1, 1).unwrap();
    assert!(!filter.contains(&"absent"));
    filter.insert(&"present");
    assert!(filter.contains(&"present"));
    assert!(filter.contains(&"anything"));
}
